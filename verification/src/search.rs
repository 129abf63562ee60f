use vstd::prelude::*;
use crate::error::{ErrorView, WrkError};
use crate::logbook::{Entry, EntryView, entry_views};
use crate::order::{copy_entry, is_stable_sort, sort_entries};
use crate::text::views;

verus! {

#[verifier::external_type_specification]
#[verifier::external_body]
pub struct ExRegex(regex::Regex);

/// Whether the `regex` crate accepts a pattern (`Regex::new` succeeds).
pub uninterp spec fn regex_accepts(pattern: Seq<char>) -> bool;

/// What the `regex` crate says of a pattern that it refuses (the text of
/// its `regex::Error`).
pub uninterp spec fn regex_error_text(pattern: Seq<char>) -> Seq<char>;

/// Whether the regular expression of a pattern matches somewhere in a text
/// (`Regex::is_match`).
pub uninterp spec fn regex_finds(pattern: Seq<char>, text: Seq<char>) -> bool;

/// A compiled search pattern together with its source; only
/// `compile_pattern` makes one, so its expression is always compiled from
/// its source.
pub struct SearchPattern {
    source: String,
    re: regex::Regex,
}

impl SearchPattern {
    pub closed spec fn source(&self) -> Seq<char> {
        self.source@
    }
}

/// Compiles a pattern (`Regex::new`); the error is the crate's message.
#[verifier::external_body]
fn compile_pattern(pattern: &str) -> (r: Result<SearchPattern, String>)
    ensures
        r is Ok <==> regex_accepts(pattern@),
        r matches Ok(p) ==> p.source() == pattern@,
        r matches Err(e) ==> e@ == regex_error_text(pattern@),
{
    regex::Regex::new(pattern).map(|re| SearchPattern { source: pattern.to_owned(), re }).map_err(
        |e| e.to_string(),
    )
}

/// Whether the pattern matches somewhere in `text` (`Regex::is_match`).
#[verifier::external_body]
fn pattern_matches(p: &SearchPattern, text: &str) -> (r: bool)
    ensures
        r == regex_finds(p.source(), text@),
{
    p.re.is_match(text)
}

/// An entry matches where its summary or one of its continuation lines does.
pub open spec fn entry_matches(pattern: Seq<char>, e: EntryView) -> bool {
    regex_finds(pattern, e.summary) || exists|i: int|
        0 <= i < e.details.len() && regex_finds(pattern, #[trigger] e.details[i])
}

/// The entries that satisfy a test, in order.
pub open spec fn keep_matching(pattern: Seq<char>, es: Seq<EntryView>) -> Seq<EntryView>
    decreases es.len(),
{
    if es.len() == 0 {
        seq![]
    } else if entry_matches(pattern, es.last()) {
        keep_matching(pattern, es.drop_last()).push(es.last())
    } else {
        keep_matching(pattern, es.drop_last())
    }
}

/// The entries of a project, in order.
pub open spec fn keep_project(project: Seq<char>, es: Seq<EntryView>) -> Seq<EntryView>
    decreases es.len(),
{
    if es.len() == 0 {
        seq![]
    } else if es.last().project == Some(project) {
        keep_project(project, es.drop_last()).push(es.last())
    } else {
        keep_project(project, es.drop_last())
    }
}

fn entry_matches_exec(p: &SearchPattern, e: &Entry) -> (r: bool)
    ensures
        r == entry_matches(p.source(), e@),
{
    if pattern_matches(p, e.summary.as_str()) {
        return true;
    }
    let mut i: usize = 0;
    while i < e.details.len()
        invariant
            i <= e.details@.len(),
            forall|t: int| 0 <= t < i ==> !regex_finds(p.source(), #[trigger] views(e.details@)[t]),
        decreases e.details.len() - i,
    {
        if pattern_matches(p, e.details[i].as_str()) {
            assert(regex_finds(p.source(), e@.details[i as int]));
            return true;
        }
        i = i + 1;
    }
    false
}

/// The entries whose mark is set, in order.
pub open spec fn keep_marked(es: Seq<EntryView>, marks: Seq<bool>) -> Seq<EntryView>
    decreases es.len(),
{
    if es.len() == 0 {
        seq![]
    } else if marks.last() {
        keep_marked(es.drop_last(), marks.drop_last()).push(es.last())
    } else {
        keep_marked(es.drop_last(), marks.drop_last())
    }
}

proof fn lemma_keep_marked(pattern: Seq<char>, es: Seq<EntryView>, marks: Seq<bool>)
    requires
        marks.len() == es.len(),
        forall|i: int| 0 <= i < es.len() ==> #[trigger] marks[i] == entry_matches(pattern, es[i]),
    ensures
        keep_marked(es, marks) == keep_matching(pattern, es),
    decreases es.len(),
{
    if es.len() > 0 {
        assert(marks.last() == marks[es.len() - 1]);
        assert forall|i: int| 0 <= i < es.drop_last().len() implies #[trigger] marks.drop_last()[i]
            == entry_matches(pattern, es.drop_last()[i]) by {
            assert(marks.drop_last()[i] == marks[i]);
        }
        lemma_keep_marked(pattern, es.drop_last(), marks.drop_last());
    }
}

/// The marked entries, sorted: what a search keeps once each entry is
/// known to match or not.
pub fn select_entries(entries: &Vec<Entry>, marks: &Vec<bool>) -> (r: Vec<Entry>)
    requires
        marks@.len() == entries@.len(),
    ensures
        is_stable_sort(keep_marked(entry_views(entries@), marks@), entry_views(r@), false),
{
    let mut kept: Vec<Entry> = Vec::new();
    let mut i: usize = 0;
    while i < entries.len()
        invariant
            i <= entries@.len(),
            marks@.len() == entries@.len(),
            entry_views(kept@) == keep_marked(
                entry_views(entries@).take(i as int),
                marks@.take(i as int),
            ),
        decreases entries.len() - i,
    {
        let ghost all = entry_views(entries@);
        assert(all.take(i + 1).drop_last() =~= all.take(i as int));
        assert(marks@.take(i + 1).drop_last() =~= marks@.take(i as int));
        assert(all.take(i + 1).last() == entries@[i as int]@);
        assert(marks@.take(i + 1).last() == marks@[i as int]);
        if marks[i] {
            let e = copy_entry(&entries[i]);
            let ghost before = kept@;
            kept.push(e);
            assert(entry_views(kept@) =~= entry_views(before).push(e@));
        }
        i = i + 1;
    }
    assert(entry_views(entries@).take(entries@.len() as int) =~= entry_views(entries@));
    assert(marks@.take(marks@.len() as int) =~= marks@);
    sort_entries(&kept, false)
}

/// The entries whose summary or continuation lines match a regular
/// expression, sorted.
pub fn search_entries(entries: &Vec<Entry>, pattern: &str) -> (r: Result<Vec<Entry>, WrkError>)
    ensures
        !regex_accepts(pattern@) ==> (r matches Err(x) && x@ == (ErrorView::InvalidPattern {
            pattern: pattern@,
            reason: regex_error_text(pattern@),
        })),
        regex_accepts(pattern@) ==> (r matches Ok(v) && is_stable_sort(
            keep_matching(pattern@, entry_views(entries@)),
            entry_views(v@),
            false,
        )),
{
    let compiled = match compile_pattern(pattern) {
        Ok(p) => p,
        Err(reason) => {
            return Err(WrkError::InvalidPattern { pattern: String::from_str(pattern), reason });
        },
    };
    let ghost es = entry_views(entries@);
    let mut marks: Vec<bool> = Vec::new();
    let mut i: usize = 0;
    while i < entries.len()
        invariant
            i <= entries@.len(),
            es == entry_views(entries@),
            compiled.source() == pattern@,
            marks@.len() == i,
            forall|t: int| 0 <= t < i ==> #[trigger] marks@[t] == entry_matches(pattern@, es[t]),
        decreases entries.len() - i,
    {
        marks.push(entry_matches_exec(&compiled, &entries[i]));
        i = i + 1;
    }
    proof {
        lemma_keep_marked(pattern@, es, marks@);
    }
    Ok(select_entries(entries, &marks))
}

/// The entries of a project, sorted.
pub fn collect_project_entries(entries: &Vec<Entry>, project: &str) -> (r: Vec<Entry>)
    ensures
        is_stable_sort(keep_project(project@, entry_views(entries@)), entry_views(r@), false),
{
    let mut kept: Vec<Entry> = Vec::new();
    let mut i: usize = 0;
    let wanted = String::from_str(project);
    while i < entries.len()
        invariant
            i <= entries@.len(),
            wanted@ == project@,
            entry_views(kept@) == keep_project(project@, entry_views(entries@).take(i as int)),
        decreases entries.len() - i,
    {
        let ghost all = entry_views(entries@);
        assert(all.take(i + 1).drop_last() =~= all.take(i as int));
        assert(all.take(i + 1).last() == entries@[i as int]@);
        let same = match &entries[i].project {
            Some(p) => *p == wanted,
            None => false,
        };
        if same {
            let e = copy_entry(&entries[i]);
            let ghost before = kept@;
            kept.push(e);
            assert(entry_views(kept@) =~= entry_views(before).push(e@));
        }
        i = i + 1;
    }
    assert(entry_views(entries@).take(entries@.len() as int) =~= entry_views(entries@));
    sort_entries(&kept, false)
}

} // verus!
