use vstd::prelude::*;
use crate::calendar::{Date, Time, current_minute, date_text, date_to_string};
use crate::entry::{LineParts, parse_entry_line, parse_line, render_entry_line, render_line};
use crate::config::{Config, kind_resolution, opt_str_view, opt_string_view, project_resolution};
use crate::emoji::{expand_emoji_shortcodes, expanded};
use crate::error::{ErrorView, WrkError};
use crate::text::{
    chars_of, join, join_strings_range, lines, replace_all, replace_all_string, split_lines,
    starts_with, string_from_range, trim, trim_end,
    trim_end_string, trim_string, views,
};

verus! {

/// An entry of the work log of a day.
#[derive(Debug, PartialEq, Eq)]
pub struct Entry {
    pub date: Date,
    pub timestamp: Time,
    pub project: Option<String>,
    pub kind: String,
    pub summary: String,
    pub details: Vec<String>,
}

pub struct EntryView {
    pub date: Date,
    pub timestamp: Time,
    pub project: Option<Seq<char>>,
    pub kind: Seq<char>,
    pub summary: Seq<char>,
    pub details: Seq<Seq<char>>,
}

impl View for Entry {
    type V = EntryView;

    open spec fn view(&self) -> EntryView {
        EntryView {
            date: self.date,
            timestamp: self.timestamp,
            project: opt_string_view(self.project),
            kind: self.kind@,
            summary: self.summary@,
            details: views(self.details@),
        }
    }
}

pub open spec fn opt_entry_view(o: Option<Entry>) -> Option<EntryView> {
    match o {
        Some(e) => Some(e@),
        None => None,
    }
}

pub open spec fn entry_views(es: Seq<Entry>) -> Seq<EntryView> {
    es.map_values(|e: Entry| e@)
}

/// The file of a day: its date, its work log and its free-form notes.
#[derive(Debug, PartialEq, Eq)]
pub struct DayDocument {
    pub date: Date,
    pub entries: Vec<Entry>,
    pub notes: String,
}

pub struct DocView {
    pub date: Date,
    pub entries: Seq<EntryView>,
    pub notes: Seq<char>,
}

impl View for DayDocument {
    type V = DocView;

    open spec fn view(&self) -> DocView {
        DocView { date: self.date, entries: entry_views(self.entries@), notes: self.notes@ }
    }
}

impl DayDocument {
    /// The date and the times of the entries are valid.
    pub open spec fn wf(&self) -> bool {
        &&& self.date.wf()
        &&& forall|i: int| 0 <= i < self.entries@.len() ==> (#[trigger] self.entries@[i]).timestamp.wf()
    }
}

pub open spec fn crlf() -> Seq<char> {
    seq!['\r', '\n']
}

pub open spec fn lf() -> Seq<char> {
    seq!['\n']
}

pub open spec fn work_log_heading() -> Seq<char> {
    "## Work Log"@
}

pub open spec fn notes_heading() -> Seq<char> {
    "## Notes"@
}

/// `# YYYY-MM-DD`.
pub open spec fn title_of(d: Date) -> Seq<char> {
    seq!['#', ' '] + date_text(d)
}

/// The first index at or after `i` of a line equal to `target`, or the
/// number of lines.
pub open spec fn first_index(ls: Seq<Seq<char>>, target: Seq<char>, i: int) -> int
    decreases ls.len() - i,
{
    if i >= ls.len() {
        ls.len() as int
    } else if ls[i] == target {
        i
    } else {
        first_index(ls, target, i + 1)
    }
}

pub open spec fn opt_seq<A>(o: Option<A>) -> Seq<A> {
    match o {
        Some(a) => seq![a],
        None => seq![],
    }
}

pub open spec fn entry_of(p: LineParts, date: Date) -> EntryView {
    EntryView {
        date,
        timestamp: p.timestamp,
        project: p.project,
        kind: p.kind,
        summary: p.summary,
        details: seq![],
    }
}

pub open spec fn with_detail(e: EntryView, d: Seq<char>) -> EntryView {
    EntryView { details: e.details.push(d), ..e }
}

/// How the lines of a work-log section read as entries, given the entries
/// read so far and the one still open: blank lines are skipped, an entry
/// line opens an entry, a line indented by two spaces continues the open
/// entry, and any other line is refused.
pub open spec fn section_parse(
    ls: Seq<Seq<char>>,
    date: Date,
    acc: Seq<EntryView>,
    cur: Option<EntryView>,
) -> Result<Seq<EntryView>, Seq<char>>
    decreases ls.len(),
{
    if ls.len() == 0 {
        Ok(acc + opt_seq(cur))
    } else {
        let l = ls[0];
        if l.len() == 0 {
            section_parse(ls.skip(1), date, acc, cur)
        } else {
            match parse_line(l) {
                Some(p) => section_parse(ls.skip(1), date, acc + opt_seq(cur), Some(entry_of(p, date))),
                None => match cur {
                    Some(e) => if starts_with(l, seq![' ', ' ']) {
                        section_parse(ls.skip(1), date, acc, Some(with_detail(e, l.skip(2))))
                    } else {
                        Err(l)
                    },
                    None => Err(l),
                },
            }
        }
    }
}

/// The notes: the lines after `## Notes`, joined by line feeds.
pub open spec fn notes_of(ls: Seq<Seq<char>>, ni: int) -> Seq<char> {
    if ni + 1 >= ls.len() {
        seq![]
    } else {
        join(ls.subrange(ni + 1, ls.len() as int), lf())
    }
}

/// How the text of a day file reads.
pub open spec fn parse_day(date: Date, raw: Seq<char>) -> Result<DocView, ErrorView> {
    let ls = lines(replace_all(raw, crlf(), lf()));
    if ls.len() == 0 {
        Err(ErrorView::EmptyFile)
    } else if ls[0] != title_of(date) {
        Err(ErrorView::BadTitle { expected: title_of(date) })
    } else {
        let wi = first_index(ls, work_log_heading(), 0);
        let ni = first_index(ls, notes_heading(), 0);
        if wi >= ls.len() {
            Err(ErrorView::MissingWorkLog)
        } else if ni >= ls.len() {
            Err(ErrorView::MissingNotes)
        } else if ni <= wi {
            Err(ErrorView::NotesBeforeWorkLog)
        } else {
            match section_parse(ls.subrange(wi + 1, ni), date, seq![], None) {
                Err(l) => Err(ErrorView::InvalidLine { line: l }),
                Ok(es) => Ok(DocView { date, entries: es, notes: notes_of(ls, ni) }),
            }
        }
    }
}

/// Continuation lines, each indented by two spaces.
pub open spec fn details_text(ds: Seq<Seq<char>>) -> Seq<char>
    decreases ds.len(),
{
    if ds.len() == 0 {
        seq![]
    } else {
        seq![' ', ' '] + ds[0] + lf() + details_text(ds.skip(1))
    }
}

/// An entry line and its continuation lines.
pub open spec fn entry_text(e: EntryView) -> Seq<char> {
    render_line(e.timestamp, e.project, e.kind, e.summary) + lf() + details_text(e.details)
}

pub open spec fn entries_text(es: Seq<EntryView>) -> Seq<char>
    decreases es.len(),
{
    if es.len() == 0 {
        seq![]
    } else {
        entry_text(es[0]) + entries_text(es.skip(1))
    }
}

/// The notes as they stand after the `## Notes` heading: a blank line
/// before notes that do not begin with one, then the notes as they are.
pub open spec fn notes_body(n: Seq<char>) -> Seq<char> {
    if n.len() > 0 && n[0] != '\n' {
        lf() + n
    } else {
        n
    }
}

/// The notes section after its heading: the notes with the blank line that
/// separates them from the heading, then a line feed.
pub open spec fn notes_text(n: Seq<char>) -> Seq<char> {
    notes_body(n) + lf()
}

/// The text of a day file.
pub open spec fn serialize_day(doc: DocView) -> Seq<char> {
    title_of(doc.date) + lf() + lf() + work_log_heading() + lf() + lf() + entries_text(doc.entries)
        + lf() + notes_heading() + lf() + notes_text(doc.notes)
}

pub proof fn lemma_details_text_push(ds: Seq<Seq<char>>, d: Seq<char>)
    ensures
        details_text(ds.push(d)) == details_text(ds) + seq![' ', ' '] + d + lf(),
    decreases ds.len(),
{
    if ds.len() == 0 {
        assert(ds.push(d).skip(1) =~= Seq::<Seq<char>>::empty());
        assert(details_text(Seq::<Seq<char>>::empty()) == Seq::<char>::empty());
        assert(details_text(ds) == Seq::<char>::empty());
        assert(details_text(ds.push(d)) =~= seq![' ', ' '] + d + lf());
    } else {
        lemma_details_text_push(ds.skip(1), d);
        assert(ds.push(d).skip(1) =~= ds.skip(1).push(d));
        assert(details_text(ds.push(d)) =~= details_text(ds) + seq![' ', ' '] + d + lf());
    }
}

pub proof fn lemma_entries_text_push(es: Seq<EntryView>, e: EntryView)
    ensures
        entries_text(es.push(e)) == entries_text(es) + entry_text(e),
    decreases es.len(),
{
    if es.len() == 0 {
        assert(es.push(e).skip(1) =~= Seq::<EntryView>::empty());
        assert(entries_text(Seq::<EntryView>::empty()) == Seq::<char>::empty());
        assert(entries_text(es) == Seq::<char>::empty());
        assert(entries_text(es.push(e)) =~= entry_text(e));
    } else {
        lemma_entries_text_push(es.skip(1), e);
        assert(es.push(e).skip(1) =~= es.skip(1).push(e));
        assert(entries_text(es.push(e)) =~= entries_text(es) + entry_text(e));
    }
}

/// Writes an entry and its continuation lines.
fn write_entry(out: &mut String, e: &Entry)
    requires
        e.timestamp.wf(),
    ensures
        final(out)@ == old(out)@ + entry_text(e@),
{
    let project: Option<&str> = match &e.project {
        Some(p) => Some(p.as_str()),
        None => None,
    };
    let line = render_entry_line(&e.timestamp, project, e.kind.as_str(), e.summary.as_str());
    assert(line@ == render_line(e.timestamp, e@.project, e.kind@, e.summary@));
    out.append(line.as_str());
    out.append("\n");
    proof {
        reveal_strlit("\n");
        reveal_strlit("  ");
    }
    let ghost start = out@;
    let mut i: usize = 0;
    assert(views(e.details@).take(0) =~= Seq::<Seq<char>>::empty());
    while i < e.details.len()
        invariant
            i <= e.details@.len(),
            out@ == start + details_text(views(e.details@).take(i as int)),
        decreases e.details.len() - i,
    {
        proof {
            lemma_details_text_push(views(e.details@).take(i as int), e.details@[i as int]@);
            assert(views(e.details@).take(i + 1) =~= views(e.details@).take(i as int).push(
                e.details@[i as int]@,
            ));
        }
        out.append("  ");
        out.append(e.details[i].as_str());
        out.append("\n");
        proof {
            reveal_strlit("  ");
            reveal_strlit("\n");
        }
        assert("  "@ =~= seq![' ', ' ']);
        assert("\n"@ =~= lf());
        i = i + 1;
    }
    assert(views(e.details@).take(e.details@.len() as int) =~= views(e.details@));
}

/// The text of a day file: title, work log and notes.
pub fn serialize_day_document(doc: &DayDocument) -> (r: String)
    requires
        doc.wf(),
    ensures
        r@ == serialize_day(doc@),
{
    proof {
        reveal_strlit("# ");
        reveal_strlit("\n\n");
        reveal_strlit("\n");
    }
    let mut out = literal_string("# ");
    out.append(date_to_string(&doc.date).as_str());
    out.append("\n\n");
    out.append("## Work Log");
    out.append("\n\n");
    let ghost start = out@;
    let mut i: usize = 0;
    assert(entry_views(doc.entries@).take(0) =~= Seq::<EntryView>::empty());
    while i < doc.entries.len()
        invariant
            i <= doc.entries@.len(),
            doc.wf(),
            out@ == start + entries_text(entry_views(doc.entries@).take(i as int)),
        decreases doc.entries.len() - i,
    {
        proof {
            lemma_entries_text_push(entry_views(doc.entries@).take(i as int), doc.entries@[i as int]@);
            assert(entry_views(doc.entries@).take(i + 1) =~= entry_views(doc.entries@).take(
                i as int,
            ).push(doc.entries@[i as int]@));
        }
        write_entry(&mut out, &doc.entries[i]);
        i = i + 1;
    }
    assert(entry_views(doc.entries@).take(doc.entries@.len() as int) =~= entry_views(doc.entries@));
    out.append("\n");
    out.append("## Notes");
    out.append("\n");
    let notes = chars_of(doc.notes.as_str());
    if notes.len() > 0 && notes[0] != '\n' {
        out.append("\n");
    }
    out.append(doc.notes.as_str());
    out.append("\n");
    assert(out@ =~= serialize_day(doc@));
    out
}

/// A new entry, before it gets a date and a time.
#[derive(Debug, PartialEq, Eq)]
pub struct NewEntry {
    pub project: Option<String>,
    pub kind: String,
    pub summary: String,
    pub details: Vec<String>,
}

pub struct NewEntryView {
    pub project: Option<Seq<char>>,
    pub kind: Seq<char>,
    pub summary: Seq<char>,
    pub details: Seq<Seq<char>>,
}

impl View for NewEntry {
    type V = NewEntryView;

    open spec fn view(&self) -> NewEntryView {
        NewEntryView {
            project: opt_string_view(self.project),
            kind: self.kind@,
            summary: self.summary@,
            details: views(self.details@),
        }
    }
}

/// The lines of a message, with `\r\n` read as `\n` and shortcodes
/// expanded.
pub open spec fn message_lines(raw: Seq<char>) -> Seq<Seq<char>> {
    lines(replace_all(raw, crlf(), lf())).map_values(|l: Seq<char>| expanded(l))
}

/// What a message gives as a new entry: the resolved project and type, the
/// first line trimmed as the summary (which must not be blank) and the other
/// lines, trimmed at their end, as continuation lines.
pub open spec fn new_entry_of(
    default_project: Option<Seq<char>>,
    default_type: Seq<char>,
    types: Seq<Seq<char>>,
    project: Option<Seq<char>>,
    kind: Option<Seq<char>>,
    raw: Seq<char>,
) -> Result<NewEntryView, ErrorView> {
    match project_resolution(default_project, project) {
        Err(e) => Err(e),
        Ok(p) => match kind_resolution(default_type, types, kind) {
            Err(e) => Err(e),
            Ok(k) => {
                let ls = message_lines(raw);
                if ls.len() == 0 || trim(ls[0]).len() == 0 {
                    Err(ErrorView::EmptyEntry)
                } else {
                    Ok(
                        NewEntryView {
                            project: p,
                            kind: k,
                            summary: trim(ls[0]),
                            details: ls.skip(1).map_values(|l: Seq<char>| trim_end(l)),
                        },
                    )
                }
            },
        },
    }
}

/// Builds a new entry from a message and the project and type given for it.
pub fn build_new_entry(config: &Config, project: Option<&str>, kind: Option<&str>, raw: &str) -> (r:
    Result<NewEntry, WrkError>)
    ensures
        match new_entry_of(
            opt_string_view(config.default_project),
            config.default_type@,
            views(config.types@),
            opt_str_view(project),
            opt_str_view(kind),
            raw@,
        ) {
            Ok(v) => r matches Ok(x) && x@ == v,
            Err(e) => r matches Err(x) && x@ == e,
        },
{
    let project = config.resolve_project(project)?;
    let kind = config.resolve_kind(kind)?;
    proof {
        reveal_strlit("\r\n");
        reveal_strlit("\n");
    }
    assert("\r\n"@ =~= crlf());
    assert("\n"@ =~= lf());
    let normalized = replace_all_string(raw, "\r\n", "\n");
    let raw_lines = split_lines(normalized.as_str());
    let ghost want = message_lines(raw@);
    let mut expanded_lines: Vec<String> = Vec::new();
    let mut i: usize = 0;
    while i < raw_lines.len()
        invariant
            i <= raw_lines@.len(),
            want.len() == raw_lines@.len(),
            forall|t: int| 0 <= t < raw_lines@.len() ==> #[trigger] want[t] == expanded(raw_lines@[t]@),
            views(expanded_lines@) == want.take(i as int),
        decreases raw_lines.len() - i,
    {
        let line = expand_emoji_shortcodes(raw_lines[i].as_str());
        let ghost before = expanded_lines@;
        expanded_lines.push(line);
        assert(want[i as int] == expanded(raw_lines@[i as int]@));
        assert(views(expanded_lines@) =~= views(before).push(line@));
        assert(views(expanded_lines@) =~= want.take(i + 1));
        i = i + 1;
    }
    assert(want.take(raw_lines@.len() as int) =~= want);
    if expanded_lines.len() == 0 {
        return Err(WrkError::EmptyEntry);
    }
    let summary = trim_string(expanded_lines[0].as_str());
    if summary.as_str().is_empty() {
        return Err(WrkError::EmptyEntry);
    }
    let mut details: Vec<String> = Vec::new();
    let mut k: usize = 1;
    let ghost rest = want.skip(1).map_values(|l: Seq<char>| trim_end(l));
    while k < expanded_lines.len()
        invariant
            1 <= k <= expanded_lines@.len(),
            views(expanded_lines@) == want,
            rest == want.skip(1).map_values(|l: Seq<char>| trim_end(l)),
            views(details@) == rest.take(k - 1),
        decreases expanded_lines.len() - k,
    {
        let d = trim_end_string(expanded_lines[k].as_str());
        let ghost before = details@;
        details.push(d);
        assert(expanded_lines@[k as int]@ == want[k as int]);
        assert(rest[k - 1] == trim_end(want.skip(1)[k - 1]));
        assert(views(details@) =~= views(before).push(d@));
        assert(views(details@) =~= rest.take(k as int));
        k = k + 1;
    }
    assert(rest.take(expanded_lines@.len() - 1) =~= rest);
    Ok(NewEntry { project, kind, summary, details })
}

impl DayDocument {
    /// The document of a day that has no file yet.
    pub fn empty(date: Date) -> (r: DayDocument)
        ensures
            r@ == (DocView { date, entries: seq![], notes: seq![] }),
    {
        let doc = DayDocument { date, entries: Vec::new(), notes: String::new() };
        assert(entry_views(doc.entries@) =~= Seq::<EntryView>::empty());
        doc
    }
}

/// The entry that a new entry becomes at a date and a time.
pub open spec fn dated_entry(n: NewEntryView, date: Date, timestamp: Time) -> EntryView {
    EntryView {
        date,
        timestamp,
        project: n.project,
        kind: n.kind,
        summary: n.summary,
        details: n.details,
    }
}

/// Adds a new entry, made at `timestamp`, after the others.
pub fn append_to_document(doc: &mut DayDocument, timestamp: Time, entry: NewEntry)
    ensures
        final(doc)@ == (DocView {
            entries: old(doc)@.entries.push(dated_entry(entry@, old(doc).date, timestamp)),
            ..old(doc)@
        }),
        old(doc).wf() && timestamp.wf() ==> final(doc).wf(),
{
    let ghost before = doc.entries@;
    let NewEntry { project, kind, summary, details } = entry;
    let e = Entry { date: doc.date, timestamp, project, kind, summary, details };
    doc.entries.push(e);
    assert(entry_views(doc.entries@) =~= entry_views(before).push(e@));
}

/// Adds a new entry after the others, stamped with the local time of day
/// to the minute, and gives back that time.
pub fn append_entry_now(doc: &mut DayDocument, entry: NewEntry) -> (r: Time)
    ensures
        r.wf(),
        final(doc)@ == (DocView {
            entries: old(doc)@.entries.push(dated_entry(entry@, old(doc).date, r)),
            ..old(doc)@
        }),
        old(doc).wf() ==> final(doc).wf(),
{
    let now = current_minute();
    append_to_document(doc, now, entry);
    now
}

/// Replaces the project, type, summary and continuation lines of the last
/// entry, which keeps its date and its time.
pub fn amend_last_in_document(doc: &mut DayDocument, entry: NewEntry) -> (r: Result<(), WrkError>)
    requires
        old(doc).date.wf(),
    ensures
        old(doc).entries@.len() == 0 ==> (r matches Err(x) && x@ == (ErrorView::NoEntries {
            date: date_text(old(doc).date),
        })) && final(doc)@ == old(doc)@,
        old(doc).entries@.len() > 0 ==> r is Ok && final(doc)@ == (DocView {
            entries: old(doc)@.entries.update(
                old(doc)@.entries.len() - 1,
                dated_entry(
                    entry@,
                    old(doc)@.entries.last().date,
                    old(doc)@.entries.last().timestamp,
                ),
            ),
            ..old(doc)@
        }),
        old(doc).wf() ==> final(doc).wf(),
{
    if doc.entries.len() == 0 {
        return Err(WrkError::NoEntries { date: date_to_string(&doc.date) });
    }
    let ghost before = doc.entries@;
    let last = doc.entries.pop().unwrap();
    let NewEntry { project, kind, summary, details } = entry;
    let e = Entry { date: last.date, timestamp: last.timestamp, project, kind, summary, details };
    doc.entries.push(e);
    assert(doc.entries@ =~= before.update(before.len() - 1, e));
    assert(entry_views(doc.entries@) =~= entry_views(before).update(before.len() - 1, e@));
    Ok(())
}

/// The number of file lines that the entries `es[..k]` take.
pub open spec fn lines_taken(es: Seq<EntryView>, k: int) -> int
    decreases k,
{
    if k <= 0 {
        0
    } else {
        lines_taken(es, k - 1) + 1 + es[k - 1].details.len()
    }
}

/// The line (counted from 1) of the last entry in the file of `doc`, or the
/// first line of the work log where there is none.
pub open spec fn last_entry_line(es: Seq<EntryView>) -> int {
    if es.len() == 0 {
        5
    } else {
        5 + lines_taken(es, es.len() - 1)
    }
}

/// The line of the file where the last entry stands.
pub fn last_entry_line_number(doc: &DayDocument) -> (r: usize)
    requires
        5 + lines_taken(doc@.entries, doc@.entries.len() as int) <= usize::MAX,
    ensures
        r == last_entry_line(doc@.entries),
{
    let ghost es = doc@.entries;
    let mut line: usize = 5;
    let mut last: usize = line;
    let mut i: usize = 0;
    while i < doc.entries.len()
        invariant
            es == doc@.entries,
            i <= es.len(),
            5 + lines_taken(es, es.len() as int) <= usize::MAX,
            line == 5 + lines_taken(es, i as int),
            i == 0 ==> last == 5,
            i > 0 ==> last == 5 + lines_taken(es, i - 1),
        decreases doc.entries.len() - i,
    {
        proof {
            lemma_lines_taken_grow(es, i + 1, es.len() as int);
            assert(es[i as int].details.len() == doc.entries@[i as int].details@.len());
        }
        last = line;
        line = line + 1 + doc.entries[i].details.len();
        i = i + 1;
    }
    last
}

pub proof fn lemma_lines_taken_grow(es: Seq<EntryView>, a: int, b: int)
    requires
        0 <= a <= b,
    ensures
        lines_taken(es, a) <= lines_taken(es, b),
    decreases b - a,
{
    if a < b {
        lemma_lines_taken_grow(es, a, b - 1);
    }
}

/// The index of the first line equal to `target`, or the number of lines.
fn position_of(ls: &Vec<String>, target: &String) -> (r: usize)
    ensures
        r == first_index(views(ls@), target@, 0),
        r <= ls@.len(),
{
    let mut i: usize = 0;
    while i < ls.len()
        invariant
            i <= ls@.len(),
            first_index(views(ls@), target@, 0) == first_index(views(ls@), target@, i as int),
        decreases ls.len() - i,
    {
        if ls[i] == *target {
            return i;
        }
        i = i + 1;
    }
    i
}

fn starts_with_two_spaces(cs: &Vec<char>) -> (r: bool)
    ensures
        r == starts_with(cs@, seq![' ', ' ']),
{
    let r = cs.len() >= 2 && cs[0] == ' ' && cs[1] == ' ';
    proof {
        if cs@.len() >= 2 {
            if r {
                assert(cs@.take(2) =~= seq![' ', ' ']);
            } else {
                assert(cs@.take(2)[0] != ' ' || cs@.take(2)[1] != ' ');
            }
        }
    }
    r
}

fn literal_string(s: &str) -> (r: String)
    ensures
        r@ == s@,
{
    String::from_str(s)
}

/// Reads the text of the day file of `expected_date`.
pub fn parse_day_document(expected_date: &Date, raw: &str) -> (r: Result<DayDocument, WrkError>)
    requires
        expected_date.wf(),
    ensures
        match parse_day(*expected_date, raw@) {
            Ok(v) => r matches Ok(d) && d@ == v && d.wf(),
            Err(e) => r matches Err(x) && x@ == e,
        },
{
    proof {
        reveal_strlit("\r\n");
        reveal_strlit("\n");
        reveal_strlit("# ");
    }
    assert("\r\n"@ =~= crlf());
    let normalized = replace_all_string(raw, "\r\n", "\n");
    assert("\n"@ =~= lf());
    let ls = split_lines(normalized.as_str());
    let ghost vls = views(ls@);
    assert(vls == lines(replace_all(raw@, crlf(), lf())));
    if ls.len() == 0 {
        return Err(WrkError::EmptyFile);
    }
    let mut title = literal_string("# ");
    title.append(date_to_string(expected_date).as_str());
    assert(title@ =~= title_of(*expected_date));
    if !(ls[0] == title) {
        assert(vls[0] != title_of(*expected_date));
        return Err(WrkError::BadTitle { expected: title });
    }
    let wl = literal_string("## Work Log");
    let nh = literal_string("## Notes");
    let wi = position_of(&ls, &wl);
    let ni = position_of(&ls, &nh);
    if wi >= ls.len() {
        return Err(WrkError::MissingWorkLog);
    }
    if ni >= ls.len() {
        return Err(WrkError::MissingNotes);
    }
    if ni <= wi {
        return Err(WrkError::NotesBeforeWorkLog);
    }
    let ghost section = vls.subrange(wi + 1, ni as int);
    let mut entries: Vec<Entry> = Vec::new();
    let mut current: Option<Entry> = None;
    let mut idx: usize = wi + 1;
    assert(vls.subrange(idx as int, ni as int) =~= section);
    assert(entry_views(entries@) =~= Seq::<EntryView>::empty());
    assert(parse_day(*expected_date, raw@) == match section_parse(section, *expected_date, seq![], None) {
        Err(l) => Err(ErrorView::InvalidLine { line: l }),
        Ok(es) => Ok(DocView { date: *expected_date, entries: es, notes: notes_of(vls, ni as int) }),
    });
    while idx < ni
        invariant
            parse_day(*expected_date, raw@) == match section_parse(section, *expected_date, seq![], None) {
                Err(l) => Err(ErrorView::InvalidLine { line: l }),
                Ok(es) => Ok(DocView { date: *expected_date, entries: es, notes: notes_of(vls, ni as int) }),
            },
            wi + 1 <= idx <= ni,
            ni <= ls@.len(),
            vls == views(ls@),
            expected_date.wf(),
            section == vls.subrange(wi + 1, ni as int),
            section_parse(section, *expected_date, seq![], None) == section_parse(
                vls.subrange(idx as int, ni as int),
                *expected_date,
                entry_views(entries@),
                opt_entry_view(current),
            ),
            forall|i: int| 0 <= i < entries@.len() ==> (#[trigger] entries@[i]).timestamp.wf(),
            current matches Some(e) ==> e.timestamp.wf(),
        decreases ni - idx,
    {
        let ghost rest = vls.subrange(idx as int, ni as int);
        let ghost cur_view = opt_entry_view(current);
        assert(rest[0] == ls@[idx as int]@);
        assert(rest.skip(1) =~= vls.subrange(idx + 1, ni as int));
        let line = &ls[idx];
        let cs = chars_of(line.as_str());
        if cs.len() == 0 {
            idx = idx + 1;
            continue;
        }
        match parse_entry_line(line.as_str()) {
            Some(p) => {
                let ghost pv = p@;
                let ghost before = entry_views(entries@);
                match current.take() {
                    Some(e) => {
                        entries.push(e);
                        assert(entry_views(entries@) =~= before + opt_seq(cur_view));
                    },
                    None => {
                        assert(entry_views(entries@) =~= before + opt_seq(cur_view));
                    },
                }
                let parsed = p;
                let e = Entry {
                    date: *expected_date,
                    timestamp: parsed.timestamp,
                    project: parsed.project,
                    kind: parsed.kind,
                    summary: parsed.summary,
                    details: Vec::new(),
                };
                assert(views(e.details@) =~= Seq::<Seq<char>>::empty());
                assert(e@ =~= entry_of(pv, *expected_date));
                current = Some(e);
            },
            None => {
                if current.is_some() && starts_with_two_spaces(&cs) {
                    let mut e = current.take().unwrap();
                    let ghost ev = e@;
                    let detail = string_from_range(&cs, 2, cs.len());
                    assert(detail@ =~= rest[0].skip(2));
                    let ghost before_details = e.details@;
                    e.details.push(detail);
                    assert(views(e.details@) =~= views(before_details).push(rest[0].skip(2)));
                    assert(e@ =~= with_detail(ev, rest[0].skip(2)));
                    current = Some(e);
                } else {
                    return Err(WrkError::InvalidLine { line: line.clone() });
                }
            },
        }
        idx = idx + 1;
    }
    let ghost final_cur = opt_entry_view(current);
    let ghost before = entry_views(entries@);
    match current {
        Some(e) => {
            entries.push(e);
        },
        None => {},
    }
    assert(entry_views(entries@) =~= before + opt_seq(final_cur));
    assert(vls.subrange(ni as int, ni as int) =~= Seq::<Seq<char>>::empty());
    let notes = if ni + 1 >= ls.len() {
        String::new()
    } else {
        join_strings_range(&ls, ni + 1, ls.len(), "\n")
    };
    let doc = DayDocument { date: *expected_date, entries, notes };
    Ok(doc)
}

} // verus!
