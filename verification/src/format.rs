use vstd::prelude::*;
use crate::calendar::{Date, date_to_string};
use crate::cli::SortMode;
use crate::entry::{render_dated_line, render_entry_line, render_entry_line_with_date, render_line};
use crate::logbook::{
    Entry, EntryView, details_text, entry_views, lf, lemma_details_text_push, title_of,
    work_log_heading,
};
use crate::order::{
    compare_dates, compare_text, date_order, is_stable_sort, lemma_date_order, lemma_text_order,
    sort_entries, text_order,
};
use crate::text::{chars_of, join, join_strings, trim_end, trim_end_string, views};

verus! {

/// The dates and times of the entries are valid.
pub open spec fn entries_wf(es: Seq<EntryView>) -> bool {
    forall|i: int| 0 <= i < es.len() ==> (#[trigger] es[i]).date.wf() && es[i].timestamp.wf()
}

pub open spec fn no_entries_text() -> Seq<char> {
    "No entries found."@
}

/// Two line feeds, between blocks.
pub open spec fn blank_line() -> Seq<char> {
    seq!['\n', '\n']
}

/// The continuation lines of an entry, where all lines are shown.
pub open spec fn detail_block(e: EntryView, include_all: bool) -> Seq<char> {
    if include_all {
        details_text(e.details)
    } else {
        seq![]
    }
}

/// An entry as a day lists it.
pub open spec fn day_entry_text(e: EntryView, include_all: bool) -> Seq<char> {
    render_line(e.timestamp, e.project, e.kind, e.summary) + lf() + detail_block(e, include_all)
}

/// The entries of date `d`, in order, as a day lists them.
pub open spec fn entries_of_day(es: Seq<EntryView>, d: Date, include_all: bool) -> Seq<char>
    decreases es.len(),
{
    if es.len() == 0 {
        seq![]
    } else {
        entries_of_day(es.drop_last(), d, include_all) + if es.last().date == d {
            day_entry_text(es.last(), include_all)
        } else {
            seq![]
        }
    }
}

/// The block of a day: its title, the work-log heading and its entries,
/// without trailing white space.
pub open spec fn day_block(es: Seq<EntryView>, d: Date, include_all: bool) -> Seq<char> {
    trim_end(title_of(d) + lf() + lf() + work_log_heading() + lf() + lf() + entries_of_day(es, d, include_all))
}

/// `ds` lists the dates of the entries, each once, in order.
pub open spec fn lists_dates(ds: Seq<Date>, es: Seq<EntryView>) -> bool {
    &&& forall|a: int, b: int| 0 <= a < b < ds.len() ==> date_order(#[trigger] ds[a], #[trigger] ds[b]) < 0
    &&& forall|d: Date| ds.contains(d) <==> exists|i: int| 0 <= i < es.len() && (#[trigger] es[i]).date == d
}

/// The entries grouped by day, the days in order, the entries of a day in
/// their order.
pub open spec fn by_day_text(es: Seq<EntryView>, ds: Seq<Date>, include_all: bool) -> Seq<char> {
    join(ds.map_values(|d: Date| day_block(es, d, include_all)), blank_line())
}

/// Appends an entry as a day lists it.
fn write_day_entry(out: &mut String, e: &Entry, include_all: bool)
    requires
        e.timestamp.wf(),
    ensures
        final(out)@ == old(out)@ + day_entry_text(e@, include_all),
{
    let project: Option<&str> = match &e.project {
        Some(p) => Some(p.as_str()),
        None => None,
    };
    let line = render_entry_line(&e.timestamp, project, e.kind.as_str(), e.summary.as_str());
    assert(line@ == render_line(e.timestamp, e@.project, e.kind@, e.summary@));
    out.append(line.as_str());
    out.append("\n");
    proof {
        reveal_strlit("\n");
    }
    assert("\n"@ =~= lf());
    if include_all {
        write_details(out, &e.details);
    }
}

/// Appends continuation lines, each indented by two spaces.
fn write_details(out: &mut String, details: &Vec<String>)
    ensures
        final(out)@ == old(out)@ + details_text(views(details@)),
{
    let ghost start = out@;
    let mut i: usize = 0;
    assert(views(details@).take(0) =~= Seq::<Seq<char>>::empty());
    while i < details.len()
        invariant
            i <= details@.len(),
            out@ == start + details_text(views(details@).take(i as int)),
        decreases details.len() - i,
    {
        proof {
            lemma_details_text_push(views(details@).take(i as int), details@[i as int]@);
            assert(views(details@).take(i + 1) =~= views(details@).take(i as int).push(
                details@[i as int]@,
            ));
            reveal_strlit("  ");
            reveal_strlit("\n");
        }
        out.append("  ");
        out.append(details[i].as_str());
        out.append("\n");
        assert("  "@ =~= seq![' ', ' ']);
        assert("\n"@ =~= lf());
        i = i + 1;
    }
    assert(views(details@).take(details@.len() as int) =~= views(details@));
}

/// The distinct dates of the entries, in order.
fn sorted_dates(entries: &Vec<Entry>) -> (ds: Vec<Date>)
    ensures
        lists_dates(ds@, entry_views(entries@)),
{
    let ghost es = entry_views(entries@);
    let mut ds: Vec<Date> = Vec::new();
    let mut i: usize = 0;
    while i < entries.len()
        invariant
            i <= entries@.len(),
            es == entry_views(entries@),
            forall|a: int, b: int| 0 <= a < b < ds@.len() ==> date_order(#[trigger] ds@[a], #[trigger] ds@[b]) < 0,
            forall|d: Date| ds@.contains(d) <==> exists|j: int| 0 <= j < i && (#[trigger] es[j]).date == d,
        decreases entries.len() - i,
    {
        let d = entries[i].date;
        assert(es[i as int].date == d);
        let mut p: usize = 0;
        while p < ds.len() && compare_dates(&d, &ds[p]) > 0
            invariant
                p <= ds@.len(),
                forall|q: int| 0 <= q < p ==> date_order(d, #[trigger] ds@[q]) > 0,
            decreases ds.len() - p,
        {
            p = p + 1;
        }
        let ghost old_ds = ds@;
        if p < ds.len() && compare_dates(&d, &ds[p]) == 0 {
            proof {
                lemma_date_order(d, ds@[p as int], d);
                assert(ds@[p as int] == d);
                assert forall|x: Date| ds@.contains(x) <==> exists|j: int| 0 <= j < i + 1 && (#[trigger] es[j]).date == x by {
                    if x == d {
                        assert(ds@[p as int] == x);
                    }
                    if exists|j: int| 0 <= j < i + 1 && (#[trigger] es[j]).date == x {
                        let j = choose|j: int| 0 <= j < i + 1 && (#[trigger] es[j]).date == x;
                        if j < i {
                        } else {
                            assert(ds@[p as int] == x);
                        }
                    }
                }
            }
        } else {
            ds.insert(p, d);
            proof {
                assert forall|a: int, b: int| 0 <= a < b < ds@.len() implies date_order(#[trigger] ds@[a], #[trigger] ds@[b]) < 0 by {
                    if b < p {
                        assert(ds@[a] == old_ds[a] && ds@[b] == old_ds[b]);
                    } else if b == p {
                        assert(ds@[a] == old_ds[a]);
                        lemma_date_order(d, old_ds[a], d);
                    } else if a == p {
                        assert(ds@[b] == old_ds[b - 1]);
                        if p < old_ds.len() {
                            lemma_date_order(d, old_ds[p as int], d);
                            if b - 1 > p {
                                lemma_date_order(d, old_ds[p as int], old_ds[b - 1]);
                            }
                        }
                    } else if a < p {
                        assert(ds@[a] == old_ds[a] && ds@[b] == old_ds[b - 1]);
                    } else {
                        assert(ds@[a] == old_ds[a - 1] && ds@[b] == old_ds[b - 1]);
                    }
                }
                assert forall|x: Date| ds@.contains(x) <==> exists|j: int| 0 <= j < i + 1 && (#[trigger] es[j]).date == x by {
                    if ds@.contains(x) {
                        let k = choose|k: int| 0 <= k < ds@.len() && ds@[k] == x;
                        if k < p {
                            assert(old_ds[k] == x);
                            assert(old_ds.contains(x));
                        } else if k > p {
                            assert(old_ds[k - 1] == x);
                            assert(old_ds.contains(x));
                        } else {
                            assert(es[i as int].date == x);
                        }
                    }
                    if exists|j: int| 0 <= j < i + 1 && (#[trigger] es[j]).date == x {
                        let j = choose|j: int| 0 <= j < i + 1 && (#[trigger] es[j]).date == x;
                        if j < i {
                            assert(old_ds.contains(x));
                            let k = choose|k: int| 0 <= k < old_ds.len() && old_ds[k] == x;
                            if k < p {
                                assert(ds@[k] == x);
                            } else {
                                assert(ds@[k + 1] == x);
                            }
                        } else {
                            assert(ds@[p as int] == x);
                        }
                    }
                }
            }
        }
        i = i + 1;
    }
    ds
}

/// The block of a day.
fn day_block_exec(entries: &Vec<Entry>, d: &Date, include_all: bool) -> (r: String)
    requires
        entries_wf(entry_views(entries@)),
        d.wf(),
    ensures
        r@ == day_block(entry_views(entries@), *d, include_all),
{
    let ghost es = entry_views(entries@);
    proof {
        reveal_strlit("# ");
        reveal_strlit("\n\n");
    }
    let mut out = String::from_str("# ");
    out.append(date_to_string(d).as_str());
    out.append("\n\n");
    out.append("## Work Log");
    out.append("\n\n");
    let ghost header = out@;
    assert(header =~= title_of(*d) + lf() + lf() + work_log_heading() + lf() + lf());
    let mut j: usize = 0;
    assert(es.take(0) =~= Seq::<EntryView>::empty());
    while j < entries.len()
        invariant
            j <= entries@.len(),
            es == entry_views(entries@),
            entries_wf(es),
            out@ == header + entries_of_day(es.take(j as int), *d, include_all),
        decreases entries.len() - j,
    {
        assert(es.take(j + 1).drop_last() =~= es.take(j as int));
        assert(es.take(j + 1).last() == entries@[j as int]@);
        assert(es[j as int].timestamp.wf());
        if entries[j].date == *d {
            write_day_entry(&mut out, &entries[j], include_all);
        }
        j = j + 1;
    }
    assert(es.take(entries@.len() as int) =~= es);
    trim_end_string(out.as_str())
}

/// The entries grouped by day.
pub fn format_entries_by_day(entries: &Vec<Entry>, include_all: bool) -> (r: String)
    requires
        entries_wf(entry_views(entries@)),
    ensures
        exists|ds: Seq<Date>| lists_dates(ds, entry_views(entries@)) && r@ == by_day_text(
            entry_views(entries@),
            ds,
            include_all,
        ),
{
    let ghost es = entry_views(entries@);
    let ds = sorted_dates(entries);
    let mut blocks: Vec<String> = Vec::new();
    let mut k: usize = 0;
    let ghost want = ds@.map_values(|d: Date| day_block(es, d, include_all));
    while k < ds.len()
        invariant
            k <= ds@.len(),
            es == entry_views(entries@),
            entries_wf(es),
            lists_dates(ds@, es),
            want == ds@.map_values(|d: Date| day_block(es, d, include_all)),
            views(blocks@) == want.take(k as int),
        decreases ds.len() - k,
    {
        proof {
            assert(ds@.contains(ds@[k as int]));
            let j = choose|j: int| 0 <= j < es.len() && (#[trigger] es[j]).date == ds@[k as int];
            assert(es[j].date.wf());
        }
        let b = day_block_exec(entries, &ds[k], include_all);
        let ghost before = blocks@;
        blocks.push(b);
        assert(views(blocks@) =~= views(before).push(b@));
        assert(views(blocks@) =~= want.take(k + 1));
        k = k + 1;
    }
    assert(want.take(ds@.len() as int) =~= want);
    proof {
        reveal_strlit("\n\n");
    }
    assert("\n\n"@ =~= blank_line());
    join_strings(&blocks, "\n\n")
}

/// The group of an entry when sorting by project: its project, else
/// `(no-project)`.
pub open spec fn project_label(e: EntryView) -> Seq<char> {
    match e.project {
        Some(p) => p,
        None => "(no-project)"@,
    }
}

/// An entry as a project lists it, with its date.
pub open spec fn project_entry_text(e: EntryView, include_all: bool) -> Seq<char> {
    render_dated_line(e.date, e.timestamp, e.project, e.kind, e.summary) + lf() + detail_block(
        e,
        include_all,
    )
}

/// The entries of group `l`, in order, as a project lists them.
pub open spec fn entries_of_label(es: Seq<EntryView>, l: Seq<char>, include_all: bool) -> Seq<
    char,
>
    decreases es.len(),
{
    if es.len() == 0 {
        seq![]
    } else {
        entries_of_label(es.drop_last(), l, include_all) + if project_label(es.last()) == l {
            project_entry_text(es.last(), include_all)
        } else {
            seq![]
        }
    }
}

/// The block of a group: `## group`, then its entries, without trailing
/// white space.
pub open spec fn label_block(es: Seq<EntryView>, l: Seq<char>, include_all: bool) -> Seq<char> {
    trim_end("## "@ + l + lf() + lf() + entries_of_label(es, l, include_all))
}

/// `ls` lists the groups of the entries, each once, in order.
pub open spec fn lists_labels(ls: Seq<Seq<char>>, es: Seq<EntryView>) -> bool {
    &&& forall|a: int, b: int| 0 <= a < b < ls.len() ==> text_order(#[trigger] ls[a], #[trigger] ls[b]) < 0
    &&& forall|l: Seq<char>| ls.contains(l) <==> exists|i: int| 0 <= i < es.len() && project_label(#[trigger] es[i]) == l
}

/// The entries grouped by project, the groups in order, the entries of a
/// group in the order of `es`.
pub open spec fn by_project_text(es: Seq<EntryView>, ls: Seq<Seq<char>>, include_all: bool) -> Seq<
    char,
> {
    join(ls.map_values(|l: Seq<char>| label_block(es, l, include_all)), blank_line())
}

fn label_of(e: &Entry) -> (r: String)
    ensures
        r@ == project_label(e@),
{
    match &e.project {
        Some(p) => p.clone(),
        None => String::from_str("(no-project)"),
    }
}

/// The distinct groups of the entries, in order.
fn sorted_labels(entries: &Vec<Entry>) -> (ls: Vec<String>)
    ensures
        lists_labels(views(ls@), entry_views(entries@)),
{
    let ghost es = entry_views(entries@);
    let mut ls: Vec<String> = Vec::new();
    let mut cs: Vec<Vec<char>> = Vec::new();
    let mut i: usize = 0;
    while i < entries.len()
        invariant
            i <= entries@.len(),
            es == entry_views(entries@),
            cs@.len() == ls@.len(),
            forall|q: int| 0 <= q < cs@.len() ==> (#[trigger] cs@[q])@ == ls@[q]@,
            forall|a: int, b: int| 0 <= a < b < ls@.len() ==> text_order(#[trigger] views(ls@)[a], #[trigger] views(ls@)[b]) < 0,
            forall|l: Seq<char>| views(ls@).contains(l) <==> exists|j: int| 0 <= j < i && project_label(#[trigger] es[j]) == l,
        decreases entries.len() - i,
    {
        let label = label_of(&entries[i]);
        let lc = chars_of(label.as_str());
        let ghost l = label@;
        assert(project_label(es[i as int]) == l);
        let mut p: usize = 0;
        while p < ls.len() && compare_text(&lc, &cs[p]) > 0
            invariant
                p <= ls@.len(),
                cs@.len() == ls@.len(),
                forall|q: int| 0 <= q < cs@.len() ==> (#[trigger] cs@[q])@ == ls@[q]@,
                lc@ == l,
                forall|q: int| 0 <= q < p ==> text_order(l, #[trigger] views(ls@)[q]) > 0,
            decreases ls.len() - p,
        {
            assert(views(ls@)[p as int] == cs@[p as int]@);
            p = p + 1;
        }
        let ghost old_ls = views(ls@);
        if p < ls.len() && compare_text(&lc, &cs[p]) == 0 {
            proof {
                lemma_text_order(l, old_ls[p as int], l);
                assert(old_ls[p as int] == l);
                assert forall|x: Seq<char>| views(ls@).contains(x) <==> exists|j: int| 0 <= j < i + 1 && project_label(#[trigger] es[j]) == x by {
                    if x == l {
                        assert(views(ls@)[p as int] == x);
                    }
                    if exists|j: int| 0 <= j < i + 1 && project_label(#[trigger] es[j]) == x {
                        let j = choose|j: int| 0 <= j < i + 1 && project_label(#[trigger] es[j]) == x;
                        if j == i {
                            assert(views(ls@)[p as int] == x);
                        }
                    }
                }
            }
        } else {
            proof {
                if p < ls@.len() {
                    assert(views(ls@)[p as int] == cs@[p as int]@);
                }
            }
            ls.insert(p, label);
            cs.insert(p, lc);
            proof {
                let nl = views(ls@);
                assert(nl =~= old_ls.insert(p as int, l));
                assert forall|q: int| 0 <= q < cs@.len() implies (#[trigger] cs@[q])@ == ls@[q]@ by {
                }
                assert forall|a: int, b: int| 0 <= a < b < nl.len() implies text_order(#[trigger] nl[a], #[trigger] nl[b]) < 0 by {
                    if b < p {
                        assert(nl[a] == old_ls[a] && nl[b] == old_ls[b]);
                    } else if b == p {
                        assert(nl[a] == old_ls[a]);
                        lemma_text_order(l, old_ls[a], l);
                    } else if a == p {
                        assert(nl[b] == old_ls[b - 1]);
                        if p < old_ls.len() {
                            lemma_text_order(l, old_ls[p as int], l);
                            if b - 1 > p {
                                lemma_text_order(l, old_ls[p as int], old_ls[b - 1]);
                            }
                        }
                    } else if a < p {
                        assert(nl[a] == old_ls[a] && nl[b] == old_ls[b - 1]);
                    } else {
                        assert(nl[a] == old_ls[a - 1] && nl[b] == old_ls[b - 1]);
                    }
                }
                assert forall|x: Seq<char>| nl.contains(x) <==> exists|j: int| 0 <= j < i + 1 && project_label(#[trigger] es[j]) == x by {
                    if nl.contains(x) {
                        let k = choose|k: int| 0 <= k < nl.len() && nl[k] == x;
                        if k < p {
                            assert(old_ls[k] == x);
                            assert(old_ls.contains(x));
                        } else if k > p {
                            assert(old_ls[k - 1] == x);
                            assert(old_ls.contains(x));
                        }
                    }
                    if exists|j: int| 0 <= j < i + 1 && project_label(#[trigger] es[j]) == x {
                        let j = choose|j: int| 0 <= j < i + 1 && project_label(#[trigger] es[j]) == x;
                        if j < i {
                            assert(old_ls.contains(x));
                            let k = choose|k: int| 0 <= k < old_ls.len() && old_ls[k] == x;
                            if k < p {
                                assert(nl[k] == x);
                            } else {
                                assert(nl[k + 1] == x);
                            }
                        } else {
                            assert(nl[p as int] == x);
                        }
                    }
                }
            }
        }
        i = i + 1;
    }
    ls
}

/// Appends an entry as a project lists it.
fn write_project_entry(out: &mut String, e: &Entry, include_all: bool)
    requires
        e.date.wf(),
        e.timestamp.wf(),
    ensures
        final(out)@ == old(out)@ + project_entry_text(e@, include_all),
{
    let project: Option<&str> = match &e.project {
        Some(p) => Some(p.as_str()),
        None => None,
    };
    let line = render_entry_line_with_date(
        &e.date,
        &e.timestamp,
        project,
        e.kind.as_str(),
        e.summary.as_str(),
    );
    out.append(line.as_str());
    out.append("\n");
    proof {
        reveal_strlit("\n");
    }
    assert("\n"@ =~= lf());
    if include_all {
        write_details(out, &e.details);
    }
}

/// The block of a group.
fn label_block_exec(entries: &Vec<Entry>, label: &String, include_all: bool) -> (r: String)
    requires
        entries_wf(entry_views(entries@)),
    ensures
        r@ == label_block(entry_views(entries@), label@, include_all),
{
    let ghost es = entry_views(entries@);
    proof {
        reveal_strlit("\n\n");
    }
    let mut out = String::from_str("## ");
    out.append(label.as_str());
    out.append("\n\n");
    let ghost header = out@;
    assert(header =~= "## "@ + label@ + lf() + lf());
    let mut j: usize = 0;
    assert(es.take(0) =~= Seq::<EntryView>::empty());
    while j < entries.len()
        invariant
            j <= entries@.len(),
            es == entry_views(entries@),
            entries_wf(es),
            out@ == header + entries_of_label(es.take(j as int), label@, include_all),
        decreases entries.len() - j,
    {
        assert(es.take(j + 1).drop_last() =~= es.take(j as int));
        assert(es.take(j + 1).last() == entries@[j as int]@);
        assert(es[j as int].timestamp.wf() && es[j as int].date.wf());
        let l = label_of(&entries[j]);
        if l == *label {
            write_project_entry(&mut out, &entries[j], include_all);
        }
        j = j + 1;
    }
    assert(es.take(entries@.len() as int) =~= es);
    trim_end_string(out.as_str())
}

/// The entries grouped by project: sorted by project, date and time, then
/// grouped in the order of the group names.
pub fn format_entries_by_project(entries: &Vec<Entry>, include_all: bool) -> (r: String)
    requires
        entries_wf(entry_views(entries@)),
    ensures
        exists|sorted: Seq<EntryView>, ls: Seq<Seq<char>>|
            is_stable_sort(entry_views(entries@), sorted, true) && lists_labels(ls, sorted) && r@
                == by_project_text(sorted, ls, include_all),
{
    let sorted = sort_entries(entries, true);
    let ghost es = entry_views(sorted@);
    proof {
        let perm = choose|perm: Seq<int>|
            crate::order::is_sort_permutation(entry_views(entries@), perm, true) && es == perm.map_values(
                |k: int| entry_views(entries@)[k],
            );
        assert forall|i: int| 0 <= i < es.len() implies (#[trigger] es[i]).date.wf() && es[i].timestamp.wf() by {
            assert(es[i] == entry_views(entries@)[perm[i]]);
        }
    }
    let ls = sorted_labels(&sorted);
    let mut blocks: Vec<String> = Vec::new();
    let mut k: usize = 0;
    let ghost want = views(ls@).map_values(|l: Seq<char>| label_block(es, l, include_all));
    while k < ls.len()
        invariant
            k <= ls@.len(),
            es == entry_views(sorted@),
            entries_wf(es),
            want == views(ls@).map_values(|l: Seq<char>| label_block(es, l, include_all)),
            views(blocks@) == want.take(k as int),
        decreases ls.len() - k,
    {
        let b = label_block_exec(&sorted, &ls[k], include_all);
        let ghost before = blocks@;
        blocks.push(b);
        assert(views(blocks@) =~= views(before).push(b@));
        assert(views(blocks@) =~= want.take(k + 1));
        k = k + 1;
    }
    assert(want.take(ls@.len() as int) =~= want);
    proof {
        reveal_strlit("\n\n");
    }
    assert("\n\n"@ =~= blank_line());
    join_strings(&blocks, "\n\n")
}

/// The lines of a search result: each entry with its date, then, where all
/// lines are shown, its continuation lines indented by two spaces.
pub open spec fn search_lines(es: Seq<EntryView>, include_all: bool) -> Seq<Seq<char>>
    decreases es.len(),
{
    if es.len() == 0 {
        seq![]
    } else {
        let e = es.last();
        search_lines(es.drop_last(), include_all) + seq![
            render_dated_line(e.date, e.timestamp, e.project, e.kind, e.summary),
        ] + if include_all {
            e.details.map_values(|d: Seq<char>| seq![' ', ' '] + d)
        } else {
            seq![]
        }
    }
}

/// The entries found by a search, one line each.
pub fn format_search_results(entries: &Vec<Entry>, include_all: bool) -> (r: String)
    requires
        entries_wf(entry_views(entries@)),
    ensures
        r@ == if entries@.len() == 0 {
            no_entries_text()
        } else {
            join(search_lines(entry_views(entries@), include_all), lf())
        },
{
    if entries.len() == 0 {
        return String::from_str("No entries found.");
    }
    let ghost es = entry_views(entries@);
    let mut lines: Vec<String> = Vec::new();
    let mut i: usize = 0;
    assert(es.take(0) =~= Seq::<EntryView>::empty());
    while i < entries.len()
        invariant
            i <= entries@.len(),
            es == entry_views(entries@),
            entries_wf(es),
            views(lines@) == search_lines(es.take(i as int), include_all),
        decreases entries.len() - i,
    {
        let e = &entries[i];
        assert(es.take(i + 1).drop_last() =~= es.take(i as int));
        assert(es.take(i + 1).last() == e@);
        assert(es[i as int].timestamp.wf() && es[i as int].date.wf());
        let project: Option<&str> = match &e.project {
            Some(p) => Some(p.as_str()),
            None => None,
        };
        let line = render_entry_line_with_date(
            &e.date,
            &e.timestamp,
            project,
            e.kind.as_str(),
            e.summary.as_str(),
        );
        let ghost before = views(lines@);
        lines.push(line);
        assert(views(lines@) =~= before.push(line@));
        if include_all {
            let ghost mid = views(lines@);
            let mut t: usize = 0;
            while t < e.details.len()
                invariant
                    t <= e.details@.len(),
                    views(lines@) == mid + e@.details.take(t as int).map_values(
                        |d: Seq<char>| seq![' ', ' '] + d,
                    ),
                decreases e.details.len() - t,
            {
                proof {
                    reveal_strlit("  ");
                }
                let mut d = String::from_str("  ");
                d.append(e.details[t].as_str());
                assert("  "@ =~= seq![' ', ' ']);
                assert(d@ == seq![' ', ' '] + e.details@[t as int]@);
                let ghost before_d = views(lines@);
                lines.push(d);
                assert(views(lines@) =~= before_d.push(d@));
                assert(e@.details[t as int] == e.details@[t as int]@);
                assert(e@.details.take(t + 1).map_values(|d: Seq<char>| seq![' ', ' '] + d)
                    =~= e@.details.take(t as int).map_values(|d: Seq<char>| seq![' ', ' '] + d).push(
                    seq![' ', ' '] + e@.details[t as int],
                ));
                t = t + 1;
            }
            assert(e@.details.take(e.details@.len() as int) =~= e@.details);
        } else {
        }
        assert(views(lines@) =~= search_lines(es.take(i + 1), include_all));
        i = i + 1;
    }
    assert(es.take(entries@.len() as int) =~= es);
    proof {
        reveal_strlit("\n");
    }
    assert("\n"@ =~= lf());
    join_strings(&lines, "\n")
}

/// The entries, grouped by day or, with `SortMode::Project`, by project.
pub fn format_entries(entries: &Vec<Entry>, sort: Option<SortMode>, include_all: bool) -> (r:
    String)
    requires
        entries_wf(entry_views(entries@)),
    ensures
        entries@.len() == 0 ==> r@ == no_entries_text(),
        entries@.len() > 0 && sort is None ==> exists|ds: Seq<Date>|
            lists_dates(ds, entry_views(entries@)) && r@ == by_day_text(
                entry_views(entries@),
                ds,
                include_all,
            ),
        entries@.len() > 0 && sort is Some ==> exists|sorted: Seq<EntryView>, ls: Seq<Seq<char>>|
            is_stable_sort(entry_views(entries@), sorted, true) && lists_labels(ls, sorted) && r@
                == by_project_text(sorted, ls, include_all),
{
    if entries.len() == 0 {
        return String::from_str("No entries found.");
    }
    match sort {
        Some(SortMode::Project) => format_entries_by_project(entries, include_all),
        None => format_entries_by_day(entries, include_all),
    }
}

} // verus!
