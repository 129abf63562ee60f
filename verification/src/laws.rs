use vstd::prelude::*;
use crate::text::{find_char_from, lemma_find_char_from_is, lines_from, replace_all, strip_cr};
use crate::logbook::{
    DocView, EntryView, crlf, first_index, notes_body, notes_heading, notes_text, parse_day, serialize_day,
    title_of, work_log_heading, details_text, entries_text, entry_of, entry_text, lf, opt_seq, section_parse,
    with_detail,
};
use crate::entry::{
    LineParts, is_token, is_token_char, lemma_entry_line_round_trip, parse_line, render_line,
};
use crate::calendar::{
    Date, Time, date_text, decimal, padded_int, parsed_ymd, is_ascii_digit, lemma_time_text, time_text, year_text, zero_padded,
};
use crate::text::{
    contains_char, is_white_space, join, lemma_find_char_from, lines, starts_with, trim, trim_end,
    trim_start,
};
use crate::layout::{lint_section, lint_text};
use crate::error::ErrorView;
use crate::editor::{file_name_of, invocation_from_words};
use crate::emoji::{
    code_end, emoji_glyph, expanded, is_shortcode_char, lemma_code_end, next_shortcode, replaced_from,
    shortcode_at, shortcode_stop, shortcodes_from,
};
use crate::search::keep_project;
use crate::config::join_path;
use crate::lint::{date_of_path, names_from, path_parts, relative_parts, root_part};
use crate::layout::{log_path_text, md_suffix};
use crate::format::{
    by_day_text, by_project_text, day_block, day_entry_text, entries_of_day, entries_of_label,
    label_block, lists_dates, lists_labels, project_entry_text, project_label,
};
use crate::order::{
    date_order, time_order, is_sort_permutation, is_stable_sort, key_order, lemma_key_order, lemma_text_order,
    sorts_before,
    text_order,
};
use crate::logbook::{NewEntryView, dated_entry, lemma_entries_text_push, last_entry_line, lines_taken, message_lines, new_entry_of};

verus! {

/// A line that holds no line feed and does not end in a carriage return:
/// written with a line feed after it, it reads back as it is.
pub open spec fn plain_line(l: Seq<char>) -> bool {
    &&& forall|i: int| 0 <= i < l.len() ==> #[trigger] l[i] != '\n'
    &&& (l.len() > 0 ==> l[l.len() - 1] != '\r')
}

/// Lines, each followed by a line feed.
pub open spec fn lines_text(ls: Seq<Seq<char>>) -> Seq<char>
    decreases ls.len(),
{
    if ls.len() == 0 {
        seq![]
    } else {
        ls[0] + lf() + lines_text(ls.skip(1))
    }
}

pub proof fn lemma_lines_text_concat(a: Seq<Seq<char>>, b: Seq<Seq<char>>)
    ensures
        lines_text(a + b) == lines_text(a) + lines_text(b),
    decreases a.len(),
{
    if a.len() == 0 {
        assert(a + b =~= b);
        assert(lines_text(a) == Seq::<char>::empty());
        assert(lines_text(a + b) =~= lines_text(a) + lines_text(b));
    } else {
        lemma_lines_text_concat(a.skip(1), b);
        assert((a + b).skip(1) =~= a.skip(1) + b);
        assert((a + b)[0] == a[0]);
        assert(lines_text(a + b) =~= lines_text(a) + lines_text(b));
    }
}

/// A plain line followed by a line feed at `pos` comes out of `str::lines`
/// as it is.
pub proof fn lemma_line_at(s: Seq<char>, pos: int, l: Seq<char>)
    requires
        0 <= pos,
        pos + l.len() < s.len(),
        s.subrange(pos, pos + l.len()) == l,
        s[pos + l.len()] == '\n',
        plain_line(l),
    ensures
        lines_from(s, pos) == seq![l] + lines_from(s, pos + l.len() + 1),
{
    let k = pos + l.len();
    assert forall|j: int| pos <= j < k implies s[j] != '\n' by {
        assert(s[j] == l[j - pos]);
    }
    lemma_find_char_from_is(s, '\n', pos, k);
    assert(find_char_from(s, '\n', pos) == k);
    if l.len() > 0 {
        assert(l.last() != '\r');
    }
    assert(strip_cr(l) == l);
}

/// Plain lines written with line feeds come back out of `str::lines`.
pub proof fn lemma_lines_of_text(s: Seq<char>, pos: int, ls: Seq<Seq<char>>)
    requires
        0 <= pos,
        pos + lines_text(ls).len() <= s.len(),
        s.subrange(pos, pos + lines_text(ls).len()) == lines_text(ls),
        forall|i: int| 0 <= i < ls.len() ==> plain_line(#[trigger] ls[i]),
    ensures
        lines_from(s, pos) == ls + lines_from(s, pos + lines_text(ls).len()),
    decreases ls.len(),
{
    if ls.len() == 0 {
        assert(ls + lines_from(s, pos) =~= lines_from(s, pos));
    } else {
        let l = ls[0];
        let t = lines_text(ls);
        assert(t == l + lf() + lines_text(ls.skip(1)));
        let r = lines_text(ls.skip(1));
        assert(t.subrange(0, l.len() as int) =~= l);
        assert forall|j: int| 0 <= j < l.len() implies s.subrange(pos, pos + l.len())[j] == l[j] by {
            assert(s.subrange(pos, pos + l.len())[j] == s[pos + j]);
            assert(s[pos + j] == s.subrange(pos, pos + t.len())[j]);
            assert(t[j] == l[j]);
        }
        assert(s.subrange(pos, pos + l.len()) =~= l);
        assert(s[pos + l.len()] == s.subrange(pos, pos + t.len())[l.len() as int]);
        assert(s[pos + l.len()] == t[l.len() as int]);
        lemma_line_at(s, pos, l);
        let next = pos + l.len() + 1;
        assert forall|i: int| 0 <= i < ls.skip(1).len() implies plain_line(#[trigger] ls.skip(1)[i]) by {
            assert(ls.skip(1)[i] == ls[i + 1]);
        }
        assert forall|j: int| 0 <= j < r.len() implies s.subrange(next, next + r.len())[j] == r[j] by {
            assert(s.subrange(next, next + r.len())[j] == s[next + j]);
            assert(s[next + j] == s.subrange(pos, pos + t.len())[l.len() + 1 + j]);
            assert(t[l.len() + 1 + j] == r[j]);
        }
        assert(s.subrange(next, next + r.len()) =~= r);
        lemma_lines_of_text(s, next, ls.skip(1));
        assert(seq![l] + (ls.skip(1) + lines_from(s, next + lines_text(ls.skip(1)).len())) =~= ls
            + lines_from(s, pos + t.len()));
    }
}

/// A text in which no carriage return stands before a line feed or at the
/// end: replacing `\r\n` by `\n` leaves it as it is.
pub open spec fn crlf_free(s: Seq<char>) -> bool {
    forall|i: int| 0 <= i < s.len() && #[trigger] s[i] == '\r' ==> i + 1 < s.len() && s[i + 1] != '\n'
}

pub proof fn lemma_lines_text_crlf_free(ls: Seq<Seq<char>>)
    requires
        forall|i: int| 0 <= i < ls.len() ==> plain_line(#[trigger] ls[i]),
    ensures
        crlf_free(lines_text(ls)),
    decreases ls.len(),
{
    if ls.len() > 0 {
        assert forall|i: int| 0 <= i < ls.skip(1).len() implies plain_line(#[trigger] ls.skip(1)[i]) by {
            assert(ls.skip(1)[i] == ls[i + 1]);
        }
        lemma_lines_text_crlf_free(ls.skip(1));
        let l = ls[0];
        let r = lines_text(ls.skip(1));
        let t = lines_text(ls);
        assert(t == l + lf() + r);
        assert(plain_line(l));
        assert forall|i: int| 0 <= i < t.len() && #[trigger] t[i] == '\r' implies i + 1 < t.len() && t[i
            + 1] != '\n' by {
            if i < l.len() {
                assert(t[i] == l[i]);
                if i + 1 < l.len() {
                    assert(t[i + 1] == l[i + 1]);
                }
            } else if i > l.len() {
                assert(t[i] == r[i - l.len() - 1]);
                assert(t[i + 1] == r[i - l.len()]);
            }
        }
    }
}

/// Replacing `\r\n` leaves alone a prefix in which no carriage return
/// stands before a line feed or at the end.
pub proof fn lemma_replace_crlf_prefix(p: Seq<char>, x: Seq<char>)
    requires
        crlf_free(p),
    ensures
        replace_all(p + x, crlf(), lf()) == p + replace_all(x, crlf(), lf()),
    decreases p.len(),
{
    let s = p + x;
    if p.len() == 0 {
        assert(s =~= x);
        assert(p + replace_all(x, crlf(), lf()) =~= replace_all(x, crlf(), lf()));
    } else if s.len() < 2 {
        assert(x.len() == 0);
        assert(replace_all(x, crlf(), lf()) == x);
        assert(p + x =~= p);
    } else {
        assert(s[0] == p[0]);
        if p[0] == '\r' {
            assert(s[1] == p[1]);
            assert(s.take(2)[1] != '\n');
        } else {
            assert(s.take(2)[0] != '\r');
        }
        assert(s.take(2) != crlf());
        assert forall|i: int| 0 <= i < p.skip(1).len() && #[trigger] p.skip(1)[i] == '\r' implies i + 1
            < p.skip(1).len() && p.skip(1)[i + 1] != '\n' by {
            assert(p.skip(1)[i] == p[i + 1]);
            assert(p[i + 1] == '\r');
        }
        lemma_replace_crlf_prefix(p.skip(1), x);
        assert(s.skip(1) =~= p.skip(1) + x);
        assert(seq![s[0]] + (p.skip(1) + replace_all(x, crlf(), lf())) =~= p + replace_all(
            x,
            crlf(),
            lf(),
        ));
    }
}

/// An entry that its file keeps as it is: valid time, project and type, a
/// summary of one plain line that is not empty, plain continuation lines,
/// and the date of the file.
pub open spec fn entry_round_trips(e: EntryView, date: Date) -> bool {
    &&& e.date == date
    &&& e.timestamp.wf()
    &&& (e.project matches Some(p) ==> is_token(p))
    &&& is_token(e.kind)
    &&& e.summary.len() > 0
    &&& plain_line(e.summary)
    &&& forall|i: int| 0 <= i < e.details.len() ==> plain_line(#[trigger] e.details[i])
}

pub open spec fn detail_lines(ds: Seq<Seq<char>>) -> Seq<Seq<char>> {
    ds.map_values(|d: Seq<char>| seq![' ', ' '] + d)
}

pub open spec fn entry_lines_one(e: EntryView) -> Seq<Seq<char>> {
    seq![render_line(e.timestamp, e.project, e.kind, e.summary)] + detail_lines(e.details)
}

pub open spec fn entry_lines(es: Seq<EntryView>) -> Seq<Seq<char>>
    decreases es.len(),
{
    if es.len() == 0 {
        seq![]
    } else {
        entry_lines_one(es[0]) + entry_lines(es.skip(1))
    }
}

proof fn lemma_details_text(ds: Seq<Seq<char>>)
    ensures
        details_text(ds) == lines_text(detail_lines(ds)),
    decreases ds.len(),
{
    if ds.len() > 0 {
        lemma_details_text(ds.skip(1));
        assert(detail_lines(ds).skip(1) =~= detail_lines(ds.skip(1)));
        assert(details_text(ds) =~= lines_text(detail_lines(ds)));
    } else {
        assert(detail_lines(ds) =~= Seq::<Seq<char>>::empty());
    }
}

proof fn lemma_entries_text(es: Seq<EntryView>)
    ensures
        entries_text(es) == lines_text(entry_lines(es)),
    decreases es.len(),
{
    if es.len() > 0 {
        lemma_entries_text(es.skip(1));
        let e = es[0];
        lemma_details_text(e.details);
        lemma_lines_text_concat(
            seq![render_line(e.timestamp, e.project, e.kind, e.summary)],
            detail_lines(e.details),
        );
        assert(seq![render_line(e.timestamp, e.project, e.kind, e.summary)].skip(1)
            =~= Seq::<Seq<char>>::empty());
        assert(lines_text(Seq::<Seq<char>>::empty()) == Seq::<char>::empty());
        assert(lines_text(seq![render_line(e.timestamp, e.project, e.kind, e.summary)])
            =~= render_line(e.timestamp, e.project, e.kind, e.summary) + lf());
        assert(entry_text(e) =~= lines_text(entry_lines_one(e)));
        lemma_lines_text_concat(entry_lines_one(e), entry_lines(es.skip(1)));
    }
}

/// An entry whose lines are written plain: a valid time, no line feed in
/// its project, type or summary, a summary and continuation lines that do
/// not end in a carriage return.
pub open spec fn writes_plain(e: EntryView) -> bool {
    &&& e.timestamp.wf()
    &&& (e.project matches Some(p) ==> forall|i: int| 0 <= i < p.len() ==> #[trigger] p[i] != '\n')
    &&& forall|i: int| 0 <= i < e.kind.len() ==> #[trigger] e.kind[i] != '\n'
    &&& plain_line(e.summary)
    &&& forall|i: int| 0 <= i < e.details.len() ==> plain_line(#[trigger] e.details[i])
}

proof fn lemma_round_trip_writes_plain(e: EntryView, date: Date)
    requires
        entry_round_trips(e, date),
    ensures
        writes_plain(e),
{
    if e.project is Some {
        let p = e.project->Some_0;
        assert forall|i: int| 0 <= i < p.len() implies #[trigger] p[i] != '\n' by {
            assert(is_token_char(p[i]));
        }
    }
    assert forall|i: int| 0 <= i < e.kind.len() implies #[trigger] e.kind[i] != '\n' by {
        assert(is_token_char(e.kind[i]));
    }
}

proof fn lemma_all_write_plain(es: Seq<EntryView>, date: Date)
    requires
        forall|i: int| 0 <= i < es.len() ==> entry_round_trips(#[trigger] es[i], date),
    ensures
        forall|i: int| 0 <= i < es.len() ==> writes_plain(#[trigger] es[i]),
{
    assert forall|i: int| 0 <= i < es.len() implies writes_plain(#[trigger] es[i]) by {
        lemma_round_trip_writes_plain(es[i], date);
    }
}

/// The lines of an entry that is written plain are plain.
proof fn lemma_entry_lines_plain(e: EntryView)
    requires
        writes_plain(e),
    ensures
        forall|i: int| 0 <= i < entry_lines_one(e).len() ==> plain_line(#[trigger] entry_lines_one(e)[i]),
{
    let l = render_line(e.timestamp, e.project, e.kind, e.summary);
    let p = e.project.unwrap_or(seq![]);
    lemma_time_text(e.timestamp);
    let tt = time_text(e.timestamp);
    assert forall|i: int| 0 <= i < tt.len() implies #[trigger] tt[i] != '\n' by {
        assert(tt[i] == ':' || is_ascii_digit(tt[i]));
    }
    assert forall|i: int| 0 <= i < p.len() implies #[trigger] p[i] != '\n' by {
        if e.project is Some {
            assert(p == e.project->Some_0);
        }
    }
    assert(l =~= seq!['-', ' '] + tt + seq![' '] + p + seq![':'] + e.kind + seq![' '] + e.summary);
    let a = seq!['-', ' '] + tt;
    let b = a + seq![' '] + p;
    let c = b + seq![':'] + e.kind;
    assert forall|i: int| 0 <= i < l.len() implies #[trigger] l[i] != '\n' by {
        if i < a.len() {
            if i >= 2 {
                assert(l[i] == tt[i - 2]);
            }
        } else if i < b.len() {
            if i > a.len() {
                assert(l[i] == p[i - a.len() - 1]);
            }
        } else if i < c.len() {
            if i > b.len() {
                assert(l[i] == e.kind[i - b.len() - 1]);
            }
        } else if i > c.len() {
            assert(l[i] == e.summary[i - c.len() - 1]);
        }
    }
    if e.summary.len() > 0 {
        assert(l[l.len() - 1] == e.summary[e.summary.len() - 1]);
    } else {
        assert(l[l.len() - 1] == ' ');
    }
    assert forall|i: int| 0 <= i < entry_lines_one(e).len() implies plain_line(#[trigger] entry_lines_one(e)[i]) by {
        if i > 0 {
            let d = e.details[i - 1];
            assert(entry_lines_one(e)[i] == seq![' ', ' '] + d);
            assert(plain_line(d));
            let dl = seq![' ', ' '] + d;
            assert forall|j: int| 0 <= j < dl.len() implies #[trigger] dl[j] != '\n' by {
                if j >= 2 {
                    assert(dl[j] == d[j - 2]);
                }
            }
            if d.len() > 0 {
                assert(dl[dl.len() - 1] == d[d.len() - 1]);
            }
        }
    }
}

proof fn lemma_entries_lines_plain(es: Seq<EntryView>)
    requires
        forall|i: int| 0 <= i < es.len() ==> writes_plain(#[trigger] es[i]),
    ensures
        forall|i: int| 0 <= i < entry_lines(es).len() ==> plain_line(#[trigger] entry_lines(es)[i]),
    decreases es.len(),
{
    if es.len() > 0 {
        assert(writes_plain(es[0]));
        lemma_entry_lines_plain(es[0]);
        assert forall|i: int| 0 <= i < es.skip(1).len() implies writes_plain(#[trigger] es.skip(1)[i]) by {
            assert(es.skip(1)[i] == es[i + 1]);
        }
        lemma_entries_lines_plain(es.skip(1));
        let a = entry_lines_one(es[0]);
        let b = entry_lines(es.skip(1));
        assert forall|i: int| 0 <= i < (a + b).len() implies plain_line(#[trigger] (a + b)[i]) by {
            if i < a.len() {
                assert((a + b)[i] == a[i]);
            } else {
                assert((a + b)[i] == b[i - a.len()]);
            }
        }
    }
}

/// Continuation lines extend the open entry.
proof fn lemma_section_details(
    ds: Seq<Seq<char>>,
    tail: Seq<Seq<char>>,
    date: Date,
    acc: Seq<EntryView>,
    e0: EntryView,
)
    ensures
        section_parse(detail_lines(ds) + tail, date, acc, Some(e0)) == section_parse(
            tail,
            date,
            acc,
            Some(EntryView { details: e0.details + ds, ..e0 }),
        ),
    decreases ds.len(),
{
    if ds.len() == 0 {
        assert(detail_lines(ds) + tail =~= tail);
        assert(e0.details + ds =~= e0.details);
    } else {
        let ls = detail_lines(ds) + tail;
        let l = seq![' ', ' '] + ds[0];
        assert(ls[0] == l);
        assert(l.len() > 0);
        assert(l[0] == ' ');
        assert(parse_line(l) is None);
        assert(l.take(2) =~= seq![' ', ' ']);
        assert(starts_with(l, seq![' ', ' ']));
        assert(l.skip(2) =~= ds[0]);
        assert(ls.skip(1) =~= detail_lines(ds.skip(1)) + tail);
        let e1 = with_detail(e0, ds[0]);
        lemma_section_details(ds.skip(1), tail, date, acc, e1);
        assert(e1.details + ds.skip(1) =~= e0.details + ds);
        assert(EntryView { details: e1.details + ds.skip(1), ..e1 } == EntryView {
            details: e0.details + ds,
            ..e0
        });
    }
}

/// The lines of an entry open it, with its continuation lines.
proof fn lemma_section_entry(
    e: EntryView,
    tail: Seq<Seq<char>>,
    date: Date,
    acc: Seq<EntryView>,
    cur: Option<EntryView>,
)
    requires
        entry_round_trips(e, date),
    ensures
        section_parse(entry_lines_one(e) + tail, date, acc, cur) == section_parse(
            tail,
            date,
            acc + opt_seq(cur),
            Some(e),
        ),
{
    let l = render_line(e.timestamp, e.project, e.kind, e.summary);
    lemma_round_trip_writes_plain(e, date);
    lemma_entry_lines_plain(e);
    assert(plain_line(entry_lines_one(e)[0]));
    assert(!contains_char(e.summary, '\n')) by {
        if contains_char(e.summary, '\n') {
            let i = choose|i: int| 0 <= i < e.summary.len() && e.summary[i] == '\n';
            assert(plain_line(e.summary));
            assert(e.summary[i] != '\n');
        }
    }
    lemma_entry_line_round_trip(e.timestamp, e.project, e.kind, e.summary);
    let ls = entry_lines_one(e) + tail;
    assert(ls[0] == l);
    assert(l.len() > 0) by {
        assert(l.len() >= 2);
    }
    let parts = LineParts { timestamp: e.timestamp, project: e.project, kind: e.kind, summary: e.summary };
    assert(parse_line(l) == Some(parts));
    assert(ls.skip(1) =~= detail_lines(e.details) + tail);
    let e0 = entry_of(parts, date);
    lemma_section_details(e.details, tail, date, acc + opt_seq(cur), e0);
    assert(e0.details + e.details =~= e.details);
    assert(EntryView { details: e0.details + e.details, ..e0 } == e);
}

/// The lines of entries open them one after another.
proof fn lemma_section_entries(
    es: Seq<EntryView>,
    tail: Seq<Seq<char>>,
    date: Date,
    acc: Seq<EntryView>,
    cur: Option<EntryView>,
)
    requires
        forall|i: int| 0 <= i < es.len() ==> entry_round_trips(#[trigger] es[i], date),
        es.len() > 0,
    ensures
        section_parse(entry_lines(es) + tail, date, acc, cur) == section_parse(
            tail,
            date,
            acc + opt_seq(cur) + es.drop_last(),
            Some(es.last()),
        ),
    decreases es.len(),
{
    assert(entry_round_trips(es[0], date));
    let rest = es.skip(1);
    assert(entry_lines(es) + tail =~= entry_lines_one(es[0]) + (entry_lines(rest) + tail));
    lemma_section_entry(es[0], entry_lines(rest) + tail, date, acc, cur);
    if rest.len() == 0 {
        assert(entry_lines(rest) + tail =~= tail);
        assert(es.drop_last() =~= Seq::<EntryView>::empty());
        assert(acc + opt_seq(cur) + es.drop_last() =~= acc + opt_seq(cur));
    } else {
        assert forall|i: int| 0 <= i < rest.len() implies entry_round_trips(#[trigger] rest[i], date) by {
            assert(rest[i] == es[i + 1]);
        }
        lemma_section_entries(rest, tail, date, acc + opt_seq(cur), Some(es[0]));
        assert(acc + opt_seq(cur) + opt_seq(Some(es[0])) + rest.drop_last() =~= acc + opt_seq(cur)
            + es.drop_last());
        assert(rest.last() == es.last());
    }
}

proof fn lemma_decimal_digits(n: nat)
    ensures
        forall|i: int| 0 <= i < decimal(n).len() ==> is_ascii_digit(#[trigger] decimal(n)[i]),
    decreases n,
{
    if n >= 10 {
        lemma_decimal_digits(n / 10);
        let d = decimal(n);
        assert forall|i: int| 0 <= i < d.len() implies is_ascii_digit(#[trigger] d[i]) by {
            if i < decimal(n / 10).len() {
                assert(d[i] == decimal(n / 10)[i]);
            }
        }
    }
}

proof fn lemma_padded_digits(n: nat, w: int)
    ensures
        forall|i: int| 0 <= i < zero_padded(decimal(n), w).len() ==> is_ascii_digit(
            #[trigger] zero_padded(decimal(n), w)[i],
        ),
{
    lemma_decimal_digits(n);
    let z = zero_padded(decimal(n), w);
    let d = decimal(n);
    if d.len() < w {
        assert forall|i: int| 0 <= i < z.len() implies is_ascii_digit(#[trigger] z[i]) by {
            let k = w - d.len();
            if i >= k {
                assert(z[i] == d[i - k]);
            } else {
                assert(z[i] == '0');
            }
        }
    }
}

/// A title line is plain.
proof fn lemma_title_plain(d: Date)
    ensures
        plain_line(title_of(d)),
        title_of(d).len() >= 2,
        title_of(d)[0] == '#',
        title_of(d)[1] == ' ',
{
    let y = d.year as int;
    lemma_padded_digits(d.month as nat, 2);
    lemma_padded_digits(d.day as nat, 2);
    let yt = year_text(y);
    if 0 <= y <= 9999 {
        lemma_padded_digits(y as nat, 4);
    } else if y < 0 {
        lemma_padded_digits((-y) as nat, 4);
    } else {
        lemma_padded_digits(y as nat, 4);
    }
    assert forall|i: int| 0 <= i < yt.len() implies #[trigger] yt[i] != '\n' && yt[i] != '\r' by {
        if 0 <= y <= 9999 {
            assert(is_ascii_digit(yt[i]));
        } else if i > 0 {
            if y < 0 {
                assert(yt[i] == zero_padded(decimal((-y) as nat), 4)[i - 1]);
            } else {
                assert(yt[i] == zero_padded(decimal(y as nat), 4)[i - 1]);
            }
        }
    }
    let m = zero_padded(decimal(d.month as nat), 2);
    let dd = zero_padded(decimal(d.day as nat), 2);
    let dt = date_text(d);
    assert(dt =~= yt + seq!['-'] + m + seq!['-'] + dd);
    assert forall|i: int| 0 <= i < dt.len() implies #[trigger] dt[i] != '\n' && dt[i] != '\r' by {
        if i < yt.len() {
            assert(dt[i] == yt[i]);
        } else if yt.len() < i < yt.len() + 1 + m.len() {
            assert(dt[i] == m[i - yt.len() - 1]);
        } else if i > yt.len() + 1 + m.len() {
            assert(dt[i] == dd[i - yt.len() - 2 - m.len()]);
        }
    }
    let t = title_of(d);
    assert forall|i: int| 0 <= i < t.len() implies #[trigger] t[i] != '\n' && t[i] != '\r' by {
        if i >= 2 {
            assert(t[i] == dt[i - 2]);
        }
    }
}

/// A line of an entry is not empty and starts with `-` or a space.
pub open spec fn entry_line_head(l: Seq<char>) -> bool {
    l.len() > 0 && (l[0] == '-' || l[0] == ' ')
}

proof fn lemma_entry_lines_heads(es: Seq<EntryView>)
    ensures
        forall|i: int| 0 <= i < entry_lines(es).len() ==> entry_line_head(#[trigger] entry_lines(es)[i]),
    decreases es.len(),
{
    if es.len() > 0 {
        lemma_entry_lines_heads(es.skip(1));
        let a = entry_lines_one(es[0]);
        let b = entry_lines(es.skip(1));
        assert forall|i: int| 0 <= i < (a + b).len() implies entry_line_head(#[trigger] (a + b)[i]) by {
            if i < a.len() {
                assert((a + b)[i] == a[i]);
                if i > 0 {
                    assert(a[i] == seq![' ', ' '] + es[0].details[i - 1]);
                }
            } else {
                assert((a + b)[i] == b[i - a.len()]);
            }
        }
    }
}

proof fn lemma_first_index_is(ls: Seq<Seq<char>>, t: Seq<char>, i: int, k: int)
    requires
        0 <= i <= k < ls.len(),
        forall|j: int| i <= j < k ==> #[trigger] ls[j] != t,
        ls[k] == t,
    ensures
        first_index(ls, t, i) == k,
    decreases k - i,
{
    if i < k {
        lemma_first_index_is(ls, t, i + 1, k);
    }
}

/// The lines of a day file up to and with its notes heading.
pub open spec fn day_lines(doc: DocView) -> Seq<Seq<char>> {
    seq![title_of(doc.date), seq![], work_log_heading(), seq![]] + entry_lines(doc.entries) + seq![
        seq![],
        notes_heading(),
    ]
}

/// The index of the notes heading among the lines of a day file.
pub open spec fn notes_line(doc: DocView) -> int {
    5 + entry_lines(doc.entries).len() as int
}

/// A written day file is its head lines, then its notes.
proof fn lemma_day_text(doc: DocView)
    requires
        doc.date.wf(),
        forall|i: int| 0 <= i < doc.entries.len() ==> writes_plain(#[trigger] doc.entries[i]),
    ensures
        serialize_day(doc) == lines_text(day_lines(doc)) + notes_text(doc.notes),
        forall|i: int| 0 <= i < day_lines(doc).len() ==> plain_line(#[trigger] day_lines(doc)[i]),
{
    reveal_strlit("## Work Log");
    reveal_strlit("## Notes");
    let date = doc.date;
    let es = doc.entries;
    let title = title_of(date);
    let wl = work_log_heading();
    let nh = notes_heading();
    let el = entry_lines(es);
    let e: Seq<char> = seq![];
    let head = seq![title, e, wl, e];
    let foot = seq![e, nh];
    let ls_p = head + el + foot;
    assert(ls_p == day_lines(doc));
    lemma_title_plain(date);
    lemma_entries_lines_plain(es);
    assert(plain_line(wl));
    assert(plain_line(nh));
    assert forall|i: int| 0 <= i < ls_p.len() implies plain_line(#[trigger] ls_p[i]) by {
        if 4 <= i < 4 + el.len() {
            assert(ls_p[i] == el[i - 4]);
        }
    }
    lemma_entries_text(es);
    lemma_lines_text_concat(head, el);
    lemma_lines_text_concat(head + el, foot);
    reveal_with_fuel(lines_text, 5);
    assert(lines_text(head) =~= title + lf() + lf() + wl + lf() + lf());
    assert(lines_text(foot) =~= lf() + nh + lf());
    assert(serialize_day(doc) =~= lines_text(ls_p) + notes_text(doc.notes));
}

/// How `str::lines` reads a text that starts with the head lines of a day
/// file: the title first, the work-log heading at index 2, the notes heading
/// after the entry lines, and between them a blank line, the entry lines and
/// a blank line.
proof fn lemma_day_lines(doc: DocView, s: Seq<char>)
    requires
        doc.date.wf(),
        forall|i: int| 0 <= i < doc.entries.len() ==> writes_plain(#[trigger] doc.entries[i]),
        lines_text(day_lines(doc)).len() <= s.len(),
        s.subrange(0, lines_text(day_lines(doc)).len() as int) == lines_text(day_lines(doc)),
    ensures
        notes_line(doc) < lines(s).len(),
        lines(s)[0] == title_of(doc.date),
        first_index(lines(s), work_log_heading(), 0) == 2,
        first_index(lines(s), notes_heading(), 0) == notes_line(doc),
        lines(s).subrange(3, notes_line(doc)) == seq![Seq::<char>::empty()] + entry_lines(doc.entries)
            + seq![Seq::<char>::empty()],
{
    reveal_strlit("## Work Log");
    reveal_strlit("## Notes");
    let date = doc.date;
    let es = doc.entries;
    let wl = work_log_heading();
    let nh = notes_heading();
    let el = entry_lines(es);
    let e: Seq<char> = seq![];
    let ls_p = day_lines(doc);
    lemma_day_text(doc);
    lemma_entry_lines_heads(es);
    lemma_lines_of_text(s, 0, ls_p);
    let ls = lines(s);
    assert(ls == ls_p + lines_from(s, lines_text(ls_p).len() as int));
    assert(ls[0] != wl) by {
        assert(ls[0][1] != wl[1]);
    }
    assert(ls[1] != wl);
    assert(ls[2] == wl);
    lemma_first_index_is(ls, wl, 0, 2);
    let ni = notes_line(doc);
    assert forall|j: int| 0 <= j < ni implies #[trigger] ls[j] != nh by {
        if j == 0 {
            assert(ls[0][1] != nh[1]);
        } else if j == 2 {
            assert(ls[2][3] != nh[3]);
        } else if 4 <= j < 4 + el.len() {
            assert(ls[j] == el[j - 4]);
            assert(entry_line_head(el[j - 4]));
            assert(ls[j][0] != nh[0]);
        } else {
            assert(ls[j].len() == 0);
        }
    }
    assert(ls[ni] == nh);
    lemma_first_index_is(ls, nh, 0, ni);
    assert(ls.subrange(3, ni) =~= seq![e] + el + seq![e]);
}

/// A day file reads back with the date and the entries it was written
/// from, where each entry keeps its shape (see `entry_round_trips`).
pub proof fn lemma_day_document_round_trip(doc: DocView)
    requires
        doc.date.wf(),
        forall|i: int| 0 <= i < doc.entries.len() ==> entry_round_trips(#[trigger] doc.entries[i], doc.date),
    ensures
        parse_day(doc.date, serialize_day(doc)) matches Ok(d) && d.date == doc.date && d.entries
            == doc.entries,
{
    let date = doc.date;
    let es = doc.entries;
    let el = entry_lines(es);
    let e: Seq<char> = seq![];
    lemma_all_write_plain(doc.entries, doc.date);
    lemma_day_text(doc);
    let p = lines_text(day_lines(doc));
    let n = notes_text(doc.notes);
    lemma_lines_text_crlf_free(day_lines(doc));
    lemma_replace_crlf_prefix(p, n);
    let r = replace_all(serialize_day(doc), crlf(), lf());
    assert(r == p + replace_all(n, crlf(), lf()));
    assert(r.subrange(0, p.len() as int) =~= p);
    lemma_day_lines(doc, r);
    let ls = lines(r);
    let ni = notes_line(doc);
    let section = ls.subrange(3, ni);
    assert(section[0].len() == 0);
    assert(section.skip(1) =~= el + seq![e]);
    let last: Seq<Seq<char>> = seq![e];
    assert(last.skip(1) =~= Seq::<Seq<char>>::empty());
    assert(section_parse(section, date, seq![], None) == section_parse(section.skip(1), date, seq![], None));
    let empty_lines = Seq::<Seq<char>>::empty();
    if es.len() == 0 {
        assert(el =~= Seq::<Seq<char>>::empty());
        assert(section.skip(1) =~= last);
        assert(section_parse(last, date, seq![], None) == section_parse(empty_lines, date, seq![], None));
        assert(Seq::<EntryView>::empty() + opt_seq::<EntryView>(None) =~= es);
        assert(section_parse(section, date, seq![], None) == Ok::<Seq<EntryView>, Seq<char>>(es));
    } else {
        lemma_section_entries(es, last, date, seq![], None);
        let acc = Seq::<EntryView>::empty() + opt_seq::<EntryView>(None) + es.drop_last();
        assert(section_parse(last, date, acc, Some(es.last())) == section_parse(empty_lines, date, acc, Some(es.last())));
        assert(acc + opt_seq(Some(es.last())) =~= es);
        assert(section_parse(section, date, seq![], None) == Ok::<Seq<EntryView>, Seq<char>>(es));
    }
    assert(parse_day(date, serialize_day(doc)) matches Ok(d) && d.date == date && d.entries == es);
}

/// Continuation lines pass `wrk doctor` after an entry.
proof fn lemma_lint_details(ds: Seq<Seq<char>>, tail: Seq<Seq<char>>, types: Seq<Seq<char>>)
    ensures
        lint_section(detail_lines(ds) + tail, types, true) == lint_section(tail, types, true),
    decreases ds.len(),
{
    if ds.len() == 0 {
        assert(detail_lines(ds) + tail =~= tail);
    } else {
        let ls = detail_lines(ds) + tail;
        let l = seq![' ', ' '] + ds[0];
        assert(ls[0] == l);
        assert(l.len() > 0);
        assert(l[0] == ' ');
        assert(parse_line(l) is None);
        assert(l.take(2) =~= seq![' ', ' ']);
        assert(starts_with(l, seq![' ', ' ']));
        assert(ls.skip(1) =~= detail_lines(ds.skip(1)) + tail);
        lemma_lint_details(ds.skip(1), tail, types);
    }
}

/// The lines of entries of known types pass `wrk doctor`.
proof fn lemma_lint_entries(es: Seq<EntryView>, tail: Seq<Seq<char>>, date: Date, types: Seq<Seq<char>>, seen: bool)
    requires
        forall|i: int| 0 <= i < es.len() ==> entry_round_trips(#[trigger] es[i], date),
        forall|i: int| 0 <= i < es.len() ==> types.contains(#[trigger] es[i].kind),
        es.len() > 0,
    ensures
        lint_section(entry_lines(es) + tail, types, seen) == lint_section(tail, types, true),
    decreases es.len(),
{
    let e = es[0];
    assert(entry_round_trips(e, date));
    assert(types.contains(e.kind));
    let rest = es.skip(1);
    let l = render_line(e.timestamp, e.project, e.kind, e.summary);
    lemma_round_trip_writes_plain(e, date);
    lemma_entry_lines_plain(e);
    assert(plain_line(entry_lines_one(e)[0]));
    assert(!contains_char(e.summary, '\n')) by {
        if contains_char(e.summary, '\n') {
            let i = choose|i: int| 0 <= i < e.summary.len() && e.summary[i] == '\n';
            assert(e.summary[i] != '\n');
        }
    }
    lemma_entry_line_round_trip(e.timestamp, e.project, e.kind, e.summary);
    let after = entry_lines(rest) + tail;
    let ls = entry_lines(es) + tail;
    assert(ls =~= entry_lines_one(e) + after);
    assert(ls[0] == l);
    assert(l.len() > 0) by {
        assert(l.len() >= 2);
    }
    let parts = LineParts { timestamp: e.timestamp, project: e.project, kind: e.kind, summary: e.summary };
    assert(parse_line(l) == Some(parts));
    assert(ls.skip(1) =~= detail_lines(e.details) + after);
    lemma_lint_details(e.details, after, types);
    if rest.len() == 0 {
        assert(after =~= tail);
    } else {
        assert forall|i: int| 0 <= i < rest.len() implies entry_round_trips(#[trigger] rest[i], date) by {
            assert(rest[i] == es[i + 1]);
        }
        assert forall|i: int| 0 <= i < rest.len() implies types.contains(#[trigger] rest[i].kind) by {
            assert(rest[i] == es[i + 1]);
        }
        lemma_lint_entries(rest, tail, date, types, true);
    }
}

/// A day file as it is written passes `wrk doctor`,
/// where each entry keeps its shape and is of an allowed type.
pub proof fn lemma_written_day_passes_doctor(doc: DocView, types: Seq<Seq<char>>)
    requires
        doc.date.wf(),
        forall|i: int| 0 <= i < doc.entries.len() ==> entry_round_trips(#[trigger] doc.entries[i], doc.date),
        forall|i: int| 0 <= i < doc.entries.len() ==> types.contains(#[trigger] doc.entries[i].kind),
    ensures
        lint_text(doc.date, serialize_day(doc), types) == Ok::<(), ErrorView>(()),
{
    let es = doc.entries;
    let el = entry_lines(es);
    let e: Seq<char> = seq![];
    lemma_all_write_plain(doc.entries, doc.date);
    lemma_day_text(doc);
    let s = serialize_day(doc);
    let p = lines_text(day_lines(doc));
    assert(s.subrange(0, p.len() as int) =~= p);
    lemma_day_lines(doc, s);
    let ls = lines(s);
    let section = ls.subrange(3, notes_line(doc));
    let last: Seq<Seq<char>> = seq![e];
    assert(last.skip(1) =~= Seq::<Seq<char>>::empty());
    assert(section.skip(1) =~= el + last);
    assert(lint_section(section, types, false) == lint_section(section.skip(1), types, false));
    if es.len() == 0 {
        assert(el + last =~= last);
        assert(lint_section(last, types, false) == lint_section(Seq::<Seq<char>>::empty(), types, false));
    } else {
        lemma_lint_entries(es, last, doc.date, types, false);
        assert(lint_section(last, types, true) == lint_section(Seq::<Seq<char>>::empty(), types, true));
    }
}

/// A reload after an append gives back the entries that were there and
/// the new one after them (`append_to_document` makes that document).
pub proof fn lemma_append_then_reload(doc: DocView, timestamp: Time, n: NewEntryView)
    requires
        doc.date.wf(),
        forall|i: int| 0 <= i < doc.entries.len() ==> entry_round_trips(#[trigger] doc.entries[i], doc.date),
        entry_round_trips(dated_entry(n, doc.date, timestamp), doc.date),
    ensures
        parse_day(
            doc.date,
            serialize_day(
                DocView { entries: doc.entries.push(dated_entry(n, doc.date, timestamp)), ..doc },
            ),
        ) matches Ok(d) && d.date == doc.date && d.entries == doc.entries.push(
            dated_entry(n, doc.date, timestamp),
        ),
{
    let after = DocView { entries: doc.entries.push(dated_entry(n, doc.date, timestamp)), ..doc };
    assert forall|i: int| 0 <= i < after.entries.len() implies entry_round_trips(
        #[trigger] after.entries[i],
        after.date,
    ) by {
        if i < doc.entries.len() {
            assert(after.entries[i] == doc.entries[i]);
        }
    }
    lemma_day_document_round_trip(after);
}

/// A reload after an amendment gives back the entries that were there, the
/// last one replaced by the new one at its own date and time
/// (`amend_last_in_document` makes that document).
pub proof fn lemma_amend_then_reload(doc: DocView, n: NewEntryView)
    requires
        doc.date.wf(),
        doc.entries.len() > 0,
        forall|i: int| 0 <= i < doc.entries.len() ==> entry_round_trips(#[trigger] doc.entries[i], doc.date),
        entry_round_trips(
            dated_entry(n, doc.entries.last().date, doc.entries.last().timestamp),
            doc.date,
        ),
    ensures
        parse_day(
            doc.date,
            serialize_day(
                DocView {
                    entries: doc.entries.update(
                        doc.entries.len() - 1,
                        dated_entry(n, doc.entries.last().date, doc.entries.last().timestamp),
                    ),
                    ..doc
                },
            ),
        ) matches Ok(d) && d.date == doc.date && d.entries == doc.entries.update(
            doc.entries.len() - 1,
            dated_entry(n, doc.entries.last().date, doc.entries.last().timestamp),
        ),
{
    let last = doc.entries.len() - 1;
    let after = DocView {
        entries: doc.entries.update(
            last,
            dated_entry(n, doc.entries.last().date, doc.entries.last().timestamp),
        ),
        ..doc
    };
    assert forall|i: int| 0 <= i < after.entries.len() implies entry_round_trips(
        #[trigger] after.entries[i],
        after.date,
    ) by {
        if i < last {
            assert(after.entries[i] == doc.entries[i]);
        }
    }
    lemma_day_document_round_trip(after);
}

proof fn lemma_entry_lines_push(es: Seq<EntryView>, x: EntryView)
    ensures
        entry_lines(es.push(x)) == entry_lines(es) + entry_lines_one(x),
    decreases es.len(),
{
    if es.len() == 0 {
        let none = Seq::<EntryView>::empty();
        assert(es.push(x).skip(1) =~= none);
        assert(entry_lines(none) == Seq::<Seq<char>>::empty());
        assert(es.push(x)[0] == x);
        assert(entry_lines(es.push(x)) =~= entry_lines_one(x) + entry_lines(none));
        assert(entry_lines(es.push(x)) =~= entry_lines(es) + entry_lines_one(x));
    } else {
        lemma_entry_lines_push(es.skip(1), x);
        assert(es.push(x).skip(1) =~= es.skip(1).push(x));
        assert(es.push(x)[0] == es[0]);
        assert(entry_lines(es.push(x)) =~= entry_lines(es) + entry_lines_one(x));
    }
}

proof fn lemma_entry_lines_taken(es: Seq<EntryView>, k: int)
    requires
        0 <= k <= es.len(),
    ensures
        entry_lines(es.take(k)).len() == lines_taken(es, k),
    decreases k,
{
    if k == 0 {
        assert(es.take(0) =~= Seq::<EntryView>::empty());
    } else {
        lemma_entry_lines_taken(es, k - 1);
        assert(es.take(k) =~= es.take(k - 1).push(es[k - 1]));
        lemma_entry_lines_push(es.take(k - 1), es[k - 1]);
    }
}

/// The lines from `pos`, where plain text without line feeds follows it
/// line by line: those lines, each without a carriage return before its
/// line feed, then the lines after them.
proof fn lemma_lines_of_unbroken_text(s: Seq<char>, pos: int, ls: Seq<Seq<char>>)
    requires
        0 <= pos,
        pos + lines_text(ls).len() <= s.len(),
        s.subrange(pos, pos + lines_text(ls).len()) == lines_text(ls),
        forall|i: int| 0 <= i < ls.len() ==> no_line_feed(#[trigger] ls[i]),
    ensures
        lines_from(s, pos) == ls.map_values(|l: Seq<char>| strip_cr(l)) + lines_from(
            s,
            pos + lines_text(ls).len(),
        ),
    decreases ls.len(),
{
    if ls.len() == 0 {
        assert(ls.map_values(|l: Seq<char>| strip_cr(l)) + lines_from(s, pos) =~= lines_from(s, pos));
    } else {
        let l = ls[0];
        let t = lines_text(ls);
        assert(t == l + lf() + lines_text(ls.skip(1)));
        let r = lines_text(ls.skip(1));
        assert forall|j: int| 0 <= j < l.len() implies s[pos + j] == l[j] by {
            assert(s[pos + j] == s.subrange(pos, pos + t.len())[j]);
            assert(t[j] == l[j]);
        }
        assert(s.subrange(pos, pos + l.len()) =~= l);
        assert(s[pos + l.len()] == s.subrange(pos, pos + t.len())[l.len() as int]);
        assert(s[pos + l.len()] == t[l.len() as int]);
        let k = pos + l.len();
        assert forall|j: int| pos <= j < k implies s[j] != '\n' by {
            assert(s[j] == l[j - pos]);
        }
        lemma_find_char_from_is(s, '\n', pos, k);
        let next = k + 1;
        assert(lines_from(s, pos) == seq![strip_cr(l)] + lines_from(s, next));
        assert forall|i: int| 0 <= i < ls.skip(1).len() implies no_line_feed(#[trigger] ls.skip(1)[i]) by {
            assert(ls.skip(1)[i] == ls[i + 1]);
        }
        assert forall|j: int| 0 <= j < r.len() implies s.subrange(next, next + r.len())[j] == r[j] by {
            assert(s.subrange(next, next + r.len())[j] == s[next + j]);
            assert(s[next + j] == s.subrange(pos, pos + t.len())[l.len() + 1 + j]);
            assert(t[l.len() + 1 + j] == r[j]);
        }
        assert(s.subrange(next, next + r.len()) =~= r);
        lemma_lines_of_unbroken_text(s, next, ls.skip(1));
        assert(ls.map_values(|x: Seq<char>| strip_cr(x)) =~= seq![strip_cr(l)] + ls.skip(1).map_values(
            |x: Seq<char>| strip_cr(x),
        ));
    }
}

/// An entry whose written lines hold no line feed: a valid time, and no
/// line feed in its project, type, summary or continuation lines.
pub open spec fn writes_unbroken(e: EntryView) -> bool {
    &&& e.timestamp.wf()
    &&& (e.project matches Some(p) ==> no_line_feed(p))
    &&& no_line_feed(e.kind)
    &&& no_line_feed(e.summary)
    &&& forall|i: int| 0 <= i < e.details.len() ==> no_line_feed(#[trigger] e.details[i])
}

/// The entry line of an entry whose time is valid and whose project, type
/// and summary hold no line feed holds none either.
proof fn lemma_render_unbroken(e: EntryView)
    requires
        e.timestamp.wf(),
        e.project matches Some(p) ==> no_line_feed(p),
        no_line_feed(e.kind),
        no_line_feed(e.summary),
    ensures
        no_line_feed(render_line(e.timestamp, e.project, e.kind, e.summary)),
        e.summary.len() > 0 ==> render_line(e.timestamp, e.project, e.kind, e.summary).last()
            == e.summary.last(),
        e.summary.len() == 0 ==> render_line(e.timestamp, e.project, e.kind, e.summary).last() == ' ',
{
    let l = render_line(e.timestamp, e.project, e.kind, e.summary);
    let p = e.project.unwrap_or(seq![]);
    lemma_time_text(e.timestamp);
    let tt = time_text(e.timestamp);
    assert forall|i: int| 0 <= i < tt.len() implies #[trigger] tt[i] != '\n' by {
        assert(tt[i] == ':' || is_ascii_digit(tt[i]));
    }
    assert forall|i: int| 0 <= i < p.len() implies #[trigger] p[i] != '\n' by {
        if e.project is Some {
            assert(p == e.project->Some_0);
        }
    }
    assert(l =~= seq!['-', ' '] + tt + seq![' '] + p + seq![':'] + e.kind + seq![' '] + e.summary);
    let a = seq!['-', ' '] + tt;
    let b = a + seq![' '] + p;
    let c = b + seq![':'] + e.kind;
    assert forall|i: int| 0 <= i < l.len() implies #[trigger] l[i] != '\n' by {
        if i < a.len() {
            if i >= 2 {
                assert(l[i] == tt[i - 2]);
            }
        } else if i < b.len() {
            if i > a.len() {
                assert(l[i] == p[i - a.len() - 1]);
            }
        } else if i < c.len() {
            if i > b.len() {
                assert(l[i] == e.kind[i - b.len() - 1]);
            }
        } else if i > c.len() {
            assert(l[i] == e.summary[i - c.len() - 1]);
        }
    }
}

proof fn lemma_entries_lines_unbroken(es: Seq<EntryView>)
    requires
        forall|i: int| 0 <= i < es.len() ==> writes_unbroken(#[trigger] es[i]),
    ensures
        forall|i: int| 0 <= i < entry_lines(es).len() ==> no_line_feed(#[trigger] entry_lines(es)[i]),
    decreases es.len(),
{
    if es.len() > 0 {
        let e = es[0];
        assert(writes_unbroken(e));
        lemma_render_unbroken(e);
        assert forall|i: int| 0 <= i < es.skip(1).len() implies writes_unbroken(#[trigger] es.skip(1)[i]) by {
            assert(es.skip(1)[i] == es[i + 1]);
        }
        lemma_entries_lines_unbroken(es.skip(1));
        let a = entry_lines_one(e);
        let b = entry_lines(es.skip(1));
        assert forall|i: int| 0 <= i < (a + b).len() implies no_line_feed(#[trigger] (a + b)[i]) by {
            if i < a.len() {
                assert((a + b)[i] == a[i]);
                if i > 0 {
                    let d = e.details[i - 1];
                    assert(a[i] == seq![' ', ' '] + d);
                    assert(no_line_feed(d));
                    let dl = seq![' ', ' '] + d;
                    assert forall|j: int| 0 <= j < dl.len() implies #[trigger] dl[j] != '\n' by {
                        if j >= 2 {
                            assert(dl[j] == d[j - 2]);
                        }
                    }
                }
            } else {
                assert((a + b)[i] == b[i - a.len()]);
            }
        }
    }
}

/// The lines of a day file up to and with the line of its last entry.
pub open spec fn lines_to_last_entry(doc: DocView) -> Seq<Seq<char>> {
    let es = doc.entries;
    let last = es.last();
    seq![title_of(doc.date), seq![], work_log_heading(), seq![]] + entry_lines(
        es.take(es.len() - 1),
    ) + seq![render_line(last.timestamp, last.project, last.kind, last.summary)]
}

/// A day file starts with the lines up to its last entry.
proof fn lemma_text_to_last_entry(doc: DocView)
    requires
        doc.entries.len() > 0,
    ensures
        lines_text(lines_to_last_entry(doc)).len() <= serialize_day(doc).len(),
        serialize_day(doc).subrange(0, lines_text(lines_to_last_entry(doc)).len() as int) == lines_text(
            lines_to_last_entry(doc),
        ),
{
    let es = doc.entries;
    let k = es.len() - 1;
    let last = es.last();
    let before = es.take(k);
    assert(es =~= before.push(last));
    let line = render_line(last.timestamp, last.project, last.kind, last.summary);
    let title = title_of(doc.date);
    let wl = work_log_heading();
    let e: Seq<char> = seq![];
    let head = seq![title, e, wl, e];
    let el = entry_lines(before);
    lemma_entries_text_push(before, last);
    lemma_entries_text(before);
    lemma_lines_text_concat(head, el);
    lemma_lines_text_concat(head + el, seq![line]);
    reveal_with_fuel(lines_text, 5);
    assert(lines_text(head) =~= title + lf() + lf() + wl + lf() + lf());
    assert(lines_text(seq![line]) =~= line + lf());
    let p = lines_text(lines_to_last_entry(doc));
    assert(lines_to_last_entry(doc) == head + el + seq![line]);
    let rest = details_text(last.details) + lf() + notes_heading() + lf() + notes_text(doc.notes);
    assert(serialize_day(doc) =~= p + rest);
    assert(serialize_day(doc).subrange(0, p.len() as int) =~= p);
}

/// The line at which the editor opens a day file holds its last entry,
/// where no line feed stands in what is written before that line or in it,
/// and the last summary does not end in a carriage return.
pub proof fn lemma_last_entry_line_holds_last_entry(doc: DocView)
    requires
        doc.date.wf(),
        doc.entries.len() > 0,
        forall|i: int| 0 <= i < doc.entries.len() - 1 ==> writes_unbroken(#[trigger] doc.entries[i]),
        doc.entries.last().timestamp.wf(),
        doc.entries.last().project matches Some(p) ==> no_line_feed(p),
        no_line_feed(doc.entries.last().kind),
        plain_line(doc.entries.last().summary),
    ensures
        1 <= last_entry_line(doc.entries) <= lines(serialize_day(doc)).len(),
        lines(serialize_day(doc))[last_entry_line(doc.entries) - 1] == render_line(
            doc.entries.last().timestamp,
            doc.entries.last().project,
            doc.entries.last().kind,
            doc.entries.last().summary,
        ),
{
    reveal_strlit("## Work Log");
    let es = doc.entries;
    let k = es.len() - 1;
    let last = es.last();
    let before = es.take(k);
    assert forall|i: int| 0 <= i < before.len() implies writes_unbroken(#[trigger] before[i]) by {
        assert(before[i] == es[i]);
    }
    lemma_entries_lines_unbroken(before);
    assert(no_line_feed(last.summary));
    lemma_render_unbroken(last);
    let line = render_line(last.timestamp, last.project, last.kind, last.summary);
    lemma_title_plain(doc.date);
    let el = entry_lines(before);
    let pre = lines_to_last_entry(doc);
    assert forall|i: int| 0 <= i < pre.len() implies no_line_feed(#[trigger] pre[i]) by {
        if i == 0 {
            assert(pre[i] == title_of(doc.date));
        } else if 4 <= i < 4 + el.len() {
            assert(pre[i] == el[i - 4]);
        } else if i == 4 + el.len() {
            assert(pre[i] == line);
        }
    }
    lemma_text_to_last_entry(doc);
    let s = serialize_day(doc);
    lemma_lines_of_unbroken_text(s, 0, pre);
    lemma_entry_lines_taken(es, k);
    let at = lines_taken(es, k);
    assert(el.len() == at);
    assert(pre[4 + at] == line);
    assert(strip_cr(line) == line);
    assert(lines(s)[4 + at] == strip_cr(pre[4 + at]));
}

proof fn lemma_join_front(a: Seq<char>, ls: Seq<Seq<char>>, sep: Seq<char>)
    requires
        ls.len() > 0,
    ensures
        join(seq![a] + ls, sep) == a + sep + join(ls, sep),
    decreases ls.len(),
{
    let all = seq![a] + ls;
    assert(all.drop_last() =~= seq![a] + ls.drop_last());
    assert(all.last() == ls.last());
    if ls.len() == 1 {
        assert(all.drop_last() =~= seq![a]);
        assert(join(seq![a], sep) == a);
        assert(join(ls, sep) == ls[0]);
        assert(all.len() == 2);
        assert(join(all, sep) == join(all.drop_last(), sep) + sep + all.last());
        assert(join(all, sep) =~= a + sep + join(ls, sep));
    } else {
        lemma_join_front(a, ls.drop_last(), sep);
        assert(join(all, sep) =~= a + sep + join(ls, sep));
    }
}

/// The lines of `s[pos..end]`, where `s` ends with a line feed at `end` and
/// no carriage return stands before a line feed, join back into that text.
proof fn lemma_lines_join(s: Seq<char>, pos: int, end: int)
    requires
        0 <= pos <= end,
        end + 1 == s.len(),
        s[end] == '\n',
        forall|j: int| pos <= j < end && #[trigger] s[j] == '\r' ==> s[j + 1] != '\n',
    ensures
        lines_from(s, pos).len() > 0,
        join(lines_from(s, pos), lf()) == s.subrange(pos, end),
    decreases end - pos,
{
    lemma_find_char_from(s, '\n', pos);
    let i = find_char_from(s, '\n', pos);
    assert(i <= end) by {
        if i > end {
            assert(s[end] != '\n');
        }
    }
    let seg = s.subrange(pos, i);
    if seg.len() > 0 {
        assert(seg.last() == s[i - 1]);
        if s[i - 1] == '\r' {
            assert(s[i] != '\n');
        }
    }
    assert(strip_cr(seg) == seg);
    assert(lines_from(s, pos) == seq![seg] + lines_from(s, i + 1));
    if i == end {
        assert(lines_from(s, i + 1) =~= Seq::<Seq<char>>::empty());
        assert(seq![seg] + lines_from(s, i + 1) =~= seq![seg]);
    } else {
        lemma_lines_join(s, i + 1, end);
        lemma_join_front(seg, lines_from(s, i + 1), lf());
        assert(seg + lf() + s.subrange(i + 1, end) =~= s.subrange(pos, end));
    }
}

/// The notes of a day file read back as they were written, with the blank
/// line after the `## Notes` heading put before notes that did not begin
/// with one, where no carriage return in them stands before a line feed or
/// at their end (a `\r\n` would be read as `\n`). Notes that are empty
/// or begin with a line feed, as those of a file written this way do, come
/// back unchanged, so saving again changes nothing.
pub proof fn lemma_notes_after_reload(doc: DocView)
    requires
        doc.date.wf(),
        forall|i: int| 0 <= i < doc.entries.len() ==> entry_round_trips(#[trigger] doc.entries[i], doc.date),
        crlf_free(doc.notes),
    ensures
        parse_day(doc.date, serialize_day(doc)) matches Ok(d) && d.notes == notes_body(doc.notes),
{
    lemma_day_document_round_trip(doc);
    lemma_all_write_plain(doc.entries, doc.date);
    lemma_day_text(doc);
    let n = notes_body(doc.notes);
    let p = lines_text(day_lines(doc));
    let nt = notes_text(doc.notes);
    assert(nt == n + lf());
    assert(crlf_free(n)) by {
        let o = doc.notes;
        if o.len() > 0 && o[0] != '\n' {
            assert forall|j: int| 0 <= j < n.len() && #[trigger] n[j] == '\r' implies j + 1 < n.len() && n[j
                + 1] != '\n' by {
                assert(j >= 1);
                assert(n[j] == o[j - 1]);
                assert(o[j - 1] == '\r');
                assert(n[j + 1] == o[j]);
            }
        }
    }
    assert(crlf_free(nt)) by {
        assert forall|j: int| 0 <= j < nt.len() && #[trigger] nt[j] == '\r' implies j + 1 < nt.len() && nt[j
            + 1] != '\n' by {
            assert(j < n.len());
            assert(nt[j] == n[j]);
            assert(n[j] == '\r');
            assert(nt[j + 1] == n[j + 1]);
        }
    }
    lemma_replace_crlf_prefix(nt, seq![]);
    assert(nt + seq![] =~= nt);
    assert(replace_all(Seq::<char>::empty(), crlf(), lf()) == Seq::<char>::empty());
    lemma_lines_text_crlf_free(day_lines(doc));
    lemma_replace_crlf_prefix(p, nt);
    let r = replace_all(serialize_day(doc), crlf(), lf());
    assert(r == p + nt);
    assert(r.subrange(0, p.len() as int) =~= p);
    lemma_day_lines(doc, r);
    lemma_lines_of_text(r, 0, day_lines(doc));
    let ls = lines(r);
    let ni = notes_line(doc);
    let big = p.len() as int;
    assert(ls.subrange(ni + 1, ls.len() as int) =~= lines_from(r, big));
    let end = r.len() - 1;
    assert(r[end] == nt[nt.len() - 1]);
    assert forall|j: int| big <= j < end && #[trigger] r[j] == '\r' implies r[j + 1] != '\n' by {
        assert(r[j] == nt[j - big]);
        assert(r[j + 1] == nt[j - big + 1]);
    }
    lemma_lines_join(r, big, end);
    assert(r.subrange(big, end) =~= n);
}

/// A text without line feeds.
pub open spec fn no_line_feed(l: Seq<char>) -> bool {
    forall|i: int| 0 <= i < l.len() ==> #[trigger] l[i] != '\n'
}

/// Without its trailing white space, a line without line feeds is plain.
proof fn lemma_trim_end_plain(s: Seq<char>)
    requires
        no_line_feed(s),
    ensures
        plain_line(trim_end(s)),
    decreases s.len(),
{
    if s.len() > 0 && is_white_space(s.last()) {
        assert forall|i: int| 0 <= i < s.drop_last().len() implies #[trigger] s.drop_last()[i] != '\n' by {
            assert(s.drop_last()[i] == s[i]);
        }
        lemma_trim_end_plain(s.drop_last());
    } else if s.len() > 0 {
        assert(s.last() == s[s.len() - 1]);
        assert(is_white_space('\r'));
    }
}

proof fn lemma_trim_start_plain(s: Seq<char>)
    requires
        plain_line(s),
    ensures
        plain_line(trim_start(s)),
    decreases s.len(),
{
    if s.len() > 0 && is_white_space(s[0]) {
        let t = s.drop_first();
        assert forall|i: int| 0 <= i < t.len() implies #[trigger] t[i] != '\n' by {
            assert(t[i] == s[i + 1]);
        }
        if t.len() > 0 {
            assert(t[t.len() - 1] == s[s.len() - 1]);
        }
        lemma_trim_start_plain(t);
    }
}

/// An entry built from a message whose lines are plain keeps its shape in a
/// day file.
proof fn lemma_built_entry_round_trips(
    default_project: Option<Seq<char>>,
    default_type: Seq<char>,
    types: Seq<Seq<char>>,
    project: Option<Seq<char>>,
    kind: Option<Seq<char>>,
    raw: Seq<char>,
    date: Date,
    timestamp: Time,
)
    requires
        timestamp.wf(),
        forall|i: int| 0 <= i < message_lines(raw).len() ==> no_line_feed(#[trigger] message_lines(raw)[i]),
        new_entry_of(default_project, default_type, types, project, kind, raw) is Ok,
    ensures
        entry_round_trips(
            dated_entry(
                new_entry_of(default_project, default_type, types, project, kind, raw)->Ok_0,
                date,
                timestamp,
            ),
            date,
        ),
{
    let n = new_entry_of(default_project, default_type, types, project, kind, raw)->Ok_0;
    let ls = message_lines(raw);
    assert(no_line_feed(ls[0]));
    lemma_trim_end_plain(ls[0]);
    lemma_trim_start_plain(trim_end(ls[0]));
    assert(n.summary == trim(ls[0]));
    assert forall|i: int| 0 <= i < n.details.len() implies plain_line(#[trigger] n.details[i]) by {
        assert(n.details[i] == trim_end(ls.skip(1)[i]));
        assert(ls.skip(1)[i] == ls[i + 1]);
        lemma_trim_end_plain(ls[i + 1]);
    }
}

/// What is logged is what a reload gives back: an entry built from a
/// message whose lines are plain, appended to a day file whose entries keep
/// their shape, comes back as built after the entries that were there.
pub proof fn lemma_logged_message_reads_back(
    doc: DocView,
    timestamp: Time,
    default_project: Option<Seq<char>>,
    default_type: Seq<char>,
    types: Seq<Seq<char>>,
    project: Option<Seq<char>>,
    kind: Option<Seq<char>>,
    raw: Seq<char>,
)
    requires
        doc.date.wf(),
        timestamp.wf(),
        forall|i: int| 0 <= i < doc.entries.len() ==> entry_round_trips(#[trigger] doc.entries[i], doc.date),
        forall|i: int| 0 <= i < message_lines(raw).len() ==> no_line_feed(#[trigger] message_lines(raw)[i]),
        new_entry_of(default_project, default_type, types, project, kind, raw) is Ok,
    ensures
        ({
            let e = dated_entry(
                new_entry_of(default_project, default_type, types, project, kind, raw)->Ok_0,
                doc.date,
                timestamp,
            );
            parse_day(doc.date, serialize_day(DocView { entries: doc.entries.push(e), ..doc }))
                matches Ok(d) && d.entries == doc.entries.push(e)
        }),
{
    lemma_built_entry_round_trips(
        default_project,
        default_type,
        types,
        project,
        kind,
        raw,
        doc.date,
        timestamp,
    );
    lemma_append_then_reload(
        doc,
        timestamp,
        new_entry_of(default_project, default_type, types, project, kind, raw)->Ok_0,
    );
}

/// The kinds of entries are all allowed types.
pub open spec fn kinds_allowed(es: Seq<EntryView>, types: Seq<Seq<char>>) -> bool {
    forall|i: int| 0 <= i < es.len() ==> types.contains(#[trigger] es[i].kind)
}

/// Reading a section keeps the entries read so far, in front, and the kind
/// of the entry still open.
proof fn lemma_section_keeps(
    ls: Seq<Seq<char>>,
    date: Date,
    acc: Seq<EntryView>,
    cur: Option<EntryView>,
)
    ensures
        section_parse(ls, date, acc, cur) matches Ok(es) ==> {
            &&& es.len() >= acc.len() + opt_seq(cur).len()
            &&& forall|i: int| 0 <= i < acc.len() ==> es[i] == acc[i]
            &&& (cur matches Some(e) ==> es[acc.len() as int].kind == e.kind)
        },
    decreases ls.len(),
{
    if ls.len() == 0 {
        if cur is Some {
            assert((acc + opt_seq(cur))[acc.len() as int] == cur->Some_0);
        }
    } else {
        let l = ls[0];
        if l.len() == 0 {
            lemma_section_keeps(ls.skip(1), date, acc, cur);
        } else {
            match parse_line(l) {
                Some(p) => {
                    let acc2 = acc + opt_seq(cur);
                    lemma_section_keeps(ls.skip(1), date, acc2, Some(entry_of(p, date)));
                    if cur is Some {
                        assert(acc2[acc.len() as int] == cur->Some_0);
                    }
                },
                None => {
                    if cur is Some {
                        let e = cur->Some_0;
                        lemma_section_keeps(ls.skip(1), date, acc, Some(with_detail(e, l.skip(2))));
                    }
                },
            }
        }
    }
}

/// Checking a work-log section and reading it agree: the check passes
/// exactly where the section reads and every entry read is of an allowed
/// type.
proof fn lemma_section_agrees(
    ls: Seq<Seq<char>>,
    types: Seq<Seq<char>>,
    date: Date,
    acc: Seq<EntryView>,
    cur: Option<EntryView>,
)
    requires
        kinds_allowed(acc, types),
        cur matches Some(e) ==> types.contains(e.kind),
    ensures
        lint_section(ls, types, cur is Some) is Ok <==> (section_parse(ls, date, acc, cur) matches Ok(
            es,
        ) && kinds_allowed(es, types)),
    decreases ls.len(),
{
    if ls.len() == 0 {
        let es = acc + opt_seq(cur);
        assert forall|i: int| 0 <= i < es.len() implies types.contains(#[trigger] es[i].kind) by {
            if i < acc.len() {
                assert(es[i] == acc[i]);
            } else {
                assert(es[i] == cur->Some_0);
            }
        }
    } else {
        let l = ls[0];
        if l.len() == 0 {
            lemma_section_agrees(ls.skip(1), types, date, acc, cur);
        } else {
            match parse_line(l) {
                Some(p) => {
                    let acc2 = acc + opt_seq(cur);
                    let e2 = entry_of(p, date);
                    if types.contains(p.kind) {
                        assert forall|i: int| 0 <= i < acc2.len() implies types.contains(
                            #[trigger] acc2[i].kind,
                        ) by {
                            if i < acc.len() {
                                assert(acc2[i] == acc[i]);
                            } else {
                                assert(acc2[i] == cur->Some_0);
                            }
                        }
                        lemma_section_agrees(ls.skip(1), types, date, acc2, Some(e2));
                    } else {
                        lemma_section_keeps(ls.skip(1), date, acc2, Some(e2));
                        if section_parse(ls.skip(1), date, acc2, Some(e2)) is Ok {
                            let es = section_parse(ls.skip(1), date, acc2, Some(e2))->Ok_0;
                            assert(es[acc2.len() as int].kind == p.kind);
                            assert(!kinds_allowed(es, types));
                        }
                    }
                },
                None => {
                    if cur is Some {
                        let e = cur->Some_0;
                        lemma_section_agrees(ls.skip(1), types, date, acc, Some(with_detail(e, l.skip(2))));
                    }
                },
            }
        }
    }
}

/// The lines of a text that ends with a line feed, then more text, are its
/// lines, then the lines of the rest.
proof fn lemma_lines_concat(head: Seq<char>, tail: Seq<char>, pos: int)
    requires
        head.len() > 0,
        head[head.len() - 1] == '\n',
        0 <= pos <= head.len(),
    ensures
        lines_from(head + tail, pos) == lines_from(head, pos) + lines(tail),
    decreases head.len() - pos,
{
    let s = head + tail;
    if pos == head.len() {
        lemma_lines_from_skip(s, pos);
        assert(s.skip(pos) =~= tail);
        assert(lines_from(head, pos) =~= Seq::<Seq<char>>::empty());
        assert(lines_from(head, pos) + lines(tail) =~= lines(tail));
    } else {
        lemma_find_char_from(head, '\n', pos);
        let i = find_char_from(head, '\n', pos);
        assert(i < head.len()) by {
            if i >= head.len() {
                assert(head[head.len() - 1] != '\n');
            }
        }
        assert forall|j: int| pos <= j < i implies s[j] != '\n' by {
            assert(s[j] == head[j]);
        }
        assert(s[i] == head[i]);
        lemma_find_char_from_is(s, '\n', pos, i);
        assert(s.subrange(pos, i) =~= head.subrange(pos, i));
        lemma_lines_concat(head, tail, i + 1);
        let seg = strip_cr(head.subrange(pos, i));
        assert(seq![seg] + (lines_from(head, i + 1) + lines(tail)) =~= (seq![seg] + lines_from(head, i + 1))
            + lines(tail));
    }
}

/// Replacing `\r\n` in a text that ends with a line feed leaves one that
/// does too.
proof fn lemma_replace_keeps_final_lf(s: Seq<char>)
    requires
        s.len() > 0,
        s[s.len() - 1] == '\n',
    ensures
        replace_all(s, crlf(), lf()).len() > 0,
        replace_all(s, crlf(), lf())[replace_all(s, crlf(), lf()).len() - 1] == '\n',
    decreases s.len(),
{
    let r = replace_all(s, crlf(), lf());
    if s.len() < 2 {
        assert(r == s);
    } else if s.take(2) == crlf() {
        if s.len() == 2 {
            assert(s.skip(2) =~= Seq::<char>::empty());
            assert(replace_all(s.skip(2), crlf(), lf()) == Seq::<char>::empty());
            assert(r =~= lf());
        } else {
            assert(s.skip(2)[s.skip(2).len() - 1] == s[s.len() - 1]);
            lemma_replace_keeps_final_lf(s.skip(2));
            let t = replace_all(s.skip(2), crlf(), lf());
            assert(r == lf() + t);
            assert(r[r.len() - 1] == t[t.len() - 1]);
        }
    } else {
        assert(s.skip(1)[s.skip(1).len() - 1] == s[s.len() - 1]);
        lemma_replace_keeps_final_lf(s.skip(1));
        let t = replace_all(s.skip(1), crlf(), lf());
        assert(r == seq![s[0]] + t);
        assert(r[r.len() - 1] == t[t.len() - 1]);
    }
}

/// Where a line is found among the first lines, more lines after them do
/// not change where it is first found; where it is not, it is found after
/// them, if at all.
proof fn lemma_first_index_concat(p: Seq<Seq<char>>, q: Seq<Seq<char>>, t: Seq<char>, i: int)
    requires
        0 <= i <= p.len(),
    ensures
        i <= first_index(p, t, i) <= p.len(),
        first_index(p, t, i) < p.len() ==> first_index(p + q, t, i) == first_index(p, t, i),
        first_index(p, t, i) == p.len() ==> first_index(p + q, t, i) >= p.len(),
        (exists|j: int| i <= j < p.len() && p[j] == t) ==> first_index(p, t, i) < p.len(),
    decreases p.len() - i,
{
    if i < p.len() {
        assert((p + q)[i] == p[i]);
        if p[i] != t {
            lemma_first_index_concat(p, q, t, i + 1);
            if exists|j: int| i <= j < p.len() && p[j] == t {
                let j = choose|j: int| i <= j < p.len() && p[j] == t;
                assert(j != i);
            }
        }
    } else {
        lemma_first_index_from(p + q, t, i);
    }
}

proof fn lemma_first_index_from(ls: Seq<Seq<char>>, t: Seq<char>, i: int)
    requires
        0 <= i <= ls.len(),
    ensures
        first_index(ls, t, i) >= i,
    decreases ls.len() - i,
{
    if i < ls.len() && ls[i] != t {
        lemma_first_index_from(ls, t, i + 1);
    }
}

/// The text of a day file, up to `h`, ends a line that comes after a
/// `## Notes` line, and holds no carriage return directly before `\r\n`.
pub open spec fn clean_through_notes(raw: Seq<char>, h: int) -> bool {
    &&& 0 < h <= raw.len()
    &&& raw[h - 1] == '\n'
    &&& no_cr_before_crlf(raw.take(h))
    &&& lines(raw.take(h)).contains(notes_heading())
}

/// `wrk doctor` accepts the text of a day file exactly where the file reads
/// without error and every entry in it is of an allowed type, where no
/// carriage return stands directly before `\r\n` up to the end of the
/// first `## Notes` line (files with `\n` or `\r\n` line ends among them;
/// what follows that line does not matter).
pub proof fn lemma_doctor_agrees_with_reading(date: Date, raw: Seq<char>, types: Seq<Seq<char>>)
    requires
        no_cr_before_crlf(raw) || exists|h: int| clean_through_notes(raw, h),
    ensures
        lint_text(date, raw, types) is Ok <==> (parse_day(date, raw) matches Ok(d) && kinds_allowed(
            d.entries,
            types,
        )),
{
    if no_cr_before_crlf(raw) {
        lemma_lines_after_replace(raw);
        let ls = lines(raw);
        let wi = first_index(ls, work_log_heading(), 0);
        let ni = first_index(ls, notes_heading(), 0);
        lemma_section_agrees(ls.subrange(wi + 1, ni), types, date, seq![], None);
    } else {
        let h = choose|h: int| clean_through_notes(raw, h);
        lemma_doctor_agrees_through_notes(date, raw, types, h);
    }
}

proof fn lemma_doctor_agrees_through_notes(date: Date, raw: Seq<char>, types: Seq<Seq<char>>, h: int)
    requires
        clean_through_notes(raw, h),
    ensures
        lint_text(date, raw, types) is Ok <==> (parse_day(date, raw) matches Ok(d) && kinds_allowed(
            d.entries,
            types,
        )),
{
    let head = raw.take(h);
    let tail = raw.skip(h);
    assert(raw =~= head + tail);
    assert(head[head.len() - 1] == raw[h - 1]);
    // The lines that doctor reads.
    lemma_lines_concat(head, tail, 0);
    let p = lines(head);
    let ll = lines(raw);
    assert(ll == p + lines(tail));
    // The lines that reading sees.
    lemma_replace_split(head, tail);
    lemma_replace_keeps_final_lf(head);
    let rh = replace_all(head, crlf(), lf());
    let rt = replace_all(tail, crlf(), lf());
    let r = replace_all(raw, crlf(), lf());
    assert(r == rh + rt);
    lemma_lines_concat(rh, rt, 0);
    lemma_lines_after_replace(head);
    let lp = lines(r);
    assert(lp == p + lines(rt));
    let wl = work_log_heading();
    let nh = notes_heading();
    let j = choose|j: int| 0 <= j < p.len() && p[j] == nh;
    lemma_first_index_concat(p, lines(tail), nh, 0);
    lemma_first_index_concat(p, lines(rt), nh, 0);
    lemma_first_index_concat(p, lines(tail), wl, 0);
    lemma_first_index_concat(p, lines(rt), wl, 0);
    let ni = first_index(p, nh, 0);
    let wp = first_index(p, wl, 0);
    assert(first_index(ll, nh, 0) == ni);
    assert(first_index(lp, nh, 0) == ni);
    assert(ll[0] == p[0]);
    assert(lp[0] == p[0]);
    if wp < p.len() {
        assert(first_index(ll, wl, 0) == wp);
        assert(first_index(lp, wl, 0) == wp);
        if ni > wp {
            assert(ll.subrange(wp + 1, ni) =~= p.subrange(wp + 1, ni));
            assert(lp.subrange(wp + 1, ni) =~= p.subrange(wp + 1, ni));
            lemma_section_agrees(p.subrange(wp + 1, ni), types, date, seq![], None);
        }
    }
}

/// `lt` is irreflexive and transitive.
pub open spec fn strict_order<A>(lt: spec_fn(A, A) -> bool) -> bool {
    &&& forall|x: A| !#[trigger] lt(x, x)
    &&& forall|x: A, y: A, z: A| #[trigger] lt(x, y) && #[trigger] lt(y, z) ==> lt(x, z)
}

/// `s` is strictly increasing by `lt`.
pub open spec fn sorted_by<A>(s: Seq<A>, lt: spec_fn(A, A) -> bool) -> bool {
    forall|i: int, j: int| 0 <= i < j < s.len() ==> lt(#[trigger] s[i], #[trigger] s[j])
}

/// Two sequences that are strictly increasing by the same strict order and
/// hold the same values are equal.
proof fn lemma_sorted_unique<A>(a: Seq<A>, b: Seq<A>, lt: spec_fn(A, A) -> bool)
    requires
        strict_order(lt),
        sorted_by(a, lt),
        sorted_by(b, lt),
        forall|x: A| a.contains(x) <==> b.contains(x),
    ensures
        a == b,
    decreases a.len(),
{
    if a.len() == 0 {
        if b.len() > 0 {
            assert(b.contains(b[0]));
        }
        assert(a =~= b);
    } else {
        assert(a.contains(a[0]));
        assert(b.len() > 0);
        if a[0] != b[0] {
            assert(b.contains(b[0]));
            let k = choose|k: int| 0 <= k < b.len() && b[k] == a[0];
            let m = choose|m: int| 0 <= m < a.len() && a[m] == b[0];
            assert(k > 0 && m > 0);
            assert(lt(b[0], b[k]));
            assert(lt(a[0], a[m]));
            assert(lt(a[0], a[0]));
        }
        let a1 = a.skip(1);
        let b1 = b.skip(1);
        assert forall|i: int, j: int| 0 <= i < j < a1.len() implies lt(#[trigger] a1[i], #[trigger] a1[j]) by {
            assert(a1[i] == a[i + 1] && a1[j] == a[j + 1]);
        }
        assert forall|i: int, j: int| 0 <= i < j < b1.len() implies lt(#[trigger] b1[i], #[trigger] b1[j]) by {
            assert(b1[i] == b[i + 1] && b1[j] == b[j + 1]);
        }
        assert forall|x: A| a1.contains(x) <==> b1.contains(x) by {
            if a1.contains(x) {
                let i = choose|i: int| 0 <= i < a1.len() && a1[i] == x;
                assert(a[i + 1] == x);
                assert(lt(a[0], a[i + 1]));
                assert(a.contains(x));
                let j = choose|j: int| 0 <= j < b.len() && b[j] == x;
                if j == 0 {
                    assert(lt(x, x));
                }
                assert(b1[j - 1] == x);
            }
            if b1.contains(x) {
                let i = choose|i: int| 0 <= i < b1.len() && b1[i] == x;
                assert(b[i + 1] == x);
                assert(lt(b[0], b[i + 1]));
                assert(b.contains(x));
                let j = choose|j: int| 0 <= j < a.len() && a[j] == x;
                if j == 0 {
                    assert(lt(x, x));
                }
                assert(a1[j - 1] == x);
            }
        }
        lemma_sorted_unique(a1, b1, lt);
        assert(a =~= seq![a[0]] + a1);
        assert(b =~= seq![b[0]] + b1);
    }
}

/// The entries with their continuation lines dropped.
pub open spec fn without_details(es: Seq<EntryView>) -> Seq<EntryView> {
    es.map_values(|e: EntryView| EntryView { details: seq![], ..e })
}

proof fn lemma_entries_of_day_ignore_details(es: Seq<EntryView>, d: Date)
    ensures
        entries_of_day(es, d, false) == entries_of_day(without_details(es), d, false),
        entries_of_day(without_details(es), d, false) == entries_of_day(without_details(es), d, true),
    decreases es.len(),
{
    if es.len() > 0 {
        let w = without_details(es);
        assert(w.drop_last() =~= without_details(es.drop_last()));
        lemma_entries_of_day_ignore_details(es.drop_last(), d);
        let e = es.last();
        let f = w.last();
        assert(f == EntryView { details: seq![], ..e });
        assert(details_text(f.details) == Seq::<char>::empty());
        assert(day_entry_text(e, false) =~= day_entry_text(f, false));
        assert(day_entry_text(f, false) =~= day_entry_text(f, true));
    }
}

proof fn lemma_entries_of_label_ignore_details(es: Seq<EntryView>, l: Seq<char>)
    ensures
        entries_of_label(es, l, false) == entries_of_label(without_details(es), l, false),
        entries_of_label(without_details(es), l, false) == entries_of_label(without_details(es), l, true),
    decreases es.len(),
{
    if es.len() > 0 {
        let w = without_details(es);
        assert(w.drop_last() =~= without_details(es.drop_last()));
        lemma_entries_of_label_ignore_details(es.drop_last(), l);
        let e = es.last();
        let f = w.last();
        assert(f == EntryView { details: seq![], ..e });
        assert(details_text(f.details) == Seq::<char>::empty());
        assert(project_entry_text(e, false) =~= project_entry_text(f, false));
        assert(project_entry_text(f, false) =~= project_entry_text(f, true));
    }
}

/// Without all lines, a listing by day shows no continuation line: listing
/// the entries or the entries without their continuation lines gives the
/// same text, with or without all lines.
pub proof fn lemma_day_listing_ignores_details(es: Seq<EntryView>, ds: Seq<Date>, ds2: Seq<Date>)
    requires
        lists_dates(ds, es),
        lists_dates(ds2, without_details(es)),
    ensures
        ds == ds2,
        by_day_text(es, ds, false) == by_day_text(without_details(es), ds2, false),
        by_day_text(without_details(es), ds2, false) == by_day_text(without_details(es), ds2, true),
{
    let w = without_details(es);
    let lt = |x: Date, y: Date| date_order(x, y) < 0;
    assert forall|x: Date| !#[trigger] lt(x, x) by {
        crate::order::lemma_date_order(x, x, x);
    }
    assert forall|x: Date, y: Date, z: Date| #[trigger] lt(x, y) && #[trigger] lt(y, z) implies lt(x, z) by {
        crate::order::lemma_date_order(x, y, z);
    }
    assert forall|x: Date| ds.contains(x) <==> ds2.contains(x) by {
        if ds.contains(x) {
            let i = choose|i: int| 0 <= i < es.len() && (#[trigger] es[i]).date == x;
            assert(w[i].date == x);
        }
        if ds2.contains(x) {
            let i = choose|i: int| 0 <= i < w.len() && (#[trigger] w[i]).date == x;
            assert(es[i].date == x);
        }
    }
    lemma_sorted_unique(ds, ds2, lt);
    assert forall|k: int| 0 <= k < ds.len() implies #[trigger] day_block(es, ds[k], false) == day_block(
        w,
        ds[k],
        false,
    ) && day_block(w, ds[k], false) == day_block(w, ds[k], true) by {
        lemma_entries_of_day_ignore_details(es, ds[k]);
    }
    assert(ds.map_values(|d: Date| day_block(es, d, false)) =~= ds.map_values(
        |d: Date| day_block(w, d, false),
    ));
    assert(ds.map_values(|d: Date| day_block(w, d, false)) =~= ds.map_values(
        |d: Date| day_block(w, d, true),
    ));
}

/// A sorting permutation of `n` entries lists every index.
proof fn lemma_permutation_covers(es: Seq<EntryView>, perm: Seq<int>, by_project: bool)
    requires
        is_sort_permutation(es, perm, by_project),
    ensures
        forall|k: int| 0 <= k < es.len() ==> perm.contains(k),
{
    assert(perm.no_duplicates()) by {
        assert forall|a: int, b: int| 0 <= a < perm.len() && 0 <= b < perm.len() && a != b implies perm[a]
            != perm[b] by {
            lemma_key_order(es[perm[a]], es[perm[a]], es[perm[a]], by_project);
            if a < b {
                assert(sorts_before(es, perm[a], perm[b], by_project));
            } else {
                assert(sorts_before(es, perm[b], perm[a], by_project));
            }
        }
    }
    perm.unique_seq_to_set();
    let range = vstd::set_lib::set_int_range(0, es.len() as int);
    vstd::set_lib::lemma_int_range(0, es.len() as int);
    assert(perm.to_set().subset_of(range)) by {
        assert forall|k: int| perm.to_set().contains(k) implies range.contains(k) by {
            let a = choose|a: int| 0 <= a < perm.len() && perm[a] == k;
            assert(0 <= perm[a] < es.len());
        }
    }
    vstd::set_lib::lemma_subset_equality(perm.to_set(), range);
    assert forall|k: int| 0 <= k < es.len() implies perm.contains(k) by {
        assert(range.contains(k));
        assert(perm.to_set().contains(k));
    }
}

/// Without all lines, a listing by project shows no continuation line: it
/// sorts and groups the entries without their continuation lines in the
/// same way, and gives the same text, with or without all lines.
pub proof fn lemma_project_listing_ignores_details(
    es: Seq<EntryView>,
    sorted: Seq<EntryView>,
    ls: Seq<Seq<char>>,
    sorted2: Seq<EntryView>,
    ls2: Seq<Seq<char>>,
)
    requires
        is_stable_sort(es, sorted, true),
        lists_labels(ls, sorted),
        is_stable_sort(without_details(es), sorted2, true),
        lists_labels(ls2, sorted2),
    ensures
        sorted2 == without_details(sorted),
        ls == ls2,
        by_project_text(sorted, ls, false) == by_project_text(sorted2, ls2, false),
        by_project_text(sorted2, ls2, false) == by_project_text(sorted2, ls2, true),
{
    let w = without_details(es);
    let p1 = choose|perm: Seq<int>|
        is_sort_permutation(es, perm, true) && sorted == perm.map_values(|k: int| es[k]);
    let p2 = choose|perm: Seq<int>|
        is_sort_permutation(w, perm, true) && sorted2 == perm.map_values(|k: int| w[k]);
    let lt = |i: int, j: int| sorts_before(es, i, j, true);
    assert forall|x: int| !#[trigger] lt(x, x) by {
        lemma_key_order(es[x], es[x], es[x], true);
    }
    assert forall|x: int, y: int, z: int| #[trigger] lt(x, y) && #[trigger] lt(y, z) implies lt(x, z) by {
        lemma_key_order(es[x], es[y], es[z], true);
        lemma_key_order(es[x], es[y], es[x], true);
    }
    assert forall|i: int, j: int| 0 <= i < j < p2.len() implies lt(#[trigger] p2[i], #[trigger] p2[j]) by {
        assert(sorts_before(w, p2[i], p2[j], true));
        assert(w[p2[i]] == EntryView { details: seq![], ..es[p2[i]] });
        assert(w[p2[j]] == EntryView { details: seq![], ..es[p2[j]] });
        assert(key_order(w[p2[i]], w[p2[j]], true) == key_order(es[p2[i]], es[p2[j]], true));
    }
    assert forall|i: int, j: int| 0 <= i < j < p1.len() implies lt(#[trigger] p1[i], #[trigger] p1[j]) by {
        assert(sorts_before(es, p1[i], p1[j], true));
    }
    lemma_permutation_covers(es, p1, true);
    lemma_permutation_covers(w, p2, true);
    assert forall|x: int| p1.contains(x) <==> p2.contains(x) by {
        if p1.contains(x) {
            let a = choose|a: int| 0 <= a < p1.len() && p1[a] == x;
            assert(0 <= p1[a] < es.len());
        }
        if p2.contains(x) {
            let a = choose|a: int| 0 <= a < p2.len() && p2[a] == x;
            assert(0 <= p2[a] < w.len());
        }
    }
    lemma_sorted_unique(p1, p2, lt);
    assert forall|k: int| 0 <= k < sorted2.len() implies #[trigger] sorted2[k] == without_details(sorted)[k] by {
        assert(0 <= p1[k] < es.len());
    }
    assert(sorted2 =~= without_details(sorted));
    let tl = |x: Seq<char>, y: Seq<char>| text_order(x, y) < 0;
    assert forall|x: Seq<char>| !#[trigger] tl(x, x) by {
        lemma_text_order(x, x, x);
    }
    assert forall|x: Seq<char>, y: Seq<char>, z: Seq<char>| #[trigger] tl(x, y) && #[trigger] tl(y, z) implies tl(
        x,
        z,
    ) by {
        lemma_text_order(x, y, z);
    }
    assert forall|x: Seq<char>| ls.contains(x) <==> ls2.contains(x) by {
        if ls.contains(x) {
            let i = choose|i: int| 0 <= i < sorted.len() && project_label(#[trigger] sorted[i]) == x;
            assert(project_label(sorted2[i]) == x);
        }
        if ls2.contains(x) {
            let i = choose|i: int| 0 <= i < sorted2.len() && project_label(#[trigger] sorted2[i]) == x;
            assert(project_label(sorted[i]) == x);
        }
    }
    lemma_sorted_unique(ls, ls2, tl);
    assert forall|k: int| 0 <= k < ls.len() implies #[trigger] label_block(sorted, ls[k], false)
        == label_block(sorted2, ls[k], false) && label_block(sorted2, ls[k], false) == label_block(
        sorted2,
        ls[k],
        true,
    ) by {
        lemma_entries_of_label_ignore_details(sorted, ls[k]);
    }
    assert(ls.map_values(|l: Seq<char>| label_block(sorted, l, false)) =~= ls.map_values(
        |l: Seq<char>| label_block(sorted2, l, false),
    ));
    assert(ls.map_values(|l: Seq<char>| label_block(sorted2, l, false)) =~= ls.map_values(
        |l: Seq<char>| label_block(sorted2, l, true),
    ));
}

/// A name of a path: not empty and without slashes.
pub open spec fn path_name(n: Seq<char>) -> bool {
    n.len() > 0 && forall|i: int| 0 <= i < n.len() ==> #[trigger] n[i] != '/'
}

proof fn lemma_names_then_name(c: Seq<char>, n: Seq<char>, pos: int)
    requires
        c.len() > 0,
        c[c.len() - 1] == '/',
        path_name(n),
        0 <= pos <= c.len(),
    ensures
        names_from(c + n, pos) == names_from(c, pos).push(n),
    decreases c.len() - pos,
{
    let s = c + n;
    if pos == c.len() {
        assert forall|j: int| pos <= j < s.len() implies s[j] != '/' by {
            assert(s[j] == n[j - pos]);
        }
        lemma_find_char_from_is(s, '/', pos, s.len() as int);
        assert(s.subrange(pos, s.len() as int) =~= n);
        assert(names_from(s, pos) =~= seq![n]);
        assert(names_from(c, pos) =~= Seq::<Seq<char>>::empty());
        assert(names_from(c, pos).push(n) =~= seq![n]);
    } else {
        lemma_find_char_from(c, '/', pos);
        let i = find_char_from(c, '/', pos);
        assert(i < c.len()) by {
            if i >= c.len() {
                assert(c[c.len() - 1] != '/');
            }
        }
        assert forall|j: int| pos <= j < i implies s[j] != '/' by {
            assert(s[j] == c[j]);
        }
        assert(s[i] == c[i]);
        lemma_find_char_from_is(s, '/', pos, i);
        lemma_names_then_name(c, n, i + 1);
        assert(s.subrange(pos, i) =~= c.subrange(pos, i));
        if i == pos {
            assert(names_from(s, pos) == names_from(s, i + 1));
            assert(names_from(c, pos) == names_from(c, i + 1));
        } else {
            assert(names_from(s, pos) == seq![s.subrange(pos, i)] + names_from(s, i + 1));
            assert(names_from(c, pos) == seq![c.subrange(pos, i)] + names_from(c, i + 1));
            assert(seq![c.subrange(pos, i)] + names_from(c, i + 1).push(n) =~= (seq![c.subrange(pos, i)]
                + names_from(c, i + 1)).push(n));
        }
    }
}

proof fn lemma_names_trailing_slash(b: Seq<char>, pos: int)
    requires
        0 <= pos <= b.len(),
    ensures
        names_from(b + seq!['/'], pos) == names_from(b, pos),
    decreases b.len() - pos,
{
    let s = b + seq!['/'];
    if pos == b.len() {
        lemma_find_char_from_is(s, '/', pos, pos);
        assert(names_from(s, pos + 1) =~= Seq::<Seq<char>>::empty());
    } else {
        lemma_find_char_from(b, '/', pos);
        let i = find_char_from(b, '/', pos);
        assert forall|j: int| pos <= j < i implies s[j] != '/' by {
            assert(s[j] == b[j]);
        }
        if i < b.len() {
            assert(s[i] == b[i]);
        } else {
            assert(s[i] == '/');
        }
        lemma_find_char_from_is(s, '/', pos, i);
        assert(s.subrange(pos, i) =~= b.subrange(pos, i));
        if i < b.len() {
            lemma_names_trailing_slash(b, i + 1);
        } else {
            assert(names_from(s, i + 1) =~= Seq::<Seq<char>>::empty());
            assert(names_from(b, pos) =~= seq![b.subrange(pos, i)]);
        }
    }
}

/// Joining a name to a path adds that name to its components.
proof fn lemma_join_name_parts(b: Seq<char>, n: Seq<char>)
    requires
        path_name(n),
    ensures
        path_parts(join_path(b, n)) == path_parts(b).push(n),
{
    let s = join_path(b, n);
    if b.len() == 0 {
        assert(s =~= n);
        assert(n[0] != '/');
        assert forall|j: int| 0 <= j < n.len() implies n[j] != '/' by {}
        lemma_find_char_from_is(n, '/', 0, n.len() as int);
        assert(n.subrange(0, n.len() as int) =~= n);
        assert(names_from(n, 0) =~= seq![n]);
        assert(path_parts(b) =~= Seq::<Seq<char>>::empty());
        assert(path_parts(b).push(n) =~= seq![n]);
    } else {
        let start: int = if b[0] == '/' {
            1
        } else {
            0
        };
        let c = if b.last() == '/' {
            b
        } else {
            b + seq!['/']
        };
        assert(s == c + n);
        assert(c.len() > 0 && c[c.len() - 1] == '/');
        assert(s[0] == b[0]);
        lemma_names_then_name(c, n, start);
        if b.last() != '/' {
            lemma_names_trailing_slash(b, start);
        }
        if b[0] == '/' {
            assert(path_parts(s) == seq![root_part()] + names_from(s, 1));
            assert(path_parts(b) == seq![root_part()] + names_from(b, 1));
            assert(seq![root_part()] + names_from(b, 1).push(n) =~= (seq![root_part()] + names_from(b, 1)).push(
                n,
            ));
        }
    }
}

/// The file of a day lies under the log root as `YYYY/MM/YYYY-MM-DD.md`,
/// so that the date its path names is that day, for the years that a date
/// writes with four digits, as `%Y-%m-%d` reads its own output.
pub proof fn lemma_log_path_names_its_date(root: Seq<char>, d: Date)
    requires
        d.wf(),
        0 <= d.year <= 9999,
    ensures
        relative_parts(root, log_path_text(root, d)) == Some(
            seq![padded_int(d.year as int, 4), padded_int(d.month as int, 2), date_text(d) + md_suffix()],
        ),
        parsed_ymd(date_text(d)) == Some((d.year as int, d.month as int, d.day as int)) ==> date_of_path(
            root,
            log_path_text(root, d),
        ) == Ok::<(int, int, int), ErrorView>((d.year as int, d.month as int, d.day as int)),
{
    let y = padded_int(d.year as int, 4);
    let m = padded_int(d.month as int, 2);
    let f = date_text(d) + md_suffix();
    lemma_padded_digits(d.year as nat, 4);
    lemma_padded_digits(d.month as nat, 2);
    lemma_padded_digits(d.day as nat, 2);
    assert(y == zero_padded(decimal(d.year as nat), 4));
    assert(m == zero_padded(decimal(d.month as nat), 2));
    assert(path_name(y)) by {
        assert forall|i: int| 0 <= i < y.len() implies #[trigger] y[i] != '/' by {
            assert(is_ascii_digit(y[i]));
        }
    }
    assert(path_name(m)) by {
        assert forall|i: int| 0 <= i < m.len() implies #[trigger] m[i] != '/' by {
            assert(is_ascii_digit(m[i]));
        }
    }
    let dd = zero_padded(decimal(d.day as nat), 2);
    let dt = date_text(d);
    assert(dt =~= y + seq!['-'] + m + seq!['-'] + dd);
    assert(path_name(f)) by {
        assert forall|i: int| 0 <= i < f.len() implies #[trigger] f[i] != '/' by {
            if i < y.len() {
                assert(f[i] == y[i]);
                assert(is_ascii_digit(y[i]));
            } else if y.len() < i < y.len() + 1 + m.len() {
                assert(f[i] == m[i - y.len() - 1]);
                assert(is_ascii_digit(m[i - y.len() - 1]));
            } else if y.len() + 1 + m.len() < i < dt.len() {
                assert(f[i] == dd[i - y.len() - 2 - m.len()]);
                assert(is_ascii_digit(dd[i - y.len() - 2 - m.len()]));
            } else if i >= dt.len() {
                assert(f[i] == md_suffix()[i - dt.len()]);
            }
        }
    }
    let a = join_path(root, y);
    let b = join_path(a, m);
    lemma_join_name_parts(root, y);
    lemma_join_name_parts(a, m);
    lemma_join_name_parts(b, f);
    let rp = path_parts(root);
    let lp = path_parts(log_path_text(root, d));
    assert(lp == rp.push(y).push(m).push(f));
    assert(lp.take(rp.len() as int) =~= rp);
    assert(lp.skip(rp.len() as int) =~= seq![y, m, f]);
    let cs = seq![y, m, f];
    assert(f.skip(f.len() - 3) =~= md_suffix());
    assert(f.take(f.len() - 3) =~= dt);
}

/// No carriage return stands directly before `\r\n`.
pub open spec fn no_cr_before_crlf(s: Seq<char>) -> bool {
    forall|i: int| 0 <= i && i + 2 < s.len() ==> !(#[trigger] s[i] == '\r' && s[i + 1] == '\r' && s[i + 2]
        == '\n')
}

proof fn lemma_find_shift(s: Seq<char>, c: char, k: int, i: int)
    requires
        0 <= k <= i <= s.len(),
        i == find_char_from(s, c, k),
    ensures
        find_char_from(s.skip(k), c, 0) == i - k,
{
    lemma_find_char_from(s, c, k);
    let t = s.skip(k);
    assert forall|j: int| 0 <= j < i - k implies t[j] != c by {
        assert(t[j] == s[j + k]);
    }
    if i < s.len() {
        assert(t[i - k] == s[i]);
    }
    lemma_find_char_from_is(t, c, 0, i - k);
}

/// The lines from position `k` are the lines of the text from there.
proof fn lemma_lines_from_skip(s: Seq<char>, k: int)
    requires
        0 <= k <= s.len(),
    ensures
        lines_from(s, k) == lines(s.skip(k)),
    decreases s.len() - k,
{
    let t = s.skip(k);
    if k < s.len() {
        lemma_find_char_from(s, '\n', k);
        let i = find_char_from(s, '\n', k);
        lemma_find_shift(s, '\n', k, i);
        let j = i - k;
        assert(t.subrange(0, j) =~= s.subrange(k, i));
        if i < s.len() {
            lemma_lines_from_skip(s, i + 1);
            lemma_lines_from_skip(t, j + 1);
            assert(t.skip(j + 1) =~= s.skip(i + 1));
        } else {
            assert(t.subrange(0, t.len() as int) =~= s.subrange(k, s.len() as int));
        }
    } else {
        assert(lines_from(t, 0) =~= Seq::<Seq<char>>::empty());
    }
}

/// Replacing `\r\n` works on the two parts of a text apart where the first
/// does not end in a carriage return.
proof fn lemma_replace_split(p: Seq<char>, x: Seq<char>)
    requires
        p.len() == 0 || p[p.len() - 1] != '\r',
    ensures
        replace_all(p + x, crlf(), lf()) == replace_all(p, crlf(), lf()) + replace_all(x, crlf(), lf()),
    decreases p.len(),
{
    let s = p + x;
    if p.len() == 0 {
        assert(s =~= x);
        assert(replace_all(p, crlf(), lf()) =~= p);
        assert(p + replace_all(x, crlf(), lf()) =~= replace_all(x, crlf(), lf()));
    } else if s.len() < 2 {
        assert(x.len() == 0);
        assert(replace_all(x, crlf(), lf()) == x);
        assert(p + x =~= p);
        assert(replace_all(p, crlf(), lf()) + x =~= replace_all(p, crlf(), lf()));
    } else if p.len() >= 2 && p.take(2) == crlf() {
        assert(s.take(2) =~= p.take(2));
        assert(s.skip(2) =~= p.skip(2) + x);
        if p.len() > 2 {
            assert(p.skip(2)[p.skip(2).len() - 1] == p[p.len() - 1]);
        }
        lemma_replace_split(p.skip(2), x);
        assert(lf() + (replace_all(p.skip(2), crlf(), lf()) + replace_all(x, crlf(), lf())) =~= (lf()
            + replace_all(p.skip(2), crlf(), lf())) + replace_all(x, crlf(), lf()));
    } else {
        assert(s[0] == p[0]);
        if p.len() >= 2 {
            assert(s.take(2) =~= p.take(2));
        } else {
            assert(s.take(2)[0] == p[0]);
            assert(p[0] != '\r');
        }
        assert(s.take(2) != crlf());
        if p.len() > 1 {
            assert(p.skip(1)[p.skip(1).len() - 1] == p[p.len() - 1]);
        }
        lemma_replace_split(p.skip(1), x);
        assert(s.skip(1) =~= p.skip(1) + x);
        if p.len() >= 2 {
            assert(replace_all(p, crlf(), lf()) == seq![p[0]] + replace_all(p.skip(1), crlf(), lf()));
        } else {
            assert(replace_all(p, crlf(), lf()) == p);
            assert(p.skip(1) =~= Seq::<char>::empty());
            assert(replace_all(p.skip(1), crlf(), lf()) == Seq::<char>::empty());
            assert(seq![p[0]] =~= p);
        }
        assert(seq![s[0]] + (replace_all(p.skip(1), crlf(), lf()) + replace_all(x, crlf(), lf())) =~= (
        seq![p[0]] + replace_all(p.skip(1), crlf(), lf())) + replace_all(x, crlf(), lf()));
    }
}

/// A text without line feeds has no `\r\n` to replace.
proof fn lemma_replace_no_lf(t: Seq<char>)
    requires
        no_line_feed(t),
    ensures
        replace_all(t, crlf(), lf()) == t,
    decreases t.len(),
{
    if t.len() >= 2 {
        assert(t.take(2)[1] == t[1]);
        assert(t.take(2) != crlf());
        assert forall|i: int| 0 <= i < t.skip(1).len() implies #[trigger] t.skip(1)[i] != '\n' by {
            assert(t.skip(1)[i] == t[i + 1]);
        }
        lemma_replace_no_lf(t.skip(1));
        assert(seq![t[0]] + t.skip(1) =~= t);
    }
}

/// Where no carriage return stands before `\r\n`, replacing `\r\n` by
/// `\n` changes nothing in the lines of a text.
proof fn lemma_lines_after_replace(s: Seq<char>)
    requires
        no_cr_before_crlf(s),
    ensures
        lines(replace_all(s, crlf(), lf())) == lines(s),
    decreases s.len(),
{
    lemma_find_char_from(s, '\n', 0);
    let i = find_char_from(s, '\n', 0);
    let seg = s.subrange(0, i);
    assert(no_line_feed(seg)) by {
        assert forall|j: int| 0 <= j < seg.len() implies #[trigger] seg[j] != '\n' by {
            assert(seg[j] == s[j]);
        }
    }
    if i >= s.len() {
        assert(seg =~= s);
        lemma_replace_no_lf(s);
    } else {
        let rest = s.skip(i + 1);
        assert(s =~= seg + (lf() + rest));
        assert(no_cr_before_crlf(rest)) by {
            assert forall|j: int| 0 <= j && j + 2 < rest.len() implies !(#[trigger] rest[j] == '\r' && rest[j
                + 1] == '\r' && rest[j + 2] == '\n') by {
                assert(rest[j] == s[j + i + 1] && rest[j + 1] == s[j + i + 2] && rest[j + 2] == s[j + i + 3]);
                assert(!(s[j + i + 1] == '\r' && s[j + i + 2] == '\r' && s[j + i + 3] == '\n'));
            }
        }
        lemma_lines_after_replace(rest);
        // the lines of the text itself
        lemma_lines_from_skip(s, i + 1);
        assert(lines(s) == seq![strip_cr(seg)] + lines(rest));
        // the first line once `\r\n` is replaced
        let t = strip_cr(seg);
        let rr = replace_all(rest, crlf(), lf());
        assert(no_line_feed(t)) by {
            assert forall|j: int| 0 <= j < t.len() implies #[trigger] t[j] != '\n' by {
                assert(t[j] == seg[j]);
            }
        }
        lemma_replace_no_lf(t);
        if seg.len() > 0 && seg[seg.len() - 1] == '\r' {
            assert(seg =~= t + seq!['\r']);
            if t.len() > 0 {
                assert(t[t.len() - 1] != '\r') by {
                    if i >= 2 {
                        assert(s[i - 2] == t[t.len() - 1]);
                        assert(s[i - 1] == '\r' && s[i] == '\n');
                    }
                }
            }
            lemma_replace_split(t, crlf() + rest);
            assert(crlf() + rest =~= seq!['\r', '\n'] + rest);
            assert((crlf() + rest).take(2) =~= crlf());
            assert((crlf() + rest).skip(2) =~= rest);
            assert(s =~= t + (crlf() + rest));
            assert(replace_all(s, crlf(), lf()) == t + (lf() + rr));
        } else {
            assert(t == seg);
            lemma_replace_split(seg, lf() + rest);
            if rest.len() == 0 {
                assert(lf() + rest =~= lf());
                assert(replace_all(lf(), crlf(), lf()) == lf());
                assert(rr == Seq::<char>::empty());
                assert(lf() + rr =~= lf());
            } else {
                assert((lf() + rest).take(2)[0] == '\n');
                assert(crlf()[0] == '\r');
                assert((lf() + rest).take(2) != crlf());
                assert((lf() + rest).skip(1) =~= rest);
                assert(replace_all(lf() + rest, crlf(), lf()) =~= lf() + rr);
            }
            assert(replace_all(s, crlf(), lf()) == t + (lf() + rr));
        }
        let r = t + (lf() + rr);
        assert(no_line_feed(t));
        assert forall|j: int| 0 <= j < t.len() implies r[j] != '\n' by {
            assert(r[j] == t[j]);
        }
        assert(r[t.len() as int] == '\n');
        lemma_find_char_from_is(r, '\n', 0, t.len() as int);
        assert(r.subrange(0, t.len() as int) =~= t);
        if t.len() > 0 {
            assert(t[t.len() - 1] != '\r') by {
                if seg.len() > 0 && seg[seg.len() - 1] == '\r' {
                    if i >= 2 {
                        assert(s[i - 2] == t[t.len() - 1]);
                        assert(s[i - 1] == '\r' && s[i] == '\n');
                    }
                } else {
                    assert(t[t.len() - 1] == seg[seg.len() - 1]);
                }
            }
        }
        assert(strip_cr(t) == t);
        lemma_lines_from_skip(r, t.len() as int + 1);
        assert(r.skip(t.len() as int + 1) =~= rr);
    }
}

/// The editors vim, nvim, vi, nano, hx and helix are opened at the line:
/// `+LINE`, then the path, after the other words of the command.
pub proof fn lemma_plus_line_editors(ws: Seq<Seq<char>>, path: Seq<char>, line: nat, n: Seq<char>)
    requires
        ws.len() > 0,
        file_name_of(ws[0]) == Some(n),
        n == "vim"@ || n == "nvim"@ || n == "vi"@ || n == "nano"@ || n == "hx"@ || n == "helix"@,
    ensures
        invocation_from_words(ws, path, line) == Ok::<(Seq<char>, Seq<Seq<char>>), ErrorView>(
            (ws[0], ws.skip(1) + seq![seq!['+'] + decimal(line), path]),
        ),
{
}

/// The editors code, codium, subl and mate are opened at the line with
/// `--goto PATH:LINE`, after the other words of the command.
pub proof fn lemma_goto_editors(ws: Seq<Seq<char>>, path: Seq<char>, line: nat, n: Seq<char>)
    requires
        ws.len() > 0,
        file_name_of(ws[0]) == Some(n),
        n == "code"@ || n == "codium"@ || n == "subl"@ || n == "mate"@,
    ensures
        invocation_from_words(ws, path, line) == Ok::<(Seq<char>, Seq<Seq<char>>), ErrorView>(
            (ws[0], ws.skip(1) + seq!["--goto"@, path + seq![':'] + decimal(line)]),
        ),
{
    reveal_strlit("vim");
    reveal_strlit("nvim");
    reveal_strlit("vi");
    reveal_strlit("nano");
    reveal_strlit("hx");
    reveal_strlit("helix");
    reveal_strlit("code");
    reveal_strlit("codium");
    reveal_strlit("subl");
    reveal_strlit("mate");
    assert(n.len() > 0 && n[0] != 'v' && n[0] != 'n' && n[0] != 'h');
    assert(n != "vim"@ && n != "nvim"@ && n != "vi"@ && n != "nano"@ && n != "hx"@ && n != "helix"@) by {
        if n == "vim"@ || n == "vi"@ {
            assert(n[0] == 'v');
        }
        if n == "nvim"@ || n == "nano"@ {
            assert(n[0] == 'n');
        }
        if n == "hx"@ || n == "helix"@ {
            assert(n[0] == 'h');
        }
    }
}

/// Any other editor is given the path alone, after the other words of the
/// command.
pub proof fn lemma_other_editors(ws: Seq<Seq<char>>, path: Seq<char>, line: nat, n: Seq<char>)
    requires
        ws.len() > 0,
        file_name_of(ws[0]) == Some(n),
        n != "vim"@ && n != "nvim"@ && n != "vi"@ && n != "nano"@ && n != "hx"@ && n != "helix"@,
        n != "code"@ && n != "codium"@ && n != "subl"@ && n != "mate"@,
    ensures
        invocation_from_words(ws, path, line) == Ok::<(Seq<char>, Seq<Seq<char>>), ErrorView>(
            (ws[0], ws.skip(1) + seq![path]),
        ),
{
}

/// `:code:`, for a non-empty code of the characters A-Z, a-z, 0-9, `_`,
/// `+` and `-`, becomes the emoji of that code where there is one, and
/// stays as it is where there is none.
pub proof fn lemma_shortcode_expands(c: Seq<char>)
    requires
        c.len() > 0,
        forall|i: int|
            0 <= i < c.len() ==> ('A' <= #[trigger] c[i] && c[i] <= 'Z') || ('a' <= c[i] && c[i] <= 'z') || (
            '0' <= c[i] && c[i] <= '9') || c[i] == '_' || c[i] == '+' || c[i] == '-',
    ensures
        match emoji_glyph(c) {
            Some(g) => expanded(seq![':'] + c + seq![':']) == g,
            None => expanded(seq![':'] + c + seq![':']) == seq![':'] + c + seq![':'],
        },
{
    let s = seq![':'] + c + seq![':'];
    let end: int = c.len() as int + 1;
    lemma_code_end(s, 1);
    assert forall|j: int| 1 <= j < end implies is_shortcode_char(#[trigger] s[j]) by {
        assert(s[j] == c[j - 1]);
    }
    assert(s[end] == ':');
    assert(code_end(s, 1) == end) by {
        let k = code_end(s, 1);
        if k < end {
            assert(is_shortcode_char(s[k]));
        }
        if k > end {
            assert(is_shortcode_char(s[end]));
        }
    }
    assert(shortcode_at(s, 0));
    assert(next_shortcode(s, 0) == 0);
    assert(shortcode_stop(s, 0) == s.len());
    assert(s.subrange(1, end) =~= c);
    assert(shortcodes_from(s, s.len() as int) =~= Seq::<Seq<char>>::empty());
    assert(shortcodes_from(s, 0) =~= seq![c]);
    let reps = shortcodes_from(s, 0).map_values(|x: Seq<char>| emoji_glyph(x));
    assert(reps[0] == emoji_glyph(c));
    assert(replaced_from(s, s.len() as int, reps.skip(1)) =~= Seq::<char>::empty());
    assert(s.subrange(0, 0) =~= Seq::<char>::empty());
    assert(s.subrange(0, s.len() as int) =~= s);
    match emoji_glyph(c) {
        Some(g) => {
            assert(expanded(s) =~= g);
        },
        None => {
            assert(expanded(s) =~= s);
        },
    }
}

/// The order of dates is the calendar's: by day number.
pub proof fn lemma_date_order_is_calendar(a: Date, b: Date)
    requires
        a.wf(),
        b.wf(),
    ensures
        date_order(a, b) < 0 <==> a.number() < b.number(),
        date_order(a, b) == 0 <==> a.number() == b.number(),
        date_order(a, b) > 0 <==> a.number() > b.number(),
{
    crate::calendar::lemma_date_order(a, b);
    crate::calendar::lemma_date_order(b, a);
}

/// The order of times of day is the clock's: by minutes since midnight.
pub proof fn lemma_time_order_is_clock(a: Time, b: Time)
    requires
        a.wf(),
        b.wf(),
    ensures
        time_order(a, b) < 0 <==> a.hour * 60 + a.minute < b.hour * 60 + b.minute,
        time_order(a, b) == 0 <==> a.hour * 60 + a.minute == b.hour * 60 + b.minute,
        time_order(a, b) > 0 <==> a.hour * 60 + a.minute > b.hour * 60 + b.minute,
{
}

/// Sorted entries come in the order of days, and within a day in the order
/// of the clock.
pub proof fn lemma_sorted_entries_chronological(es: Seq<EntryView>, r: Seq<EntryView>)
    requires
        forall|i: int| 0 <= i < es.len() ==> (#[trigger] es[i]).date.wf() && es[i].timestamp.wf(),
        is_stable_sort(es, r, false),
    ensures
        forall|i: int, j: int|
            0 <= i < j < r.len() ==> (#[trigger] r[i]).date.number() < (#[trigger] r[j]).date.number() || (
            r[i].date.number() == r[j].date.number() && r[i].timestamp.hour * 60 + r[i].timestamp.minute
                <= r[j].timestamp.hour * 60 + r[j].timestamp.minute),
{
    let perm = choose|perm: Seq<int>|
        is_sort_permutation(es, perm, false) && r == perm.map_values(|k: int| es[k]);
    assert forall|i: int, j: int| 0 <= i < j < r.len() implies (#[trigger] r[i]).date.number() < (
    #[trigger] r[j]).date.number() || (r[i].date.number() == r[j].date.number()
        && r[i].timestamp.hour * 60 + r[i].timestamp.minute <= r[j].timestamp.hour * 60
        + r[j].timestamp.minute) by {
        let x = es[perm[i]];
        let y = es[perm[j]];
        assert(r[i] == x && r[j] == y);
        assert(sorts_before(es, perm[i], perm[j], false));
        assert(x.date.wf() && x.timestamp.wf() && y.date.wf() && y.timestamp.wf());
        lemma_date_order_is_calendar(x.date, y.date);
        lemma_time_order_is_clock(x.timestamp, y.timestamp);
        crate::order::lemma_date_order(x.date, y.date, x.date);
        lemma_key_order(x, y, x, false);
    }
}

/// A listing by day shows the days in calendar order.
pub proof fn lemma_listed_days_in_calendar_order(ds: Seq<Date>, es: Seq<EntryView>)
    requires
        forall|i: int| 0 <= i < es.len() ==> (#[trigger] es[i]).date.wf(),
        lists_dates(ds, es),
    ensures
        forall|i: int, j: int| 0 <= i < j < ds.len() ==> (#[trigger] ds[i]).number() < (#[trigger] ds[j]).number(),
{
    assert forall|i: int, j: int| 0 <= i < j < ds.len() implies (#[trigger] ds[i]).number() < (
    #[trigger] ds[j]).number() by {
        assert(ds.contains(ds[i]));
        assert(ds.contains(ds[j]));
        let a = choose|k: int| 0 <= k < es.len() && (#[trigger] es[k]).date == ds[i];
        let b = choose|k: int| 0 <= k < es.len() && (#[trigger] es[k]).date == ds[j];
        assert(ds[i].wf() && ds[j].wf());
        lemma_date_order_is_calendar(ds[i], ds[j]);
    }
}

proof fn lemma_keep_project_exact(project: Seq<char>, es: Seq<EntryView>)
    ensures
        forall|i: int| 0 <= i < keep_project(project, es).len() ==> (#[trigger] keep_project(project, es)[i]).project
            == Some(project),
        forall|j: int| 0 <= j < es.len() && (#[trigger] es[j]).project == Some(project) ==> keep_project(
            project,
            es,
        ).contains(es[j]),
    decreases es.len(),
{
    if es.len() > 0 {
        let front = es.drop_last();
        lemma_keep_project_exact(project, front);
        let k = keep_project(project, front);
        assert forall|j: int| 0 <= j < es.len() && (#[trigger] es[j]).project == Some(project) implies keep_project(
            project,
            es,
        ).contains(es[j]) by {
            if j < front.len() {
                assert(front[j] == es[j]);
                let m = choose|m: int| 0 <= m < k.len() && k[m] == es[j];
                if es.last().project == Some(project) {
                    assert(k.push(es.last())[m] == es[j]);
                }
            } else {
                assert(k.push(es.last())[k.len() as int] == es[j]);
            }
        }
    }
}

/// The entries of a project are exactly those whose project is that one:
/// each entry listed has it, and each entry that has it is listed.
pub proof fn lemma_project_entries_exact(project: Seq<char>, es: Seq<EntryView>, r: Seq<EntryView>)
    requires
        is_stable_sort(keep_project(project, es), r, false),
    ensures
        forall|i: int| 0 <= i < r.len() ==> (#[trigger] r[i]).project == Some(project),
        forall|j: int| 0 <= j < es.len() && (#[trigger] es[j]).project == Some(project) ==> r.contains(es[j]),
{
    let kept = keep_project(project, es);
    lemma_keep_project_exact(project, es);
    let perm = choose|perm: Seq<int>|
        is_sort_permutation(kept, perm, false) && r == perm.map_values(|k: int| kept[k]);
    lemma_permutation_covers(kept, perm, false);
    assert forall|i: int| 0 <= i < r.len() implies (#[trigger] r[i]).project == Some(project) by {
        assert(r[i] == kept[perm[i]]);
    }
    assert forall|j: int| 0 <= j < es.len() && (#[trigger] es[j]).project == Some(project) implies r.contains(
        es[j],
    ) by {
        let m = choose|m: int| 0 <= m < kept.len() && kept[m] == es[j];
        assert(perm.contains(m));
        let q = choose|q: int| 0 <= q < perm.len() && perm[q] == m;
        assert(r[q] == kept[m]);
    }
}

} // verus!
