use vstd::prelude::*;
use crate::calendar::{Date, date_text, date_to_string, format_padded, padded_int, parse_date, parsed_ymd};
use crate::config::{join_path, path_join};
use crate::entry::{parse_entry_line, parse_line};
use crate::error::{ErrorView, WrkError};
use crate::logbook::{first_index, notes_heading, title_of, work_log_heading};
use crate::text::{chars_of, lines, split_lines, starts_with, string_from_range, views};

verus! {

pub open spec fn md_suffix() -> Seq<char> {
    seq!['.', 'm', 'd']
}

/// `YYYY/MM/YYYY-MM-DD.md` under `root`.
pub open spec fn log_path_text(root: Seq<char>, d: Date) -> Seq<char> {
    join_path(
        join_path(join_path(root, padded_int(d.year as int, 4)), padded_int(d.month as int, 2)),
        date_text(d) + md_suffix(),
    )
}

/// The path of the file of a day.
pub fn log_path(root: &str, date: &Date) -> (r: String)
    requires
        date.wf(),
    ensures
        r@ == log_path_text(root@, *date),
{
    let year = format_padded(date.year as i64, 4);
    let month = format_padded(date.month as i64, 2);
    let mut name = date_to_string(date);
    name.append(".md");
    proof {
        reveal_strlit(".md");
    }
    assert(".md"@ =~= md_suffix());
    let a = path_join(root, year.as_str());
    let b = path_join(a.as_str(), month.as_str());
    path_join(b.as_str(), name.as_str())
}

/// What the components of a path under the log root give as a date: they
/// must be `YYYY`, `MM` and `YYYY-MM-DD.md`, naming the same date.
pub open spec fn date_of_components(cs: Seq<Seq<char>>) -> Result<(int, int, int), ErrorView> {
    if cs.len() != 3 {
        Err(ErrorView::BadLayout)
    } else {
        let f = cs[2];
        if !(f.len() >= 3 && f.skip(f.len() - 3) == md_suffix()) {
            Err(ErrorView::NotMarkdown)
        } else {
            match parsed_ymd(f.take(f.len() - 3)) {
                None => Err(ErrorView::BadDateName { file_name: f }),
                Some((y, m, d)) => if cs[0] != padded_int(y, 4) {
                    Err(ErrorView::YearMismatch { dir: cs[0] })
                } else if cs[1] != padded_int(m, 2) {
                    Err(ErrorView::MonthMismatch { dir: cs[1] })
                } else {
                    Ok((y, m, d))
                },
            }
        }
    }
}

/// The date that a path under the log root names, from its components.
pub fn date_from_components(components: &Vec<String>) -> (r: Result<Date, WrkError>)
    ensures
        match date_of_components(views(components@)) {
            Ok(ymd) => r matches Ok(d) && d.wf() && ymd == (d.year as int, d.month as int, d.day as int),
            Err(e) => r matches Err(x) && x@ == e,
        },
{
    if components.len() != 3 {
        return Err(WrkError::BadLayout);
    }
    let year_dir = &components[0];
    let month_dir = &components[1];
    let file_name = &components[2];
    let cs = chars_of(file_name.as_str());
    let n = cs.len();
    if !(n >= 3 && cs[n - 3] == '.' && cs[n - 2] == 'm' && cs[n - 1] == 'd') {
        proof {
            if n >= 3 {
                let f = file_name@;
                if f.skip(f.len() - 3) == md_suffix() {
                    assert(f.skip(f.len() - 3)[0] == '.');
                    assert(f.skip(f.len() - 3)[1] == 'm');
                    assert(f.skip(f.len() - 3)[2] == 'd');
                }
            }
        }
        return Err(WrkError::NotMarkdown);
    }
    assert(file_name@.skip(n - 3) =~= md_suffix());
    let stem = string_from_range(&cs, 0, n - 3);
    assert(stem@ =~= file_name@.take(n - 3));
    let date = match parse_date(stem.as_str()) {
        Some(d) => d,
        None => {
            return Err(WrkError::BadDateName { file_name: file_name.clone() });
        },
    };
    check_date_dirs(year_dir, month_dir, &date)?;
    Ok(date)
}

/// How the year and month directories of a file must name its date.
pub open spec fn date_dirs_check(year_dir: Seq<char>, month_dir: Seq<char>, d: Date) -> Result<
    (),
    ErrorView,
> {
    if year_dir != padded_int(d.year as int, 4) {
        Err(ErrorView::YearMismatch { dir: year_dir })
    } else if month_dir != padded_int(d.month as int, 2) {
        Err(ErrorView::MonthMismatch { dir: month_dir })
    } else {
        Ok(())
    }
}

/// Checks that the directories of a file name the year and the month of the
/// date that its name gives.
pub fn check_date_dirs(year_dir: &String, month_dir: &String, date: &Date) -> (r: Result<(), WrkError>)
    requires
        date.wf(),
    ensures
        match date_dirs_check(year_dir@, month_dir@, *date) {
            Ok(()) => r is Ok,
            Err(e) => r matches Err(x) && x@ == e,
        },
{
    let year_text = format_padded(date.year as i64, 4);
    if !(*year_dir == year_text) {
        return Err(WrkError::YearMismatch { dir: year_dir.clone() });
    }
    let month_text = format_padded(date.month as i64, 2);
    if !(*month_dir == month_text) {
        return Err(WrkError::MonthMismatch { dir: month_dir.clone() });
    }
    Ok(())
}

/// How the lines of a work-log section pass `wrk doctor`: blank lines pass, an
/// entry must be of an allowed type, a line indented by two spaces must come
/// after an entry, and any other line fails.
pub open spec fn lint_section(ls: Seq<Seq<char>>, types: Seq<Seq<char>>, seen: bool) -> Result<
    (),
    ErrorView,
>
    decreases ls.len(),
{
    if ls.len() == 0 {
        Ok(())
    } else {
        let l = ls[0];
        if l.len() == 0 {
            lint_section(ls.skip(1), types, seen)
        } else {
            match parse_line(l) {
                Some(p) => if types.contains(p.kind) {
                    lint_section(ls.skip(1), types, true)
                } else {
                    Err(ErrorView::UnknownKind { kind: p.kind })
                },
                None => if starts_with(l, seq![' ', ' ']) {
                    if !seen {
                        Err(ErrorView::OrphanDetail)
                    } else {
                        lint_section(ls.skip(1), types, seen)
                    }
                } else {
                    Err(ErrorView::InvalidLine { line: l })
                },
            }
        }
    }
}

/// How the text of a day file passes `wrk doctor`: the title, the two
/// headings in order, and the work-log lines.
pub open spec fn lint_text(date: Date, raw: Seq<char>, types: Seq<Seq<char>>) -> Result<
    (),
    ErrorView,
> {
    let ls = lines(raw);
    if ls.len() == 0 || ls[0] != title_of(date) {
        Err(ErrorView::TitleMismatch { expected: title_of(date) })
    } else {
        let wi = first_index(ls, work_log_heading(), 0);
        let ni = first_index(ls, notes_heading(), 0);
        if wi >= ls.len() {
            Err(ErrorView::MissingWorkLog)
        } else if ni >= ls.len() {
            Err(ErrorView::MissingNotes)
        } else if ni <= wi {
            Err(ErrorView::NotesBeforeWorkLog)
        } else {
            lint_section(ls.subrange(wi + 1, ni), types, false)
        }
    }
}

fn index_of_line(ls: &Vec<String>, target: &String) -> (r: usize)
    ensures
        r == first_index(views(ls@), target@, 0),
        r <= ls@.len(),
{
    let mut i: usize = 0;
    while i < ls.len()
        invariant
            i <= ls@.len(),
            first_index(views(ls@), target@, 0) == first_index(views(ls@), target@, i as int),
        decreases ls.len() - i,
    {
        if ls[i] == *target {
            return i;
        }
        i = i + 1;
    }
    i
}

fn string_in(items: &Vec<String>, value: &String) -> (r: bool)
    ensures
        r == views(items@).contains(value@),
{
    crate::config::contains_string(items, value)
}

/// Checks the text of the file of `expected_date` against the allowed types.
pub fn lint_day_text(expected_date: &Date, raw: &str, types: &Vec<String>) -> (r: Result<
    (),
    WrkError,
>)
    requires
        expected_date.wf(),
    ensures
        match lint_text(*expected_date, raw@, views(types@)) {
            Ok(()) => r is Ok,
            Err(e) => r matches Err(x) && x@ == e,
        },
{
    let ls = split_lines(raw);
    let ghost vls = views(ls@);
    proof {
        reveal_strlit("# ");
    }
    let mut title = String::from_str("# ");
    title.append(date_to_string(expected_date).as_str());
    assert(title@ =~= title_of(*expected_date));
    if ls.len() == 0 || !(ls[0] == title) {
        return Err(WrkError::TitleMismatch { expected: title });
    }
    let wl = String::from_str("## Work Log");
    let nh = String::from_str("## Notes");
    let wi = index_of_line(&ls, &wl);
    let ni = index_of_line(&ls, &nh);
    if wi >= ls.len() {
        return Err(WrkError::MissingWorkLog);
    }
    if ni >= ls.len() {
        return Err(WrkError::MissingNotes);
    }
    if ni <= wi {
        return Err(WrkError::NotesBeforeWorkLog);
    }
    let ghost section = vls.subrange(wi + 1, ni as int);
    let mut seen = false;
    let mut idx: usize = wi + 1;
    assert(vls.subrange(idx as int, ni as int) =~= section);
    while idx < ni
        invariant
            wi + 1 <= idx <= ni,
            ni <= ls@.len(),
            vls == views(ls@),
            lint_text(*expected_date, raw@, views(types@)) == lint_section(section, views(types@), false),
            lint_section(section, views(types@), false) == lint_section(
                vls.subrange(idx as int, ni as int),
                views(types@),
                seen,
            ),
        decreases ni - idx,
    {
        let ghost rest = vls.subrange(idx as int, ni as int);
        assert(rest[0] == ls@[idx as int]@);
        assert(rest.skip(1) =~= vls.subrange(idx + 1, ni as int));
        let line = &ls[idx];
        let cs = chars_of(line.as_str());
        if cs.len() == 0 {
            idx = idx + 1;
            continue;
        }
        match parse_entry_line(line.as_str()) {
            Some(p) => {
                if !string_in(types, &p.kind) {
                    return Err(WrkError::UnknownKind { kind: p.kind });
                }
                seen = true;
            },
            None => {
                let indented = cs.len() >= 2 && cs[0] == ' ' && cs[1] == ' ';
                proof {
                    if cs@.len() >= 2 {
                        if indented {
                            assert(cs@.take(2) =~= seq![' ', ' ']);
                        } else {
                            assert(cs@.take(2)[0] != ' ' || cs@.take(2)[1] != ' ');
                        }
                    }
                }
                if indented {
                    if !seen {
                        return Err(WrkError::OrphanDetail);
                    }
                } else {
                    return Err(WrkError::InvalidLine { line: line.clone() });
                }
            },
        }
        idx = idx + 1;
    }
    assert(vls.subrange(ni as int, ni as int) =~= Seq::<Seq<char>>::empty());
    Ok(())
}

} // verus!
