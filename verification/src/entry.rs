use vstd::prelude::*;
use crate::calendar::{
    Date, Time, clock_hour, clock_in_day, clock_minute, date_text, date_to_string, is_ascii_digit,
    is_clock_shape, lemma_time_text, parse_clock, time_text, time_to_string,
};
use crate::config::opt_string_view;
use crate::text::{
    char_is_white_space, chars_of, contains_char, is_white_space, replace_all, replace_all_string,
    string_from_range,
};

verus! {

/// A character that may stand in a project or a type: neither `:` nor white
/// space.
pub open spec fn is_token_char(c: char) -> bool {
    c != ':' && !is_white_space(c)
}

/// A valid project or type: not empty, of token characters only.
pub open spec fn is_token(s: Seq<char>) -> bool {
    s.len() > 0 && forall|i: int| 0 <= i < s.len() ==> is_token_char(#[trigger] s[i])
}

/// The end of the run of token characters that starts at `i`.
pub open spec fn token_end(s: Seq<char>, i: int) -> int
    decreases s.len() - i,
{
    if i >= s.len() {
        s.len() as int
    } else if !is_token_char(s[i]) {
        i
    } else {
        token_end(s, i + 1)
    }
}

pub proof fn lemma_token_end(s: Seq<char>, i: int)
    requires
        0 <= i <= s.len(),
    ensures
        i <= token_end(s, i) <= s.len(),
        forall|j: int| i <= j < token_end(s, i) ==> is_token_char(#[trigger] s[j]),
        token_end(s, i) < s.len() ==> !is_token_char(s[token_end(s, i)]),
    decreases s.len() - i,
{
    if i < s.len() && is_token_char(s[i]) {
        lemma_token_end(s, i + 1);
    }
}

pub proof fn lemma_token_end_is(s: Seq<char>, i: int, k: int)
    requires
        0 <= i <= k <= s.len(),
        forall|j: int| i <= j < k ==> is_token_char(#[trigger] s[j]),
        k < s.len() ==> !is_token_char(s[k]),
    ensures
        token_end(s, i) == k,
    decreases k - i,
{
    if i < k {
        lemma_token_end_is(s, i + 1, k);
    }
}

/// The parts of a work-log entry line.
#[derive(Debug, PartialEq, Eq)]
pub struct ParsedLine {
    pub timestamp: Time,
    pub project: Option<String>,
    pub kind: String,
    pub summary: String,
}

pub struct LineParts {
    pub timestamp: Time,
    pub project: Option<Seq<char>>,
    pub kind: Seq<char>,
    pub summary: Seq<char>,
}

impl View for ParsedLine {
    type V = LineParts;

    open spec fn view(&self) -> LineParts {
        LineParts {
            timestamp: self.timestamp,
            project: opt_string_view(self.project),
            kind: self.kind@,
            summary: self.summary@,
        }
    }
}

/// How a line of the work log reads as an entry: `- HH:MM project:type
/// summary`, where the project may be empty, the project and the type are
/// made of token characters, the summary is not empty and holds no line feed,
/// and the time is a time of day.
pub open spec fn parse_line(l: Seq<char>) -> Option<LineParts> {
    if !(l.len() >= 8 && l[0] == '-' && l[1] == ' ' && is_clock_shape(l.subrange(2, 7)) && l[7]
        == ' ') {
        None
    } else if !clock_in_day(l.subrange(2, 7)) {
        None
    } else {
        let p_end = token_end(l, 8);
        if p_end >= l.len() || l[p_end] != ':' {
            None
        } else {
            let k_end = token_end(l, p_end + 1);
            if k_end == p_end + 1 || k_end >= l.len() || l[k_end] != ' ' {
                None
            } else {
                let summary = l.subrange(k_end + 1, l.len() as int);
                if summary.len() == 0 || contains_char(summary, '\n') {
                    None
                } else {
                    Some(
                        LineParts {
                            timestamp: Time {
                                hour: clock_hour(l.subrange(2, 7)) as u32,
                                minute: clock_minute(l.subrange(2, 7)) as u32,
                            },
                            project: if p_end == 8 {
                                None
                            } else {
                                Some(l.subrange(8, p_end))
                            },
                            kind: l.subrange(p_end + 1, k_end),
                            summary,
                        },
                    )
                }
            }
        }
    }
}

/// `- HH:MM project:type summary`, the project empty where there is none.
pub open spec fn render_line(
    t: Time,
    project: Option<Seq<char>>,
    kind: Seq<char>,
    summary: Seq<char>,
) -> Seq<char> {
    seq!['-', ' '] + time_text(t) + seq![' '] + project.unwrap_or(seq![]) + seq![':'] + kind
        + seq![' '] + summary
}

/// `- YYYY-MM-DD HH:MM project:type summary`, with every `"  :"` turned
/// into `" :"`.
pub open spec fn render_dated_line(
    d: Date,
    t: Time,
    project: Option<Seq<char>>,
    kind: Seq<char>,
    summary: Seq<char>,
) -> Seq<char> {
    replace_all(
        seq!['-', ' '] + date_text(d) + seq![' '] + time_text(t) + seq![' '] + project.unwrap_or(
            seq![],
        ) + seq![':'] + kind + seq![' '] + summary,
        seq![' ', ' ', ':'],
        seq![' ', ':'],
    )
}

/// An entry line reads back as the parts it was written from.
pub proof fn lemma_entry_line_round_trip(
    t: Time,
    project: Option<Seq<char>>,
    kind: Seq<char>,
    summary: Seq<char>,
)
    requires
        t.wf(),
        project matches Some(p) ==> is_token(p),
        is_token(kind),
        summary.len() > 0,
        !contains_char(summary, '\n'),
    ensures
        parse_line(render_line(t, project, kind, summary)) == Some(
            LineParts { timestamp: t, project, kind, summary },
        ),
{
    let l = render_line(t, project, kind, summary);
    let p = project.unwrap_or(seq![]);
    lemma_time_text(t);
    let tt = time_text(t);
    assert(l.subrange(2, 7) =~= tt);
    let p_end: int = 8 + p.len() as int;
    assert forall|j: int| 8 <= j < p_end implies is_token_char(#[trigger] l[j]) by {
        assert(l[j] == p[j - 8]);
    }
    assert(l[p_end] == ':');
    lemma_token_end_is(l, 8, p_end);
    let k_end: int = p_end + 1 + kind.len();
    assert forall|j: int| p_end + 1 <= j < k_end implies is_token_char(#[trigger] l[j]) by {
        assert(l[j] == kind[j - p_end - 1]);
    }
    assert(l[k_end] == ' ');
    lemma_token_end_is(l, p_end + 1, k_end);
    assert(l.subrange(k_end + 1, l.len() as int) =~= summary);
    assert(l.subrange(p_end + 1, k_end) =~= kind);
    if p.len() > 0 {
        assert(l.subrange(8, p_end) =~= p);
    }
}

fn token_end_exec(cs: &Vec<char>, i: usize) -> (k: usize)
    requires
        i <= cs@.len(),
    ensures
        k == token_end(cs@, i as int),
        i <= k <= cs@.len(),
{
    let mut k = i;
    while k < cs.len() && cs[k] != ':' && !char_is_white_space(cs[k])
        invariant
            i <= k <= cs@.len(),
            forall|j: int| i <= j < k ==> is_token_char(#[trigger] cs@[j]),
        decreases cs.len() - k,
    {
        k = k + 1;
    }
    proof {
        lemma_token_end_is(cs@, i as int, k as int);
    }
    k
}

fn is_digit_char(c: char) -> (r: bool)
    ensures
        r == is_ascii_digit(c),
{
    '0' <= c && c <= '9'
}

/// Reads a line of the work log as an entry.
pub fn parse_entry_line(line: &str) -> (r: Option<ParsedLine>)
    ensures
        match parse_line(line@) {
            Some(p) => r is Some && r.unwrap()@ == p,
            None => r is None,
        },
{
    let cs = chars_of(line);
    let n = cs.len();
    if !(n >= 8 && cs[0] == '-' && cs[1] == ' ' && is_digit_char(cs[2]) && is_digit_char(cs[3])
        && cs[4] == ':' && is_digit_char(cs[5]) && is_digit_char(cs[6]) && cs[7] == ' ') {
        return None;
    }
    let clock = string_from_range(&cs, 2, 7);
    let timestamp = match parse_clock(clock.as_str()) {
        Some(t) => t,
        None => {
            return None;
        },
    };
    let p_end = token_end_exec(&cs, 8);
    if p_end >= n || cs[p_end] != ':' {
        return None;
    }
    let k_end = token_end_exec(&cs, p_end + 1);
    if k_end == p_end + 1 || k_end >= n || cs[k_end] != ' ' {
        return None;
    }
    let mut s = k_end + 1;
    while s < n && cs[s] != '\n'
        invariant
            k_end + 1 <= s <= n,
            n == cs@.len(),
            forall|j: int| k_end + 1 <= j < s ==> cs@[j] != '\n',
        decreases n - s,
    {
        s = s + 1;
    }
    let ghost summary = cs@.subrange(k_end + 1, n as int);
    if s < n || k_end + 1 == n {
        proof {
            if s < n {
                assert(summary[s - k_end - 1] == '\n');
            }
        }
        return None;
    }
    proof {
        assert forall|j: int| 0 <= j < summary.len() implies summary[j] != '\n' by {
            assert(summary[j] == cs@[k_end + 1 + j]);
        }
    }
    let project = if p_end == 8 {
        None
    } else {
        Some(string_from_range(&cs, 8, p_end))
    };
    let kind = string_from_range(&cs, p_end + 1, k_end);
    let summary_text = string_from_range(&cs, k_end + 1, n);
    Some(ParsedLine { timestamp, project, kind, summary: summary_text })
}

/// Writes an entry line.
pub fn render_entry_line(timestamp: &Time, project: Option<&str>, kind: &str, summary: &str) -> (r:
    String)
    requires
        timestamp.wf(),
    ensures
        r@ == render_line(
            *timestamp,
            match project {
                Some(p) => Some(p@),
                None => None,
            },
            kind@,
            summary@,
        ),
{
    let mut out = String::from_str("- ");
    out.append(time_to_string(timestamp).as_str());
    out.append(" ");
    match project {
        Some(p) => out.append(p),
        None => {},
    }
    out.append(":");
    out.append(kind);
    out.append(" ");
    out.append(summary);
    proof {
        reveal_strlit("- ");
        reveal_strlit(" ");
        reveal_strlit(":");
        let pv: Option<Seq<char>> = match project {
            Some(p) => Some(p@),
            None => None,
        };
        assert(out@ =~= render_line(*timestamp, pv, kind@, summary@));
    }
    out
}

/// Writes an entry line with its date.
pub fn render_entry_line_with_date(
    date: &Date,
    timestamp: &Time,
    project: Option<&str>,
    kind: &str,
    summary: &str,
) -> (r: String)
    requires
        date.wf(),
        timestamp.wf(),
    ensures
        r@ == render_dated_line(
            *date,
            *timestamp,
            match project {
                Some(p) => Some(p@),
                None => None,
            },
            kind@,
            summary@,
        ),
{
    let mut out = String::from_str("- ");
    out.append(date_to_string(date).as_str());
    out.append(" ");
    out.append(time_to_string(timestamp).as_str());
    out.append(" ");
    match project {
        Some(p) => out.append(p),
        None => {},
    }
    out.append(":");
    out.append(kind);
    out.append(" ");
    out.append(summary);
    proof {
        reveal_strlit("  :");
    }
    let r = replace_all_string(out.as_str(), "  :", " :");
    proof {
        reveal_strlit("- ");
        reveal_strlit(" ");
        reveal_strlit(":");
        reveal_strlit("  :");
        reveal_strlit(" :");
        let pv: Option<Seq<char>> = match project {
            Some(p) => Some(p@),
            None => None,
        };
        assert(out@ =~= seq!['-', ' '] + date_text(*date) + seq![' '] + time_text(*timestamp)
            + seq![' '] + pv.unwrap_or(seq![]) + seq![':'] + kind@ + seq![' '] + summary@);
        assert("  :"@ =~= seq![' ', ' ', ':']);
        assert(" :"@ =~= seq![' ', ':']);
    }
    r
}

} // verus!
