use vstd::prelude::*;
use crate::cli::EmojiSection;
use crate::text::{chars_of, join, join_strings, string_from_chars, string_from_range, views};

verus! {

/// A character that may stand in an emoji shortcode.
pub open spec fn is_shortcode_char(c: char) -> bool {
    ||| ('A' <= c && c <= 'Z')
    ||| ('a' <= c && c <= 'z')
    ||| ('0' <= c && c <= '9')
    ||| c == '_'
    ||| c == '+'
    ||| c == '-'
}

/// The end of the run of shortcode characters that starts at `i`.
pub open spec fn code_end(s: Seq<char>, i: int) -> int
    decreases s.len() - i,
{
    if i >= s.len() {
        s.len() as int
    } else if !is_shortcode_char(s[i]) {
        i
    } else {
        code_end(s, i + 1)
    }
}

pub proof fn lemma_code_end(s: Seq<char>, i: int)
    requires
        0 <= i <= s.len(),
    ensures
        i <= code_end(s, i) <= s.len(),
        forall|j: int| i <= j < code_end(s, i) ==> is_shortcode_char(#[trigger] s[j]),
        code_end(s, i) < s.len() ==> !is_shortcode_char(s[code_end(s, i)]),
    decreases s.len() - i,
{
    if i < s.len() && is_shortcode_char(s[i]) {
        lemma_code_end(s, i + 1);
    }
}

/// Whether `:code:` with a non-empty code starts at `p`.
pub open spec fn shortcode_at(s: Seq<char>, p: int) -> bool {
    &&& 0 <= p < s.len()
    &&& s[p] == ':'
    &&& code_end(s, p + 1) > p + 1
    &&& code_end(s, p + 1) < s.len()
    &&& s[code_end(s, p + 1)] == ':'
}

/// The leftmost place at or after `i` where a shortcode starts, or the
/// length of `s`.
pub open spec fn next_shortcode(s: Seq<char>, i: int) -> int
    decreases s.len() - i,
{
    if i >= s.len() {
        s.len() as int
    } else if shortcode_at(s, i) {
        i
    } else {
        next_shortcode(s, i + 1)
    }
}

pub proof fn lemma_next_shortcode(s: Seq<char>, i: int)
    requires
        0 <= i <= s.len(),
    ensures
        i <= next_shortcode(s, i) <= s.len(),
        next_shortcode(s, i) < s.len() ==> shortcode_at(s, next_shortcode(s, i)),
        forall|j: int| i <= j < next_shortcode(s, i) ==> !shortcode_at(s, j),
    decreases s.len() - i,
{
    if i < s.len() && !shortcode_at(s, i) {
        lemma_next_shortcode(s, i + 1);
    }
}

/// Where the shortcode found at or after `i` ends (past its closing colon).
pub open spec fn shortcode_stop(s: Seq<char>, i: int) -> int {
    code_end(s, next_shortcode(s, i) + 1) + 1
}

/// The codes of the shortcodes `:code:` in `s[i..]`, left to right, the
/// search going on after each one found.
pub open spec fn shortcodes_from(s: Seq<char>, i: int) -> Seq<Seq<char>>
    decreases s.len() - i,
{
    if i < 0 || i >= s.len() {
        seq![]
    } else {
        let p = next_shortcode(s, i);
        if p >= s.len() {
            seq![]
        } else {
            proof {
                lemma_next_shortcode(s, i);
                lemma_code_end(s, p + 1);
            }
            seq![s.subrange(p + 1, code_end(s, p + 1))] + shortcodes_from(s, shortcode_stop(s, i))
        }
    }
}

/// `s[i..]` with its shortcodes replaced by `reps` in order; a missing
/// replacement keeps the shortcode as it is.
pub open spec fn replaced_from(s: Seq<char>, i: int, reps: Seq<Option<Seq<char>>>) -> Seq<char>
    decreases s.len() - i,
{
    if i < 0 || i >= s.len() {
        seq![]
    } else {
        let p = next_shortcode(s, i);
        if p >= s.len() {
            s.subrange(i, s.len() as int)
        } else {
            proof {
                lemma_next_shortcode(s, i);
                lemma_code_end(s, p + 1);
            }
            let stop = shortcode_stop(s, i);
            s.subrange(i, p) + match reps[0] {
                Some(g) => g,
                None => s.subrange(p, stop),
            } + replaced_from(s, stop, reps.skip(1))
        }
    }
}

/// The emoji of a GitHub shortcode, as the `emojis` crate knows them.
pub uninterp spec fn emoji_glyph(code: Seq<char>) -> Option<Seq<char>>;

pub open spec fn opt_views(v: Seq<Option<String>>) -> Seq<Option<Seq<char>>> {
    v.map_values(
        |o: Option<String>|
            match o {
                Some(s) => Some(s@),
                None => None,
            },
    )
}

/// A line with its shortcodes replaced by their emojis; unknown shortcodes
/// stay.
pub open spec fn expanded(line: Seq<char>) -> Seq<char> {
    replaced_from(line, 0, shortcodes_from(line, 0).map_values(|c: Seq<char>| emoji_glyph(c)))
}

/// The emoji of a shortcode (`emojis::get_by_shortcode`).
#[verifier::external_body]
fn emoji_by_shortcode(code: &str) -> (r: Option<String>)
    ensures
        match r {
            Some(g) => emoji_glyph(code@) == Some(g@),
            None => emoji_glyph(code@) is None,
        },
{
    emojis::get_by_shortcode(code).map(|e| e.as_str().to_owned())
}

fn code_end_exec(cs: &Vec<char>, i: usize) -> (k: usize)
    requires
        i <= cs@.len(),
    ensures
        k == code_end(cs@, i as int),
{
    let mut k = i;
    while k < cs.len() && (('A' <= cs[k] && cs[k] <= 'Z') || ('a' <= cs[k] && cs[k] <= 'z') || (
    '0' <= cs[k] && cs[k] <= '9') || cs[k] == '_' || cs[k] == '+' || cs[k] == '-')
        invariant
            i <= k <= cs@.len(),
            code_end(cs@, i as int) == code_end(cs@, k as int),
        decreases cs.len() - k,
    {
        k = k + 1;
    }
    k
}

/// Finds the next shortcode at or after `i`: its start, or the length.
fn next_shortcode_exec(cs: &Vec<char>, i: usize) -> (p: usize)
    requires
        i <= cs@.len(),
    ensures
        p == next_shortcode(cs@, i as int),
{
    let mut p = i;
    while p < cs.len()
        invariant
            i <= p <= cs@.len(),
            next_shortcode(cs@, i as int) == next_shortcode(cs@, p as int),
        decreases cs.len() - p,
    {
        if cs[p] == ':' {
            let e = code_end_exec(cs, p + 1);
            if e > p + 1 && e < cs.len() && cs[e] == ':' {
                return p;
            }
        }
        p = p + 1;
    }
    p
}

/// The codes of the shortcodes in a line, left to right.
pub fn find_shortcodes(line: &str) -> (r: Vec<String>)
    ensures
        views(r@) == shortcodes_from(line@, 0),
{
    let cs = chars_of(line);
    let n = cs.len();
    let mut out: Vec<String> = Vec::new();
    let mut i: usize = 0;
    while i < n
        invariant
            n == cs@.len(),
            cs@ == line@,
            i <= n,
            shortcodes_from(line@, 0) == views(out@) + shortcodes_from(cs@, i as int),
        decreases n - i,
    {
        let p = next_shortcode_exec(&cs, i);
        proof {
            lemma_next_shortcode(cs@, i as int);
        }
        if p >= n {
            assert(shortcodes_from(cs@, i as int) =~= Seq::<Seq<char>>::empty());
            i = n;
        } else {
            let e = code_end_exec(&cs, p + 1);
            proof {
                lemma_code_end(cs@, p + 1);
            }
            let code = string_from_range(&cs, p + 1, e);
            let ghost before = views(out@);
            out.push(code);
            assert(views(out@) =~= before.push(code@));
            assert(before + shortcodes_from(cs@, i as int) =~= views(out@) + shortcodes_from(
                cs@,
                e + 1,
            ));
            i = e + 1;
        }
    }
    assert(shortcodes_from(cs@, i as int) =~= Seq::<Seq<char>>::empty());
    assert(views(out@) + Seq::<Seq<char>>::empty() =~= views(out@));
    out
}

fn push_range(out: &mut Vec<char>, cs: &Vec<char>, lo: usize, hi: usize)
    requires
        lo <= hi <= cs@.len(),
    ensures
        final(out)@ == old(out)@ + cs@.subrange(lo as int, hi as int),
{
    let mut k = lo;
    while k < hi
        invariant
            lo <= k <= hi <= cs@.len(),
            out@ == old(out)@ + cs@.subrange(lo as int, k as int),
        decreases hi - k,
    {
        out.push(cs[k]);
        assert(cs@.subrange(lo as int, k + 1) =~= cs@.subrange(lo as int, k as int).push(
            cs@[k as int],
        ));
        k = k + 1;
    }
}

/// A line with its shortcodes replaced, in order, by `reps` (one for each
/// shortcode that `find_shortcodes` gives); where a replacement is missing
/// the shortcode stays.
pub fn replace_shortcodes(line: &str, reps: &Vec<Option<String>>) -> (r: String)
    requires
        reps@.len() == shortcodes_from(line@, 0).len(),
    ensures
        r@ == replaced_from(line@, 0, opt_views(reps@)),
{
    let cs = chars_of(line);
    let n = cs.len();
    let mut out: Vec<char> = Vec::new();
    let mut i: usize = 0;
    let mut j: usize = 0;
    let ghost all = opt_views(reps@);
    let rl = reps.len();
    assert(all.skip(0) =~= all);
    assert(out@ + replaced_from(cs@, 0, all) =~= replaced_from(cs@, 0, all));
    while i < n
        invariant
            rl == reps@.len(),
            n == cs@.len(),
            cs@ == line@,
            i <= n,
            j <= reps@.len(),
            all == opt_views(reps@),
            all.len() == reps@.len(),
            reps@.len() - j == shortcodes_from(cs@, i as int).len(),
            replaced_from(line@, 0, all) == out@ + replaced_from(cs@, i as int, all.skip(j as int)),
        decreases n - i,
    {
        let p = next_shortcode_exec(&cs, i);
        proof {
            lemma_next_shortcode(cs@, i as int);
        }
        if p >= n {
            push_range(&mut out, &cs, i, n);
            assert(replaced_from(cs@, n as int, all.skip(j as int)) =~= Seq::<char>::empty());
            i = n;
        } else {
            let e = code_end_exec(&cs, p + 1);
            proof {
                lemma_code_end(cs@, p + 1);
            }
            let ghost before = out@;
            push_range(&mut out, &cs, i, p);
            assert(shortcodes_from(cs@, i as int).len() > 0);
            assert(j < rl);
            match &reps[j] {
                Some(g) => {
                    let gs = chars_of(g.as_str());
                    push_range(&mut out, &gs, 0, gs.len());
                    assert(gs@.subrange(0, gs@.len() as int) =~= gs@);
                    assert(all.skip(j as int)[0] == Some(g@));
                },
                None => {
                    push_range(&mut out, &cs, p, e + 1);
                    assert(all.skip(j as int)[0] is None);
                },
            }
            assert(all.skip(j as int).skip(1) =~= all.skip(j + 1));
            i = e + 1;
            j = j + 1;
        }
    }
    assert(replaced_from(cs@, i as int, all.skip(j as int)) =~= Seq::<char>::empty());
    assert(out@ + Seq::<char>::empty() =~= out@);
    string_from_chars(out.as_slice())
}

/// Replaces GitHub shortcodes such as `:rocket:` by their emojis.
pub fn expand_emoji_shortcodes(line: &str) -> (r: String)
    ensures
        r@ == expanded(line@),
{
    let codes = find_shortcodes(line);
    let mut reps: Vec<Option<String>> = Vec::new();
    let mut k: usize = 0;
    while k < codes.len()
        invariant
            k <= codes@.len(),
            reps@.len() == k,
            forall|t: int| 0 <= t < k ==> #[trigger] opt_views(reps@)[t] == emoji_glyph(codes@[t]@),
        decreases codes.len() - k,
    {
        let found = emoji_by_shortcode(codes[k].as_str());
        let ghost before = reps@;
        reps.push(found);
        assert forall|t: int| 0 <= t < k + 1 implies #[trigger] opt_views(reps@)[t] == emoji_glyph(codes@[t]@) by {
            if t < k {
                assert(reps@[t] == before[t]);
                assert(opt_views(before)[t] == emoji_glyph(codes@[t]@));
            }
        }
        k = k + 1;
    }
    let ghost want = shortcodes_from(line@, 0).map_values(|c: Seq<char>| emoji_glyph(c));
    assert(opt_views(reps@) =~= want) by {
        assert forall|t: int| 0 <= t < want.len() implies opt_views(reps@)[t] == want[t] by {
            assert(views(codes@)[t] == codes@[t]@);
        }
    }
    replace_shortcodes(line, &reps)
}

/// An emoji as the table lists it: the emoji, its name and its shortcodes.
#[derive(Debug, PartialEq, Eq)]
pub struct EmojiRow {
    pub glyph: String,
    pub name: String,
    pub shortcodes: Vec<String>,
}

impl View for EmojiRow {
    type V = (Seq<char>, Seq<char>, Seq<Seq<char>>);

    open spec fn view(&self) -> (Seq<char>, Seq<char>, Seq<Seq<char>>) {
        (self.glyph@, self.name@, views(self.shortcodes@))
    }
}

pub open spec fn row_views(rows: Seq<EmojiRow>) -> Seq<(Seq<char>, Seq<char>, Seq<Seq<char>>)> {
    rows.map_values(|r: EmojiRow| r@)
}

/// The emojis of the group at position `group` of `emojis::Group::iter()`,
/// in the crate's order, each as (emoji, name, shortcodes).
pub uninterp spec fn emoji_group_rows(group: int) -> Seq<(Seq<char>, Seq<char>, Seq<Seq<char>>)>;

/// The emojis of a group (`emojis::Group::emojis`), the group given by its
/// position in `emojis::Group::iter()`.
#[verifier::external_body]
fn group_rows(index: usize) -> (r: Vec<EmojiRow>)
    requires
        index < 9,
    ensures
        row_views(r@) == emoji_group_rows(index as int),
{
    let group = emojis::Group::iter().nth(index).unwrap();
    group.emojis().map(
        |e| EmojiRow {
            glyph: e.as_str().to_owned(),
            name: e.name().to_owned(),
            shortcodes: e.shortcodes().map(|c| c.to_owned()).collect(),
        },
    ).collect()
}

/// The position of a section among the groups of the `emojis` crate.
pub open spec fn section_index(section: EmojiSection) -> int {
    match section {
        EmojiSection::SmileysAndEmotion => 0,
        EmojiSection::PeopleAndBody => 1,
        EmojiSection::AnimalsAndNature => 2,
        EmojiSection::FoodAndDrink => 3,
        EmojiSection::TravelAndPlaces => 4,
        EmojiSection::Activities => 5,
        EmojiSection::Objects => 6,
        EmojiSection::Symbols => 7,
        EmojiSection::Flags => 8,
    }
}

/// The group of the `emojis` crate that a section lists, by its position.
pub fn emoji_group(section: EmojiSection) -> (r: usize)
    ensures
        r == section_index(section),
{
    match section {
        EmojiSection::SmileysAndEmotion => 0,
        EmojiSection::PeopleAndBody => 1,
        EmojiSection::AnimalsAndNature => 2,
        EmojiSection::FoodAndDrink => 3,
        EmojiSection::TravelAndPlaces => 4,
        EmojiSection::Activities => 5,
        EmojiSection::Objects => 6,
        EmojiSection::Symbols => 7,
        EmojiSection::Flags => 8,
    }
}

pub open spec fn section_title(section: EmojiSection) -> Seq<char> {
    match section {
        EmojiSection::SmileysAndEmotion => "Smileys and Emotion"@,
        EmojiSection::PeopleAndBody => "People and Body"@,
        EmojiSection::AnimalsAndNature => "Animals and Nature"@,
        EmojiSection::FoodAndDrink => "Food and Drink"@,
        EmojiSection::TravelAndPlaces => "Travel and Places"@,
        EmojiSection::Activities => "Activities"@,
        EmojiSection::Objects => "Objects"@,
        EmojiSection::Symbols => "Symbols"@,
        EmojiSection::Flags => "Flags"@,
    }
}

/// The title of a section.
pub fn emoji_section_name(section: EmojiSection) -> (r: &'static str)
    ensures
        r@ == section_title(section),
{
    match section {
        EmojiSection::SmileysAndEmotion => "Smileys and Emotion",
        EmojiSection::PeopleAndBody => "People and Body",
        EmojiSection::AnimalsAndNature => "Animals and Nature",
        EmojiSection::FoodAndDrink => "Food and Drink",
        EmojiSection::TravelAndPlaces => "Travel and Places",
        EmojiSection::Activities => "Activities",
        EmojiSection::Objects => "Objects",
        EmojiSection::Symbols => "Symbols",
        EmojiSection::Flags => "Flags",
    }
}

/// The shortcode column: each shortcode as `` `:code:` ``, separated by
/// commas, or `-` where there is none.
pub open spec fn shortcode_cell(codes: Seq<Seq<char>>) -> Seq<char> {
    if codes.len() == 0 {
        "-"@
    } else {
        join(codes.map_values(|c: Seq<char>| "`:"@ + c + ":`"@), ", "@)
    }
}

/// A row of the table: `| emoji | shortcodes | name |`.
pub open spec fn row_text(row: (Seq<char>, Seq<char>, Seq<Seq<char>>)) -> Seq<char> {
    "| "@ + row.0 + " | "@ + shortcode_cell(row.2) + " | "@ + row.1 + " |\n"@
}

pub open spec fn rows_text(rows: Seq<(Seq<char>, Seq<char>, Seq<Seq<char>>)>) -> Seq<char>
    decreases rows.len(),
{
    if rows.len() == 0 {
        seq![]
    } else {
        rows_text(rows.drop_last()) + row_text(rows.last())
    }
}

/// A markdown table of emojis under a title.
pub open spec fn emoji_table(title: Seq<char>, rows: Seq<(Seq<char>, Seq<char>, Seq<Seq<char>>)>) -> Seq<
    char,
> {
    "# "@ + title + "\n\n"@ + "| Emoji | Shortcode | Name |\n"@ + "| --- | --- | --- |\n"@
        + rows_text(rows)
}

/// Writes a markdown table of emojis under a title.
pub fn render_emoji_table(title: &str, rows: &Vec<EmojiRow>) -> (r: String)
    ensures
        r@ == emoji_table(title@, row_views(rows@)),
{
    let mut out = String::from_str("# ");
    out.append(title);
    out.append("\n\n");
    out.append("| Emoji | Shortcode | Name |\n");
    out.append("| --- | --- | --- |\n");
    let ghost header = out@;
    let ghost all = row_views(rows@);
    let mut i: usize = 0;
    assert(all.take(0) =~= Seq::<(Seq<char>, Seq<char>, Seq<Seq<char>>)>::empty());
    while i < rows.len()
        invariant
            i <= rows@.len(),
            all == row_views(rows@),
            out@ == header + rows_text(all.take(i as int)),
        decreases rows.len() - i,
    {
        let row = &rows[i];
        let mut codes: Vec<String> = Vec::new();
        let mut k: usize = 0;
        let ghost want = views(row.shortcodes@).map_values(|c: Seq<char>| "`:"@ + c + ":`"@);
        while k < row.shortcodes.len()
            invariant
                k <= row.shortcodes@.len(),
                want == views(row.shortcodes@).map_values(|c: Seq<char>| "`:"@ + c + ":`"@),
                views(codes@) == want.take(k as int),
            decreases row.shortcodes.len() - k,
        {
            let mut c = String::from_str("`:");
            c.append(row.shortcodes[k].as_str());
            c.append(":`");
            let ghost before = views(codes@);
            codes.push(c);
            assert(views(codes@) =~= before.push(c@));
            assert(views(codes@) =~= want.take(k + 1));
            k = k + 1;
        }
        assert(want.take(row.shortcodes@.len() as int) =~= want);
        let cell = if codes.len() == 0 {
            String::from_str("-")
        } else {
            join_strings(&codes, ", ")
        };
        assert(cell@ == shortcode_cell(row@.2));
        out.append("| ");
        out.append(row.glyph.as_str());
        out.append(" | ");
        out.append(cell.as_str());
        out.append(" | ");
        out.append(row.name.as_str());
        out.append(" |\n");
        assert(all.take(i + 1).drop_last() =~= all.take(i as int));
        assert(all.take(i + 1).last() == row@);
        assert(out@ =~= header + rows_text(all.take(i + 1)));
        i = i + 1;
    }
    assert(all.take(rows@.len() as int) =~= all);
    out
}

/// The markdown table of the emojis of a section.
pub fn print_emoji_section(section: EmojiSection) -> (r: String)
    ensures
        r@ == emoji_table(section_title(section), emoji_group_rows(section_index(section))),
{
    let group = emoji_group(section);
    let title = emoji_section_name(section);
    let rows = group_rows(group);
    render_emoji_table(title, &rows)
}

} // verus!
