use vstd::prelude::*;

verus! {

/// The Unicode `White_Space` property, which `char::is_whitespace` and the
/// `\s` class of a regular expression both follow.
pub open spec fn is_white_space(c: char) -> bool {
    ||| ('\u{9}' <= c && c <= '\u{d}')
    ||| c == ' '
    ||| c == '\u{85}'
    ||| c == '\u{a0}'
    ||| c == '\u{1680}'
    ||| ('\u{2000}' <= c && c <= '\u{200a}')
    ||| c == '\u{2028}'
    ||| c == '\u{2029}'
    ||| c == '\u{202f}'
    ||| c == '\u{205f}'
    ||| c == '\u{3000}'
}

pub fn char_is_white_space(c: char) -> (r: bool)
    ensures
        r == is_white_space(c),
{
    ('\u{9}' <= c && c <= '\u{d}') || c == ' ' || c == '\u{85}' || c == '\u{a0}' || c
        == '\u{1680}' || ('\u{2000}' <= c && c <= '\u{200a}') || c == '\u{2028}' || c
        == '\u{2029}' || c == '\u{202f}' || c == '\u{205f}' || c == '\u{3000}'
}

/// The views of a sequence of strings.
pub open spec fn views(v: Seq<String>) -> Seq<Seq<char>> {
    v.map_values(|s: String| s@)
}

pub open spec fn starts_with(s: Seq<char>, p: Seq<char>) -> bool {
    p.len() <= s.len() && s.take(p.len() as int) == p
}

pub open spec fn contains_char(s: Seq<char>, c: char) -> bool {
    exists|i: int| 0 <= i < s.len() && s[i] == c
}

/// `s` without its trailing white space (`str::trim_end`).
pub open spec fn trim_end(s: Seq<char>) -> Seq<char>
    decreases s.len(),
{
    if s.len() > 0 && is_white_space(s.last()) {
        trim_end(s.drop_last())
    } else {
        s
    }
}

/// `s` without its leading white space (`str::trim_start`).
pub open spec fn trim_start(s: Seq<char>) -> Seq<char>
    decreases s.len(),
{
    if s.len() > 0 && is_white_space(s[0]) {
        trim_start(s.drop_first())
    } else {
        s
    }
}

/// `s` without leading and trailing white space (`str::trim`).
pub open spec fn trim(s: Seq<char>) -> Seq<char> {
    trim_start(trim_end(s))
}

/// `s` without the trailing characters that belong to `set`
/// (`str::trim_end_matches` with a set of characters).
pub open spec fn trim_end_chars(s: Seq<char>, set: Seq<char>) -> Seq<char>
    decreases s.len(),
{
    if s.len() > 0 && set.contains(s.last()) {
        trim_end_chars(s.drop_last(), set)
    } else {
        s
    }
}

/// The first index at or after `i` that holds `c`, or the length of `s`.
pub open spec fn find_char_from(s: Seq<char>, c: char, i: int) -> int
    decreases s.len() - i,
{
    if i >= s.len() {
        s.len() as int
    } else if s[i] == c {
        i
    } else {
        find_char_from(s, c, i + 1)
    }
}

pub proof fn lemma_find_char_from(s: Seq<char>, c: char, i: int)
    requires
        0 <= i <= s.len(),
    ensures
        i <= find_char_from(s, c, i) <= s.len(),
        forall|j: int| i <= j < find_char_from(s, c, i) ==> s[j] != c,
        find_char_from(s, c, i) < s.len() ==> s[find_char_from(s, c, i)] == c,
    decreases s.len() - i,
{
    if i < s.len() && s[i] != c {
        lemma_find_char_from(s, c, i + 1);
    }
}

/// The first index at or after `i` that holds `c` is `k`, where `k` is found
/// by a scan.
pub proof fn lemma_find_char_from_is(s: Seq<char>, c: char, i: int, k: int)
    requires
        0 <= i <= k <= s.len(),
        forall|j: int| i <= j < k ==> s[j] != c,
        k < s.len() ==> s[k] == c,
    ensures
        find_char_from(s, c, i) == k,
    decreases k - i,
{
    if i < k {
        lemma_find_char_from_is(s, c, i + 1, k);
    }
}

/// `s` without a final carriage return.
pub open spec fn strip_cr(s: Seq<char>) -> Seq<char> {
    if s.len() > 0 && s.last() == '\r' {
        s.drop_last()
    } else {
        s
    }
}

/// The lines of `s[pos..]` as `str::lines` gives them: split at each line
/// feed, a carriage return before a line feed dropped, and no empty line
/// after a final line feed.
pub open spec fn lines_from(s: Seq<char>, pos: int) -> Seq<Seq<char>>
    decreases s.len() - pos,
{
    if pos >= s.len() || pos < 0 {
        seq![]
    } else {
        let i = find_char_from(s, '\n', pos);
        if i >= s.len() {
            seq![s.subrange(pos, s.len() as int)]
        } else {
            proof {
                lemma_find_char_from(s, '\n', pos);
            }
            seq![strip_cr(s.subrange(pos, i))] + lines_from(s, i + 1)
        }
    }
}

pub open spec fn lines(s: Seq<char>) -> Seq<Seq<char>> {
    lines_from(s, 0)
}

/// `s` with each occurrence of `p` replaced by `r`, scanning from the left
/// without overlap (`str::replace`).
pub open spec fn replace_all(s: Seq<char>, p: Seq<char>, r: Seq<char>) -> Seq<char>
    decreases s.len(),
{
    if p.len() == 0 || s.len() < p.len() {
        s
    } else if s.take(p.len() as int) == p {
        r + replace_all(s.skip(p.len() as int), p, r)
    } else {
        seq![s[0]] + replace_all(s.skip(1), p, r)
    }
}

/// The parts separated by `sep` (`[String]::join`).
pub open spec fn join(parts: Seq<Seq<char>>, sep: Seq<char>) -> Seq<char>
    decreases parts.len(),
{
    if parts.len() == 0 {
        seq![]
    } else if parts.len() == 1 {
        parts[0]
    } else {
        join(parts.drop_last(), sep) + sep + parts.last()
    }
}

/// All characters of a string, in order.
#[verifier::external_body]
pub(crate) fn chars_of(s: &str) -> (r: Vec<char>)
    ensures
        r@ == s@,
{
    s.chars().collect()
}

/// The string made of the given characters.
#[verifier::external_body]
pub(crate) fn string_from_chars(cs: &[char]) -> (r: String)
    ensures
        r@ == cs@,
{
    cs.iter().collect()
}

/// The string made of `cs[lo..hi]`.
pub fn string_from_range(cs: &Vec<char>, lo: usize, hi: usize) -> (r: String)
    requires
        lo <= hi <= cs@.len(),
    ensures
        r@ == cs@.subrange(lo as int, hi as int),
{
    let part = vstd::slice::slice_subrange(cs.as_slice(), lo, hi);
    string_from_chars(part)
}

/// The length of `cs[..hi]` once trailing white space is dropped.
pub fn trim_end_index(cs: &Vec<char>, lo: usize, hi: usize) -> (k: usize)
    requires
        lo <= hi <= cs@.len(),
    ensures
        lo <= k <= hi,
        trim_end(cs@.subrange(lo as int, hi as int)) == cs@.subrange(lo as int, k as int),
{
    let mut k = hi;
    while k > lo && char_is_white_space(cs[k - 1])
        invariant
            lo <= k <= hi <= cs@.len(),
            trim_end(cs@.subrange(lo as int, hi as int)) == trim_end(
                cs@.subrange(lo as int, k as int),
            ),
        decreases k,
    {
        assert(cs@.subrange(lo as int, k as int).drop_last() =~= cs@.subrange(
            lo as int,
            k - 1,
        ));
        k = k - 1;
    }
    k
}

/// The first index of `cs[lo..hi]` once leading white space is dropped.
pub fn trim_start_index(cs: &Vec<char>, lo: usize, hi: usize) -> (k: usize)
    requires
        lo <= hi <= cs@.len(),
    ensures
        lo <= k <= hi,
        trim_start(cs@.subrange(lo as int, hi as int)) == cs@.subrange(k as int, hi as int),
{
    let mut k = lo;
    while k < hi && char_is_white_space(cs[k])
        invariant
            lo <= k <= hi <= cs@.len(),
            trim_start(cs@.subrange(lo as int, hi as int)) == trim_start(
                cs@.subrange(k as int, hi as int),
            ),
        decreases hi - k,
    {
        assert(cs@.subrange(k as int, hi as int).drop_first() =~= cs@.subrange(
            k + 1,
            hi as int,
        ));
        k = k + 1;
    }
    k
}

/// `str::trim`.
pub fn trim_string(s: &str) -> (r: String)
    ensures
        r@ == trim(s@),
{
    let cs = chars_of(s);
    let hi = trim_end_index(&cs, 0, cs.len());
    let lo = trim_start_index(&cs, 0, hi);
    assert(cs@.subrange(0, cs@.len() as int) =~= cs@);
    string_from_range(&cs, lo, hi)
}

/// `str::trim_end`.
pub fn trim_end_string(s: &str) -> (r: String)
    ensures
        r@ == trim_end(s@),
{
    let cs = chars_of(s);
    let hi = trim_end_index(&cs, 0, cs.len());
    assert(cs@.subrange(0, cs@.len() as int) =~= cs@);
    string_from_range(&cs, 0, hi)
}

/// `str::trim_end_matches` with the characters of `set`.
pub fn trim_end_chars_string(s: &str, set: &Vec<char>) -> (r: String)
    ensures
        r@ == trim_end_chars(s@, set@),
{
    let cs = chars_of(s);
    let mut k = cs.len();
    assert(cs@.take(cs@.len() as int) =~= cs@);
    while k > 0 && vec_contains_char(set, cs[k - 1])
        invariant
            k <= cs@.len(),
            trim_end_chars(s@, set@) == trim_end_chars(cs@.take(k as int), set@),
        decreases k,
    {
        assert(cs@.take(k as int).drop_last() =~= cs@.take(k - 1));
        k = k - 1;
    }
    assert(cs@.take(cs@.len() as int) =~= cs@);
    assert(cs@.subrange(0, k as int) =~= cs@.take(k as int));
    string_from_range(&cs, 0, k)
}

pub fn vec_contains_char(v: &Vec<char>, c: char) -> (r: bool)
    ensures
        r == v@.contains(c),
{
    let mut i: usize = 0;
    while i < v.len()
        invariant
            i <= v@.len(),
            forall|j: int| 0 <= j < i ==> v@[j] != c,
        decreases v.len() - i,
    {
        if v[i] == c {
            return true;
        }
        i = i + 1;
    }
    false
}

/// The index of the first line feed in `cs[pos..]`, or the length.
/// The first index at or after `pos` that holds `c`, or the length.
pub fn find_char(cs: &Vec<char>, c: char, pos: usize) -> (k: usize)
    requires
        pos <= cs@.len(),
    ensures
        k == find_char_from(cs@, c, pos as int),
        pos <= k <= cs@.len(),
{
    let mut k = pos;
    while k < cs.len() && cs[k] != c
        invariant
            pos <= k <= cs@.len(),
            forall|j: int| pos <= j < k ==> cs@[j] != c,
        decreases cs.len() - k,
    {
        k = k + 1;
    }
    proof {
        lemma_find_char_from_is(cs@, c, pos as int, k as int);
    }
    k
}

/// `str::lines`.
pub fn split_lines(s: &str) -> (r: Vec<String>)
    ensures
        views(r@) == lines(s@),
{
    let cs = chars_of(s);
    let n = cs.len();
    let mut out: Vec<String> = Vec::new();
    let mut pos: usize = 0;
    while pos < n
        invariant
            n == cs@.len(),
            cs@ == s@,
            pos <= n,
            lines(s@) == views(out@) + lines_from(cs@, pos as int),
        decreases n - pos,
    {
        let k = find_char(&cs, '\n', pos);
        if k == n {
            let line = string_from_range(&cs, pos, n);
            proof {
                assert(views(out@.push(line)) =~= views(out@).push(line@));
                assert(lines_from(cs@, n as int) =~= seq![]);
            }
            out.push(line);
            pos = n;
        } else {
            let end = if k > pos && cs[k - 1] == '\r' {
                k - 1
            } else {
                k
            };
            let line = string_from_range(&cs, pos, end);
            proof {
                let seg = cs@.subrange(pos as int, k as int);
                if k > pos && cs@[k - 1] == '\r' {
                    assert(seg.drop_last() =~= cs@.subrange(pos as int, end as int));
                }
                assert(line@ == strip_cr(seg));
                assert(views(out@.push(line)) =~= views(out@).push(line@));
            }
            out.push(line);
            pos = k + 1;
        }
    }
    proof {
        assert(lines_from(cs@, pos as int) =~= seq![]);
        assert(views(out@) + seq![] =~= views(out@));
    }
    out
}

/// Whether `cs[i..]` starts with `p`.
fn matches_at(cs: &Vec<char>, i: usize, p: &Vec<char>) -> (r: bool)
    requires
        i <= cs@.len(),
    ensures
        r == starts_with(cs@.skip(i as int), p@),
{
    let n = cs.len();
    if p.len() > n - i {
        return false;
    }
    let mut j: usize = 0;
    while j < p.len()
        invariant
            n == cs@.len(),
            i + p@.len() <= n,
            j <= p@.len(),
            i + p@.len() <= cs@.len(),
            forall|t: int| 0 <= t < j ==> cs@[i + t] == p@[t],
        decreases p.len() - j,
    {
        if cs[i + j] != p[j] {
            assert(cs@.skip(i as int).take(p@.len() as int)[j as int] != p@[j as int]);
            return false;
        }
        j = j + 1;
    }
    assert(cs@.skip(i as int).take(p@.len() as int) =~= p@);
    true
}

/// `str::replace` with a non-empty pattern.
pub fn replace_all_string(s: &str, pat: &str, rep: &str) -> (r: String)
    requires
        pat@.len() > 0,
    ensures
        r@ == replace_all(s@, pat@, rep@),
{
    let cs = chars_of(s);
    let p = chars_of(pat);
    let rc = chars_of(rep);
    let n = cs.len();
    let mut out: Vec<char> = Vec::new();
    let mut i: usize = 0;
    assert(cs@.skip(0) =~= cs@);
    assert(out@ + replace_all(cs@, p@, rc@) =~= replace_all(cs@, p@, rc@));
    while i < n
        invariant
            n == cs@.len(),
            cs@ == s@,
            p@ == pat@,
            rc@ == rep@,
            p@.len() > 0,
            i <= n,
            replace_all(s@, pat@, rep@) == out@ + replace_all(cs@.skip(i as int), p@, rc@),
        decreases n - i,
    {
        let ghost rest = cs@.skip(i as int);
        if matches_at(&cs, i, &p) {
            proof {
                assert(rest.skip(p@.len() as int) =~= cs@.skip(i + p@.len()));
            }
            let mut t: usize = 0;
            let ghost before = out@;
            while t < rc.len()
                invariant
                    t <= rc@.len(),
                    out@ == before + rc@.take(t as int),
                decreases rc.len() - t,
            {
                out.push(rc[t]);
                assert(rc@.take(t + 1) =~= rc@.take(t as int).push(rc@[t as int]));
                t = t + 1;
            }
            assert(rc@.take(rc@.len() as int) =~= rc@);
            assert(before + (rc@ + replace_all(cs@.skip(i + p@.len()), p@, rc@)) =~= out@
                + replace_all(cs@.skip(i + p@.len()), p@, rc@));
            i = i + p.len();
        } else {
            proof {
                assert(rest.skip(1) =~= cs@.skip(i + 1));
                if rest.len() >= p@.len() {
                    assert(rest.take(p@.len() as int) != p@);
                }
            }
            let ghost before = out@;
            out.push(cs[i]);
            assert(before + (seq![rest[0]] + replace_all(cs@.skip(i + 1), p@, rc@)) =~= out@
                + replace_all(cs@.skip(i + 1), p@, rc@));
            i = i + 1;
        }
    }
    assert(replace_all(cs@.skip(i as int), p@, rc@) =~= seq![]);
    assert(out@ + seq![] =~= out@);
    string_from_chars(out.as_slice())
}

/// `[String]::join`.
pub fn join_strings(parts: &Vec<String>, sep: &str) -> (r: String)
    ensures
        r@ == join(views(parts@), sep@),
{
    let r = join_strings_range(parts, 0, parts.len(), sep);
    assert(views(parts@).subrange(0, parts@.len() as int) =~= views(parts@));
    r
}

/// `parts[lo..hi].join(sep)`.
pub fn join_strings_range(parts: &Vec<String>, lo: usize, hi: usize, sep: &str) -> (r: String)
    requires
        lo <= hi <= parts@.len(),
    ensures
        r@ == join(views(parts@).subrange(lo as int, hi as int), sep@),
{
    let mut out = String::new();
    let mut i: usize = lo;
    let ghost all = views(parts@).subrange(lo as int, hi as int);
    while i < hi
        invariant
            hi <= parts@.len(),
            lo <= i <= hi,
            all == views(parts@).subrange(lo as int, hi as int),
            out@ == join(all.take(i - lo), sep@),
        decreases hi - i,
    {
        proof {
            assert(all.take(i - lo + 1).drop_last() =~= all.take(i - lo));
            assert(all.take(i - lo + 1).last() == parts@[i as int]@);
            if i == lo {
                assert(all.take(1) =~= seq![parts@[lo as int]@]);
                assert(all.take(0) =~= Seq::<Seq<char>>::empty());
            }
        }
        if i > lo {
            out.append(sep);
        }
        out.append(parts[i].as_str());
        i = i + 1;
    }
    assert(all.take(hi - lo) =~= all);
    out
}

} // verus!
