use vstd::prelude::*;
use crate::calendar::Date;
use crate::cli::text_equals;
use crate::editor::{file_name, file_name_of};
use crate::error::{ErrorView, WrkError};
use crate::layout::{date_from_components, date_of_components};
use crate::order::{compare_text, lemma_text_order, sign_flips, text_order};
use crate::text::{
    chars_of, find_char, find_char_from, join, join_strings, lemma_find_char_from, string_from_range,
    views,
};

verus! {

/// A problem that `wrk doctor` found in a file.
#[derive(Debug, PartialEq, Eq)]
pub struct LintProblem {
    pub path: String,
    pub message: String,
}

impl View for LintProblem {
    type V = (Seq<char>, Seq<char>);

    open spec fn view(&self) -> (Seq<char>, Seq<char>) {
        (self.path@, self.message@)
    }
}

pub open spec fn problem_views(ps: Seq<LintProblem>) -> Seq<(Seq<char>, Seq<char>)> {
    ps.map_values(|p: LintProblem| p@)
}

/// The component that stands for the root of an absolute path.
pub open spec fn root_part() -> Seq<char> {
    seq!['/']
}

/// The names of `s[pos..]`: the non-empty runs between slashes.
pub open spec fn names_from(s: Seq<char>, pos: int) -> Seq<Seq<char>>
    decreases s.len() - pos,
{
    if pos >= s.len() || pos < 0 {
        seq![]
    } else {
        let i = find_char_from(s, '/', pos);
        proof {
            lemma_find_char_from(s, '/', pos);
        }
        let rest = if i >= s.len() {
            seq![]
        } else {
            names_from(s, i + 1)
        };
        if i == pos {
            rest
        } else {
            seq![s.subrange(pos, i)] + rest
        }
    }
}

/// The components of a path as `Path::components` gives them on Unix, for
/// paths without `.` or `..` parts (those that a directory walk yields): the
/// root `/` of an absolute path, then each name between slashes.
pub open spec fn path_parts(p: Seq<char>) -> Seq<Seq<char>> {
    if p.len() > 0 && p[0] == '/' {
        seq![root_part()] + names_from(p, 1)
    } else {
        names_from(p, 0)
    }
}

/// The components of a path.
pub fn path_parts_of(path: &str) -> (r: Vec<String>)
    ensures
        views(r@) == path_parts(path@),
{
    let cs = chars_of(path);
    let n = cs.len();
    let mut out: Vec<String> = Vec::new();
    let mut pos: usize = 0;
    if n > 0 && cs[0] == '/' {
        let root = string_from_range(&cs, 0, 1);
        assert(root@ =~= root_part());
        out.push(root);
        pos = 1;
        assert(views(out@) =~= seq![root_part()]);
    } else {
        assert(views(out@) =~= seq![]);
        assert(path_parts(path@) =~= seq![] + names_from(cs@, 0));
    }
    while pos < n
        invariant
            n == cs@.len(),
            cs@ == path@,
            pos <= n,
            path_parts(path@) == views(out@) + names_from(cs@, pos as int),
        decreases n - pos,
    {
        let k = find_char(&cs, '/', pos);
        let ghost before = views(out@);
        let ghost rest = if k >= n {
            Seq::<Seq<char>>::empty()
        } else {
            names_from(cs@, k + 1)
        };
        if k > pos {
            let part = string_from_range(&cs, pos, k);
            out.push(part);
            assert(views(out@) =~= before.push(part@));
            assert(before + (seq![part@] + rest) =~= views(out@) + rest);
        }
        if k == n {
            pos = n;
            assert(names_from(cs@, n as int) =~= seq![]);
        } else {
            pos = k + 1;
        }
    }
    assert(names_from(cs@, pos as int) =~= seq![]);
    assert(views(out@) + seq![] =~= views(out@));
    out
}

/// `prefix` is a leading run of `parts`.
pub open spec fn parts_prefix(prefix: Seq<Seq<char>>, parts: Seq<Seq<char>>) -> bool {
    prefix.len() <= parts.len() && parts.take(prefix.len() as int) == prefix
}

fn parts_start_with(parts: &Vec<String>, prefix: &Vec<String>) -> (r: bool)
    ensures
        r == parts_prefix(views(prefix@), views(parts@)),
{
    if prefix.len() > parts.len() {
        return false;
    }
    let mut i: usize = 0;
    while i < prefix.len()
        invariant
            i <= prefix@.len() <= parts@.len(),
            forall|j: int| 0 <= j < i ==> parts@[j]@ == prefix@[j]@,
        decreases prefix.len() - i,
    {
        if !(parts[i] == prefix[i]) {
            assert(views(parts@).take(prefix@.len() as int)[i as int] != views(prefix@)[i as int]);
            return false;
        }
        i = i + 1;
    }
    assert(views(parts@).take(prefix@.len() as int) =~= views(prefix@));
    true
}

/// Whether `path` lies inside `root`, whole components compared
/// (`Path::starts_with`).
pub fn path_within(root: &str, path: &str) -> (r: bool)
    ensures
        r == parts_prefix(path_parts(root@), path_parts(path@)),
{
    let a = path_parts_of(root);
    let b = path_parts_of(path);
    parts_start_with(&b, &a)
}

/// The test of the `latest.md` link once the log root and the link's
/// target are resolved: the target must lie inside the root.
pub fn check_latest_target(resolved_root: &str, resolved_target: &str, root: &str) -> (r: Result<
    (),
    WrkError,
>)
    ensures
        r is Ok <==> parts_prefix(path_parts(resolved_root@), path_parts(resolved_target@)),
        r matches Err(e) ==> e@ == (ErrorView::LatestOutside { root: root@ }),
{
    if path_within(resolved_root, resolved_target) {
        Ok(())
    } else {
        Err(WrkError::LatestOutside { root: root.to_string() })
    }
}

/// The components of `path` after those of `root` (`Path::strip_prefix`).
pub open spec fn relative_parts(root: Seq<char>, path: Seq<char>) -> Option<Seq<Seq<char>>> {
    if parts_prefix(path_parts(root), path_parts(path)) {
        Some(path_parts(path).skip(path_parts(root).len() as int))
    } else {
        None
    }
}

/// The components of `path` below `root`.
pub fn strip_root(root: &str, path: &str) -> (r: Result<Vec<String>, WrkError>)
    ensures
        match relative_parts(root@, path@) {
            Some(ps) => r matches Ok(v) && views(v@) == ps,
            None => r matches Err(e) && e@ == (ErrorView::OutsideRoot { path: path@, root: root@ }),
        },
{
    let a = path_parts_of(root);
    let b = path_parts_of(path);
    if !parts_start_with(&b, &a) {
        return Err(WrkError::OutsideRoot { path: path.to_string(), root: root.to_string() });
    }
    let mut out: Vec<String> = Vec::new();
    let mut i: usize = a.len();
    while i < b.len()
        invariant
            a@.len() <= i <= b@.len(),
            views(out@) == views(b@).subrange(a@.len() as int, i as int),
        decreases b.len() - i,
    {
        let ghost before = views(out@);
        out.push(b[i].clone());
        assert(views(out@) =~= before.push(b@[i as int]@));
        assert(views(b@).subrange(a@.len() as int, i + 1) =~= views(b@).subrange(
            a@.len() as int,
            i as int,
        ).push(b@[i as int]@));
        i = i + 1;
    }
    assert(views(b@).subrange(a@.len() as int, b@.len() as int) =~= views(b@).skip(
        a@.len() as int,
    ));
    Ok(out)
}

/// The date that a file of the log names by its place under the root.
pub open spec fn date_of_path(root: Seq<char>, path: Seq<char>) -> Result<(int, int, int), ErrorView> {
    match relative_parts(root, path) {
        None => Err(ErrorView::OutsideRoot { path, root }),
        Some(ps) => date_of_components(ps),
    }
}

/// The date of a file of the log, from its path: it must lie under the
/// root as `YYYY/MM/YYYY-MM-DD.md`.
pub fn date_from_path(root: &str, path: &str) -> (r: Result<Date, WrkError>)
    ensures
        match date_of_path(root@, path@) {
            Ok(ymd) => r matches Ok(d) && d.wf() && ymd == (d.year as int, d.month as int, d.day as int),
            Err(e) => r matches Err(x) && x@ == e,
        },
{
    let parts = strip_root(root, path)?;
    date_from_components(&parts)
}

/// A file name whose extension is `md` (`Path::extension`): it ends in
/// `.md` and has something before that dot.
pub open spec fn is_markdown_name(name: Seq<char>) -> bool {
    name.len() > 3 && name.skip(name.len() - 3) == seq!['.', 'm', 'd']
}

pub fn markdown_name(name: &str) -> (r: bool)
    ensures
        r == is_markdown_name(name@),
{
    let cs = chars_of(name);
    let n = cs.len();
    if n > 3 && cs[n - 3] == '.' && cs[n - 2] == 'm' && cs[n - 1] == 'd' {
        assert(name@.skip(n - 3) =~= seq!['.', 'm', 'd']);
        true
    } else {
        proof {
            if n > 3 && name@.skip(n - 3) == seq!['.', 'm', 'd'] {
                assert(name@.skip(n - 3)[0] == '.');
                assert(name@.skip(n - 3)[1] == 'm');
                assert(name@.skip(n - 3)[2] == 'd');
            }
        }
        false
    }
}

/// Order of two components: the root first, then names by text.
pub open spec fn part_order(a: Seq<char>, b: Seq<char>) -> int {
    if a == root_part() {
        if b == root_part() {
            0
        } else {
            -1
        }
    } else if b == root_part() {
        1
    } else {
        text_order(a, b)
    }
}

proof fn lemma_part_order(a: Seq<char>, b: Seq<char>, c: Seq<char>)
    ensures
        sign_flips(part_order(a, b), part_order(b, a)),
        part_order(a, b) == 0 <==> a == b,
        part_order(a, b) <= 0 && part_order(b, c) <= 0 ==> part_order(a, c) <= 0,
        part_order(a, b) <= 0 && part_order(b, c) <= 0 && (part_order(a, b) < 0 || part_order(b, c)
            < 0) ==> part_order(a, c) < 0,
{
    lemma_text_order(a, b, c);
}

/// Lexicographic order of component lists (the order of `Path`).
pub open spec fn parts_order(a: Seq<Seq<char>>, b: Seq<Seq<char>>) -> int
    decreases a.len(),
{
    if a.len() == 0 && b.len() == 0 {
        0
    } else if a.len() == 0 {
        -1
    } else if b.len() == 0 {
        1
    } else if part_order(a[0], b[0]) != 0 {
        part_order(a[0], b[0])
    } else {
        parts_order(a.skip(1), b.skip(1))
    }
}

proof fn lemma_parts_order(a: Seq<Seq<char>>, b: Seq<Seq<char>>, c: Seq<Seq<char>>)
    ensures
        sign_flips(parts_order(a, b), parts_order(b, a)),
        parts_order(a, b) <= 0 && parts_order(b, c) <= 0 ==> parts_order(a, c) <= 0,
        parts_order(a, b) <= 0 && parts_order(b, c) <= 0 && (parts_order(a, b) < 0 || parts_order(
            b,
            c,
        ) < 0) ==> parts_order(a, c) < 0,
    decreases a.len(),
{
    if a.len() > 0 && b.len() > 0 && c.len() > 0 {
        lemma_part_order(a[0], b[0], c[0]);
        lemma_part_order(b[0], c[0], a[0]);
        lemma_part_order(a[0], c[0], b[0]);
        lemma_parts_order(a.skip(1), b.skip(1), c.skip(1));
    } else if a.len() > 0 && b.len() > 0 {
        lemma_part_order(a[0], b[0], a[0]);
        lemma_parts_order(a.skip(1), b.skip(1), a.skip(1));
    }
}

/// The order of problems: by path, component by component, then by message.
pub open spec fn problem_order(x: (Seq<char>, Seq<char>), y: (Seq<char>, Seq<char>)) -> int {
    if parts_order(path_parts(x.0), path_parts(y.0)) != 0 {
        parts_order(path_parts(x.0), path_parts(y.0))
    } else {
        text_order(x.1, y.1)
    }
}

proof fn lemma_problem_order(
    x: (Seq<char>, Seq<char>),
    y: (Seq<char>, Seq<char>),
    z: (Seq<char>, Seq<char>),
)
    ensures
        sign_flips(problem_order(x, y), problem_order(y, x)),
        problem_order(x, y) <= 0 && problem_order(y, z) <= 0 ==> problem_order(x, z) <= 0,
        problem_order(x, y) <= 0 && problem_order(y, z) <= 0 && (problem_order(x, y) < 0
            || problem_order(y, z) < 0) ==> problem_order(x, z) < 0,
{
    lemma_parts_order(path_parts(x.0), path_parts(y.0), path_parts(z.0));
    lemma_parts_order(path_parts(y.0), path_parts(z.0), path_parts(x.0));
    lemma_parts_order(path_parts(x.0), path_parts(z.0), path_parts(y.0));
    lemma_text_order(x.1, y.1, z.1);
}

pub open spec fn char_views(v: Seq<Vec<char>>) -> Seq<Seq<char>> {
    v.map_values(|x: Vec<char>| x@)
}

fn compare_part(a: &Vec<char>, b: &Vec<char>) -> (r: i8)
    ensures
        r as int == part_order(a@, b@),
{
    let a_root = a.len() == 1 && a[0] == '/';
    let b_root = b.len() == 1 && b[0] == '/';
    proof {
        if a@ == root_part() {
            assert(a@[0] == '/');
        }
        if a_root {
            assert(a@ =~= root_part());
        }
        if b@ == root_part() {
            assert(b@[0] == '/');
        }
        if b_root {
            assert(b@ =~= root_part());
        }
    }
    if a_root {
        if b_root {
            0
        } else {
            -1
        }
    } else if b_root {
        1
    } else {
        compare_text(a, b)
    }
}

fn compare_parts(a: &Vec<Vec<char>>, b: &Vec<Vec<char>>) -> (r: i8)
    ensures
        r as int == parts_order(char_views(a@), char_views(b@)),
{
    let ghost av = char_views(a@);
    let ghost bv = char_views(b@);
    let mut i: usize = 0;
    assert(av.skip(0) =~= av);
    assert(bv.skip(0) =~= bv);
    while i < a.len() && i < b.len()
        invariant
            av == char_views(a@),
            bv == char_views(b@),
            i <= a@.len(),
            i <= b@.len(),
            parts_order(av, bv) == parts_order(av.skip(i as int), bv.skip(i as int)),
        decreases a.len() - i,
    {
        let c = compare_part(&a[i], &b[i]);
        assert(av.skip(i as int)[0] == a@[i as int]@);
        assert(bv.skip(i as int)[0] == b@[i as int]@);
        if c != 0 {
            return c;
        }
        assert(av.skip(i as int).skip(1) =~= av.skip(i + 1));
        assert(bv.skip(i as int).skip(1) =~= bv.skip(i + 1));
        i = i + 1;
    }
    if i == a.len() && i == b.len() {
        0
    } else if i == a.len() {
        -1
    } else {
        1
    }
}

/// What the sort compares of a problem.
struct ProblemKey {
    parts: Vec<Vec<char>>,
    message: Vec<char>,
}

impl ProblemKey {
    spec fn matches(&self, p: (Seq<char>, Seq<char>)) -> bool {
        char_views(self.parts@) == path_parts(p.0) && self.message@ == p.1
    }
}

fn key_of_problem(p: &LintProblem) -> (k: ProblemKey)
    ensures
        k.matches(p@),
{
    let names = path_parts_of(p.path.as_str());
    let mut parts: Vec<Vec<char>> = Vec::new();
    let mut i: usize = 0;
    while i < names.len()
        invariant
            i <= names@.len(),
            char_views(parts@) == views(names@).take(i as int),
        decreases names.len() - i,
    {
        let ghost before = char_views(parts@);
        parts.push(chars_of(names[i].as_str()));
        assert(char_views(parts@) =~= before.push(names@[i as int]@));
        assert(views(names@).take(i + 1) =~= views(names@).take(i as int).push(names@[i as int]@));
        i = i + 1;
    }
    assert(views(names@).take(names@.len() as int) =~= views(names@));
    ProblemKey { parts, message: chars_of(p.message.as_str()) }
}

fn compare_problem_keys(a: &ProblemKey, b: &ProblemKey) -> (r: i8)
    ensures
        forall|x: (Seq<char>, Seq<char>), y: (Seq<char>, Seq<char>)|
            a.matches(x) && b.matches(y) ==> r as int == #[trigger] problem_order(x, y),
{
    let c = compare_parts(&a.parts, &b.parts);
    if c != 0 {
        c
    } else {
        compare_text(&a.message, &b.message)
    }
}

/// Index `i` of `ps` comes before index `j` once they are sorted: its
/// problem is smaller, or equal and earlier.
pub open spec fn problem_before(ps: Seq<(Seq<char>, Seq<char>)>, i: int, j: int) -> bool {
    problem_order(ps[i], ps[j]) < 0 || (problem_order(ps[i], ps[j]) == 0 && i < j)
}

/// `perm` lists indices of `ps`, each once, in sorted order.
pub open spec fn is_problem_permutation(ps: Seq<(Seq<char>, Seq<char>)>, perm: Seq<int>) -> bool {
    &&& perm.len() == ps.len()
    &&& forall|a: int| 0 <= a < perm.len() ==> 0 <= #[trigger] perm[a] < ps.len()
    &&& forall|a: int, b: int|
        0 <= a < b < perm.len() ==> problem_before(ps, #[trigger] perm[a], #[trigger] perm[b])
}

/// `out` is `ps` sorted stably by path, then message (`sort_by`).
pub open spec fn is_sorted_problems(ps: Seq<(Seq<char>, Seq<char>)>, out: Seq<(Seq<char>, Seq<char>)>) -> bool {
    exists|perm: Seq<int>|
        is_problem_permutation(ps, perm) && out == perm.map_values(|k: int| ps[k])
}

/// The problems in the order of the report: by path, then by message.
pub fn sort_problems(problems: &Vec<LintProblem>) -> (r: Vec<LintProblem>)
    ensures
        is_sorted_problems(problem_views(problems@), problem_views(r@)),
{
    let ghost ps = problem_views(problems@);
    let n = problems.len();
    let mut keys: Vec<ProblemKey> = Vec::new();
    let mut t: usize = 0;
    while t < n
        invariant
            n == problems@.len(),
            ps == problem_views(problems@),
            t <= n,
            keys@.len() == t,
            forall|q: int| 0 <= q < t ==> (#[trigger] keys@[q]).matches(ps[q]),
        decreases n - t,
    {
        keys.push(key_of_problem(&problems[t]));
        t = t + 1;
    }
    let mut order: Vec<usize> = Vec::new();
    let mut i: usize = 0;
    while i < n
        invariant
            n == problems@.len(),
            ps == problem_views(problems@),
            keys@.len() == n,
            forall|q: int| 0 <= q < n ==> (#[trigger] keys@[q]).matches(ps[q]),
            i <= n,
            order@.len() == i,
            forall|a: int| 0 <= a < order@.len() ==> (#[trigger] order@[a]) < i,
            forall|a: int, b: int|
                0 <= a < b < order@.len() ==> problem_before(
                    ps,
                    #[trigger] order@[a] as int,
                    #[trigger] order@[b] as int,
                ),
        decreases n - i,
    {
        let mut lo: usize = 0;
        let mut hi: usize = order.len();
        while lo < hi
            invariant
                n == problems@.len(),
                ps == problem_views(problems@),
                keys@.len() == n,
                forall|q: int| 0 <= q < n ==> (#[trigger] keys@[q]).matches(ps[q]),
                i < n,
                order@.len() == i,
                forall|a: int| 0 <= a < order@.len() ==> (#[trigger] order@[a]) < i,
                forall|a: int, b: int|
                    0 <= a < b < order@.len() ==> problem_before(
                        ps,
                        #[trigger] order@[a] as int,
                        #[trigger] order@[b] as int,
                    ),
                lo <= hi <= order@.len(),
                forall|q: int|
                    0 <= q < lo ==> problem_order(ps[i as int], ps[#[trigger] order@[q] as int]) >= 0,
                forall|q: int|
                    hi <= q < order@.len() ==> problem_order(ps[i as int], ps[#[trigger] order@[q] as int])
                        < 0,
            decreases hi - lo,
        {
            let mid = lo + (hi - lo) / 2;
            let c = compare_problem_keys(&keys[i], &keys[order[mid]]);
            assert(keys@[i as int].matches(ps[i as int]));
            assert(keys@[order@[mid as int] as int].matches(ps[order@[mid as int] as int]));
            assert(c == problem_order(ps[i as int], ps[order@[mid as int] as int]));
            if c < 0 {
                assert forall|q: int| mid <= q < order@.len() implies problem_order(
                    ps[i as int],
                    ps[#[trigger] order@[q] as int],
                ) < 0 by {
                    if q > mid {
                        assert(problem_before(ps, order@[mid as int] as int, order@[q] as int));
                        lemma_problem_order(ps[i as int], ps[order@[mid as int] as int], ps[order@[q] as int]);
                    }
                }
                hi = mid;
            } else {
                assert forall|q: int| 0 <= q <= mid implies problem_order(
                    ps[i as int],
                    ps[#[trigger] order@[q] as int],
                ) >= 0 by {
                    if q < mid {
                        assert(problem_before(ps, order@[q] as int, order@[mid as int] as int));
                        lemma_problem_order(ps[order@[q] as int], ps[order@[mid as int] as int], ps[i as int]);
                        lemma_problem_order(ps[i as int], ps[order@[q] as int], ps[i as int]);
                        lemma_problem_order(ps[order@[mid as int] as int], ps[i as int], ps[i as int]);
                    }
                }
                lo = mid + 1;
            }
        }
        let ghost old_order = order@;
        order.insert(lo, i);
        proof {
            assert forall|a: int| 0 <= a < order@.len() implies (#[trigger] order@[a]) < i + 1 by {
                if a < lo {
                    assert(order@[a] == old_order[a]);
                } else if a > lo {
                    assert(order@[a] == old_order[a - 1]);
                }
            }
            assert forall|a: int, b: int|
                0 <= a < b < order@.len() implies problem_before(
                    ps,
                    #[trigger] order@[a] as int,
                    #[trigger] order@[b] as int,
                ) by {
                let ii = i as int;
                if b < lo {
                    assert(order@[a] == old_order[a] && order@[b] == old_order[b]);
                } else if b == lo {
                    assert(order@[a] == old_order[a]);
                    assert(order@[b] == i);
                    lemma_problem_order(ps[ii], ps[old_order[a] as int], ps[ii]);
                } else if a == lo {
                    assert(order@[b] == old_order[b - 1]);
                    assert(order@[a] == i);
                } else if a < lo {
                    assert(order@[a] == old_order[a] && order@[b] == old_order[b - 1]);
                } else {
                    assert(order@[a] == old_order[a - 1] && order@[b] == old_order[b - 1]);
                }
            }
        }
        i = i + 1;
    }
    let mut out: Vec<LintProblem> = Vec::new();
    let mut k: usize = 0;
    let ghost perm = order@.map_values(|x: usize| x as int);
    while k < n
        invariant
            n == problems@.len(),
            ps == problem_views(problems@),
            order@.len() == n,
            perm == order@.map_values(|x: usize| x as int),
            forall|a: int| 0 <= a < order@.len() ==> (#[trigger] order@[a]) < n,
            k <= n,
            problem_views(out@) == perm.take(k as int).map_values(|x: int| ps[x]),
        decreases n - k,
    {
        let p = &problems[order[k]];
        let copy = LintProblem { path: p.path.clone(), message: p.message.clone() };
        let ghost before = out@;
        out.push(copy);
        assert(problem_views(out@) =~= problem_views(before).push(copy@));
        assert(perm.take(k + 1).map_values(|x: int| ps[x]) =~= perm.take(k as int).map_values(
            |x: int| ps[x],
        ).push(ps[perm[k as int]]));
        k = k + 1;
    }
    assert(perm.take(n as int) =~= perm);
    assert(is_problem_permutation(ps, perm)) by {
        assert forall|a: int, b: int|
            0 <= a < b < perm.len() implies problem_before(ps, #[trigger] perm[a], #[trigger] perm[b]) by {
            assert(perm[a] == order@[a] as int);
            assert(perm[b] == order@[b] as int);
        }
        assert forall|a: int| 0 <= a < perm.len() implies 0 <= #[trigger] perm[a] < ps.len() by {
            assert(perm[a] == order@[a] as int);
        }
    }
    out
}

/// Where the `latest.md` link points: the file's path below the root, or
/// its whole path where it lies elsewhere.
pub open spec fn link_target(root: Seq<char>, target: Seq<char>) -> Seq<char> {
    match relative_parts(root, target) {
        Some(ps) => join(ps, seq!['/']),
        None => target,
    }
}

/// The target that the `latest.md` link in `root` is given for `target`.
pub fn latest_link_target(root: &str, target: &str) -> (r: String)
    ensures
        r@ == link_target(root@, target@),
{
    match strip_root(root, target) {
        Ok(parts) => {
            proof {
                reveal_strlit("/");
            }
            assert("/"@ =~= seq!['/']);
            join_strings(&parts, "/")
        },
        Err(_) => target.to_string(),
    }
}

/// The report of `wrk doctor`: a line `path: message`
/// for each problem, or a line saying that there is none.
pub open spec fn report_text(ps: Seq<(Seq<char>, Seq<char>)>) -> Seq<char> {
    if ps.len() == 0 {
        "No problems found.\n"@
    } else {
        problem_lines(ps)
    }
}

pub open spec fn problem_lines(ps: Seq<(Seq<char>, Seq<char>)>) -> Seq<char>
    decreases ps.len(),
{
    if ps.len() == 0 {
        seq![]
    } else {
        problem_lines(ps.drop_last()) + ps.last().0 + ": "@ + ps.last().1 + "\n"@
    }
}

/// The text that `wrk doctor` prints for the problems found.
pub fn doctor_report(problems: &Vec<LintProblem>) -> (r: String)
    ensures
        r@ == report_text(problem_views(problems@)),
{
    let ghost ps = problem_views(problems@);
    if problems.len() == 0 {
        return String::from_str("No problems found.\n");
    }
    let mut out = String::new();
    let mut i: usize = 0;
    while i < problems.len()
        invariant
            ps == problem_views(problems@),
            i <= problems@.len(),
            out@ == problem_lines(ps.take(i as int)),
        decreases problems.len() - i,
    {
        assert(ps.take(i + 1).drop_last() =~= ps.take(i as int));
        assert(ps.take(i + 1).last() == problems@[i as int]@);
        out.append(problems[i].path.as_str());
        out.append(": ");
        out.append(problems[i].message.as_str());
        out.append("\n");
        i = i + 1;
    }
    assert(ps.take(problems@.len() as int) =~= ps);
    out
}

/// What `wrk doctor` does with an item of the log directory.
#[derive(Clone, Copy, Debug, PartialEq, Eq, Structural)]
pub enum WalkItem {
    /// The `latest.md` link, whose target is tested.
    LatestLink,
    /// A markdown file, checked as the file of a day.
    DayFile,
    /// Anything else, left alone.
    Other,
}

/// The kind of an item: a symbolic link named `latest.md`, a regular file
/// whose extension is `md`, or something else.
pub open spec fn walk_item_of(is_symlink: bool, is_file: bool, path: Seq<char>) -> WalkItem {
    if is_symlink && file_name_of(path) == Some("latest.md"@) {
        WalkItem::LatestLink
    } else if is_file && (file_name_of(path) matches Some(n) && is_markdown_name(n)) {
        WalkItem::DayFile
    } else {
        WalkItem::Other
    }
}

/// Tells what `wrk doctor` does with an item of the log directory.
pub fn walk_item(is_symlink: bool, is_file: bool, path: &str) -> (r: WalkItem)
    ensures
        r == walk_item_of(is_symlink, is_file, path@),
{
    let name = file_name(path);
    proof {
        reveal_strlit("latest.md");
    }
    if is_symlink {
        match &name {
            Some(n) => {
                if text_equals(n.as_str(), "latest.md") {
                    return WalkItem::LatestLink;
                }
            },
            None => {},
        }
    }
    if is_file {
        match &name {
            Some(n) => {
                if markdown_name(n.as_str()) {
                    return WalkItem::DayFile;
                }
            },
            None => {},
        }
    }
    WalkItem::Other
}

} // verus!
