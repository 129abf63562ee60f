use vstd::prelude::*;
use crate::calendar::{Date, Time};
use crate::logbook::{Entry, EntryView, entry_views};
use crate::config::copy_strings;
use crate::text::{chars_of, views};

verus! {

/// Three-way comparison of texts, character by character (the order of
/// `String`).
pub open spec fn text_order(a: Seq<char>, b: Seq<char>) -> int
    decreases a.len(),
{
    if a.len() == 0 && b.len() == 0 {
        0
    } else if a.len() == 0 {
        -1
    } else if b.len() == 0 {
        1
    } else if a[0] < b[0] {
        -1
    } else if b[0] < a[0] {
        1
    } else {
        text_order(a.skip(1), b.skip(1))
    }
}

pub proof fn lemma_text_order_basics(a: Seq<char>, b: Seq<char>)
    ensures
        -1 <= text_order(a, b) <= 1,
        text_order(a, b) == -text_order(b, a),
        text_order(a, b) == 0 <==> a == b,
    decreases a.len(),
{
    if a.len() > 0 && b.len() > 0 && a[0] == b[0] {
        lemma_text_order_basics(a.skip(1), b.skip(1));
        if a.skip(1) == b.skip(1) {
            assert(a =~= seq![a[0]] + a.skip(1));
            assert(b =~= seq![b[0]] + b.skip(1));
        }
    } else if a.len() > 0 && b.len() > 0 {
        assert(a[0] != b[0]);
    } else if a.len() == 0 && b.len() == 0 {
        assert(a =~= b);
    }
}

pub proof fn lemma_text_order_trans(a: Seq<char>, b: Seq<char>, c: Seq<char>)
    requires
        text_order(a, b) <= 0,
        text_order(b, c) <= 0,
    ensures
        text_order(a, c) <= 0,
        text_order(a, b) < 0 || text_order(b, c) < 0 ==> text_order(a, c) < 0,
    decreases a.len(),
{
    lemma_text_order_basics(a, b);
    lemma_text_order_basics(b, c);
    lemma_text_order_basics(a, c);
    if a.len() > 0 && b.len() > 0 && c.len() > 0 && a[0] == b[0] && b[0] == c[0] {
        lemma_text_order_trans(a.skip(1), b.skip(1), c.skip(1));
    }
}

/// `None` first, then texts in order (the order of `Option<String>`).
pub open spec fn opt_text_order(a: Option<Seq<char>>, b: Option<Seq<char>>) -> int {
    match (a, b) {
        (None, None) => 0,
        (None, Some(_)) => -1,
        (Some(_), None) => 1,
        (Some(x), Some(y)) => text_order(x, y),
    }
}

pub open spec fn int_order(a: int, b: int) -> int {
    if a < b {
        -1
    } else if b < a {
        1
    } else {
        0
    }
}

pub open spec fn date_order(a: Date, b: Date) -> int {
    if int_order(a.year as int, b.year as int) != 0 {
        int_order(a.year as int, b.year as int)
    } else if int_order(a.month as int, b.month as int) != 0 {
        int_order(a.month as int, b.month as int)
    } else {
        int_order(a.day as int, b.day as int)
    }
}

pub open spec fn time_order(a: Time, b: Time) -> int {
    if int_order(a.hour as int, b.hour as int) != 0 {
        int_order(a.hour as int, b.hour as int)
    } else {
        int_order(a.minute as int, b.minute as int)
    }
}

/// The first of the comparisons that tells the two apart.
pub open spec fn then(a: int, b: int) -> int {
    if a != 0 {
        a
    } else {
        b
    }
}

/// The order of entries: by date, time, project, type and summary.
pub open spec fn entry_order(a: EntryView, b: EntryView) -> int {
    then(
        date_order(a.date, b.date),
        then(
            time_order(a.timestamp, b.timestamp),
            then(
                opt_text_order(a.project, b.project),
                then(text_order(a.kind, b.kind), text_order(a.summary, b.summary)),
            ),
        ),
    )
}

/// The project of an entry, empty where there is none.
pub open spec fn project_text(e: EntryView) -> Seq<char> {
    e.project.unwrap_or(seq![])
}

/// The order of entries by project: by project (none as empty), date and
/// time, then in the order of entries.
pub open spec fn project_order(a: EntryView, b: EntryView) -> int {
    then(
        text_order(project_text(a), project_text(b)),
        then(
            date_order(a.date, b.date),
            then(time_order(a.timestamp, b.timestamp), entry_order(a, b)),
        ),
    )
}

/// The order used to sort: by project when `by_project`, else by entry.
pub open spec fn key_order(a: EntryView, b: EntryView, by_project: bool) -> int {
    if by_project {
        project_order(a, b)
    } else {
        entry_order(a, b)
    }
}

/// Facts about a three-way comparison: its sign flips with its arguments.
pub open spec fn sign_flips(x: int, y: int) -> bool {
    -1 <= x <= 1 && x == -y
}

pub proof fn lemma_int_order_basics(a: int, b: int, c: int)
    ensures
        sign_flips(int_order(a, b), int_order(b, a)),
        int_order(a, b) == 0 <==> a == b,
        int_order(a, b) <= 0 && int_order(b, c) <= 0 ==> int_order(a, c) <= 0,
        int_order(a, b) <= 0 && int_order(b, c) <= 0 && (int_order(a, b) < 0 || int_order(b, c) < 0)
            ==> int_order(a, c) < 0,
{
}

proof fn lemma_opt_text_order(a: Option<Seq<char>>, b: Option<Seq<char>>, c: Option<Seq<char>>)
    ensures
        sign_flips(opt_text_order(a, b), opt_text_order(b, a)),
        opt_text_order(a, b) == 0 <==> a == b,
        opt_text_order(a, b) <= 0 && opt_text_order(b, c) <= 0 ==> opt_text_order(a, c) <= 0,
        opt_text_order(a, b) <= 0 && opt_text_order(b, c) <= 0 && (opt_text_order(a, b) < 0
            || opt_text_order(b, c) < 0) ==> opt_text_order(a, c) < 0,
{
    match (a, b, c) {
        (Some(x), Some(y), Some(z)) => {
            lemma_text_order_basics(x, y);
            lemma_text_order_basics(x, z);
            if text_order(x, y) <= 0 && text_order(y, z) <= 0 {
                lemma_text_order_trans(x, y, z);
            }
        },
        (Some(x), Some(y), None) => {
            lemma_text_order_basics(x, y);
        },
        (None, Some(y), Some(z)) => {},
        (Some(x), None, Some(z)) => {},
        _ => {},
    }
}

proof fn lemma_text_order_all(a: Seq<char>, b: Seq<char>, c: Seq<char>)
    ensures
        sign_flips(text_order(a, b), text_order(b, a)),
        text_order(a, b) == 0 <==> a == b,
        text_order(a, b) <= 0 && text_order(b, c) <= 0 ==> text_order(a, c) <= 0,
        text_order(a, b) <= 0 && text_order(b, c) <= 0 && (text_order(a, b) < 0 || text_order(b, c) < 0)
            ==> text_order(a, c) < 0,
{
    lemma_text_order_basics(a, b);
    if text_order(a, b) <= 0 && text_order(b, c) <= 0 {
        lemma_text_order_trans(a, b, c);
    }
}

/// Sign, equality and transitivity for the order of dates.
pub proof fn lemma_date_order(a: Date, b: Date, c: Date)
    ensures
        sign_flips(date_order(a, b), date_order(b, a)),
        date_order(a, b) == 0 <==> a == b,
        date_order(a, b) <= 0 && date_order(b, c) <= 0 ==> date_order(a, c) <= 0,
        date_order(a, b) <= 0 && date_order(b, c) <= 0 && (date_order(a, b) < 0 || date_order(b, c) < 0)
            ==> date_order(a, c) < 0,
{
    lemma_int_order_basics(a.year as int, b.year as int, c.year as int);
    lemma_int_order_basics(a.month as int, b.month as int, c.month as int);
    lemma_int_order_basics(a.day as int, b.day as int, c.day as int);
}

/// Sign, equality and transitivity for the order of texts.
pub proof fn lemma_text_order(a: Seq<char>, b: Seq<char>, c: Seq<char>)
    ensures
        sign_flips(text_order(a, b), text_order(b, a)),
        text_order(a, b) == 0 <==> a == b,
        text_order(a, b) <= 0 && text_order(b, c) <= 0 ==> text_order(a, c) <= 0,
        text_order(a, b) <= 0 && text_order(b, c) <= 0 && (text_order(a, b) < 0 || text_order(b, c) < 0)
            ==> text_order(a, c) < 0,
{
    lemma_text_order_all(a, b, c);
}

/// Sign, equality and transitivity for the orders of entries.
pub proof fn lemma_key_order(a: EntryView, b: EntryView, c: EntryView, by_project: bool)
    ensures
        sign_flips(key_order(a, b, by_project), key_order(b, a, by_project)),
        key_order(a, b, by_project) <= 0 && key_order(b, c, by_project) <= 0 ==> key_order(
            a,
            c,
            by_project,
        ) <= 0,
        key_order(a, b, by_project) <= 0 && key_order(b, c, by_project) <= 0 && (key_order(
            a,
            b,
            by_project,
        ) < 0 || key_order(b, c, by_project) < 0) ==> key_order(a, c, by_project) < 0,
{
    lemma_int_order_basics(a.date.year as int, b.date.year as int, c.date.year as int);
    lemma_int_order_basics(a.date.month as int, b.date.month as int, c.date.month as int);
    lemma_int_order_basics(a.date.day as int, b.date.day as int, c.date.day as int);
    lemma_int_order_basics(a.timestamp.hour as int, b.timestamp.hour as int, c.timestamp.hour as int);
    lemma_int_order_basics(
        a.timestamp.minute as int,
        b.timestamp.minute as int,
        c.timestamp.minute as int,
    );
    lemma_opt_text_order(a.project, b.project, c.project);
    lemma_text_order_all(a.kind, b.kind, c.kind);
    lemma_text_order_all(a.summary, b.summary, c.summary);
    lemma_text_order_all(project_text(a), project_text(b), project_text(c));
}

/// A comparison key of an entry, with its texts as characters.
pub struct EntryKey {
    pub date: Date,
    pub timestamp: Time,
    pub project: Option<Vec<char>>,
    pub kind: Vec<char>,
    pub summary: Vec<char>,
    pub project_text: Vec<char>,
}

impl EntryKey {
    pub open spec fn matches(&self, e: EntryView) -> bool {
        &&& self.date == e.date
        &&& self.timestamp == e.timestamp
        &&& match self.project {
            Some(p) => e.project == Some(p@),
            None => e.project is None,
        }
        &&& self.kind@ == e.kind
        &&& self.summary@ == e.summary
        &&& self.project_text@ == project_text(e)
    }
}

pub fn key_of(e: &Entry) -> (k: EntryKey)
    ensures
        k.matches(e@),
{
    let project = match &e.project {
        Some(p) => Some(chars_of(p.as_str())),
        None => None,
    };
    let project_text = match &e.project {
        Some(p) => chars_of(p.as_str()),
        None => Vec::new(),
    };
    EntryKey {
        date: e.date,
        timestamp: e.timestamp,
        project,
        kind: chars_of(e.kind.as_str()),
        summary: chars_of(e.summary.as_str()),
        project_text,
    }
}

pub fn compare_text(a: &Vec<char>, b: &Vec<char>) -> (r: i8)
    ensures
        r as int == text_order(a@, b@),
{
    let mut i: usize = 0;
    assert(a@.skip(0) =~= a@);
    assert(b@.skip(0) =~= b@);
    while i < a.len() && i < b.len() && a[i] == b[i]
        invariant
            i <= a@.len(),
            i <= b@.len(),
            text_order(a@, b@) == text_order(a@.skip(i as int), b@.skip(i as int)),
        decreases a.len() - i,
    {
        assert(a@.skip(i as int).skip(1) =~= a@.skip(i + 1));
        assert(b@.skip(i as int).skip(1) =~= b@.skip(i + 1));
        i = i + 1;
    }
    proof {
        if i < a@.len() {
            assert(a@.skip(i as int)[0] == a@[i as int]);
        }
        if i < b@.len() {
            assert(b@.skip(i as int)[0] == b@[i as int]);
        }
    }
    if i == a.len() && i == b.len() {
        0
    } else if i == a.len() {
        -1
    } else if i == b.len() {
        1
    } else if a[i] < b[i] {
        -1
    } else {
        1
    }
}

fn compare_int(a: i64, b: i64) -> (r: i8)
    ensures
        r as int == int_order(a as int, b as int),
{
    if a < b {
        -1
    } else if b < a {
        1
    } else {
        0
    }
}

fn then_exec(a: i8, b: i8) -> (r: i8)
    ensures
        r as int == then(a as int, b as int),
{
    if a != 0 {
        a
    } else {
        b
    }
}

pub fn compare_dates(a: &Date, b: &Date) -> (r: i8)
    ensures
        r as int == date_order(*a, *b),
{
    let y = compare_int(a.year as i64, b.year as i64);
    let m = compare_int(a.month as i64, b.month as i64);
    let d = compare_int(a.day as i64, b.day as i64);
    then_exec(y, then_exec(m, d))
}

fn compare_times(a: &Time, b: &Time) -> (r: i8)
    ensures
        r as int == time_order(*a, *b),
{
    then_exec(
        compare_int(a.hour as i64, b.hour as i64),
        compare_int(a.minute as i64, b.minute as i64),
    )
}

fn compare_entry_keys(a: &EntryKey, b: &EntryKey) -> (r: i8)
    ensures
        forall|x: EntryView, y: EntryView| a.matches(x) && b.matches(y) ==> r as int == entry_order(x, y),
{
    let d = compare_dates(&a.date, &b.date);
    let t = compare_times(&a.timestamp, &b.timestamp);
    let p: i8 = match (&a.project, &b.project) {
        (None, None) => 0,
        (None, Some(_)) => -1,
        (Some(_), None) => 1,
        (Some(x), Some(y)) => compare_text(x, y),
    };
    let k = compare_text(&a.kind, &b.kind);
    let s = compare_text(&a.summary, &b.summary);
    then_exec(d, then_exec(t, then_exec(p, then_exec(k, s))))
}

pub fn compare_keys(a: &EntryKey, b: &EntryKey, by_project: bool) -> (r: i8)
    ensures
        forall|x: EntryView, y: EntryView| a.matches(x) && b.matches(y) ==> r as int == key_order(x, y, by_project),
{
    let base = compare_entry_keys(a, b);
    if by_project {
        let p = compare_text(&a.project_text, &b.project_text);
        let d = compare_dates(&a.date, &b.date);
        let t = compare_times(&a.timestamp, &b.timestamp);
        then_exec(p, then_exec(d, then_exec(t, base)))
    } else {
        base
    }
}

/// Index `i` of `es` comes before index `j` once they are sorted: its entry
/// is smaller, or equal and earlier.
pub open spec fn sorts_before(es: Seq<EntryView>, i: int, j: int, by_project: bool) -> bool {
    key_order(es[i], es[j], by_project) < 0 || (key_order(es[i], es[j], by_project) == 0 && i < j)
}

/// `perm` lists indices of `es`, each once, in sorted order.
pub open spec fn is_sort_permutation(es: Seq<EntryView>, perm: Seq<int>, by_project: bool) -> bool {
    &&& perm.len() == es.len()
    &&& forall|a: int| 0 <= a < perm.len() ==> 0 <= #[trigger] perm[a] < es.len()
    &&& forall|a: int, b: int|
        0 <= a < b < perm.len() ==> sorts_before(es, #[trigger] perm[a], #[trigger] perm[b], by_project)
}

/// `out` is `es` sorted stably by the order of entries (or by project).
pub open spec fn is_stable_sort(es: Seq<EntryView>, out: Seq<EntryView>, by_project: bool) -> bool {
    exists|perm: Seq<int>|
        is_sort_permutation(es, perm, by_project) && out == perm.map_values(|k: int| es[k])
}

pub fn copy_entry(e: &Entry) -> (r: Entry)
    ensures
        r@ == e@,
{
    let project = match &e.project {
        Some(p) => Some(p.clone()),
        None => None,
    };
    let r = Entry {
        date: e.date,
        timestamp: e.timestamp,
        project,
        kind: e.kind.clone(),
        summary: e.summary.clone(),
        details: copy_strings(&e.details),
    };
    assert(r@ =~= e@);
    r
}

pub fn keys_of(entries: &Vec<Entry>) -> (r: Vec<EntryKey>)
    ensures
        r@.len() == entries@.len(),
        forall|i: int| 0 <= i < r@.len() ==> (#[trigger] r@[i]).matches(entries@[i]@),
{
    let mut keys: Vec<EntryKey> = Vec::new();
    let mut i: usize = 0;
    while i < entries.len()
        invariant
            i <= entries@.len(),
            keys@.len() == i,
            forall|t: int| 0 <= t < i ==> (#[trigger] keys@[t]).matches(entries@[t]@),
        decreases entries.len() - i,
    {
        keys.push(key_of(&entries[i]));
        i = i + 1;
    }
    keys
}

/// The entries sorted stably: by date, time, project, type and summary, or,
/// with `by_project`, by project first (as `format_entries` groups them).
pub fn sort_entries(entries: &Vec<Entry>, by_project: bool) -> (r: Vec<Entry>)
    ensures
        is_stable_sort(entry_views(entries@), entry_views(r@), by_project),
{
    let ghost es = entry_views(entries@);
    let keys = keys_of(entries);
    let n = entries.len();
    let mut order: Vec<usize> = Vec::new();
    let mut i: usize = 0;
    while i < n
        invariant
            n == entries@.len(),
            es == entry_views(entries@),
            keys@.len() == n,
            forall|t: int| 0 <= t < n ==> (#[trigger] keys@[t]).matches(entries@[t]@),
            i <= n,
            order@.len() == i,
            forall|a: int| 0 <= a < order@.len() ==> (#[trigger] order@[a]) < i,
            forall|a: int, b: int|
                0 <= a < b < order@.len() ==> sorts_before(
                    es,
                    #[trigger] order@[a] as int,
                    #[trigger] order@[b] as int,
                    by_project,
                ),
        decreases n - i,
    {
        let mut lo: usize = 0;
        let mut hi: usize = order.len();
        while lo < hi
            invariant
                n == entries@.len(),
                es == entry_views(entries@),
                keys@.len() == n,
                forall|t: int| 0 <= t < n ==> (#[trigger] keys@[t]).matches(entries@[t]@),
                i < n,
                order@.len() == i,
                forall|a: int| 0 <= a < order@.len() ==> (#[trigger] order@[a]) < i,
                forall|a: int, b: int|
                    0 <= a < b < order@.len() ==> sorts_before(
                        es,
                        #[trigger] order@[a] as int,
                        #[trigger] order@[b] as int,
                        by_project,
                    ),
                lo <= hi <= order@.len(),
                forall|q: int| 0 <= q < lo ==> key_order(es[i as int], es[#[trigger] order@[q] as int], by_project) >= 0,
                forall|q: int| hi <= q < order@.len() ==> key_order(es[i as int], es[#[trigger] order@[q] as int], by_project) < 0,
            decreases hi - lo,
        {
            let mid = lo + (hi - lo) / 2;
            let c = compare_keys(&keys[i], &keys[order[mid]], by_project);
            assert(es[i as int] == entries@[i as int]@);
            assert(es[order@[mid as int] as int] == entries@[order@[mid as int] as int]@);
            assert(c == key_order(es[i as int], es[order@[mid as int] as int], by_project));
            if c < 0 {
                assert forall|q: int| mid <= q < order@.len() implies key_order(es[i as int], es[#[trigger] order@[q] as int], by_project) < 0 by {
                    if q > mid {
                        assert(sorts_before(es, order@[mid as int] as int, order@[q] as int, by_project));
                        lemma_key_order(es[i as int], es[order@[mid as int] as int], es[order@[q] as int], by_project);
                    }
                }
                hi = mid;
            } else {
                assert forall|q: int| 0 <= q <= mid implies key_order(es[i as int], es[#[trigger] order@[q] as int], by_project) >= 0 by {
                    if q < mid {
                        assert(sorts_before(es, order@[q] as int, order@[mid as int] as int, by_project));
                        lemma_key_order(es[order@[q] as int], es[order@[mid as int] as int], es[i as int], by_project);
                        lemma_key_order(es[i as int], es[order@[q] as int], es[i as int], by_project);
                        lemma_key_order(es[order@[mid as int] as int], es[i as int], es[i as int], by_project);
                    }
                }
                lo = mid + 1;
            }
        }
        let ghost old_order = order@;
        order.insert(lo, i);
        proof {
            assert forall|a: int| 0 <= a < order@.len() implies (#[trigger] order@[a]) < i + 1 by {
                if a < lo {
                    assert(order@[a] == old_order[a]);
                } else if a > lo {
                    assert(order@[a] == old_order[a - 1]);
                }
            }
            assert forall|a: int, b: int|
                0 <= a < b < order@.len() implies sorts_before(
                    es,
                    #[trigger] order@[a] as int,
                    #[trigger] order@[b] as int,
                    by_project,
                ) by {
                let ii = i as int;
                if b < lo {
                    assert(order@[a] == old_order[a] && order@[b] == old_order[b]);
                } else if b == lo {
                    assert(order@[a] == old_order[a]);
                    assert(order@[b] == i);
                    lemma_key_order(es[ii], es[old_order[a] as int], es[ii], by_project);
                } else if a == lo {
                    assert(order@[b] == old_order[b - 1]);
                    assert(order@[a] == i);
                } else if a < lo {
                    assert(order@[a] == old_order[a] && order@[b] == old_order[b - 1]);
                } else {
                    assert(order@[a] == old_order[a - 1] && order@[b] == old_order[b - 1]);
                }
            }
        }
        i = i + 1;
    }
    let mut out: Vec<Entry> = Vec::new();
    let mut k: usize = 0;
    let ghost perm = order@.map_values(|x: usize| x as int);
    while k < n
        invariant
            n == entries@.len(),
            es == entry_views(entries@),
            order@.len() == n,
            perm == order@.map_values(|x: usize| x as int),
            forall|a: int| 0 <= a < order@.len() ==> (#[trigger] order@[a]) < n,
            k <= n,
            entry_views(out@) == perm.take(k as int).map_values(|x: int| es[x]),
        decreases n - k,
    {
        let e = copy_entry(&entries[order[k]]);
        let ghost before = out@;
        out.push(e);
        assert(entry_views(out@) =~= entry_views(before).push(e@));
        assert(perm.take(k + 1).map_values(|x: int| es[x]) =~= perm.take(k as int).map_values(|x: int| es[x]).push(es[perm[k as int]]));
        k = k + 1;
    }
    assert(perm.take(n as int) =~= perm);
    assert(is_sort_permutation(es, perm, by_project)) by {
        assert forall|a: int, b: int|
            0 <= a < b < perm.len() implies sorts_before(es, #[trigger] perm[a], #[trigger] perm[b], by_project) by {
            assert(perm[a] == order@[a] as int);
            assert(perm[b] == order@[b] as int);
        }
        assert forall|a: int| 0 <= a < perm.len() implies 0 <= #[trigger] perm[a] < es.len() by {
            assert(perm[a] == order@[a] as int);
        }
    }
    out
}

} // verus!
