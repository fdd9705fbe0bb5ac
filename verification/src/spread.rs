//! Spread bookkeeping of the pair strategy: rolling spread histories, which
//! contract pairs get a spread each day, which pairs are tried for entry, and
//! the signed leg quantities that open and close a spread.
use vstd::prelude::*;

use std::collections::VecDeque;

use crate::bars::positions_where;
use crate::book::{after_trade, size_in, PositionKind};
use crate::keyed::str_eq;
use crate::text::{is_prefix, lex_lt, lowercased, starts_with, str_lt, to_lowercase};
use crate::live::negatable;

verus! {

/// The history after recording `v` in a window of `lookback` values: when the
/// window is full the oldest value drops out.
pub open spec fn pushed_window<T>(hist: Seq<T>, lookback: int, v: T) -> Seq<T> {
    if hist.len() == lookback && hist.len() > 0 {
        hist.drop_first().push(v)
    } else {
        hist.push(v)
    }
}

/// Records `v` in a rolling window of `lookback` values.
pub fn push_window<T>(hist: &mut VecDeque<T>, lookback: usize, v: T)
    ensures
        final(hist)@ == pushed_window(old(hist)@, lookback as int, v),
{
    if hist.len() == lookback {
        let _ = hist.pop_front();
    }
    hist.push_back(v);
}

/// A window never holds more than `lookback` values once it holds at most
/// that many, and it always ends with the newest value, preceded by the
/// newest earlier ones.
pub proof fn lemma_window_bounded<T>(hist: Seq<T>, lookback: int, v: T)
    requires
        lookback >= 1,
        hist.len() <= lookback,
    ensures
        pushed_window(hist, lookback, v).len() <= lookback,
        pushed_window(hist, lookback, v).last() == v,
        pushed_window(hist, lookback, v).drop_last() == hist.skip(
            hist.len() + 1 - pushed_window(hist, lookback, v).len(),
        ),
{
    let r = pushed_window(hist, lookback, v);
    if hist.len() == lookback {
        assert(r.drop_last() =~= hist.skip(1));
    } else {
        assert(r.drop_last() =~= hist.skip(0));
    }
}

/// Recording a value in a window of at most `lookback` values keeps the
/// newest `min(old length + 1, lookback)` of the old values followed by the
/// new one: a window that is not yet full grows by one, a full window stays
/// full and drops only its oldest value.
pub proof fn lemma_window_length<T>(hist: Seq<T>, lookback: int, v: T)
    requires
        lookback >= 1,
        hist.len() <= lookback,
    ensures
        pushed_window(hist, lookback, v).len() == (if hist.len() < lookback {
            hist.len() + 1int
        } else {
            lookback
        }),
        pushed_window(hist, lookback, v) == hist.push(v).skip(
            hist.len() + 1 - pushed_window(hist, lookback, v).len(),
        ),
{
    let r = pushed_window(hist, lookback, v);
    if hist.len() == lookback {
        assert(r =~= hist.push(v).skip(1));
    } else {
        assert(r =~= hist.push(v).skip(0));
    }
}

/// Whether a row belongs to the leg of `prefix`: it has a contract (and a
/// price), and the contract's lowercase form starts with `prefix`.
pub open spec fn leg_member(contract: Option<String>, prefix: Seq<char>) -> bool {
    match contract {
        Some(c) => is_prefix(prefix, lowercased(c@)),
        None => false,
    }
}

/// A day's group of rows with row `i` added to the leg lists it belongs to.
pub open spec fn add_row(g: (Seq<usize>, Seq<usize>), i: usize, in_a: bool, in_b: bool) -> (
    Seq<usize>,
    Seq<usize>,
) {
    (if in_a { g.0.push(i) } else { g.0 }, if in_b { g.1.push(i) } else { g.1 })
}

/// The rows of a date-sorted history grouped by day: a new day starts where
/// the date differs from the previous row's.  Each day lists, in row order,
/// the rows of leg A (prefix `a`) and of leg B (prefix `b`); a row may belong
/// to both legs or to neither.
pub open spec fn warmup_groups(
    dates: Seq<String>,
    contracts: Seq<Option<String>>,
    a: Seq<char>,
    b: Seq<char>,
) -> Seq<(Seq<usize>, Seq<usize>)>
    decreases dates.len(),
{
    if dates.len() == 0 {
        Seq::empty()
    } else {
        let n = dates.len() - 1;
        let prev = warmup_groups(dates.drop_last(), contracts, a, b);
        let in_a = leg_member(contracts[n], a);
        let in_b = leg_member(contracts[n], b);
        if n == 0 || dates[n]@ != dates[n - 1]@ {
            prev.push(add_row((Seq::empty(), Seq::empty()), n as usize, in_a, in_b))
        } else {
            prev.update(prev.len() - 1, add_row(prev.last(), n as usize, in_a, in_b))
        }
    }
}

/// The view of grouped rows as sequences.
pub open spec fn groups_view(g: Seq<(Vec<usize>, Vec<usize>)>) -> Seq<(Seq<usize>, Seq<usize>)> {
    g.map_values(|d: (Vec<usize>, Vec<usize>)| (d.0@, d.1@))
}

/// Groups the rows of a date-sorted spread history by day and assigns each
/// row to the legs whose prefix its lowercase contract starts with (a row
/// without contract or price is given as `None`).
pub fn warmup_days(dates: &Vec<String>, contracts: &Vec<Option<String>>, prefix_a: &str, prefix_b: &str) -> (r: Vec<(Vec<usize>, Vec<usize>)>)
    requires
        contracts.len() == dates.len(),
    ensures
        groups_view(r@) == warmup_groups(dates@, contracts@, prefix_a@, prefix_b@),
{
    let mut r: Vec<(Vec<usize>, Vec<usize>)> = Vec::new();
    let mut i: usize = 0;
    while i < dates.len()
        invariant
            i <= dates.len(),
            contracts.len() == dates.len(),
            i > 0 ==> r.len() > 0,
            groups_view(r@) == warmup_groups(dates@.take(i as int), contracts@, prefix_a@, prefix_b@),
        decreases dates.len() - i,
    {
        let (in_a, in_b) = match &contracts[i] {
            Some(c) => {
                let lower = to_lowercase(c.as_str());
                (starts_with(lower.as_str(), prefix_a), starts_with(lower.as_str(), prefix_b))
            },
            None => (false, false),
        };
        let ghost before = r@;
        proof {
            assert(dates@.take(i + 1).drop_last() =~= dates@.take(i as int));
            if i > 0 {
                assert(dates@.take(i + 1)[i - 1] == dates@[i - 1]);
            }
        }
        let new_day = i == 0 || !str_eq(dates[i].as_str(), dates[i - 1].as_str());
        if new_day {
            let mut ga: Vec<usize> = Vec::new();
            let mut gb: Vec<usize> = Vec::new();
            if in_a {
                ga.push(i);
            }
            if in_b {
                gb.push(i);
            }
            proof {
                assert(ga@ == add_row((Seq::empty(), Seq::empty()), i, in_a, in_b).0);
                assert(gb@ == add_row((Seq::empty(), Seq::empty()), i, in_a, in_b).1);
            }
            r.push((ga, gb));
            proof {
                assert(groups_view(r@) =~= groups_view(before).push(
                    add_row((Seq::empty(), Seq::empty()), i, in_a, in_b),
                ));
            }
        } else {
            let last = r.len() - 1;
            let (mut ga, mut gb) = r.remove(last);
            let ghost g = (ga@, gb@);
            proof {
                assert(groups_view(before).last() == g);
            }
            if in_a {
                ga.push(i);
            }
            if in_b {
                gb.push(i);
            }
            r.push((ga, gb));
            proof {
                assert(groups_view(r@) =~= groups_view(before).update(
                    groups_view(before).len() - 1,
                    add_row(g, i, in_a, in_b),
                ));
            }
        }
        i = i + 1;
    }
    assert(dates@.take(dates.len() as int) =~= dates@);
    r
}

/// The pairs `(i, j)` of row `i` of A with every B contract of another name.
pub open spec fn row_pairs(na: Seq<String>, nb: Seq<String>, i: int) -> Seq<(int, int)> {
    positions_where(nb.len() as int, |j: int| na[i]@ != nb[j]@).map_values(|j: int| (i, j))
}

/// All pairs `(i, j)` of an A contract and a B contract with different names,
/// A-major, in the order the strategy records their spreads.
pub open spec fn cross_pairs(na: Seq<String>, nb: Seq<String>, n: int) -> Seq<(int, int)>
    decreases n,
{
    if n <= 0 {
        Seq::empty()
    } else {
        cross_pairs(na, nb, n - 1) + row_pairs(na, nb, n - 1)
    }
}

/// The view of index pairs.
pub open spec fn index_pairs_view(v: Seq<(usize, usize)>) -> Seq<(int, int)> {
    v.map_values(|p: (usize, usize)| (p.0 as int, p.1 as int))
}

/// The contract pairs that get a spread recorded on a day: every A contract
/// with every B contract of a different name.
pub fn spread_pairs(names_a: &Vec<String>, names_b: &Vec<String>) -> (r: Vec<(usize, usize)>)
    ensures
        index_pairs_view(r@) == cross_pairs(names_a@, names_b@, names_a.len() as int),
{
    let mut r: Vec<(usize, usize)> = Vec::new();
    let mut i: usize = 0;
    while i < names_a.len()
        invariant
            i <= names_a.len(),
            index_pairs_view(r@) == cross_pairs(names_a@, names_b@, i as int),
        decreases names_a.len() - i,
    {
        let ghost row_start = r@;
        let ghost pred = |j: int| names_a@[i as int]@ != names_b@[j]@;
        let mut j: usize = 0;
        while j < names_b.len()
            invariant
                i < names_a.len(),
                j <= names_b.len(),
                pred == (|j: int| names_a@[i as int]@ != names_b@[j]@),
                index_pairs_view(r@) == index_pairs_view(row_start) + positions_where(
                    j as int,
                    pred,
                ).map_values(|jj: int| (i as int, jj)),
            decreases names_b.len() - j,
        {
            let ghost before = r@;
            if !(names_a[i] == names_b[j]) {
                r.push((i, j));
            }
            j = j + 1;
            proof {
                let pw = positions_where(j as int, pred);
                let pw0 = positions_where(j - 1, pred);
                assert(pw.map_values(|jj: int| (i as int, jj)) =~= pw0.map_values(
                    |jj: int| (i as int, jj),
                ) + (if pred(j - 1) { seq![(i as int, j - 1)] } else { Seq::empty() }));
                assert(index_pairs_view(r@) =~= index_pairs_view(before) + (if pred(j - 1) {
                    seq![(i as int, j - 1)]
                } else {
                    Seq::empty()
                }));
            }
        }
        i = i + 1;
        proof {
            assert(index_pairs_view(r@) =~= cross_pairs(names_a@, names_b@, i as int));
        }
    }
    r
}

/// Whether contract `i` comes before contract `j` when contracts are ordered by
/// decreasing volume, ties kept in their input order.
pub open spec fn ahead(vol: Seq<u32>, i: int, j: int) -> bool {
    vol[i] > vol[j] || (vol[i] == vol[j] && i < j)
}

/// `r` lists the `min(k, n)` contracts with the largest volumes, in the order a
/// stable sort by decreasing volume puts them.
pub open spec fn is_top_by_volume(vol: Seq<u32>, k: int, r: Seq<usize>) -> bool {
    &&& r.len() == (if k < vol.len() { k } else { vol.len() as int })
    &&& forall|p: int| 0 <= p < r.len() ==> #[trigger] r[p] < vol.len()
    &&& forall|p: int, q: int| 0 <= p < q < r.len() ==> ahead(vol, #[trigger] r[p] as int, #[trigger] r[q] as int)
    &&& forall|i: int, p: int|
        0 <= i < vol.len() && 0 <= p < r.len() && !r.contains(i as usize) ==> #[trigger] ahead(vol, r[p] as int, i)
}

/// The `k` contracts with the largest volumes, most traded first.
pub fn top_by_volume(vol: &Vec<u32>, k: usize) -> (r: Vec<usize>)
    ensures
        is_top_by_volume(vol@, k as int, r@),
{
    let n = vol.len();
    let mut taken: Vec<bool> = Vec::new();
    let mut t: usize = 0;
    while t < n
        invariant
            t <= n == vol.len(),
            taken.len() == t,
            forall|q: int| 0 <= q < t ==> !taken[q],
        decreases n - t,
    {
        taken.push(false);
        t = t + 1;
    }
    let limit = if k < n { k } else { n };
    let mut r: Vec<usize> = Vec::new();
    while r.len() < limit
        invariant
            n == vol.len(),
            limit == (if k < n { k } else { n }),
            r.len() <= limit,
            taken.len() == n,
            forall|q: int| 0 <= q < n ==> (#[trigger] taken[q] <==> r@.contains(q as usize)),
            forall|p: int| 0 <= p < r.len() ==> #[trigger] r[p] < n,
            forall|p: int, q: int|
                0 <= p < q < r.len() ==> ahead(vol@, #[trigger] r[p] as int, #[trigger] r[q] as int),
            forall|i: int, p: int|
                0 <= i < n && 0 <= p < r.len() && !r@.contains(i as usize) ==> #[trigger] ahead(vol@, r[p] as int, i),
        decreases limit - r.len(),
    {
        // r.len() < limit <= n, so some contract is still free
        proof {
            assert(exists|q: int| 0 <= q < n && !taken[q]) by {
                if forall|q: int| 0 <= q < n ==> taken[q] {
                    assert forall|q: usize| (q as int) < n implies #[trigger] r@.contains(q) by {
                        assert(taken[q as int]);
                    }
                    lemma_distinct_cover(r@, n as int);
                }
            }
        }
        let mut best: usize = n;
        let mut q: usize = 0;
        while q < n
            invariant
                n == vol.len(),
                taken.len() == n,
                q <= n,
                best == n || (best < q && !taken[best as int]),
                forall|x: int| 0 <= x < q && !taken[x] ==> (x == best || ahead(vol@, best as int, x)),
                best == n ==> forall|x: int| 0 <= x < q ==> taken[x],
            decreases n - q,
        {
            if !taken[q] {
                if best == n || vol[q] > vol[best] {
                    best = q;
                }
            }
            q = q + 1;
        }
        proof {
            if best == n {
                let w = choose|w: int| 0 <= w < n && !taken[w];
                assert(taken[w]);
            }
        }
        let ghost before = r@;
        taken.set(best, true);
        r.push(best);
        proof {
            assert(r@ == before.push(best));
            assert(r@.contains(best)) by {
                assert(r@[r@.len() - 1] == best);
            }
            assert forall|x: int| 0 <= x < n implies (#[trigger] taken[x] <==> r@.contains(x as usize)) by {
                if x == best {
                    assert(r@[r@.len() - 1] == best);
                } else {
                    if r@.contains(x as usize) {
                        let p = choose|p: int| 0 <= p < r@.len() && r@[p] == x as usize;
                        assert(p < before.len());
                        assert(before.contains(x as usize));
                    }
                    if before.contains(x as usize) {
                        let p = choose|p: int| 0 <= p < before.len() && before[p] == x as usize;
                        assert(r@[p] == x as usize);
                    }
                }
            }
            assert forall|p: int, q2: int|
                0 <= p < q2 < r.len() implies ahead(vol@, #[trigger] r[p] as int, #[trigger] r[q2] as int) by {
                if q2 == r.len() - 1 {
                    assert(r[p] == before[p]);
                    assert(!before.contains(best)) by {
                        assert(!taken@[best as int] || true);
                    }
                }
            }
            assert forall|i: int, p: int|
                0 <= i < n && 0 <= p < r.len() && !r@.contains(i as usize) implies #[trigger] ahead(vol@, r[p] as int, i) by {
                assert(i != best);
                if p < before.len() {
                    assert(r[p] == before[p]);
                    assert(!before.contains(i as usize)) by {
                        if before.contains(i as usize) {
                            let pp = choose|pp: int| 0 <= pp < before.len() && before[pp] == i as usize;
                            assert(r@[pp] == i as usize);
                        }
                    }
                } else {
                    assert(!taken[i]);
                }
            }
        }
    }
    r
}

/// Row `i` of the pairs one commodity forms with itself: contract `t[i]` with
/// each later contract of `t`.
pub open spec fn upper_row(t: Seq<usize>, i: int) -> Seq<(int, int)> {
    Seq::new((t.len() - i - 1) as nat, |k: int| (t[i] as int, t[i + 1 + k] as int))
}

/// Row `i` of the pairs of two commodities: contract `ta[i]` with each of `tb`.
pub open spec fn cross_row(ta: Seq<usize>, tb: Seq<usize>, i: int) -> Seq<(int, int)> {
    Seq::new(tb.len(), |k: int| (ta[i] as int, tb[k] as int))
}

/// The first `n` rows of candidate pairs, concatenated.
pub open spec fn candidate_rows(ta: Seq<usize>, tb: Seq<usize>, single: bool, n: int) -> Seq<(int, int)>
    decreases n,
{
    if n <= 0 {
        Seq::empty()
    } else {
        candidate_rows(ta, tb, single, n - 1) + (if single {
            upper_row(ta, n - 1)
        } else {
            cross_row(ta, tb, n - 1)
        })
    }
}

/// The contract pairs tried for entry, in the order they are tried: with one
/// commodity every two of its selected contracts (earlier one first), with two
/// commodities every selected A contract with every selected B contract.
pub fn entry_pairs(top_a: &Vec<usize>, top_b: &Vec<usize>, single: bool) -> (r: Vec<(usize, usize)>)
    ensures
        index_pairs_view(r@) == candidate_rows(top_a@, top_b@, single, top_a.len() as int),
{
    let mut r: Vec<(usize, usize)> = Vec::new();
    let mut i: usize = 0;
    while i < top_a.len()
        invariant
            i <= top_a.len(),
            index_pairs_view(r@) == candidate_rows(top_a@, top_b@, single, i as int),
        decreases top_a.len() - i,
    {
        let ghost start = r@;
        let ghost row = if single { upper_row(top_a@, i as int) } else { cross_row(top_a@, top_b@, i as int) };
        let first: usize = if single { i + 1 } else { 0 };
        let end: usize = if single { top_a.len() } else { top_b.len() };
        let mut j = first;
        while j < end
            invariant
                i < top_a.len(),
                first <= j <= end,
                first == (if single { i + 1 } else { 0 }),
                end == (if single { top_a.len() } else { top_b.len() }),
                row == (if single { upper_row(top_a@, i as int) } else { cross_row(top_a@, top_b@, i as int) }),
                row.len() == end - first,
                index_pairs_view(r@) == index_pairs_view(start) + row.take(j - first),
            decreases end - j,
        {
            let ghost before = r@;
            if single {
                r.push((top_a[i], top_a[j]));
            } else {
                r.push((top_a[i], top_b[j]));
            }
            proof {
                assert(row.take(j + 1 - first) =~= row.take(j - first).push(row[j - first]));
                assert(index_pairs_view(r@) =~= index_pairs_view(before).push(row[j - first]));
            }
            j = j + 1;
        }
        proof {
            assert(row.take(end - first) =~= row);
        }
        i = i + 1;
    }
    r
}

/// With two commodities the first `n` rows of candidates hold `n * |tb|`
/// pairs, and pair `(ta[i], tb[j])` stands at position `i * |tb| + j`: every
/// selected A contract is tried with every selected B contract, A by A.
pub proof fn lemma_cross_candidates(ta: Seq<usize>, tb: Seq<usize>, n: int)
    requires
        0 <= n <= ta.len(),
    ensures
        candidate_rows(ta, tb, false, n).len() == n * tb.len(),
        forall|i: int, j: int|
            0 <= i < n && 0 <= j < tb.len() ==> #[trigger] candidate_rows(ta, tb, false, n)[i * tb.len() + j]
                == (ta[i] as int, tb[j] as int),
    decreases n,
{
    let m = tb.len() as int;
    if n > 0 {
        lemma_cross_candidates(ta, tb, n - 1);
        let prev = candidate_rows(ta, tb, false, n - 1);
        let row = cross_row(ta, tb, n - 1);
        assert(candidate_rows(ta, tb, false, n) == prev + row);
        assert(prev.len() == (n - 1) * m);
        assert((n - 1) * m + m == n * m) by (nonlinear_arith);
        assert forall|i: int, j: int| 0 <= i < n && 0 <= j < m implies #[trigger] candidate_rows(
            ta,
            tb,
            false,
            n,
        )[i * m + j] == (ta[i] as int, tb[j] as int) by {
            if i < n - 1 {
                assert(i * m + j < (n - 1) * m) by (nonlinear_arith)
                    requires
                        0 <= i < n - 1,
                        0 <= j < m,
                {
                    assert(i * m + m <= (n - 1) * m);
                }
                assert(0 <= i * m) by (nonlinear_arith)
                    requires
                        0 <= i,
                        0 <= m,
                ;
                assert(prev[i * m + j] == (ta[i] as int, tb[j] as int));
            } else {
                assert(i * m + j - (n - 1) * m == j) by (nonlinear_arith)
                    requires
                        i == n - 1,
                ;
                assert(row[j] == (ta[i] as int, tb[j] as int));
            }
        }
    }
}

/// With one commodity a pair is always entered with its contracts in string
/// order; this tells whether the two given contracts must be swapped.
pub fn must_swap(single: bool, name_a: &str, name_b: &str) -> (r: bool)
    ensures
        r == (single && lex_lt(name_b@, name_a@)),
{
    single && str_lt(name_b, name_a)
}

/// The signed quantities of legs A and B that open a spread.
pub open spec fn opening_legs(kind: PositionKind, size_a: u32, size_b: u32) -> (int, int) {
    match kind {
        PositionKind::Long => ((size_a as i32) as int, -((size_b as i32) as int)),
        PositionKind::Short => (-((size_a as i32) as int), (size_b as i32) as int),
    }
}

/// The signed quantities of legs A and B that close a spread.
pub open spec fn closing_legs(kind: PositionKind, size_a: u32, size_b: u32) -> (int, int) {
    match kind {
        PositionKind::Long => (-((size_a as i32) as int), (size_b as i32) as int),
        PositionKind::Short => ((size_a as i32) as int, -((size_b as i32) as int)),
    }
}

/// Signed leg quantities to open a spread: a long spread buys A and sells B.
pub fn open_legs(kind: PositionKind, size_a: u32, size_b: u32) -> (q: (i32, i32))
    requires
        match kind {
            PositionKind::Long => negatable(size_b),
            PositionKind::Short => negatable(size_a),
        },
    ensures
        (q.0 as int, q.1 as int) == opening_legs(kind, size_a, size_b),
{
    match kind {
        PositionKind::Long => (size_a as i32, -(size_b as i32)),
        PositionKind::Short => (-(size_a as i32), size_b as i32),
    }
}

/// Signed leg quantities to close a spread: every leg is traded back.
pub fn close_legs(kind: PositionKind, size_a: u32, size_b: u32) -> (q: (i32, i32))
    requires
        match kind {
            PositionKind::Long => negatable(size_a),
            PositionKind::Short => negatable(size_b),
        },
    ensures
        (q.0 as int, q.1 as int) == closing_legs(kind, size_a, size_b),
{
    match kind {
        PositionKind::Long => (-(size_a as i32), size_b as i32),
        PositionKind::Short => (size_a as i32, -(size_b as i32)),
    }
}

/// Closing a spread trades each leg back by exactly what opening it traded.
pub proof fn lemma_close_undoes_open(kind: PositionKind, size_a: u32, size_b: u32)
    ensures
        closing_legs(kind, size_a, size_b).0 == -opening_legs(kind, size_a, size_b).0,
        closing_legs(kind, size_a, size_b).1 == -opening_legs(kind, size_a, size_b).1,
{
}

/// Opening a spread on two different contracts and later closing it (same
/// direction and sizes) leaves every position size of the book as it was,
/// provided no held size is zero (which the book ensures) and opening
/// overflows no size.
pub proof fn lemma_spread_round_trip(
    m: Map<Seq<char>, i32>,
    a: Seq<char>,
    b: Seq<char>,
    kind: PositionKind,
    size_a: u32,
    size_b: u32,
)
    requires
        forall|k: Seq<char>| #[trigger] m.contains_key(k) ==> m[k] != 0,
        a != b,
        i32::MIN <= size_in(m, a) + opening_legs(kind, size_a, size_b).0 <= i32::MAX,
        i32::MIN <= size_in(m, b) + opening_legs(kind, size_a, size_b).1 <= i32::MAX,
    ensures
        ({
            let (oa, ob) = opening_legs(kind, size_a, size_b);
            let (ca, cb) = closing_legs(kind, size_a, size_b);
            after_trade(after_trade(after_trade(after_trade(m, a, oa), b, ob), a, ca), b, cb) == m
        }),
{
    let (oa, ob) = opening_legs(kind, size_a, size_b);
    let (ca, cb) = closing_legs(kind, size_a, size_b);
    let m1 = after_trade(m, a, oa);
    let m2 = after_trade(m1, b, ob);
    let m3 = after_trade(m2, a, ca);
    let m4 = after_trade(m3, b, cb);
    assert(size_in(m2, a) == size_in(m, a) + oa);
    assert(size_in(m3, a) == size_in(m, a));
    assert(size_in(m3, b) == size_in(m, b) + ob);
    assert(size_in(m4, b) == size_in(m, b));
    assert forall|k: Seq<char>| #[trigger] m4.contains_key(k) == m.contains_key(k) && (m.contains_key(k) ==> m4[k] == m[k]) by {
        if k != a && k != b {
            assert(m1.contains_key(k) == m.contains_key(k));
            assert(m2.contains_key(k) == m.contains_key(k));
            assert(m3.contains_key(k) == m.contains_key(k));
        }
    }
    assert(m4 =~= m);
}

proof fn lemma_distinct_cover(r: Seq<usize>, n: int)
    requires
        0 <= n <= usize::MAX,
        forall|q: usize| (q as int) < n ==> #[trigger] r.contains(q),
    ensures
        r.len() >= n,
{
    broadcast use vstd::seq_lib::seq_to_set_is_finite;
    let f = |i: int| i as usize;
    let range = vstd::set_lib::set_int_range(0, n);
    vstd::set_lib::lemma_int_range(0, n);
    assert(vstd::relations::injective_on(f, range));
    vstd::set_lib::lemma_map_size(range, range.map(f), f);
    assert(range.map(f).subset_of(r.to_set())) by {
        assert forall|x: usize| range.map(f).contains(x) implies r.to_set().contains(x) by {
            let i = choose|i: int| range.contains(i) && f(i) == x;
            assert(r.contains(x));
        }
    }
    vstd::set_lib::lemma_len_subset(range.map(f), r.to_set());
    r.lemma_cardinality_of_set();
}

} // verus!
