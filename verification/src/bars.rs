//! Market-data rows: numbering trading days as consecutive bars, selecting
//! contracts by prefix, and splitting one day's rows into the two legs.
use vstd::prelude::*;

use crate::calendar::{parse_day_number, parsed_day_number, EPOCH_DAY_NUMBER};
use crate::keyed::str_eq;
use crate::text::{is_prefix, starts_with};

verus! {

/// Every element is smaller than the next.
pub open spec fn strictly_increasing(u: Seq<i64>) -> bool {
    forall|i: int, j: int| 0 <= i < j < u.len() ==> u[i] < u[j]
}

/// `u` with `x` added in its sorted place (unchanged when `x` is already there).
pub open spec fn insert_sorted(u: Seq<i64>, x: i64) -> Seq<i64>
    decreases u.len(),
{
    if u.len() == 0 {
        seq![x]
    } else if x < u[0] {
        seq![x] + u
    } else if x == u[0] {
        u
    } else {
        seq![u[0]] + insert_sorted(u.drop_first(), x)
    }
}

/// The distinct values of `s` in increasing order.
pub open spec fn sorted_distinct(s: Seq<i64>) -> Seq<i64>
    decreases s.len(),
{
    if s.len() == 0 {
        Seq::empty()
    } else {
        insert_sorted(sorted_distinct(s.drop_last()), s.last())
    }
}

proof fn lemma_insert_sorted(u: Seq<i64>, x: i64, p: int)
    requires
        strictly_increasing(u),
        0 <= p <= u.len(),
        forall|k: int| 0 <= k < p ==> u[k] < x,
        forall|k: int| p <= k < u.len() ==> u[k] >= x,
    ensures
        insert_sorted(u, x) == (if p < u.len() && u[p] == x { u } else { u.insert(p, x) }),
        strictly_increasing(insert_sorted(u, x)),
        forall|y: i64|
            #![trigger insert_sorted(u, x).contains(y)]
            #![trigger u.contains(y)]
            insert_sorted(u, x).contains(y) <==> (u.contains(y) || y == x),
    decreases u.len(),
{
    if u.len() == 0 {
        assert(u.insert(p, x) =~= seq![x]);
        assert(seq![x][0] == x);
    } else if x < u[0] {
        assert(p == 0);
        assert(u.insert(p, x) =~= seq![x] + u);
        let r = seq![x] + u;
        assert forall|y: i64| r.contains(y) <==> (u.contains(y) || y == x) by {
            if r.contains(y) {
                let k = choose|k: int| 0 <= k < r.len() && r[k] == y;
                if k > 0 {
                    assert(u[k - 1] == y);
                }
            }
            if u.contains(y) {
                let k = choose|k: int| 0 <= k < u.len() && u[k] == y;
                assert(r[k + 1] == y);
            }
            if y == x {
                assert(r[0] == y);
            }
        }
    } else if x == u[0] {
        assert(p == 0);
        assert(u.contains(x)) by {
            assert(u[0] == x);
        }
    } else {
        assert(p >= 1);
        let t = u.drop_first();
        lemma_insert_sorted(t, x, p - 1);
        let ins = insert_sorted(t, x);
        let r = seq![u[0]] + ins;
        assert(r.len() == ins.len() + 1);
        if p < u.len() && u[p] == x {
            assert(r =~= u);
        } else {
            assert(r =~= u.insert(p, x));
        }
        assert forall|y: i64| r.contains(y) <==> (u.contains(y) || y == x) by {
            if r.contains(y) {
                let k = choose|k: int| 0 <= k < r.len() && r[k] == y;
                if k == 0 {
                    assert(u[0] == y);
                } else {
                    assert(ins[k - 1] == y);
                    assert(ins.contains(y));
                    if t.contains(y) {
                        let j = choose|j: int| 0 <= j < t.len() && t[j] == y;
                        assert(u[j + 1] == y);
                    }
                }
            }
            if u.contains(y) {
                let k = choose|k: int| 0 <= k < u.len() && u[k] == y;
                if k == 0 {
                    assert(r[0] == y);
                } else {
                    assert(t[k - 1] == y);
                    assert(t.contains(y));
                    let j = choose|j: int| 0 <= j < insert_sorted(t, x).len() && insert_sorted(t, x)[j] == y;
                    assert(r[j + 1] == y);
                }
            }
            if y == x {
                assert(insert_sorted(t, x).contains(y));
                let j = choose|j: int| 0 <= j < insert_sorted(t, x).len() && insert_sorted(t, x)[j] == y;
                assert(r[j + 1] == y);
            }
        }
    }
}

/// The distinct values are increasing and are exactly the values of `s`.
pub proof fn lemma_sorted_distinct(s: Seq<i64>)
    ensures
        strictly_increasing(sorted_distinct(s)),
        forall|y: i64|
            #![trigger sorted_distinct(s).contains(y)]
            #![trigger s.contains(y)]
            sorted_distinct(s).contains(y) <==> s.contains(y),
        sorted_distinct(s).len() <= s.len(),
    decreases s.len(),
{
    if s.len() > 0 {
        let t = s.drop_last();
        lemma_sorted_distinct(t);
        let u = sorted_distinct(t);
        let x = s.last();
        let p = lower_bound_index(u, x);
        lemma_lower_bound_index(u, x);
        lemma_insert_sorted(u, x, p);
        assert forall|y: i64| sorted_distinct(s).contains(y) <==> s.contains(y) by {
            if t.contains(y) {
                let k = choose|k: int| 0 <= k < t.len() && t[k] == y;
                assert(s[k] == y);
            }
            if s.contains(y) {
                let k = choose|k: int| 0 <= k < s.len() && s[k] == y;
                if k < t.len() {
                    assert(t[k] == y);
                }
            }
        }
        if p < u.len() && u[p] == x {
        } else {
            assert(u.contains(x) == false) by {
                if u.contains(x) {
                    let k = choose|k: int| 0 <= k < u.len() && u[k] == x;
                    assert(k >= p);
                    if k > p {
                        assert(u[p] < u[k]);
                    }
                }
            }
        }
    }
}

/// The number of leading elements of an increasing `u` that are smaller than `x`.
pub open spec fn lower_bound_index(u: Seq<i64>, x: i64) -> int
    decreases u.len(),
{
    if u.len() == 0 || u[0] >= x {
        0
    } else {
        1 + lower_bound_index(u.drop_first(), x)
    }
}

proof fn lemma_lower_bound_index(u: Seq<i64>, x: i64)
    requires
        strictly_increasing(u),
    ensures
        0 <= lower_bound_index(u, x) <= u.len(),
        forall|k: int| 0 <= k < lower_bound_index(u, x) ==> u[k] < x,
        forall|k: int| lower_bound_index(u, x) <= k < u.len() ==> u[k] >= x,
    decreases u.len(),
{
    if u.len() > 0 && u[0] < x {
        lemma_lower_bound_index(u.drop_first(), x);
        let p = lower_bound_index(u, x);
        assert forall|k: int| 0 <= k < p implies u[k] < x by {
            if k > 0 {
                assert(u.drop_first()[k - 1] == u[k]);
            }
        }
        assert forall|k: int| p <= k < u.len() implies u[k] >= x by {
            assert(u.drop_first()[k - 1] == u[k]);
        }
    } else if u.len() > 0 {
        assert forall|k: int| 0 <= k < u.len() implies u[k] >= x by {
            if k > 0 {
                assert(u[0] < u[k]);
            }
        }
    }
}

/// The first position of an increasing `u` whose value is at least `x`.
fn lower_bound(u: &Vec<i64>, x: i64) -> (p: usize)
    requires
        strictly_increasing(u@),
    ensures
        p <= u@.len(),
        forall|k: int| 0 <= k < p ==> u@[k] < x,
        forall|k: int| p <= k < u@.len() ==> u@[k] >= x,
{
    let mut lo: usize = 0;
    let mut hi: usize = u.len();
    while lo < hi
        invariant
            lo <= hi <= u@.len(),
            strictly_increasing(u@),
            forall|k: int| 0 <= k < lo ==> u@[k] < x,
            forall|k: int| hi <= k < u@.len() ==> u@[k] >= x,
        decreases hi - lo,
    {
        let mid = lo + (hi - lo) / 2;
        if u[mid] < x {
            lo = mid + 1;
        } else {
            hi = mid;
        }
    }
    lo
}

/// The ISO 8601 date form (`YYYY-MM-DD`) of the market-data files.
pub open spec fn iso_date_format() -> Seq<char> {
    "%Y-%m-%d"@
}

/// The compact date form (`YYYYMMDD`) the market-data files may use instead.
pub open spec fn compact_date_format() -> Seq<char> {
    "%Y%m%d"@
}

/// Days since 1 January 1970 of the date that `text` reads as: in the
/// `YYYY-MM-DD` form, or failing that in the `YYYYMMDD` form.
pub open spec fn epoch_day(text: Seq<char>) -> Option<int> {
    match parsed_day_number(text, iso_date_format()) {
        Some(d) => Some(d - EPOCH_DAY_NUMBER),
        None => match parsed_day_number(text, compact_date_format()) {
            Some(d) => Some(d - EPOCH_DAY_NUMBER),
            None => None,
        },
    }
}

/// Days since 1 January 1970 of each date text (`YYYY-MM-DD` or
/// `YYYYMMDD`), or `None` when one of them does not read as a date.
pub fn epoch_days(texts: &Vec<String>) -> (r: Option<Vec<i64>>)
    ensures
        match r {
            Some(days) => days.len() == texts.len() && forall|i: int|
                0 <= i < texts.len() ==> epoch_day(#[trigger] texts@[i]@) == Some(
                    days@[i] as int,
                ),
            None => exists|i: int| 0 <= i < texts.len() && epoch_day(#[trigger] texts@[i]@) is None,
        },
{
    let mut days: Vec<i64> = Vec::new();
    let mut i: usize = 0;
    while i < texts.len()
        invariant
            i <= texts.len(),
            days.len() == i,
            forall|k: int|
                0 <= k < i ==> epoch_day(#[trigger] texts@[k]@) == Some(days@[k] as int),
        decreases texts.len() - i,
    {
        let day = match parse_day_number(texts[i].as_str(), "%Y-%m-%d") {
            Some(d) => Some(d),
            None => parse_day_number(texts[i].as_str(), "%Y%m%d"),
        };
        match day {
            Some(d) => {
                days.push(d as i64 - EPOCH_DAY_NUMBER);
            },
            None => {
                assert(epoch_day(texts@[i as int]@) is None);
                return None;
            },
        }
        i = i + 1;
    }
    Some(days)
}

/// The distinct values of `values` in increasing order (the trading days of a
/// data set, for instance).
pub fn distinct_sorted(values: &Vec<i64>) -> (u: Vec<i64>)
    ensures
        u@ == sorted_distinct(values@),
        strictly_increasing(u@),
        forall|y: i64| u@.contains(y) <==> values@.contains(y),
{
    let mut u: Vec<i64> = Vec::new();
    let mut i: usize = 0;
    while i < values.len()
        invariant
            i <= values.len(),
            u@ == sorted_distinct(values@.take(i as int)),
        decreases values.len() - i,
    {
        proof {
            lemma_sorted_distinct(values@.take(i as int));
        }
        let x = values[i];
        let p = lower_bound(&u, x);
        proof {
            assert(values@.take(i + 1).drop_last() =~= values@.take(i as int));
            lemma_insert_sorted(u@, x, p as int);
        }
        if p < u.len() && u[p] == x {
        } else {
            u.insert(p, x);
        }
        i = i + 1;
    }
    proof {
        assert(values@.take(values.len() as int) =~= values@);
        lemma_sorted_distinct(values@);
    }
    u
}

/// Numbers each value by its rank among the distinct values: the smallest
/// value gets bar 0, the next larger one bar 1, and so on.
pub fn dense_rank(values: &Vec<i64>) -> (bars: Vec<u32>)
    requires
        values.len() <= u32::MAX,
    ensures
        bars.len() == values.len(),
        forall|i: int|
            0 <= i < values.len() ==> #[trigger] bars[i] < sorted_distinct(values@).len()
                && sorted_distinct(values@)[bars[i] as int] == values[i],
{
    let u = distinct_sorted(values);
    proof {
        lemma_sorted_distinct(values@);
    }
    let mut bars: Vec<u32> = Vec::new();
    let mut i: usize = 0;
    while i < values.len()
        invariant
            i <= values.len() <= u32::MAX,
            u@ == sorted_distinct(values@),
            strictly_increasing(u@),
            u@.len() <= values@.len(),
            forall|y: i64| u@.contains(y) <==> values@.contains(y),
            bars.len() == i,
            forall|k: int|
                0 <= k < i ==> #[trigger] bars[k] < u@.len() && u@[bars[k] as int] == values[k],
        decreases values.len() - i,
    {
        let x = values[i];
        let p = lower_bound(&u, x);
        proof {
            assert(values@.contains(x)) by {
                assert(values@[i as int] == x);
            }
            let k = choose|k: int| 0 <= k < u@.len() && u@[k] == x;
            assert(k >= p);
            if k > p {
                assert(u@[p as int] < u@[k]);
            }
        }
        bars.push(p as u32);
        i = i + 1;
    }
    bars
}

/// Dense ranks keep the order of the values and leave no gaps: equal values
/// share a bar, smaller values get smaller bars, and every bar number below
/// the number of distinct values is used.
pub proof fn lemma_dense_rank(values: Seq<i64>, bars: Seq<u32>)
    requires
        bars.len() == values.len(),
        forall|i: int|
            0 <= i < values.len() ==> #[trigger] bars[i] < sorted_distinct(values).len()
                && sorted_distinct(values)[bars[i] as int] == values[i],
    ensures
        forall|i: int, j: int|
            0 <= i < values.len() && 0 <= j < values.len() ==> (values[i] < values[j] <==> bars[i]
                < bars[j]) && (values[i] == values[j] <==> bars[i] == bars[j]),
        forall|b: int| 0 <= b < sorted_distinct(values).len() ==> #[trigger] bar_used(bars, b),
{
    lemma_sorted_distinct(values);
    let u = sorted_distinct(values);
    assert forall|i: int, j: int|
        0 <= i < values.len() && 0 <= j < values.len() implies (values[i] < values[j] <==> bars[i]
        < bars[j]) && (values[i] == values[j] <==> bars[i] == bars[j]) by {
        let bi = bars[i] as int;
        let bj = bars[j] as int;
        if bi < bj {
            assert(u[bi] < u[bj]);
        } else if bj < bi {
            assert(u[bj] < u[bi]);
        }
    }
    assert forall|b: int| 0 <= b < u.len() implies #[trigger] bar_used(bars, b) by {
        assert(u.contains(u[b]));
        assert(values.contains(u[b]));
        let i = choose|i: int| 0 <= i < values.len() && values[i] == u[b];
        let bi = bars[i] as int;
        if bi < b {
            assert(u[bi] < u[b]);
        } else if bi > b {
            assert(u[b] < u[bi]);
        }
        assert(bars[i] == b);
    }
}

/// Some row carries bar number `b`.
pub open spec fn bar_used(bars: Seq<u32>, b: int) -> bool {
    exists|i: int| 0 <= i < bars.len() && bars[i] == b
}

/// Whether a contract name starts with either prefix.
pub open spec fn has_either_prefix(name: Seq<char>, a: Seq<char>, b: Seq<char>) -> bool {
    is_prefix(a, name) || is_prefix(b, name)
}

/// A name has either prefix exactly when its leading characters spell one of
/// them: it is at least as long as that prefix and agrees with it character
/// by character from its start.
pub proof fn lemma_either_prefix_leading(name: Seq<char>, a: Seq<char>, b: Seq<char>)
    ensures
        has_either_prefix(name, a, b) <==> ((a.len() <= name.len() && forall|k: int|
            0 <= k < a.len() ==> #[trigger] name[k] == a[k]) || (b.len() <= name.len() && forall|
            k: int,
        |
            0 <= k < b.len() ==> #[trigger] name[k] == b[k])),
{
    if a.len() <= name.len() && forall|k: int| 0 <= k < a.len() ==> #[trigger] name[k] == a[k] {
        assert(name.take(a.len() as int) =~= a);
    }
    if b.len() <= name.len() && forall|k: int| 0 <= k < b.len() ==> #[trigger] name[k] == b[k] {
        assert(name.take(b.len() as int) =~= b);
    }
    if is_prefix(a, name) {
        assert forall|k: int| 0 <= k < a.len() implies #[trigger] name[k] == a[k] by {
            assert(name.take(a.len() as int)[k] == name[k]);
        }
    }
    if is_prefix(b, name) {
        assert forall|k: int| 0 <= k < b.len() implies #[trigger] name[k] == b[k] by {
            assert(name.take(b.len() as int)[k] == name[k]);
        }
    }
}

/// Marks the rows whose contract starts with `prefix_a` or `prefix_b`.
pub fn prefix_mask(contracts: &Vec<String>, prefix_a: &str, prefix_b: &str) -> (mask: Vec<bool>)
    ensures
        mask.len() == contracts.len(),
        forall|i: int|
            0 <= i < contracts.len() ==> #[trigger] mask[i] == has_either_prefix(
                contracts[i]@,
                prefix_a@,
                prefix_b@,
            ),
{
    let mut mask: Vec<bool> = Vec::new();
    let mut i: usize = 0;
    while i < contracts.len()
        invariant
            i <= contracts.len(),
            mask.len() == i,
            forall|k: int|
                0 <= k < i ==> #[trigger] mask[k] == has_either_prefix(
                    contracts[k]@,
                    prefix_a@,
                    prefix_b@,
                ),
        decreases contracts.len() - i,
    {
        let name = contracts[i].as_str();
        let m = starts_with(name, prefix_a) || starts_with(name, prefix_b);
        mask.push(m);
        i = i + 1;
    }
    mask
}

/// The positions `i < n` at which `p` holds, in increasing order.
pub open spec fn positions_where(n: int, p: spec_fn(int) -> bool) -> Seq<int>
    decreases n,
{
    if n <= 0 {
        Seq::empty()
    } else {
        positions_where(n - 1, p) + (if p(n - 1) { seq![n - 1] } else { Seq::empty() })
    }
}

/// Whether row `i` belongs to leg A of day `day`.
pub open spec fn in_leg_a(contracts: Seq<String>, bars: Seq<u32>, day: u32, a: Seq<char>, b: Seq<char>, i: int) -> bool {
    bars[i] == day && (a == b || is_prefix(a, contracts[i]@))
}

/// Whether row `i` belongs to leg B of day `day` (for two different commodities).
pub open spec fn in_leg_b(contracts: Seq<String>, bars: Seq<u32>, day: u32, a: Seq<char>, i: int) -> bool {
    bars[i] == day && !is_prefix(a, contracts[i]@)
}

/// The rows of day `day` that form leg A and leg B.  With one commodity on
/// both sides every row of the day is on both legs; otherwise rows whose
/// contract starts with `prefix_a` are leg A and all others leg B.
pub fn day_legs(contracts: &Vec<String>, bars: &Vec<u32>, day: u32, prefix_a: &str, prefix_b: &str) -> (r: (Vec<usize>, Vec<usize>))
    requires
        bars.len() == contracts.len(),
    ensures
        r.0@.map_values(|i: usize| i as int) == positions_where(
            contracts.len() as int,
            |i: int| in_leg_a(contracts@, bars@, day, prefix_a@, prefix_b@, i),
        ),
        r.1@.map_values(|i: usize| i as int) == (if prefix_a@ == prefix_b@ {
            positions_where(
                contracts.len() as int,
                |i: int| in_leg_a(contracts@, bars@, day, prefix_a@, prefix_b@, i),
            )
        } else {
            positions_where(
                contracts.len() as int,
                |i: int| in_leg_b(contracts@, bars@, day, prefix_a@, i),
            )
        }),
{
    let same = str_eq(prefix_a, prefix_b);
    let ghost pa = |i: int| in_leg_a(contracts@, bars@, day, prefix_a@, prefix_b@, i);
    let ghost pb = |i: int| in_leg_b(contracts@, bars@, day, prefix_a@, i);
    let mut a_rows: Vec<usize> = Vec::new();
    let mut b_rows: Vec<usize> = Vec::new();
    let mut i: usize = 0;
    while i < contracts.len()
        invariant
            i <= contracts.len(),
            bars.len() == contracts.len(),
            same == (prefix_a@ == prefix_b@),
            pa == (|i: int| in_leg_a(contracts@, bars@, day, prefix_a@, prefix_b@, i)),
            pb == (|i: int| in_leg_b(contracts@, bars@, day, prefix_a@, i)),
            a_rows@.map_values(|k: usize| k as int) == positions_where(i as int, pa),
            !same ==> b_rows@.map_values(|k: usize| k as int) == positions_where(i as int, pb),
        decreases contracts.len() - i,
    {
        if bars[i] == day {
            if same {
                a_rows.push(i);
            } else if starts_with(contracts[i].as_str(), prefix_a) {
                a_rows.push(i);
            } else {
                b_rows.push(i);
            }
        }
        i = i + 1;
        proof {
            assert(a_rows@.map_values(|k: usize| k as int) =~= positions_where(i as int, pa));
            if !same {
                assert(b_rows@.map_values(|k: usize| k as int) =~= positions_where(i as int, pb));
            }
        }
    }
    if same {
        b_rows = a_rows.clone();
    }
    (a_rows, b_rows)
}

} // verus!
