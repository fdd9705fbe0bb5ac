//! When contracts stop trading: the last bar on which each contract appears
//! in a backtest, or the number of trading days left until its expiry date in
//! live trading, and the checks that keep positions away from expiring contracts.
use vstd::prelude::*;

use crate::calendar::{parse_day_number, parsed_day_number};
use crate::keyed::{
    distinct_keys, entries_map, has_key, lemma_dom_len, lemma_lookup, lemma_push, lemma_update,
    str_eq,
};

verus! {

/// Day of the week, Monday = 0, of a day numbered from 1 January of year 1
/// (day 1, a Monday, in the proleptic Gregorian calendar).
pub open spec fn weekday_from_monday(day: int) -> int {
    (day - 1) % 7
}

/// Whether a numbered day is a weekday (Monday to Friday).
pub open spec fn is_trading_day(day: int) -> bool {
    weekday_from_monday(day) < 5
}

/// The number of weekdays in `start .. end` (none when `end <= start`).
pub open spec fn trading_days(start: int, end: int) -> int
    decreases end - start,
{
    if end <= start {
        0
    } else {
        trading_days(start, end - 1) + (if is_trading_day(end - 1) { 1int } else { 0 })
    }
}

/// Counts the weekdays from `start` (included) up to `end` (excluded), days
/// being numbered from 1 January of year 1.
pub fn trading_days_between(start: i32, end: i32) -> (n: u32)
    ensures
        n == trading_days(start as int, end as int),
{
    if end <= start {
        return 0;
    }
    let mut d = start;
    let mut count: u32 = 0;
    while d < end
        invariant
            start <= d <= end,
            count == trading_days(start as int, d as int),
            count <= d - start,
        decreases end - d,
    {
        let w = ((d as i64 - 1) % 7 + 7) % 7;
        assert(w == weekday_from_monday(d as int));
        if w < 5 {
            count = count + 1;
        }
        d = d + 1;
    }
    count
}

/// Weekday counts add up over consecutive spans.
pub proof fn lemma_trading_days_split(a: int, b: int, c: int)
    requires
        a <= b <= c,
    ensures
        trading_days(a, c) == trading_days(a, b) + trading_days(b, c),
    decreases c - b,
{
    if c > b {
        lemma_trading_days_split(a, b, c - 1);
    }
}

/// Any seven consecutive days hold exactly five weekdays.
pub proof fn lemma_trading_days_week(a: int)
    ensures
        trading_days(a, a + 7) == 5,
{
    assert(trading_days(a, a + 7) == 5) by {
        reveal_with_fuel(trading_days, 8);
        let w = (a - 1) % 7;
        assert((a + 1 - 1) % 7 == (w + 1) % 7);
        assert((a + 2 - 1) % 7 == (w + 2) % 7);
        assert((a + 3 - 1) % 7 == (w + 3) % 7);
        assert((a + 4 - 1) % 7 == (w + 4) % 7);
        assert((a + 5 - 1) % 7 == (w + 5) % 7);
        assert((a + 6 - 1) % 7 == (w + 6) % 7);
    }
}

/// The `YYYYMMDD` form in which the broker reports trading days and expiry dates.
pub open spec fn broker_date_format() -> Seq<char> {
    "%Y%m%d"@
}

/// The day number of a date as the broker reports it.
pub open spec fn broker_day_of(report: Seq<char>) -> Option<i32> {
    parsed_day_number(report, broker_date_format())
}

/// The day number of a date as the broker reports it (`YYYYMMDD`), or `None`
/// where the report does not read as a date.
pub fn broker_day(report: &str) -> (r: Option<i32>)
    ensures
        r == broker_day_of(report@),
{
    parse_day_number(report, "%Y%m%d")
}

/// Whether `name` stops trading within `window` of day `day` in the table
/// `m`: it is known there with a value of at most `day + window`.
pub open spec fn expires_in(m: Map<Seq<char>, u32>, name: Seq<char>, day: int, window: int) -> bool {
    m.contains_key(name) && m[name] <= day + window
}

/// Whether either contract of a pair stops trading within `window` of `day`.
pub open spec fn pair_expiring(m: Map<Seq<char>, u32>, day: int, window: int) -> spec_fn(
    (String, String),
) -> bool {
    |p: (String, String)| expires_in(m, p.0@, day, window) || expires_in(m, p.1@, day, window)
}

/// The last bar (or the trading days left) for each contract.
pub struct ExpiryTable {
    entries: Vec<(String, u32)>,
}

/// The largest bar at which `name` appears among the rows, if it appears at all.
pub open spec fn last_bar(contracts: Seq<String>, bars: Seq<u32>, name: Seq<char>) -> Option<u32>
    decreases contracts.len(),
{
    if contracts.len() == 0 {
        None
    } else {
        let n = (contracts.len() - 1) as int;
        let prev = last_bar(contracts.drop_last(), bars.take(n), name);
        if contracts[n]@ == name {
            match prev {
                Some(b) => if bars[n] > b {
                    Some(bars[n])
                } else {
                    Some(b)
                },
                None => Some(bars[n]),
            }
        } else {
            prev
        }
    }
}

/// The table read from `(instrument, expiry day)` entries: for each instrument
/// (the last entry wins when one is listed twice) the weekdays from `current`
/// up to its expiry.
pub open spec fn days_left_map(current: int, expiries: Seq<(String, i32)>) -> Map<Seq<char>, u32>
    decreases expiries.len(),
{
    if expiries.len() == 0 {
        Map::empty()
    } else {
        days_left_map(current, expiries.drop_last()).insert(
            expiries.last().0@,
            trading_days(current, expiries.last().1 as int) as u32,
        )
    }
}

impl ExpiryTable {
    /// The table as a map from contract to its value.
    pub closed spec fn view(&self) -> Map<Seq<char>, u32> {
        entries_map(self.entries@)
    }

    /// Keys are distinct.
    pub closed spec fn wf(&self) -> bool {
        distinct_keys(self.entries@)
    }

    /// An empty table.
    pub fn new() -> (t: ExpiryTable)
        ensures
            t.wf(),
            t.view() == Map::<Seq<char>, u32>::empty(),
    {
        let t = ExpiryTable { entries: Vec::new() };
        assert(t.view() =~= Map::<Seq<char>, u32>::empty());
        t
    }

    fn find(&self, name: &str) -> (r: Option<usize>)
        ensures
            match r {
                Some(i) => i < self.entries@.len() && self.entries@[i as int].0@ == name@,
                None => !has_key(self.entries@, name@),
            },
    {
        let mut i: usize = 0;
        while i < self.entries.len()
            invariant
                i <= self.entries@.len(),
                forall|k: int| 0 <= k < i ==> #[trigger] self.entries@[k].0@ != name@,
            decreases self.entries.len() - i,
        {
            if str_eq(self.entries[i].0.as_str(), name) {
                return Some(i);
            }
            i = i + 1;
        }
        None
    }

    /// Sets the value of `name`, replacing any earlier one.
    pub fn set(&mut self, name: &str, value: u32)
        requires
            old(self).wf(),
        ensures
            final(self).wf(),
            final(self).view() == old(self).view().insert(name@, value),
    {
        let ghost before = self.entries@;
        match self.find(name) {
            Some(i) => {
                let key = self.entries[i].0.clone();
                self.entries.set(i, (key, value));
                proof {
                    lemma_update(before, i as int, value);
                    assert(self.entries@ =~= before.update(i as int, (before[i as int].0, value)));
                    assert forall|p: int, q: int|
                        0 <= p < q < self.entries@.len() implies #[trigger] self.entries@[p].0@
                        != #[trigger] self.entries@[q].0@ by {
                        assert(self.entries@[p].0@ == before[p].0@);
                        assert(self.entries@[q].0@ == before[q].0@);
                    }
                }
            },
            None => {
                let key = name.to_owned();
                let ghost e = (key, value);
                self.entries.push((key, value));
                proof {
                    lemma_push(before, e);
                }
            },
        }
    }

    /// The value of `name`, if the table has one.
    pub fn get(&self, name: &str) -> (r: Option<u32>)
        requires
            self.wf(),
        ensures
            r == (if self.view().contains_key(name@) {
                Some(self.view()[name@])
            } else {
                None
            }),
    {
        match self.find(name) {
            Some(i) => {
                proof {
                    lemma_lookup(self.entries@, i as int);
                }
                Some(self.entries[i].1)
            },
            None => None,
        }
    }

    /// Whether `name` stops trading within `window` of day `day`: its value is
    /// at most `day + window`.  A contract the table does not know never does.
    pub fn expires_within(&self, name: &str, day: u32, window: u32) -> (r: bool)
        requires
            self.wf(),
            day + window <= u32::MAX,
        ensures
            r == (self.view().contains_key(name@) && self.view()[name@] <= day + window),
    {
        match self.get(name) {
            Some(last) => last <= day + window,
            None => false,
        }
    }

    /// Whether either leg of a spread stops trading within `window` of day `day`.
    pub fn pair_expires_within(&self, a: &str, b: &str, day: u32, window: u32) -> (r: bool)
        requires
            self.wf(),
            day + window <= u32::MAX,
        ensures
            r == ((self.view().contains_key(a@) && self.view()[a@] <= day + window) || (
            self.view().contains_key(b@) && self.view()[b@] <= day + window)),
    {
        self.expires_within(a, day, window) || self.expires_within(b, day, window)
    }

    /// The pairs, among `pairs` and in their order, of which either contract
    /// stops trading within `window` of day `day`: the spread positions to
    /// close before expiry.
    pub fn expiring_pairs(&self, pairs: &Vec<(String, String)>, day: u32, window: u32) -> (r: Vec<
        (String, String),
    >)
        requires
            self.wf(),
            day + window <= u32::MAX,
        ensures
            r@ == pairs@.filter(pair_expiring(self.view(), day as int, window as int)),
    {
        let ghost pred = pair_expiring(self.view(), day as int, window as int);
        let mut r: Vec<(String, String)> = Vec::new();
        let mut i: usize = 0;
        while i < pairs.len()
            invariant
                i <= pairs.len(),
                self.wf(),
                day + window <= u32::MAX,
                pred == pair_expiring(self.view(), day as int, window as int),
                r@ == pairs@.take(i as int).filter(pred),
            decreases pairs.len() - i,
        {
            let near = self.pair_expires_within(pairs[i].0.as_str(), pairs[i].1.as_str(), day, window);
            proof {
                let t = pairs@.take(i + 1);
                assert(t.drop_last() =~= pairs@.take(i as int));
                assert(t.last() == pairs@[i as int]);
                assert(near == pred(pairs@[i as int]));
            }
            let ghost before = r@;
            if near {
                let entry = (pairs[i].0.clone(), pairs[i].1.clone());
                assert(entry == pairs@[i as int]);
                r.push(entry);
                assert(r@ =~= before.push(pairs@[i as int]));
            }
            proof {
                let t = pairs@.take(i + 1);
                reveal(Seq::filter);
                assert(t.filter(pred) == if pred(t.last()) {
                    t.drop_last().filter(pred).push(t.last())
                } else {
                    t.drop_last().filter(pred)
                });
            }
            i = i + 1;
        }
        assert(pairs@.take(pairs.len() as int) =~= pairs@);
        r
    }

    /// The last bar at which each contract appears among the rows.
    pub fn from_rows(contracts: &Vec<String>, bars: &Vec<u32>) -> (t: ExpiryTable)
        requires
            bars.len() == contracts.len(),
        ensures
            t.wf(),
            forall|name: Seq<char>|
                #![trigger t.view().contains_key(name)]
                #![trigger last_bar(contracts@, bars@, name)]
                match last_bar(contracts@, bars@, name) {
                    Some(b) => t.view().contains_key(name) && t.view()[name] == b,
                    None => !t.view().contains_key(name),
                },
    {
        let mut t = ExpiryTable::new();
        let mut i: usize = 0;
        while i < contracts.len()
            invariant
                i <= contracts.len(),
                bars.len() == contracts.len(),
                t.wf(),
                forall|name: Seq<char>|
                    #![trigger t.view().contains_key(name)]
                    #![trigger last_bar(contracts@.take(i as int), bars@.take(i as int), name)]
                    match last_bar(contracts@.take(i as int), bars@.take(i as int), name) {
                        Some(b) => t.view().contains_key(name) && t.view()[name] == b,
                        None => !t.view().contains_key(name),
                    },
            decreases contracts.len() - i,
        {
            let name = contracts[i].as_str();
            let b = bars[i];
            let ghost old_view = t.view();
            proof {
                assert(contracts@.take(i + 1).drop_last() =~= contracts@.take(i as int));
                assert(bars@.take(i + 1).take(i as int) =~= bars@.take(i as int));
            }
            match t.get(name) {
                Some(prev) => {
                    if b > prev {
                        t.set(name, b);
                    }
                },
                None => {
                    t.set(name, b);
                },
            }
            proof {
                assert forall|nm: Seq<char>|
                    #![trigger t.view().contains_key(nm)]
                    #![trigger last_bar(contracts@.take(i + 1), bars@.take(i + 1), nm)]
                    match last_bar(contracts@.take(i + 1), bars@.take(i + 1), nm) {
                        Some(bb) => t.view().contains_key(nm) && t.view()[nm] == bb,
                        None => !t.view().contains_key(nm),
                    } by {
                    let _ = last_bar(contracts@.take(i as int), bars@.take(i as int), nm);
                    let _ = old_view.contains_key(nm);
                }
            }
            i = i + 1;
        }
        proof {
            assert(contracts@.take(contracts.len() as int) =~= contracts@);
            assert(bars@.take(contracts.len() as int) =~= bars@);
        }
        t
    }

    /// The weekdays left, counted from day `current`, until each instrument's
    /// expiry day (days numbered from 1 January of year 1).
    pub fn from_expiry_days(current: i32, expiries: &Vec<(String, i32)>) -> (t: ExpiryTable)
        ensures
            t.wf(),
            t.view() == days_left_map(current as int, expiries@),
    {
        let mut t = ExpiryTable::new();
        let mut i: usize = 0;
        while i < expiries.len()
            invariant
                i <= expiries.len(),
                t.wf(),
                t.view() == days_left_map(current as int, expiries@.take(i as int)),
            decreases expiries.len() - i,
        {
            let days = trading_days_between(current, expiries[i].1);
            t.set(expiries[i].0.as_str(), days);
            proof {
                assert(expiries@.take(i + 1).drop_last() =~= expiries@.take(i as int));
            }
            i = i + 1;
        }
        assert(expiries@.take(expiries.len() as int) =~= expiries@);
        t
    }
}

} // verus!
