//! The position book of the backtest engine: signed contract sizes keyed by
//! symbol, and the peak number of contracts held at once.
use vstd::prelude::*;

use crate::keyed::{
    entries_map, has_key, lemma_dom_len, lemma_lookup, lemma_push, lemma_remove, lemma_update,
    str_eq,
};

verus! {

/// Direction of a spread position: long buys leg A and sells leg B, short the reverse.
#[derive(Clone, Copy, Debug, PartialEq, Eq)]
pub enum PositionKind {
    Long,
    Short,
}

/// Open positions by symbol.  A symbol is present only while its size is not
/// zero; `max_concurrent` is the largest number of symbols held at once.
pub struct PositionBook {
    entries: Vec<(String, i32)>,
    max_concurrent: usize,
}

/// The book after a trade of `qty` in `sym` on sizes `m`: the size moves by
/// `qty` and a symbol whose size reaches zero leaves the book.
pub open spec fn after_trade(m: Map<Seq<char>, i32>, sym: Seq<char>, qty: int) -> Map<Seq<char>, i32> {
    let old_size = size_in(m, sym);
    let new_size = old_size + qty;
    if new_size == 0 {
        m.remove(sym)
    } else {
        m.insert(sym, new_size as i32)
    }
}

/// The size held in `sym` (zero when absent).
pub open spec fn size_in(m: Map<Seq<char>, i32>, sym: Seq<char>) -> int {
    if m.contains_key(sym) { m[sym] as int } else { 0 }
}

/// A trade changes the size of its own symbol by its quantity and leaves every
/// other symbol's size alone.
pub proof fn lemma_trade_sizes(m: Map<Seq<char>, i32>, sym: Seq<char>, qty: int, other: Seq<char>)
    requires
        i32::MIN <= size_in(m, sym) + qty <= i32::MAX,
    ensures
        size_in(after_trade(m, sym, qty), sym) == size_in(m, sym) + qty,
        other != sym ==> size_in(after_trade(m, sym, qty), other) == size_in(m, other),
{
}

/// Trading `qty` in a symbol and then `-qty` in the same symbol gives back the
/// sizes held before, as long as no held size is zero (which the book ensures).
pub proof fn lemma_round_trip(m: Map<Seq<char>, i32>, sym: Seq<char>, qty: int)
    requires
        forall|k: Seq<char>| #[trigger] m.contains_key(k) ==> m[k] != 0,
        i32::MIN <= size_in(m, sym) + qty <= i32::MAX,
    ensures
        after_trade(after_trade(m, sym, qty), sym, -qty) == m,
{
    let m1 = after_trade(m, sym, qty);
    assert(size_in(m1, sym) == size_in(m, sym) + qty);
    assert(after_trade(m1, sym, -qty) =~= m);
}

impl PositionBook {
    /// Sizes by symbol.
    pub closed spec fn sizes(&self) -> Map<Seq<char>, i32> {
        entries_map(self.entries@)
    }

    /// Number of symbols currently held.
    pub closed spec fn count(&self) -> nat {
        self.entries@.len()
    }

    /// The peak number of symbols held at once.
    pub closed spec fn peak(&self) -> nat {
        self.max_concurrent as nat
    }

    /// Keys are distinct and every size held is non-zero; the peak covers the
    /// current count.
    pub closed spec fn wf(&self) -> bool {
        &&& forall|i: int, j: int|
            0 <= i < j < self.entries@.len() ==> #[trigger] self.entries@[i].0@
                != #[trigger] self.entries@[j].0@
        &&& forall|i: int| 0 <= i < self.entries@.len() ==> #[trigger] self.entries@[i].1 != 0
        &&& self.entries@.len() <= self.max_concurrent
    }

    /// What every state of the book keeps: no symbol is held at size zero, the
    /// count is the number of symbols held, and it never exceeds the peak.
    pub proof fn lemma_wf(&self)
        requires
            self.wf(),
        ensures
            self.sizes().dom().finite(),
            self.sizes().dom().len() == self.count(),
            self.count() <= self.peak(),
            forall|k: Seq<char>| #[trigger] self.sizes().contains_key(k) ==> self.sizes()[k] != 0,
    {
        lemma_dom_len(self.entries@);
        assert forall|k: Seq<char>| #[trigger] self.sizes().contains_key(k) implies self.sizes()[k] != 0 by {
            let i = choose|i: int| 0 <= i < self.entries@.len() && #[trigger] self.entries@[i].0@ == k;
        }
    }

    /// An empty book.
    pub fn new() -> (b: PositionBook)
        ensures
            b.wf(),
            b.sizes() == Map::<Seq<char>, i32>::empty(),
            b.count() == 0,
            b.peak() == 0,
    {
        let b = PositionBook { entries: Vec::new(), max_concurrent: 0 };
        assert(b.sizes() =~= Map::<Seq<char>, i32>::empty());
        b
    }

    /// Number of symbols currently held.
    pub fn len(&self) -> (n: usize)
        ensures
            n == self.count(),
    {
        self.entries.len()
    }

    /// The peak number of symbols held at once.
    pub fn max_concurrent(&self) -> (n: usize)
        ensures
            n == self.peak(),
    {
        self.max_concurrent
    }

    /// Current size in `symbol` (zero when it is not held).
    pub fn size_of(&self, symbol: &str) -> (n: i32)
        requires
            self.wf(),
        ensures
            n == size_in(self.sizes(), symbol@),
    {
        match self.find(symbol) {
            Some(i) => self.entries[i].1,
            None => 0,
        }
    }

    fn find(&self, symbol: &str) -> (r: Option<usize>)
        requires
            self.wf(),
        ensures
            match r {
                Some(i) => i < self.entries@.len() && self.entries@[i as int].0@ == symbol@,
                None => !has_key(self.entries@, symbol@),
            },
    {
        let mut i: usize = 0;
        while i < self.entries.len()
            invariant
                i <= self.entries@.len(),
                forall|k: int| 0 <= k < i ==> #[trigger] self.entries@[k].0@ != symbol@,
            decreases self.entries.len() - i,
        {
            if str_eq(self.entries[i].0.as_str(), symbol) {
                return Some(i);
            }
            i = i + 1;
        }
        None
    }

    /// Applies a trade of signed quantity `qty` to `symbol` and returns the new
    /// size.  A symbol whose size comes back to zero leaves the book; the peak
    /// is raised to the new count when that is larger.
    pub fn apply_trade(&mut self, symbol: &str, qty: i32) -> (new_size: i32)
        requires
            old(self).wf(),
            i32::MIN <= size_in(old(self).sizes(), symbol@) + qty <= i32::MAX,
        ensures
            final(self).wf(),
            new_size == size_in(old(self).sizes(), symbol@) + qty,
            final(self).sizes() == after_trade(old(self).sizes(), symbol@, qty as int),
            final(self).count() == final(self).sizes().dom().len(),
            final(self).peak() == if final(self).count() > old(self).peak() {
                final(self).count()
            } else {
                old(self).peak()
            },
    {
        let ghost old_entries = self.entries@;
        let idx = self.find(symbol);
        let new_size: i32;
        match idx {
            Some(i) => {
                proof { lemma_lookup(old_entries, i as int); }
                new_size = self.entries[i].1 + qty;
                if new_size == 0 {
                    self.entries.remove(i);
                    proof { lemma_remove(old_entries, i as int); }
                } else {
                    let key = self.entries[i].0.clone();
                    self.entries.set(i, (key, new_size));
                    proof { lemma_update(old_entries, i as int, new_size); }
                }
            },
            None => {
                proof { assert(!entries_map(old_entries).contains_key(symbol@)); }
                new_size = qty;
                if new_size != 0 {
                    let key = symbol.to_owned();
                    let ghost e = (key, new_size);
                    self.entries.push((key, new_size));
                    proof { lemma_push(old_entries, e); }
                } else {
                    assert(entries_map(old_entries).remove(symbol@) =~= entries_map(old_entries));
                }
            },
        }
        if self.entries.len() > self.max_concurrent {
            self.max_concurrent = self.entries.len();
        }
        proof {
            lemma_dom_len(self.entries@);
        }
        new_size
    }
}

} // verus!
