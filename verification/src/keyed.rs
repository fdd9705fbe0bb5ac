//! Lists of `(name, value)` entries with distinct names, read as maps from
//! the name's characters to the value.
use vstd::prelude::*;

verus! {

/// Whether some entry of `s` has key `k`.
pub open spec fn has_key<V>(s: Seq<(String, V)>, k: Seq<char>) -> bool {
    exists|i: int| 0 <= i < s.len() && #[trigger] s[i].0@ == k
}

/// Keys are pairwise distinct.
pub open spec fn distinct_keys<V>(s: Seq<(String, V)>) -> bool {
    forall|p: int, q: int| 0 <= p < q < s.len() ==> #[trigger] s[p].0@ != #[trigger] s[q].0@
}

/// The map from key to value that a list of entries with distinct keys stands for.
pub open spec fn entries_map<V>(s: Seq<(String, V)>) -> Map<Seq<char>, V> {
    Map::new(
        |k: Seq<char>| has_key(s, k),
        |k: Seq<char>| s[choose|i: int| 0 <= i < s.len() && #[trigger] s[i].0@ == k].1,
    )
}

/// Compares two strings character by character.
pub fn str_eq(a: &str, b: &str) -> (r: bool)
    ensures
        r == (a@ == b@),
{
    let n = a.unicode_len();
    let m = b.unicode_len();
    if n != m {
        return false;
    }
    let mut i: usize = 0;
    while i < n
        invariant
            n == a@.len(),
            m == b@.len(),
            n == m,
            i <= n,
            forall|k: int| 0 <= k < i ==> a@[k] == b@[k],
        decreases n - i,
    {
        if a.get_char(i) != b.get_char(i) {
            return false;
        }
        i = i + 1;
    }
    assert(a@ =~= b@);
    true
}

pub proof fn lemma_lookup<V>(s: Seq<(String, V)>, i: int)
    requires
        0 <= i < s.len(),
        forall|p: int, q: int| 0 <= p < q < s.len() ==> #[trigger] s[p].0@ != #[trigger] s[q].0@,
    ensures
        entries_map(s).contains_key(s[i].0@),
        entries_map(s)[s[i].0@] == s[i].1,
{
    assert(has_key(s, s[i].0@));
    let j = choose|j: int| 0 <= j < s.len() && #[trigger] s[j].0@ == s[i].0@;
    assert(j == i);
}

pub proof fn lemma_update<V>(s: Seq<(String, V)>, i: int, v: V)
    requires
        0 <= i < s.len(),
        forall|p: int, q: int| 0 <= p < q < s.len() ==> #[trigger] s[p].0@ != #[trigger] s[q].0@,
    ensures
        entries_map(s.update(i, (s[i].0, v))) =~= entries_map(s).insert(s[i].0@, v),
{
    let t = s.update(i, (s[i].0, v));
    assert forall|k: Seq<char>| has_key(t, k) == (has_key(s, k) || k == s[i].0@) by {
        if has_key(s, k) {
            let j = choose|j: int| 0 <= j < s.len() && #[trigger] s[j].0@ == k;
            assert(t[j].0@ == k);
        }
        if has_key(t, k) {
            let j = choose|j: int| 0 <= j < t.len() && #[trigger] t[j].0@ == k;
            assert(s[j].0@ == k);
        }
        if k == s[i].0@ {
            assert(t[i].0@ == k);
        }
    }
    assert forall|k: Seq<char>| #[trigger] has_key(t, k) implies entries_map(t)[k] == entries_map(s).insert(s[i].0@, v)[k] by {
        let j = choose|j: int| 0 <= j < t.len() && #[trigger] t[j].0@ == k;
        if k == s[i].0@ {
            assert(j == i);
        } else {
            let j2 = choose|j2: int| 0 <= j2 < s.len() && #[trigger] s[j2].0@ == k;
            assert(j2 == j);
        }
    }
}

pub proof fn lemma_remove<V>(s: Seq<(String, V)>, i: int)
    requires
        0 <= i < s.len(),
        forall|p: int, q: int| 0 <= p < q < s.len() ==> #[trigger] s[p].0@ != #[trigger] s[q].0@,
    ensures
        entries_map(s.remove(i)) =~= entries_map(s).remove(s[i].0@),
        forall|p: int, q: int|
            0 <= p < q < s.remove(i).len() ==> #[trigger] s.remove(i)[p].0@ != #[trigger] s.remove(i)[q].0@,
{
    let t = s.remove(i);
    assert forall|p: int, q: int| 0 <= p < q < t.len() implies #[trigger] t[p].0@ != #[trigger] t[q].0@ by {
        let pp = if p < i { p } else { p + 1 };
        let qq = if q < i { q } else { q + 1 };
        assert(t[p] == s[pp]);
        assert(t[q] == s[qq]);
    }
    assert forall|k: Seq<char>| has_key(t, k) == (has_key(s, k) && k != s[i].0@) by {
        if has_key(s, k) && k != s[i].0@ {
            let j = choose|j: int| 0 <= j < s.len() && #[trigger] s[j].0@ == k;
            if j < i {
                assert(t[j].0@ == k);
            } else {
                assert(t[j - 1].0@ == k);
            }
        }
        if has_key(t, k) {
            let j = choose|j: int| 0 <= j < t.len() && #[trigger] t[j].0@ == k;
            let jj = if j < i { j } else { j + 1 };
            assert(s[jj].0@ == k);
            assert(jj != i);
        }
    }
    assert forall|k: Seq<char>| #[trigger] has_key(t, k) implies entries_map(t)[k] == entries_map(s)[k] by {
        let j = choose|j: int| 0 <= j < t.len() && #[trigger] t[j].0@ == k;
        let jj = if j < i { j } else { j + 1 };
        assert(s[jj].0@ == k);
        let j2 = choose|j2: int| 0 <= j2 < s.len() && #[trigger] s[j2].0@ == k;
        assert(j2 == jj);
    }
}

pub proof fn lemma_push<V>(s: Seq<(String, V)>, e: (String, V))
    requires
        !has_key(s, e.0@),
        forall|p: int, q: int| 0 <= p < q < s.len() ==> #[trigger] s[p].0@ != #[trigger] s[q].0@,
    ensures
        entries_map(s.push(e)) =~= entries_map(s).insert(e.0@, e.1),
        forall|p: int, q: int|
            0 <= p < q < s.push(e).len() ==> #[trigger] s.push(e)[p].0@ != #[trigger] s.push(e)[q].0@,
{
    let t = s.push(e);
    assert forall|p: int, q: int| 0 <= p < q < t.len() implies #[trigger] t[p].0@ != #[trigger] t[q].0@ by {
        if q == s.len() {
            assert(t[p] == s[p]);
        } else {
            assert(t[p] == s[p]);
            assert(t[q] == s[q]);
        }
    }
    assert forall|k: Seq<char>| has_key(t, k) == (has_key(s, k) || k == e.0@) by {
        if has_key(s, k) {
            let j = choose|j: int| 0 <= j < s.len() && #[trigger] s[j].0@ == k;
            assert(t[j].0@ == k);
        }
        if k == e.0@ {
            assert(t[s.len() as int].0@ == k);
        }
        if has_key(t, k) {
            let j = choose|j: int| 0 <= j < t.len() && #[trigger] t[j].0@ == k;
            if j < s.len() {
                assert(s[j].0@ == k);
            }
        }
    }
    assert forall|k: Seq<char>| #[trigger] has_key(t, k) implies entries_map(t)[k] == entries_map(s).insert(e.0@, e.1)[k] by {
        let j = choose|j: int| 0 <= j < t.len() && #[trigger] t[j].0@ == k;
        if k == e.0@ {
            if j < s.len() {
                assert(s[j].0@ == k);
            }
        } else {
            assert(j < s.len());
            let j2 = choose|j2: int| 0 <= j2 < s.len() && #[trigger] s[j2].0@ == k;
            assert(t[j2].0@ == k);
        }
    }
}

pub proof fn lemma_dom_len<V>(s: Seq<(String, V)>)
    requires
        forall|p: int, q: int| 0 <= p < q < s.len() ==> #[trigger] s[p].0@ != #[trigger] s[q].0@,
    ensures
        entries_map(s).dom().finite(),
        entries_map(s).dom().len() == s.len(),
    decreases s.len(),
{
    if s.len() == 0 {
        assert(entries_map(s).dom() =~= Set::empty());
    } else {
        let t = s.drop_last();
        assert forall|p: int, q: int| 0 <= p < q < t.len() implies #[trigger] t[p].0@ != #[trigger] t[q].0@ by {
            assert(t[p] == s[p]);
            assert(t[q] == s[q]);
        }
        lemma_dom_len(t);
        assert(!has_key(t, s.last().0@)) by {
            if has_key(t, s.last().0@) {
                let j = choose|j: int| 0 <= j < t.len() && #[trigger] t[j].0@ == s.last().0@;
                assert(s[j].0@ == s[s.len() - 1].0@);
            }
        }
        assert(entries_map(s).dom() =~= entries_map(t).dom().insert(s.last().0@)) by {
            assert forall|k: Seq<char>| has_key(s, k) == (has_key(t, k) || k == s.last().0@) by {
                if has_key(t, k) {
                    let j = choose|j: int| 0 <= j < t.len() && #[trigger] t[j].0@ == k;
                    assert(s[j].0@ == k);
                }
                if k == s.last().0@ {
                    assert(s[s.len() - 1].0@ == k);
                }
                if has_key(s, k) {
                    let j = choose|j: int| 0 <= j < s.len() && #[trigger] s[j].0@ == k;
                    if j < t.len() {
                        assert(t[j].0@ == k);
                    }
                }
            }
        }
    }
}

} // verus!
