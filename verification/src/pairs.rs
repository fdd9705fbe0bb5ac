//! Commodity pair specifications: `a:b` items separated by commas, pair
//! files with one item (or a comma list) per line, canonical ordering of a
//! pair, and removal of repeated pairs.
use vstd::prelude::*;

use crate::text::{
    fields_from, index_of, index_of_from, lemma_index_of_from_bounds, lex_le, lex_lt, split, str_le,
    substring, to_chars, trim, trim_range,
};

verus! {

/// The pair an item `a:b` names: the text before the first `:` and the text
/// between the first and any second `:`, each trimmed; no pair when there is no
/// `:` or when either side is empty after trimming.
pub open spec fn pair_of_item(p: Seq<char>) -> Option<(Seq<char>, Seq<char>)> {
    let parts = split(p, ':');
    if parts.len() < 2 {
        None
    } else {
        let a = trim(parts[0]);
        let b = trim(parts[1]);
        if a.len() == 0 || b.len() == 0 {
            None
        } else {
            Some((a, b))
        }
    }
}

/// The pairs named by a sequence of items, in order, skipping items that name none.
pub open spec fn pairs_of_items(items: Seq<Seq<char>>) -> Seq<(Seq<char>, Seq<char>)>
    decreases items.len(),
{
    if items.len() == 0 {
        Seq::empty()
    } else {
        let rest = pairs_of_items(items.drop_first());
        match pair_of_item(items[0]) {
            Some(p) => seq![p] + rest,
            None => rest,
        }
    }
}

/// The pairs of a comma-separated specification such as `cu:fu,rb:hc`.
pub open spec fn spec_parse_pairs(s: Seq<char>) -> Seq<(Seq<char>, Seq<char>)> {
    pairs_of_items(split(s, ','))
}

/// The view of a pair of strings.
pub open spec fn pair_view(p: (String, String)) -> (Seq<char>, Seq<char>) {
    (p.0@, p.1@)
}

/// The views of a list of string pairs.
pub open spec fn pairs_view(v: Seq<(String, String)>) -> Seq<(Seq<char>, Seq<char>)> {
    v.map_values(|p: (String, String)| pair_view(p))
}

proof fn lemma_fields_first(s: Seq<char>, c: char, from: int)
    requires
        0 <= from <= s.len(),
    ensures
        fields_from(s, c, from).len() >= 1,
        fields_from(s, c, from)[0] == s.subrange(from, index_of_from(s, c, from)),
        index_of_from(s, c, from) >= s.len() ==> fields_from(s, c, from).len() == 1,
        index_of_from(s, c, from) < s.len() ==> fields_from(s, c, from).drop_first()
            == fields_from(s, c, index_of_from(s, c, from) + 1),
{
    lemma_index_of_from_bounds(s, c, from);
    let e = index_of_from(s, c, from);
    if e < s.len() {
        assert((seq![s.subrange(from, e)] + fields_from(s, c, e + 1)).drop_first() =~= fields_from(
            s,
            c,
            e + 1,
        ));
    }
}

fn copy_range(chars: &Vec<char>, lo: usize, hi: usize) -> (v: Vec<char>)
    requires
        lo <= hi <= chars@.len(),
    ensures
        v@ == chars@.subrange(lo as int, hi as int),
{
    let mut v: Vec<char> = Vec::new();
    let mut i = lo;
    while i < hi
        invariant
            lo <= i <= hi <= chars@.len(),
            v@ == chars@.subrange(lo as int, i as int),
        decreases hi - i,
    {
        v.push(chars[i]);
        i = i + 1;
        assert(v@ =~= chars@.subrange(lo as int, i as int));
    }
    v
}

/// The pair named by the item at `lo..hi` of `s`.
fn pair_in_range(s: &str, chars: &Vec<char>, lo: usize, hi: usize) -> (r: Option<(String, String)>)
    requires
        chars@ == s@,
        lo <= hi <= chars@.len(),
    ensures
        match r {
            Some(p) => pair_of_item(chars@.subrange(lo as int, hi as int)) == Some(pair_view(p)),
            None => pair_of_item(chars@.subrange(lo as int, hi as int)) is None,
        },
{
    let piece = copy_range(chars, lo, hi);
    let ghost p = piece@;
    let m = piece.len();
    let c1 = index_of(&piece, ':', 0);
    proof {
        lemma_index_of_from_bounds(p, ':', 0);
        lemma_fields_first(p, ':', 0);
    }
    if c1 >= m {
        return None;
    }
    let c2 = index_of(&piece, ':', c1 + 1);
    proof {
        lemma_index_of_from_bounds(p, ':', c1 + 1);
        lemma_fields_first(p, ':', c1 + 1);
        assert(split(p, ':')[1] == fields_from(p, ':', c1 + 1)[0]);
        assert(p.subrange(0, c1 as int) == split(p, ':')[0]);
    }
    let (a0, a1) = trim_range(&piece, 0, c1);
    let (b0, b1) = trim_range(&piece, c1 + 1, c2);
    if a0 == a1 || b0 == b1 {
        None
    } else {
        let a = substring(s, lo + a0, lo + a1);
        let b = substring(s, lo + b0, lo + b1);
        assert(a@ =~= p.subrange(a0 as int, a1 as int));
        assert(b@ =~= p.subrange(b0 as int, b1 as int));
        Some((a, b))
    }
}

/// Parses a pair specification such as `cu:fu,rb:hc` into its pairs, in order.
pub fn parse_pairs(spec: &str) -> (pairs: Vec<(String, String)>)
    ensures
        pairs_view(pairs@) == spec_parse_pairs(spec@),
{
    let chars = to_chars(spec);
    let n = chars.len();
    let mut out: Vec<(String, String)> = Vec::new();
    let mut start: usize = 0;
    loop
        invariant_except_break
            start <= n,
            pairs_view(out@) + pairs_of_items(fields_from(chars@, ',', start as int))
                == spec_parse_pairs(spec@),
        invariant
            chars@ == spec@,
            n == chars@.len(),
        ensures
            pairs_view(out@) == spec_parse_pairs(spec@),
        decreases n - start,
    {
        let e = index_of(&chars, ',', start);
        proof {
            lemma_index_of_from_bounds(chars@, ',', start as int);
            lemma_fields_first(chars@, ',', start as int);
        }
        let ghost fs = fields_from(chars@, ',', start as int);
        let ghost before = out@;
        match pair_in_range(spec, &chars, start, e) {
            Some(p) => {
                out.push(p);
                proof {
                    assert(pairs_view(out@) =~= pairs_view(before) + seq![pair_view(p)]);
                }
            },
            None => {},
        }
        proof {
            assert(pairs_view(out@) + pairs_of_items(fs.drop_first()) =~= pairs_view(before)
                + pairs_of_items(fs));
        }
        if e >= n {
            proof {
                assert(fs.drop_first() =~= Seq::<Seq<char>>::empty());
                assert(pairs_view(out@) + pairs_of_items(fs.drop_first()) =~= pairs_view(out@));
            }
            break;
        }
        start = e + 1;
    }
    out
}


/// The pairs one line of a pair file names: nothing for a blank line or a
/// `#` comment; the pairs of a comma list when the trimmed line holds a comma;
/// otherwise the single `a:b` item of the line.
pub open spec fn spec_line_pairs(line: Seq<char>) -> Seq<(Seq<char>, Seq<char>)> {
    let t = trim(line);
    if t.len() == 0 || t[0] == '#' {
        Seq::empty()
    } else if t.contains(',') {
        spec_parse_pairs(t)
    } else {
        match pair_of_item(t) {
            Some(p) => seq![p],
            None => Seq::empty(),
        }
    }
}

/// The pairs a line of a pair file names.
pub fn line_pairs(line: &str) -> (pairs: Vec<(String, String)>)
    ensures
        pairs_view(pairs@) == spec_line_pairs(line@),
{
    let chars = to_chars(line);
    let (a, b) = trim_range(&chars, 0, chars.len());
    assert(chars@.subrange(0, chars@.len() as int) =~= chars@);
    if a == b || chars[a] == '#' {
        return Vec::new();
    }
    let t = substring(line, a, b);
    let tchars = to_chars(t.as_str());
    let c = index_of(&tchars, ',', 0);
    proof {
        lemma_index_of_from_bounds(tchars@, ',', 0);
    }
    if c < tchars.len() {
        assert(t@.contains(','));
        parse_pairs(t.as_str())
    } else {
        assert(!t@.contains(','));
        assert(tchars@.subrange(0, tchars@.len() as int) =~= tchars@);
        match pair_in_range(t.as_str(), &tchars, 0, tchars.len()) {
            Some(p) => {
                let mut v = Vec::new();
                v.push(p);
                assert(pairs_view(v@) =~= seq![pair_view(p)]);
                v
            },
            None => {
                let v: Vec<(String, String)> = Vec::new();
                assert(pairs_view(v@) =~= Seq::empty());
                v
            },
        }
    }
}

/// The pairs named by the lines of a pair file, line after line.
pub open spec fn spec_lines_pairs(lines: Seq<Seq<char>>) -> Seq<(Seq<char>, Seq<char>)>
    decreases lines.len(),
{
    if lines.len() == 0 {
        Seq::empty()
    } else {
        spec_lines_pairs(lines.drop_last()) + spec_line_pairs(lines.last())
    }
}

/// The pairs named by the lines of a pair file.
pub fn pairs_from_lines(lines: &Vec<String>) -> (pairs: Vec<(String, String)>)
    ensures
        pairs_view(pairs@) == spec_lines_pairs(lines@.map_values(|l: String| l@)),
{
    let ghost ls = lines@.map_values(|l: String| l@);
    let mut out: Vec<(String, String)> = Vec::new();
    let mut i: usize = 0;
    while i < lines.len()
        invariant
            i <= lines.len(),
            ls == lines@.map_values(|l: String| l@),
            pairs_view(out@) == spec_lines_pairs(ls.take(i as int)),
        decreases lines.len() - i,
    {
        let mut more = line_pairs(lines[i].as_str());
        let ghost before = out@;
        let ghost added = more@;
        out.append(&mut more);
        proof {
            assert(ls.take(i + 1).drop_last() =~= ls.take(i as int));
            assert(ls.take(i + 1).last() == lines@[i as int]@);
            assert(pairs_view(out@) =~= pairs_view(before) + pairs_view(added));
        }
        i = i + 1;
    }
    assert(ls.take(lines.len() as int) =~= ls);
    out
}

/// The pair in canonical order: the smaller name (in string order) first, so
/// that `(a, b)` and `(b, a)` give the same strategy.
pub fn canonical_pair(a: &str, b: &str) -> (p: (String, String))
    ensures
        pair_view(p) == (if lex_le(a@, b@) { (a@, b@) } else { (b@, a@) }),
{
    if str_le(a, b) {
        (a.to_owned(), b.to_owned())
    } else {
        (b.to_owned(), a.to_owned())
    }
}

/// `s` with every repeated element removed, first occurrences kept in order.
pub open spec fn dedup<A>(s: Seq<A>) -> Seq<A>
    decreases s.len(),
{
    if s.len() == 0 {
        Seq::empty()
    } else {
        let d = dedup(s.drop_last());
        if d.contains(s.last()) {
            d
        } else {
            d.push(s.last())
        }
    }
}

fn pair_eq(x: &(String, String), y: &(String, String)) -> (r: bool)
    ensures
        r == (pair_view(*x) == pair_view(*y)),
{
    x.0 == y.0 && x.1 == y.1
}

/// Removes repeated pairs, keeping the first occurrence of each in order.
pub fn dedup_pairs(pairs: &Vec<(String, String)>) -> (out: Vec<(String, String)>)
    ensures
        pairs_view(out@) == dedup(pairs_view(pairs@)),
{
    let ghost pv = pairs_view(pairs@);
    let mut out: Vec<(String, String)> = Vec::new();
    let mut i: usize = 0;
    while i < pairs.len()
        invariant
            i <= pairs.len(),
            pv == pairs_view(pairs@),
            pairs_view(out@) == dedup(pv.take(i as int)),
        decreases pairs.len() - i,
    {
        let mut found = false;
        let mut j: usize = 0;
        while j < out.len()
            invariant
                j <= out.len(),
                i < pairs.len(),
                found == exists|k: int| 0 <= k < j && pair_view(out@[k]) == pair_view(pairs@[i as int]),
            decreases out.len() - j,
        {
            if pair_eq(&out[j], &pairs[i]) {
                found = true;
            }
            j = j + 1;
        }
        let ghost before = out@;
        proof {
            assert(pv.take(i + 1).drop_last() =~= pv.take(i as int));
            assert(pv.take(i + 1).last() == pair_view(pairs@[i as int]));
            if found {
                let k = choose|k: int| 0 <= k < out@.len() && pair_view(out@[k]) == pair_view(pairs@[i as int]);
                assert(pairs_view(out@)[k] == pair_view(pairs@[i as int]));
            } else {
                assert forall|k: int| 0 <= k < pairs_view(out@).len() implies pairs_view(out@)[k] != pair_view(pairs@[i as int]) by {
                    assert(pairs_view(out@)[k] == pair_view(out@[k]));
                }
            }
        }
        if !found {
            out.push((pairs[i].0.clone(), pairs[i].1.clone()));
            proof {
                assert(pairs_view(out@) =~= pairs_view(before).push(pair_view(pairs@[i as int])));
            }
        }
        i = i + 1;
    }
    assert(pv.take(pairs.len() as int) =~= pv);
    out
}


/// Removing repeats leaves no element twice, keeps every element of the input
/// and adds none, and keeps first occurrences in their input order.
pub proof fn lemma_dedup<A>(s: Seq<A>)
    ensures
        dedup(s).no_duplicates(),
        forall|x: A| #[trigger] dedup(s).contains(x) <==> s.contains(x),
        dedup(s).len() <= s.len(),
    decreases s.len(),
{
    if s.len() > 0 {
        let t = s.drop_last();
        lemma_dedup(t);
        let d = dedup(t);
        assert forall|x: A| #[trigger] dedup(s).contains(x) <==> s.contains(x) by {
            if t.contains(x) {
                let k = choose|k: int| 0 <= k < t.len() && t[k] == x;
                assert(s[k] == x);
            }
            if s.contains(x) {
                let k = choose|k: int| 0 <= k < s.len() && s[k] == x;
                if k < t.len() {
                    assert(t[k] == x);
                } else {
                    assert(x == s.last());
                }
            }
            if !d.contains(s.last()) {
                let r = d.push(s.last());
                if r.contains(x) {
                    let k = choose|k: int| 0 <= k < r.len() && r[k] == x;
                    if k < d.len() {
                        assert(d[k] == x);
                    }
                }
                if d.contains(x) {
                    let k = choose|k: int| 0 <= k < d.len() && d[k] == x;
                    assert(r[k] == x);
                }
                if x == s.last() {
                    assert(r[d.len() as int] == x);
                }
            }
        }
    }
}

proof fn lemma_lex_trichotomy(a: Seq<char>, b: Seq<char>)
    ensures
        lex_lt(a, b) || a == b || lex_lt(b, a),
        !(lex_lt(a, b) && lex_lt(b, a)),
        lex_lt(a, b) ==> a != b,
    decreases a.len(),
{
    if a.len() > 0 && b.len() > 0 {
        if a[0] == b[0] {
            lemma_lex_trichotomy(a.drop_first(), b.drop_first());
            if a.drop_first() == b.drop_first() {
                assert forall|i: int| 0 <= i < a.len() implies a[i] == b[i] by {
                    if i > 0 {
                        assert(a.drop_first()[i - 1] == a[i]);
                        assert(b.drop_first()[i - 1] == b[i]);
                    }
                }
                assert(a =~= b);
            }
        }
    } else if a.len() == 0 && b.len() == 0 {
        assert(a =~= b);
    }
}

/// The canonical order of a pair does not depend on the order the two names
/// are given in.
pub proof fn lemma_canonical_symmetric(a: Seq<char>, b: Seq<char>)
    ensures
        (if lex_le(a, b) { (a, b) } else { (b, a) }) == (if lex_le(b, a) { (b, a) } else { (a, b) }),
{
    lemma_lex_trichotomy(a, b);
}

} // verus!
