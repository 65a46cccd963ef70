//! Ordering symbols and numbering them: the code-point order of strings
//! (which is the order of their UTF-8 bytes, the order `String` sorts by),
//! sorting distinct symbols, and giving each distinct symbol of a list the
//! next free id in order of first appearance.

use vstd::prelude::*;
use vstd::hash_map::StringHashMap;
use crate::bpe_state::{dedup, intern_model};
use crate::text::{chars_of, strings_view};

verus! {

/// Lexicographic order of strings by code point.
pub open spec fn char_lex_lt(a: Seq<char>, b: Seq<char>) -> bool
    decreases a.len(),
{
    if a.len() == 0 {
        b.len() > 0
    } else if b.len() == 0 {
        false
    } else if a[0] != b[0] {
        (a[0] as int) < (b[0] as int)
    } else {
        char_lex_lt(a.drop_first(), b.drop_first())
    }
}

/// No string comes before itself.
pub proof fn lemma_lex_irreflexive(a: Seq<char>)
    ensures
        !char_lex_lt(a, a),
    decreases a.len(),
{
    if a.len() > 0 {
        lemma_lex_irreflexive(a.drop_first());
    }
}

/// Of two different strings one comes first, and never both.
pub proof fn lemma_lex_total(a: Seq<char>, b: Seq<char>)
    ensures
        a != b ==> char_lex_lt(a, b) || char_lex_lt(b, a),
        !(char_lex_lt(a, b) && char_lex_lt(b, a)),
    decreases a.len(),
{
    if a.len() > 0 && b.len() > 0 {
        lemma_lex_total(a.drop_first(), b.drop_first());
        if a[0] == b[0] && a != b {
            assert(a.drop_first() != b.drop_first()) by {
                if a.drop_first() == b.drop_first() {
                    assert(a =~= seq![a[0]] + a.drop_first());
                    assert(b =~= seq![b[0]] + b.drop_first());
                }
            }
        }
    } else if a.len() == 0 && b.len() == 0 {
        assert(a =~= b);
    }
}

/// The order of strings is transitive.
pub proof fn lemma_lex_transitive(a: Seq<char>, b: Seq<char>, c: Seq<char>)
    requires
        char_lex_lt(a, b),
        char_lex_lt(b, c),
    ensures
        char_lex_lt(a, c),
    decreases a.len(),
{
    if a.len() > 0 && b.len() > 0 && c.len() > 0 && a[0] == b[0] && b[0] == c[0] {
        lemma_lex_transitive(a.drop_first(), b.drop_first(), c.drop_first());
    }
}

/// Whether `a` comes strictly before `b` in code-point order.
pub fn text_lt(a: &String, b: &String) -> (r: bool)
    ensures
        r == char_lex_lt(a@, b@),
{
    let x = chars_of(a.as_str());
    let y = chars_of(b.as_str());
    let mut i: usize = 0;
    proof {
        assert(x@.skip(0) =~= x@);
        assert(y@.skip(0) =~= y@);
    }
    while i < x.len() && i < y.len()
        invariant
            i <= x@.len(),
            i <= y@.len(),
            x@ == a@,
            y@ == b@,
            char_lex_lt(a@, b@) == char_lex_lt(x@.skip(i as int), y@.skip(i as int)),
        decreases x@.len() - i,
    {
        let cx = x[i];
        let cy = y[i];
        proof {
            assert(x@.skip(i as int)[0] == cx);
            assert(y@.skip(i as int)[0] == cy);
        }
        if cx != cy {
            return cx < cy;
        }
        proof {
            assert(x@.skip(i as int).drop_first() =~= x@.skip(i + 1));
            assert(y@.skip(i as int).drop_first() =~= y@.skip(i + 1));
        }
        i += 1;
    }
    i < y.len()
}

/// `bs` lists the symbols of `base`, each once, in increasing order.
pub open spec fn is_sorted_of(bs: Seq<Seq<char>>, base: Seq<Seq<char>>) -> bool {
    &&& forall|i: int, j: int| 0 <= i < j < bs.len() ==> char_lex_lt(#[trigger] bs[i], #[trigger] bs[j])
    &&& forall|x: Seq<char>| bs.contains(x) <==> base.contains(x)
}

/// The symbols of `base` in increasing order.
pub open spec fn sorted_of(base: Seq<Seq<char>>) -> Seq<Seq<char>> {
    choose|bs: Seq<Seq<char>>| is_sorted_of(bs, base)
}

proof fn lemma_sorted_unique(bs: Seq<Seq<char>>, cs: Seq<Seq<char>>)
    requires
        forall|i: int, j: int| 0 <= i < j < bs.len() ==> char_lex_lt(#[trigger] bs[i], #[trigger] bs[j]),
        forall|i: int, j: int| 0 <= i < j < cs.len() ==> char_lex_lt(#[trigger] cs[i], #[trigger] cs[j]),
        forall|x: Seq<char>| bs.contains(x) <==> cs.contains(x),
    ensures
        bs == cs,
    decreases bs.len(),
{
    if bs.len() == 0 {
        if cs.len() > 0 {
            assert(cs.contains(cs[0]));
        }
        assert(bs =~= cs);
    } else {
        assert(bs.contains(bs[0]));
        assert(cs.len() > 0);
        assert(cs.contains(cs[0]));
        let p = choose|p: int| 0 <= p < cs.len() && cs[p] == bs[0];
        let q = choose|q: int| 0 <= q < bs.len() && bs[q] == cs[0];
        if p > 0 {
            assert(char_lex_lt(cs[0], cs[p]));
            if q > 0 {
                assert(char_lex_lt(bs[0], bs[q]));
                lemma_lex_total(bs[0], cs[0]);
            } else {
                lemma_lex_irreflexive(cs[0]);
            }
        }
        assert(bs[0] == cs[0]) by {
            if p > 0 {
                lemma_lex_irreflexive(bs[0]);
            }
        }
        let b1 = bs.drop_first();
        let c1 = cs.drop_first();
        assert forall|x: Seq<char>| b1.contains(x) <==> c1.contains(x) by {
            if b1.contains(x) {
                let k = choose|k: int| 0 <= k < b1.len() && b1[k] == x;
                assert(bs[k + 1] == x);
                assert(char_lex_lt(bs[0], bs[k + 1]));
                lemma_lex_irreflexive(x);
                assert(cs.contains(x));
                let m = choose|m: int| 0 <= m < cs.len() && cs[m] == x;
                assert(m != 0);
                assert(c1[m - 1] == x);
            }
            if c1.contains(x) {
                let k = choose|k: int| 0 <= k < c1.len() && c1[k] == x;
                assert(cs[k + 1] == x);
                assert(char_lex_lt(cs[0], cs[k + 1]));
                lemma_lex_irreflexive(x);
                assert(bs.contains(x));
                let m = choose|m: int| 0 <= m < bs.len() && bs[m] == x;
                assert(m != 0);
                assert(b1[m - 1] == x);
            }
        }
        assert forall|i: int, j: int| 0 <= i < j < b1.len() implies char_lex_lt(#[trigger] b1[i], #[trigger] b1[j]) by {
            assert(char_lex_lt(bs[i + 1], bs[j + 1]));
        }
        assert forall|i: int, j: int| 0 <= i < j < c1.len() implies char_lex_lt(#[trigger] c1[i], #[trigger] c1[j]) by {
            assert(char_lex_lt(cs[i + 1], cs[j + 1]));
        }
        lemma_sorted_unique(b1, c1);
        assert(bs =~= seq![bs[0]] + b1);
        assert(cs =~= seq![cs[0]] + c1);
    }
}

/// The distinct symbols `v` in increasing order.
pub fn sort_distinct(v: &Vec<String>) -> (r: Vec<String>)
    requires
        forall|i: int, j: int| 0 <= i < j < v@.len() ==> v@[i]@ != v@[j]@,
    ensures
        strings_view(r@) == sorted_of(strings_view(v@)),
        is_sorted_of(strings_view(r@), strings_view(v@)),
{
    let ghost base = strings_view(v@);
    let mut out: Vec<String> = Vec::new();
    let mut k: usize = 0;
    while k < v.len()
        invariant
            k <= v@.len(),
            base == strings_view(v@),
            forall|i: int, j: int| 0 <= i < j < v@.len() ==> v@[i]@ != v@[j]@,
            forall|i: int, j: int| 0 <= i < j < out@.len() ==> char_lex_lt(#[trigger] strings_view(out@)[i], #[trigger] strings_view(out@)[j]),
            forall|x: Seq<char>| strings_view(out@).contains(x) <==> base.take(k as int).contains(x),
        decreases v@.len() - k,
    {
        let ghost o = strings_view(out@);
        let x = &v[k];
        let mut p: usize = 0;
        while p < out.len() && !text_lt(x, &out[p])
            invariant
                p <= out@.len(),
                o == strings_view(out@),
                forall|i: int| 0 <= i < p ==> !char_lex_lt(x@, #[trigger] o[i]),
            decreases out@.len() - p,
        {
            p += 1;
        }
        proof {
            assert(!o.contains(x@)) by {
                if o.contains(x@) {
                    let m = choose|m: int| 0 <= m < o.len() && o[m] == x@;
                    assert(base.take(k as int).contains(x@));
                    let n = choose|n: int| 0 <= n < k && base.take(k as int)[n] == x@;
                    assert(v@[n]@ == v@[k as int]@);
                }
            }
        }
        out.insert(p, x.clone());
        proof {
            let o2 = strings_view(out@);
            assert(o2 =~= o.insert(p as int, x@));
            assert forall|i: int, j: int| 0 <= i < j < o2.len() implies char_lex_lt(#[trigger] o2[i], #[trigger] o2[j]) by {
                if i < p && j == p {
                    assert(o[i] != x@);
                    lemma_lex_total(o[i], x@);
                } else if i == p && j > p {
                    if p < o.len() {
                        if j - 1 > p {
                            assert(char_lex_lt(o[p as int], o[j - 1]));
                            lemma_lex_transitive(x@, o[p as int], o[j - 1]);
                        }
                    }
                } else if i < p && j > p {
                    assert(char_lex_lt(o[i], o[j - 1]));
                } else if j < p {
                    assert(char_lex_lt(o[i], o[j]));
                } else {
                    assert(char_lex_lt(o[i - 1], o[j - 1]));
                }
            }
            let t1 = base.take(k + 1);
            assert(t1 =~= base.take(k as int).push(x@));
            assert forall|y: Seq<char>| o2.contains(y) <==> t1.contains(y) by {
                if o2.contains(y) {
                    let m = choose|m: int| 0 <= m < o2.len() && o2[m] == y;
                    if m < p {
                        assert(o[m] == y);
                    } else if m > p {
                        assert(o[m - 1] == y);
                    }
                    if y != x@ {
                        assert(o.contains(y));
                        assert(base.take(k as int).contains(y));
                        let n = choose|n: int| 0 <= n < k && base.take(k as int)[n] == y;
                        assert(t1[n] == y);
                    } else {
                        assert(t1[k as int] == y);
                    }
                }
                if t1.contains(y) {
                    let n = choose|n: int| 0 <= n < t1.len() && t1[n] == y;
                    if n < k {
                        assert(base.take(k as int)[n] == y);
                        assert(o.contains(y));
                        let m = choose|m: int| 0 <= m < o.len() && o[m] == y;
                        if m < p {
                            assert(o2[m] == y);
                        } else {
                            assert(o2[m + 1] == y);
                        }
                    } else {
                        assert(o2[p as int] == y);
                    }
                }
            }
        }
        k += 1;
    }
    proof {
        assert(base.take(k as int) =~= base);
        let o = strings_view(out@);
        assert(is_sorted_of(o, base));
        let s = sorted_of(base);
        assert(is_sorted_of(s, base));
        lemma_sorted_unique(o, s);
    }
    out
}

/// Each distinct symbol of `s` mapped to its position among the distinct
/// symbols, in order of first appearance.
pub open spec fn assign_ids(s: Seq<Seq<char>>) -> Map<Seq<char>, u32> {
    Map::new(|x: Seq<char>| dedup(s).contains(x), |x: Seq<char>| dedup(s).index_of(x) as u32)
}

/// The distinct symbols of a list are distinct.
pub proof fn lemma_dedup_distinct(s: Seq<Seq<char>>)
    ensures
        forall|i: int, j: int| 0 <= i < j < dedup(s).len() ==> dedup(s)[i] != dedup(s)[j],
    decreases s.len(),
{
    if s.len() > 0 {
        lemma_dedup_distinct(s.drop_last());
        let p = dedup(s.drop_last());
        if !p.contains(s.last()) {
            assert forall|i: int, j: int| 0 <= i < j < dedup(s).len() implies dedup(s)[i] != dedup(s)[j] by {
                if j == p.len() {
                    if dedup(s)[i] == dedup(s)[j] {
                        assert(p[i] == s.last());
                    }
                }
            }
        }
    }
}

/// Number the distinct symbols of `list` in order of first appearance.
pub fn number_symbols(list: &Vec<String>) -> (m: StringHashMap<u32>)
    requires
        dedup(strings_view(list@)).len() <= u32::MAX,
    ensures
        m@ == assign_ids(strings_view(list@)),
        forall|x: Seq<char>, y: Seq<char>| #[trigger] m@.contains_key(x) && #[trigger] m@.contains_key(y) && x != y
            ==> m@[x] != m@[y],
{
    let ghost s = strings_view(list@);
    let mut m: StringHashMap<u32> = StringHashMap::new();
    let mut next_id: u32 = 0;
    let mut k: usize = 0;
    proof {
        assert(s.take(0) =~= Seq::<Seq<char>>::empty());
        assert(m@ =~= assign_ids(s.take(0)));
        lemma_dedup_prefix_len(s, 0);
    }
    while k < list.len()
        invariant
            k <= s.len(),
            s == strings_view(list@),
            dedup(s).len() <= u32::MAX,
            next_id == dedup(s.take(k as int)).len(),
            m@ == assign_ids(s.take(k as int)),
        decreases s.len() - k,
    {
        let ghost d = dedup(s.take(k as int));
        let x = &list[k];
        proof {
            assert(s.take(k + 1).drop_last() =~= s.take(k as int));
            assert(s.take(k + 1).last() == x@);
            lemma_dedup_prefix_len(s, k + 1);
            lemma_dedup_distinct(s.take(k as int));
        }
        if !m.contains_key(x.as_str()) {
            let ghost before = m@;
            m.insert(x.clone(), next_id);
            proof {
                let d2 = dedup(s.take(k + 1));
                assert(!d.contains(x@));
                assert(d2 =~= d.push(x@));
                assert forall|y: Seq<char>| #[trigger] d2.contains(y) && y != x@ implies d.contains(y) && d2.index_of(y) == d.index_of(y) by {
                    let q = choose|q: int| 0 <= q < d2.len() && d2[q] == y;
                    assert(q < d.len());
                    assert(d[q] == y);
                    let r = d.index_of(y);
                    assert(d[r] == y);
                    let r2 = d2.index_of(y);
                    assert(d2[r2] == y);
                    if r2 == d.len() {
                        assert(false);
                    }
                    assert(d[r2] == y);
                    if r != r2 {
                        if r < r2 {
                            assert(d[r] != d[r2]);
                        } else {
                            assert(d[r2] != d[r]);
                        }
                    }
                }
                assert(d2.contains(x@)) by {
                    assert(d2[d.len() as int] == x@);
                }
                let r2 = d2.index_of(x@);
                assert(d2[r2] == x@);
                assert(r2 == d.len()) by {
                    if r2 < d.len() {
                        assert(d[r2] == x@);
                    }
                }
                assert forall|y: Seq<char>| d.contains(y) implies d2.contains(y) by {
                    let q = choose|q: int| 0 <= q < d.len() && d[q] == y;
                    assert(d2[q] == y);
                }
                assert(m@ =~= assign_ids(s.take(k + 1)));
            }
            next_id += 1;
        } else {
            proof {
                assert(d.contains(x@));
                assert(dedup(s.take(k + 1)) == d);
                assert(m@ =~= assign_ids(s.take(k + 1)));
            }
        }
        k += 1;
    }
    proof {
        assert(s.take(k as int) =~= s);
        let d = dedup(s);
        lemma_dedup_distinct(s);
        assert forall|x: Seq<char>, y: Seq<char>| #[trigger] m@.contains_key(x) && #[trigger] m@.contains_key(y) && x != y
            implies m@[x] != m@[y] by {
            let i = d.index_of(x);
            let j = d.index_of(y);
            assert(d[i] == x && d[j] == y);
        }
    }
    m
}

proof fn lemma_dedup_prefix_len(s: Seq<Seq<char>>, n: int)
    requires
        0 <= n <= s.len(),
    ensures
        dedup(s.take(n)).len() <= dedup(s).len(),
    decreases s.len(),
{
    if n < s.len() {
        assert(s.drop_last().take(n) =~= s.take(n));
        lemma_dedup_prefix_len(s.drop_last(), n);
    } else {
        assert(s.take(n) =~= s);
    }
}

/// The distinct symbols of `s` are no more than the symbols of a table
/// of distinct symbols that holds all of them.
pub proof fn lemma_dedup_len_bound(s: Seq<Seq<char>>, t: Seq<Seq<char>>)
    requires
        forall|i: int| 0 <= i < s.len() ==> t.contains(#[trigger] s[i]),
        forall|i: int, j: int| 0 <= i < j < t.len() ==> t[i] != t[j],
    ensures
        dedup(s).len() <= t.len(),
{
    broadcast use vstd::seq_lib::seq_to_set_is_finite;
    let d = dedup(s);
    lemma_dedup_distinct(s);
    assert(d.no_duplicates());
    d.unique_seq_to_set();
    assert forall|x: Seq<char>| d.to_set().contains(x) implies t.to_set().contains(x) by {
        lemma_dedup_member(s, x);
        let k = choose|k: int| 0 <= k < s.len() && s[k] == x;
        assert(t.contains(s[k]));
    }
    vstd::set_lib::lemma_len_subset(d.to_set(), t.to_set());
    t.lemma_cardinality_of_set();
}

proof fn lemma_dedup_member(s: Seq<Seq<char>>, x: Seq<char>)
    ensures
        dedup(s).contains(x) ==> s.contains(x),
    decreases s.len(),
{
    if s.len() > 0 {
        lemma_dedup_member(s.drop_last(), x);
        let p = dedup(s.drop_last());
        if dedup(s).contains(x) {
            let k = choose|k: int| 0 <= k < dedup(s).len() && dedup(s)[k] == x;
            if k < p.len() {
                assert(p[k] == x);
                let j = choose|j: int| 0 <= j < s.drop_last().len() && s.drop_last()[j] == x;
                assert(s[j] == x);
            } else {
                assert(s[s.len() - 1] == x);
            }
        }
    }
}

} // verus!
