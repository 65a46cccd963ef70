//! Lexicographic order on byte strings (the order of `Vec<u8>`), and a stable
//! merge sort of entry indices by byte-string key.

use vstd::prelude::*;

verus! {

broadcast use vstd::seq_lib::group_to_multiset_ensures, vstd::multiset::group_multiset_axioms;

/// `a` sorts strictly before `b`: at the first difference `a` has the smaller
/// byte, or `a` is a proper prefix of `b`.
pub open spec fn lex_lt(a: Seq<u8>, b: Seq<u8>) -> bool
    decreases a.len(),
{
    if a.len() == 0 {
        b.len() > 0
    } else if b.len() == 0 {
        false
    } else if a[0] != b[0] {
        a[0] < b[0]
    } else {
        lex_lt(a.drop_first(), b.drop_first())
    }
}

/// No byte string comes before itself.
pub proof fn lemma_lex_irreflexive(a: Seq<u8>)
    ensures
        !lex_lt(a, a),
    decreases a.len(),
{
    if a.len() > 0 {
        lemma_lex_irreflexive(a.drop_first());
    }
}

/// Two byte strings are equal or one comes first.
pub proof fn lemma_lex_trichotomy(a: Seq<u8>, b: Seq<u8>)
    ensures
        lex_lt(a, b) || lex_lt(b, a) || a == b,
        !(lex_lt(a, b) && lex_lt(b, a)),
    decreases a.len(),
{
    if a.len() > 0 && b.len() > 0 {
        lemma_lex_trichotomy(a.drop_first(), b.drop_first());
        if a[0] == b[0] && a.drop_first() == b.drop_first() {
            assert forall|k: int| 0 <= k < a.len() implies a[k] == b[k] by {
                if k > 0 {
                    assert(a[k] == a.drop_first()[k - 1]);
                    assert(b[k] == b.drop_first()[k - 1]);
                }
            }
            assert(a =~= b);
        }
    } else if a.len() == 0 && b.len() == 0 {
        assert(a =~= b);
    }
}

/// The order of byte strings is transitive.
pub proof fn lemma_lex_transitive(a: Seq<u8>, b: Seq<u8>, c: Seq<u8>)
    requires
        lex_lt(a, b),
        lex_lt(b, c),
    ensures
        lex_lt(a, c),
    decreases a.len(),
{
    if a.len() > 0 && b.len() > 0 && c.len() > 0 && a[0] == b[0] && b[0] == c[0] {
        lemma_lex_transitive(a.drop_first(), b.drop_first(), c.drop_first());
    }
}

/// Compare two byte strings: negative, zero or positive as `a` sorts before,
/// equal to, or after `b`.
pub fn compare_bytes(a: &[u8], b: &[u8]) -> (r: i8)
    ensures
        r < 0 <==> lex_lt(a@, b@),
        r == 0 <==> a@ == b@,
        r > 0 <==> lex_lt(b@, a@),
{
    let mut i: usize = 0;
    proof {
        assert(a@.skip(0) =~= a@);
        assert(b@.skip(0) =~= b@);
    }
    while i < a.len() && i < b.len() && a[i] == b[i]
        invariant
            i <= a@.len(),
            i <= b@.len(),
            a@.take(i as int) == b@.take(i as int),
            lex_lt(a@, b@) == lex_lt(a@.skip(i as int), b@.skip(i as int)),
            lex_lt(b@, a@) == lex_lt(b@.skip(i as int), a@.skip(i as int)),
        decreases a.len() - i,
    {
        assert(a@.skip(i as int).drop_first() =~= a@.skip(i + 1));
        assert(b@.skip(i as int).drop_first() =~= b@.skip(i + 1));
        assert(a@.take(i + 1) =~= a@.take(i as int).push(a@[i as int]));
        assert(b@.take(i + 1) =~= b@.take(i as int).push(b@[i as int]));
        i += 1;
    }
    proof {
        lemma_lex_trichotomy(a@, b@);
    }
    if i < a.len() && i < b.len() {
        assert(a@ != b@ ==> true);
        if a[i] < b[i] {
            assert(a@.skip(i as int)[0] == a@[i as int]);
            assert(b@.skip(i as int)[0] == b@[i as int]);
            assert(a@[i as int] != b@[i as int]);
            assert(a@ != b@);
            -1
        } else {
            assert(a@.skip(i as int)[0] == a@[i as int]);
            assert(b@.skip(i as int)[0] == b@[i as int]);
            assert(a@ != b@);
            1
        }
    } else if i < b.len() {
        assert(a@.skip(i as int).len() == 0);
        assert(a@ != b@);
        -1
    } else if i < a.len() {
        assert(b@.skip(i as int).len() == 0);
        assert(a@ != b@);
        1
    } else {
        assert(a@ =~= a@.take(i as int));
        assert(b@ =~= b@.take(i as int));
        proof {
            lemma_lex_irreflexive(a@);
        }
        0
    }
}

/// Entry `i` sorts before-or-equal entry `j`: by key, then by index.
pub open spec fn key_index_le(keys: Seq<Seq<u8>>, i: int, j: int) -> bool {
    lex_lt(keys[i], keys[j]) || (keys[i] == keys[j] && i <= j)
}

/// `order` lists the indices `0..keys.len()` each once, sorted by key and,
/// among equal keys, by index (a stable sort).
#[verifier::opaque]
pub open spec fn is_stable_key_order(keys: Seq<Seq<u8>>, order: Seq<usize>) -> bool {
    &&& order.len() == keys.len()
    &&& order.to_multiset() == Seq::new(keys.len(), |i: int| i as usize).to_multiset()
    &&& forall|a: int, b: int| 0 <= a < b < order.len() ==> key_index_le(keys, order[a] as int, order[b] as int)
}

/// The order of entries by key, then index, is transitive.
pub proof fn lemma_key_index_le_trans(keys: Seq<Seq<u8>>, i: int, j: int, k: int)
    requires
        key_index_le(keys, i, j),
        key_index_le(keys, j, k),
    ensures
        key_index_le(keys, i, k),
{
    if lex_lt(keys[i], keys[j]) && lex_lt(keys[j], keys[k]) {
        lemma_lex_transitive(keys[i], keys[j], keys[k]);
    }
}

/// Any two entries are ordered by key, then index, one way or the other.
pub proof fn lemma_key_index_le_total(keys: Seq<Seq<u8>>, i: int, j: int)
    ensures
        key_index_le(keys, i, j) || key_index_le(keys, j, i),
        (key_index_le(keys, i, j) && key_index_le(keys, j, i)) ==> i == j,
{
    lemma_lex_trichotomy(keys[i], keys[j]);
}

/// Whether entry `i` sorts strictly before entry `j`.
fn key_index_lt(keys: &Vec<Vec<u8>>, i: usize, j: usize) -> (r: bool)
    requires
        i < keys@.len(),
        j < keys@.len(),
    ensures
        r == (key_index_le(keys@.map_values(|k: Vec<u8>| k@), i as int, j as int) && i != j),
{
    let ghost ks = keys@.map_values(|k: Vec<u8>| k@);
    let c = compare_bytes(keys[i].as_slice(), keys[j].as_slice());
    proof {
        lemma_lex_trichotomy(ks[i as int], ks[j as int]);
    }
    c < 0 || (c == 0 && i < j)
}

/// Merge two runs that are each sorted by key and index.
fn merge_runs(keys: &Vec<Vec<u8>>, left: Vec<usize>, right: Vec<usize>) -> (r: Vec<usize>)
    requires
        forall|a: int| 0 <= a < left@.len() ==> left@[a] < keys@.len(),
        forall|a: int| 0 <= a < right@.len() ==> right@[a] < keys@.len(),
        forall|a: int, b: int| 0 <= a < b < left@.len() ==> key_index_le(keys@.map_values(|k: Vec<u8>| k@), left@[a] as int, left@[b] as int),
        forall|a: int, b: int| 0 <= a < b < right@.len() ==> key_index_le(keys@.map_values(|k: Vec<u8>| k@), right@[a] as int, right@[b] as int),
    ensures
        r@.to_multiset() == left@.to_multiset().add(right@.to_multiset()),
        r@.len() == left@.len() + right@.len(),
        forall|a: int| 0 <= a < r@.len() ==> r@[a] < keys@.len(),
        forall|a: int, b: int| 0 <= a < b < r@.len() ==> key_index_le(keys@.map_values(|k: Vec<u8>| k@), r@[a] as int, r@[b] as int),
{
    let ghost ks = keys@.map_values(|k: Vec<u8>| k@);
    let mut out: Vec<usize> = Vec::new();
    let mut i: usize = 0;
    let mut j: usize = 0;
    while i < left.len() || j < right.len()
        invariant
            ks == keys@.map_values(|k: Vec<u8>| k@),
            i <= left@.len(),
            j <= right@.len(),
            forall|a: int| 0 <= a < left@.len() ==> left@[a] < keys@.len(),
            forall|a: int| 0 <= a < right@.len() ==> right@[a] < keys@.len(),
            forall|a: int, b: int| 0 <= a < b < left@.len() ==> key_index_le(ks, left@[a] as int, left@[b] as int),
            forall|a: int, b: int| 0 <= a < b < right@.len() ==> key_index_le(ks, right@[a] as int, right@[b] as int),
            out@.len() == i + j,
            out@.to_multiset() == left@.take(i as int).to_multiset().add(right@.take(j as int).to_multiset()),
            forall|a: int| 0 <= a < out@.len() ==> out@[a] < keys@.len(),
            forall|a: int, b: int| 0 <= a < b < out@.len() ==> key_index_le(ks, out@[a] as int, out@[b] as int),
            forall|a: int, b: int| 0 <= a < out@.len() && i <= b < left@.len() ==> key_index_le(ks, out@[a] as int, left@[b] as int),
            forall|a: int, b: int| 0 <= a < out@.len() && j <= b < right@.len() ==> key_index_le(ks, out@[a] as int, right@[b] as int),
        decreases left@.len() + right@.len() - i - j,
    {
        let take_left: bool = if i < left.len() && j < right.len() {
            !key_index_lt(keys, right[j], left[i])
        } else {
            i < left.len()
        };
        if take_left {
            let x = left[i];
            proof {
                if j < right@.len() {
                    lemma_key_index_le_total(ks, x as int, right@[j as int] as int);
                }
                assert forall|b: int| j <= b < right@.len() implies key_index_le(ks, x as int, right@[b] as int) by {
                    if b > j {
                        lemma_key_index_le_trans(ks, x as int, right@[j as int] as int, right@[b] as int);
                    }
                }
                assert(left@.take(i + 1) =~= left@.take(i as int).push(x));
            }
            out.push(x);
            i += 1;
        } else {
            let x = right[j];
            proof {
                if i < left@.len() {
                    lemma_key_index_le_total(ks, x as int, left@[i as int] as int);
                }
                assert forall|b: int| i <= b < left@.len() implies key_index_le(ks, x as int, left@[b] as int) by {
                    if b > i {
                        lemma_key_index_le_trans(ks, x as int, left@[i as int] as int, left@[b] as int);
                    }
                }
                assert(right@.take(j + 1) =~= right@.take(j as int).push(x));
            }
            out.push(x);
            j += 1;
        }
    }
    assert(left@.take(i as int) =~= left@);
    assert(right@.take(j as int) =~= right@);
    out
}

/// Sort `idx` (indices into `keys`) by key, then by index.
fn sort_run(keys: &Vec<Vec<u8>>, idx: Vec<usize>) -> (r: Vec<usize>)
    requires
        forall|a: int| 0 <= a < idx@.len() ==> idx@[a] < keys@.len(),
    ensures
        r@.to_multiset() == idx@.to_multiset(),
        r@.len() == idx@.len(),
        forall|a: int| 0 <= a < r@.len() ==> r@[a] < keys@.len(),
        forall|a: int, b: int| 0 <= a < b < r@.len() ==> key_index_le(keys@.map_values(|k: Vec<u8>| k@), r@[a] as int, r@[b] as int),
    decreases idx@.len(),
{
    let n = idx.len();
    if n <= 1 {
        return idx;
    }
    let mut left = idx;
    let right = left.split_off(n / 2);
    proof {
        assert(idx@ =~= left@ + right@);
        vstd::seq_lib::lemma_multiset_commutative(left@, right@);
    }
    let l = sort_run(keys, left);
    let r = sort_run(keys, right);
    merge_runs(keys, l, r)
}

/// The indices `0..keys.len()` in stable key order: by byte-string key,
/// equal keys in their original order.
pub fn stable_key_order(keys: &Vec<Vec<u8>>) -> (r: Vec<usize>)
    ensures
        is_stable_key_order(keys@.map_values(|k: Vec<u8>| k@), r@),
        r@.len() == keys@.len(),
        forall|a: int| 0 <= a < r@.len() ==> r@[a] < keys@.len(),
{
    let mut idx: Vec<usize> = Vec::new();
    let mut i: usize = 0;
    while i < keys.len()
        invariant
            i <= keys@.len(),
            idx@ == Seq::new(i as nat, |a: int| a as usize),
        decreases keys.len() - i,
    {
        idx.push(i);
        i += 1;
        assert(idx@ =~= Seq::new(i as nat, |a: int| a as usize));
    }
    let r = sort_run(keys, idx);
    proof {
        reveal(is_stable_key_order);
    }
    r
}

} // verus!
