//! The working state of BPE training: the symbol table and every word type
//! as a sequence of symbol ids, with exact pair counting and merging.
//!
//! Pair frequencies are recounted from the word types whenever the best
//! pair is asked for, so what is returned is always the exact maximum.

use vstd::prelude::*;
use vstd::hash_map::{HashMapWithView, StringHashMap};
use crate::bpe::merge_pass;
use crate::error::Word2VecError;
use crate::text::strings_view;

verus! {

broadcast use vstd::std_specs::hash::group_hash_axioms;

/// A word type: how often it occurs and its current symbol ids.
pub struct WordEntry {
    pub count: u64,
    pub tokens: Vec<u32>,
}

/// The view of a word entry: its count and its symbol ids.
pub open spec fn entry_view(e: WordEntry) -> (u64, Seq<u32>) {
    (e.count, e.tokens@)
}

/// The view of a sequence of word entries.
pub open spec fn entries_view(v: Seq<WordEntry>) -> Seq<(u64, Seq<u32>)> {
    v.map_values(|e: WordEntry| entry_view(e))
}

/// Number of positions `i < n` with `ts[i] == a` and `ts[i + 1] == b`.
pub open spec fn windows_before(ts: Seq<u32>, n: int, a: u32, b: u32) -> nat
    decreases n,
{
    if n <= 0 {
        0
    } else {
        windows_before(ts, n - 1, a, b) + if n < ts.len() && ts[n - 1] == a && ts[n] == b {
            1nat
        } else {
            0nat
        }
    }
}

/// Number of adjacent occurrences of `(a, b)` in `ts`, overlaps included.
pub open spec fn window_count(ts: Seq<u32>, a: u32, b: u32) -> nat {
    windows_before(ts, ts.len() as int, a, b)
}

/// Frequency of the pair `(a, b)` over word types: each occurrence counts
/// as often as its word type occurs.
pub open spec fn pair_freq(ws: Seq<(u64, Seq<u32>)>, a: u32, b: u32) -> nat
    decreases ws.len(),
{
    if ws.len() == 0 {
        0
    } else {
        pair_freq(ws.drop_last(), a, b) + (ws.last().0 as nat) * window_count(ws.last().1, a, b)
    }
}

/// Total number of symbols over word types, each counted as often as its
/// word type occurs.
pub open spec fn weight(ws: Seq<(u64, Seq<u32>)>) -> nat
    decreases ws.len(),
{
    if ws.len() == 0 {
        0
    } else {
        weight(ws.drop_last()) + (ws.last().0 as nat) * ws.last().1.len()
    }
}

/// Whether `(a, b)` comes no later than `(x, y)` in the order of ids.
pub open spec fn pair_before(a: u32, b: u32, x: u32, y: u32) -> bool {
    a < x || (a == x && b <= y)
}

/// `(a, b)` is the most frequent pair, with frequency `f > 0`, and the
/// smallest by ids among those equally frequent.
pub open spec fn is_best_pair(ws: Seq<(u64, Seq<u32>)>, f: u64, a: u32, b: u32) -> bool {
    &&& f > 0
    &&& pair_freq(ws, a, b) == f
    &&& forall|x: u32, y: u32| #[trigger] pair_freq(ws, x, y) <= f
    &&& forall|x: u32, y: u32| #[trigger] pair_freq(ws, x, y) == f ==> pair_before(a, b, x, y)
}

/// The best pair with its frequency, or `None` when no pair occurs.
pub open spec fn best_pair(ws: Seq<(u64, Seq<u32>)>) -> Option<(u64, (u32, u32))> {
    if exists|f: u64, a: u32, b: u32| is_best_pair(ws, f, a, b) {
        let (f, a, b) = choose|f: u64, a: u32, b: u32| is_best_pair(ws, f, a, b);
        Some((f, (a, b)))
    } else {
        None
    }
}

/// The key of a pair of ids in a frequency table.
pub open spec fn pair_key(a: u32, b: u32) -> u64 {
    (a as u64 * 0x1_0000_0000 + b as u64) as u64
}

/// The value a table holds for a key, zero when absent.
pub open spec fn lookup(m: Map<u64, u64>, k: u64) -> nat {
    if m.contains_key(k) {
        m[k] as nat
    } else {
        0
    }
}

proof fn lemma_pair_key_injective(a: u32, b: u32, x: u32, y: u32)
    ensures
        pair_key(a, b) == pair_key(x, y) ==> a == x && b == y,
{
    assert(a as u64 * 0x1_0000_0000 + b as u64 <= u64::MAX);
    assert(x as u64 * 0x1_0000_0000 + y as u64 <= u64::MAX);
}

proof fn lemma_windows_before_le(ts: Seq<u32>, n: int, a: u32, b: u32)
    requires
        n >= 0,
    ensures
        windows_before(ts, n, a, b) <= n,
    decreases n,
{
    if n > 0 {
        lemma_windows_before_le(ts, n - 1, a, b);
    }
}

proof fn lemma_windows_before_tail(ts: Seq<u32>, n: int, m: int, a: u32, b: u32)
    requires
        ts.len() - 1 <= n <= m,
        0 <= n,
    ensures
        windows_before(ts, n, a, b) == windows_before(ts, m, a, b),
    decreases m - n,
{
    if m > n {
        lemma_windows_before_tail(ts, n, m - 1, a, b);
    }
}

proof fn lemma_windows_before_mono(ts: Seq<u32>, n: int, m: int, a: u32, b: u32)
    requires
        0 <= n <= m,
    ensures
        windows_before(ts, n, a, b) <= windows_before(ts, m, a, b),
    decreases m - n,
{
    if m > n {
        lemma_windows_before_mono(ts, n, m - 1, a, b);
    }
}

proof fn lemma_windows_exist(ts: Seq<u32>, n: int, a: u32, b: u32) -> (i: int)
    requires
        windows_before(ts, n, a, b) > 0,
    ensures
        0 <= i < n,
        i + 1 < ts.len(),
        ts[i] == a,
        ts[i + 1] == b,
    decreases n,
{
    if n - 1 < ts.len() - 1 && n >= 1 && ts[n - 1] == a && ts[n] == b {
        n - 1
    } else {
        lemma_windows_exist(ts, n - 1, a, b)
    }
}

proof fn lemma_pair_freq_le_weight(ws: Seq<(u64, Seq<u32>)>, a: u32, b: u32)
    ensures
        pair_freq(ws, a, b) <= weight(ws),
    decreases ws.len(),
{
    if ws.len() > 0 {
        lemma_pair_freq_le_weight(ws.drop_last(), a, b);
        let c = ws.last().0 as nat;
        let t = ws.last().1;
        lemma_windows_before_le(t, t.len() as int, a, b);
        let k = window_count(t, a, b);
        let l = t.len();
        assert(c * k <= c * l) by (nonlinear_arith)
            requires
                k <= l,
        ;
    }
}

proof fn lemma_pair_freq_prefix(ws: Seq<(u64, Seq<u32>)>, w: int, a: u32, b: u32)
    requires
        0 <= w < ws.len(),
    ensures
        pair_freq(ws.take(w + 1), a, b) == pair_freq(ws.take(w), a, b) + (ws[w].0 as nat)
            * window_count(ws[w].1, a, b),
        pair_freq(ws.take(w + 1), a, b) <= pair_freq(ws, a, b),
    decreases ws.len() - w,
{
    assert(ws.take(w + 1).drop_last() =~= ws.take(w));
    if w + 1 < ws.len() {
        lemma_pair_freq_prefix(ws, w + 1, a, b);
    } else {
        assert(ws.take(w + 1) =~= ws);
    }
}

proof fn lemma_pair_exists(ws: Seq<(u64, Seq<u32>)>, a: u32, b: u32) -> (wi: (int, int))
    requires
        pair_freq(ws, a, b) > 0,
    ensures
        0 <= wi.0 < ws.len(),
        0 <= wi.1,
        wi.1 + 1 < ws[wi.0].1.len(),
        ws[wi.0].1[wi.1] == a,
        ws[wi.0].1[wi.1 + 1] == b,
    decreases ws.len(),
{
    let c = ws.last().0 as nat;
    let k = window_count(ws.last().1, a, b);
    if c * k > 0 {
        assert(k > 0) by (nonlinear_arith)
            requires
                c * k > 0,
        ;
        let i = lemma_windows_exist(ws.last().1, ws.last().1.len() as int, a, b);
        (ws.len() - 1, i)
    } else {
        let wi = lemma_pair_exists(ws.drop_last(), a, b);
        wi
    }
}

proof fn lemma_best_pair_unique(ws: Seq<(u64, Seq<u32>)>, f: u64, a: u32, b: u32)
    requires
        is_best_pair(ws, f, a, b),
    ensures
        best_pair(ws) == Some((f, (a, b))),
{
    let (g, x, y) = choose|g: u64, x: u32, y: u32| is_best_pair(ws, g, x, y);
    assert(is_best_pair(ws, g, x, y));
    assert(pair_freq(ws, x, y) <= f);
    assert(pair_freq(ws, a, b) <= g);
    assert(pair_before(a, b, x, y));
    assert(pair_before(x, y, a, b));
}

/// Whether the pair `(x, y)` is no better than the best `(f, a, b)` found so far.
spec fn dominated(ws: Seq<(u64, Seq<u32>)>, f: u64, a: u32, b: u32, x: u32, y: u32) -> bool {
    &&& pair_freq(ws, x, y) <= f
    &&& (pair_freq(ws, x, y) == f && f > 0 ==> pair_before(a, b, x, y))
}


/// The mathematical content of a training state: symbols by id, and word
/// types as counts and symbol ids.
pub struct BpeModel {
    pub syms: Seq<Seq<char>>,
    pub words: Seq<(u64, Seq<u32>)>,
}

/// The table after interning `s`, and the id of `s` in it.
pub open spec fn intern_model(syms: Seq<Seq<char>>, s: Seq<char>) -> (Seq<Seq<char>>, u32) {
    if syms.contains(s) {
        (syms, syms.index_of(s) as u32)
    } else {
        (syms.push(s), syms.len() as u32)
    }
}

/// Every word type with each non-overlapping `(a, b)` replaced by `id`.
pub open spec fn merge_words(ws: Seq<(u64, Seq<u32>)>, a: u32, b: u32, id: u32) -> Seq<(u64, Seq<u32>)> {
    ws.map_values(|e: (u64, Seq<u32>)| (e.0, merge_pass(e.1, a, b, id)))
}

/// The state after merging the pair `(a, b)` into the symbol `merged`.
pub open spec fn merge_model(st: BpeModel, a: u32, b: u32, merged: Seq<char>) -> BpeModel {
    let (syms, id) = intern_model(st.syms, merged);
    BpeModel { syms, words: merge_words(st.words, a, b, id) }
}

proof fn lemma_merge_pass_bounded(ts: Seq<u32>, l: u32, r: u32, m: u32, n: nat)
    requires
        forall|i: int| 0 <= i < ts.len() ==> ts[i] < n,
        m < n,
    ensures
        merge_pass(ts, l, r, m).len() <= ts.len(),
        forall|i: int| 0 <= i < merge_pass(ts, l, r, m).len() ==> #[trigger] merge_pass(ts, l, r, m)[i] < n,
    decreases ts.len(),
{
    if ts.len() > 0 {
        if ts.len() >= 2 && ts[0] == l && ts[1] == r {
            lemma_merge_pass_bounded(ts.skip(2), l, r, m, n);
        } else {
            lemma_merge_pass_bounded(ts.drop_first(), l, r, m, n);
        }
    }
}

proof fn lemma_weight_merge(ws: Seq<(u64, Seq<u32>)>, a: u32, b: u32, id: u32)
    ensures
        weight(merge_words(ws, a, b, id)) <= weight(ws),
    decreases ws.len(),
{
    if ws.len() > 0 {
        let n = merge_words(ws, a, b, id);
        assert(n.drop_last() =~= merge_words(ws.drop_last(), a, b, id));
        lemma_weight_merge(ws.drop_last(), a, b, id);
        let t = ws.last().1;
        lemma_merge_pass_bounded(t, a, b, id, u32::MAX as nat + 1);
        let c = ws.last().0 as nat;
        let l1 = merge_pass(t, a, b, id).len();
        let l0 = t.len();
        assert(c * l1 <= c * l0) by (nonlinear_arith)
            requires
                l1 <= l0,
        ;
    }
}

/// One greedy left-to-right pass replacing each non-overlapping `(l, r)` by `m`.
fn merge_ids(ts: &Vec<u32>, l: u32, r: u32, m: u32) -> (out: Vec<u32>)
    ensures
        out@ == merge_pass(ts@, l, r, m),
{
    let ghost v = ts@;
    let mut out: Vec<u32> = Vec::new();
    let mut i: usize = 0;
    proof {
        assert(v.skip(0) =~= v);
        assert(out@ + merge_pass(v.skip(0), l, r, m) =~= merge_pass(v, l, r, m));
    }
    while i < ts.len()
        invariant
            i <= v.len(),
            v == ts@,
            out@ + merge_pass(v.skip(i as int), l, r, m) == merge_pass(v, l, r, m),
        decreases v.len() - i,
    {
        let ghost t = v.skip(i as int);
        let ghost before = out@;
        if i + 1 < ts.len() && ts[i] == l && ts[i + 1] == r {
            out.push(m);
            proof {
                assert(t.skip(2) =~= v.skip(i + 2));
                assert(out@ =~= before.push(m));
            }
            i += 2;
        } else {
            out.push(ts[i]);
            proof {
                assert(t.drop_first() =~= v.skip(i + 1));
                assert(out@ =~= before.push(v[i as int]));
            }
            i += 1;
        }
    }
    proof {
        assert(v.skip(i as int) =~= Seq::<u32>::empty());
    }
    out
}

/// The symbols are distinct and `m` maps each of them, and nothing else,
/// to its id.
pub open spec fn interned(syms: Seq<Seq<char>>, m: Map<Seq<char>, u32>) -> bool {
    &&& forall|i: int, j: int| 0 <= i < j < syms.len() ==> syms[i] != syms[j]
    &&& forall|s: Seq<char>| #[trigger] m.contains_key(s) <==> syms.contains(s)
    &&& forall|s: Seq<char>| #[trigger] m.contains_key(s) ==> m[s] < syms.len() && syms[m[s] as int] == s
}

/// The id of `s`, interning it first when it is new.
fn intern_symbol(table: &mut Vec<String>, intern: &mut StringHashMap<u32>, s: &String) -> (id: u32)
    requires
        interned(strings_view(old(table)@), old(intern)@),
        intern_model(strings_view(old(table)@), s@).0.len() <= u32::MAX,
    ensures
        interned(strings_view(final(table)@), final(intern)@),
        strings_view(final(table)@) == intern_model(strings_view(old(table)@), s@).0,
        id == intern_model(strings_view(old(table)@), s@).1,
{
    let ghost old_syms = strings_view(table@);
    match intern.get(s.as_str()) {
        Some(id) => {
            let id = *id;
            proof {
                assert(old_syms.contains(s@));
                let k = old_syms.index_of(s@);
                assert(old_syms[k] == s@);
                assert(k == id as int);
            }
            id
        },
        None => {
            proof {
                assert(!old_syms.contains(s@));
            }
            let id = table.len() as u32;
            intern.insert(s.clone(), id);
            table.push(s.clone());
            proof {
                let syms = strings_view(table@);
                assert(syms =~= old_syms.push(s@));
                assert forall|x: Seq<char>| #[trigger] intern@.contains_key(x) <==> syms.contains(x) by {
                    if x == s@ {
                        assert(syms[old_syms.len() as int] == x);
                    } else {
                        assert(intern@.contains_key(x) == old(intern)@.contains_key(x));
                        if syms.contains(x) {
                            let k = choose|k: int| 0 <= k < syms.len() && syms[k] == x;
                            assert(old_syms[k] == x);
                        }
                        if old_syms.contains(x) {
                            let k = choose|k: int| 0 <= k < old_syms.len() && old_syms[k] == x;
                            assert(syms[k] == x);
                        }
                    }
                }
            }
            id
        },
    }
}

/// The distinct symbols of `s`, in order of first occurrence.
pub open spec fn dedup(s: Seq<Seq<char>>) -> Seq<Seq<char>>
    decreases s.len(),
{
    if s.len() == 0 {
        Seq::empty()
    } else {
        intern_model(dedup(s.drop_last()), s.last()).0
    }
}

/// The symbols of all word types, one type after another.
pub open spec fn flatten_syms(types: Seq<(Seq<Seq<char>>, u64)>) -> Seq<Seq<char>>
    decreases types.len(),
{
    if types.len() == 0 {
        Seq::empty()
    } else {
        flatten_syms(types.drop_last()) + types.last().0
    }
}

/// The ids of the symbols `t` in `syms`.
pub open spec fn ids_of(syms: Seq<Seq<char>>, t: Seq<Seq<char>>) -> Seq<u32> {
    t.map_values(|x: Seq<char>| syms.index_of(x) as u32)
}

/// The state training starts from: special tokens, then every symbol in
/// order of first occurrence; each word type as its symbol ids.
pub open spec fn initial_model(types: Seq<(Seq<Seq<char>>, u64)>, specials: Seq<Seq<char>>) -> BpeModel {
    let syms = dedup(specials + flatten_syms(types));
    BpeModel {
        syms,
        words: types.map_values(|t: (Seq<Seq<char>>, u64)| (t.1, ids_of(syms, t.0))),
    }
}

/// The view of word types given as symbol strings and counts.
pub open spec fn types_view(v: Seq<(Vec<String>, u64)>) -> Seq<(Seq<Seq<char>>, u64)> {
    v.map_values(|t: (Vec<String>, u64)| (strings_view(t.0@), t.1))
}

proof fn lemma_dedup_prefix(s: Seq<Seq<char>>, n: int)
    requires
        0 <= n <= s.len(),
    ensures
        dedup(s.take(n)).len() <= dedup(s).len(),
        dedup(s).take(dedup(s.take(n)).len() as int) == dedup(s.take(n)),
    decreases s.len(),
{
    if n == s.len() {
        assert(s.take(n) =~= s);
        assert(dedup(s).take(dedup(s).len() as int) =~= dedup(s));
    } else {
        assert(s.drop_last().take(n) =~= s.take(n));
        lemma_dedup_prefix(s.drop_last(), n);
        let p = dedup(s.drop_last());
        let q = dedup(s.take(n));
        if !p.contains(s.last()) {
            assert(dedup(s).take(q.len() as int) =~= p.take(q.len() as int));
        }
    }
}

proof fn lemma_weight_prefix(ws: Seq<(u64, Seq<u32>)>, n: int)
    requires
        0 <= n <= ws.len(),
    ensures
        weight(ws.take(n)) <= weight(ws),
    decreases ws.len(),
{
    if n < ws.len() {
        assert(ws.drop_last().take(n) =~= ws.take(n));
        lemma_weight_prefix(ws.drop_last(), n);
    } else {
        assert(ws.take(n) =~= ws);
    }
}

/// The state after merging each `(a, b, merged)` of `merges` in turn.
pub open spec fn merge_all(st: BpeModel, merges: Seq<(u32, u32, Seq<char>)>) -> BpeModel
    decreases merges.len(),
{
    if merges.len() == 0 {
        st
    } else {
        let m = merges.last();
        merge_model(merge_all(st, merges.drop_last()), m.0, m.1, m.2)
    }
}

proof fn lemma_dedup_distinct(s: Seq<Seq<char>>)
    ensures
        dedup(s).no_duplicates(),
        dedup(s).to_set() == s.to_set(),
    decreases s.len(),
{
    if s.len() > 0 {
        lemma_dedup_distinct(s.drop_last());
        let p = dedup(s.drop_last());
        assert(s.to_set() =~= s.drop_last().to_set().insert(s.last())) by {
            assert forall|x: Seq<char>| s.to_set().contains(x) implies s.drop_last().to_set().insert(s.last()).contains(x) by {
                let i = choose|i: int| 0 <= i < s.len() && s[i] == x;
                if i < s.len() - 1 {
                    assert(s.drop_last()[i] == x);
                }
            }
            assert forall|x: Seq<char>| s.drop_last().to_set().insert(s.last()).contains(x) implies s.to_set().contains(x) by {
                if x != s.last() {
                    let i = choose|i: int| 0 <= i < s.drop_last().len() && s.drop_last()[i] == x;
                    assert(s[i] == x);
                } else {
                    assert(s[s.len() - 1] == x);
                }
            }
        }
        if p.contains(s.last()) {
            assert(p.to_set().contains(s.last()));
            assert(p.to_set().insert(s.last()) =~= p.to_set());
        } else {
            assert(p.push(s.last()).to_set() =~= p.to_set().insert(s.last())) by {
                assert forall|x: Seq<char>| p.push(s.last()).to_set().contains(x) implies p.to_set().insert(s.last()).contains(x) by {
                    let i = choose|i: int| 0 <= i < p.push(s.last()).len() && p.push(s.last())[i] == x;
                    if i < p.len() {
                        assert(p[i] == x);
                    }
                }
                assert forall|x: Seq<char>| p.to_set().insert(s.last()).contains(x) implies p.push(s.last()).to_set().contains(x) by {
                    if x != s.last() {
                        let i = choose|i: int| 0 <= i < p.len() && p[i] == x;
                        assert(p.push(s.last())[i] == x);
                    } else {
                        assert(p.push(s.last())[p.len() as int] == x);
                    }
                }
            }
        }
    } else {
        assert(dedup(s).to_set() =~= s.to_set());
    }
}

proof fn lemma_dedup_of_distinct(s: Seq<Seq<char>>)
    requires
        s.no_duplicates(),
    ensures
        dedup(s) == s,
    decreases s.len(),
{
    if s.len() > 0 {
        lemma_dedup_of_distinct(s.drop_last());
        assert(!s.drop_last().contains(s.last())) by {
            if s.drop_last().contains(s.last()) {
                let i = choose|i: int| 0 <= i < s.drop_last().len() && s.drop_last()[i] == s.last();
                assert(s[i] == s[s.len() - 1]);
            }
        }
        assert(s.drop_last().push(s.last()) =~= s);
    }
}

proof fn lemma_merges_keep_prefix(st: BpeModel, merges: Seq<(u32, u32, Seq<char>)>)
    ensures
        merge_all(st, merges).syms.len() >= st.syms.len(),
        merge_all(st, merges).syms.take(st.syms.len() as int) == st.syms,
    decreases merges.len(),
{
    if merges.len() > 0 {
        lemma_merges_keep_prefix(st, merges.drop_last());
        let prev = merge_all(st, merges.drop_last()).syms;
        let next = merge_all(st, merges).syms;
        assert(next.take(st.syms.len() as int) =~= prev.take(st.syms.len() as int));
    } else {
        assert(st.syms.take(st.syms.len() as int) =~= st.syms);
    }
}

/// The base symbols of training are the special tokens and the symbols of
/// the word types, each exactly once, the distinct special tokens first in
/// their order; their number is the size of that set. Merges only append
/// symbols, so whatever merges follow, the base symbols stay the first
/// ones of the table.
pub proof fn law_base_symbols_fixed(
    types: Seq<(Seq<Seq<char>>, u64)>,
    specials: Seq<Seq<char>>,
    merges: Seq<(u32, u32, Seq<char>)>,
)
    ensures
        ({
            let base = initial_model(types, specials).syms;
            &&& base.no_duplicates()
            &&& base.to_set() == (specials + flatten_syms(types)).to_set()
            &&& base.len() == (specials + flatten_syms(types)).to_set().len()
            &&& base.take(dedup(specials).len() as int) == dedup(specials)
            &&& specials.no_duplicates() ==> base.take(specials.len() as int) == specials
            &&& merge_all(initial_model(types, specials), merges).syms.take(base.len() as int) == base
        }),
{
    let all = specials + flatten_syms(types);
    let base = initial_model(types, specials).syms;
    lemma_dedup_distinct(all);
    base.unique_seq_to_set();
    assert(all.take(specials.len() as int) =~= specials);
    lemma_dedup_prefix(all, specials.len() as int);
    if specials.no_duplicates() {
        lemma_dedup_of_distinct(specials);
    }
    lemma_merges_keep_prefix(initial_model(types, specials), merges);
}

/// The frequency of every adjacent pair, by key.
fn count_pairs(entries: &Vec<WordEntry>) -> (m: HashMapWithView<u64, u64>)
    requires
        weight(entries_view(entries@)) <= u64::MAX,
    ensures
        forall|x: u32, y: u32| #[trigger] lookup(m@, pair_key(x, y)) == pair_freq(entries_view(entries@), x, y),
{
    let ghost ws = entries_view(entries@);
    let mut m: HashMapWithView<u64, u64> = HashMapWithView::new();
    let mut w: usize = 0;
    proof {
        assert(ws.take(0) =~= Seq::<(u64, Seq<u32>)>::empty());
    }
    while w < entries.len()
        invariant
            w <= ws.len(),
            ws == entries_view(entries@),
            weight(ws) <= u64::MAX,
            forall|x: u32, y: u32| #[trigger] lookup(m@, pair_key(x, y)) == pair_freq(ws.take(w as int), x, y),
        decreases ws.len() - w,
    {
        let count = entries[w].count;
        let toks = &entries[w].tokens;
        let ghost t = ws[w as int].1;
        let mut i: usize = 0;
        proof {
            assert(toks@ == t);
            lemma_weight_bound(ws, w as int);
            assert forall|x: u32, y: u32| #[trigger] lookup(m@, pair_key(x, y)) == pair_freq(ws.take(w as int), x, y)
                + (count as nat) * windows_before(t, 0, x, y) by {
                assert(windows_before(t, 0, x, y) == 0);
            }
        }
        while i < toks.len() && i + 1 < toks.len()
            invariant
                w < ws.len(),
                ws == entries_view(entries@),
                t == ws[w as int].1,
                toks@ == t,
                count == ws[w as int].0,
                i <= t.len(),
                weight(ws) <= u64::MAX,
                forall|x: u32, y: u32| #[trigger] lookup(m@, pair_key(x, y)) == pair_freq(ws.take(w as int), x, y)
                    + (count as nat) * windows_before(t, i as int, x, y),
            decreases t.len() - i,
        {
            let a = toks[i];
            let b = toks[i + 1];
            let k = a as u64 * 0x1_0000_0000 + b as u64;
            let old_v: u64 = match m.get(&k) {
                Some(v) => *v,
                None => 0,
            };
            let ghost before = m@;
            proof {
                assert(lookup(before, pair_key(a, b)) == old_v);
                let n = windows_before(t, i as int, a, b);
                assert(windows_before(t, i + 1, a, b) == n + 1);
                let c = count as nat;
                assert(c * (n + 1) == c * n + c) by (nonlinear_arith);
                lemma_windows_before_mono(t, i + 1, t.len() as int, a, b);
                let full = window_count(t, a, b);
                assert(c * (n + 1) <= c * full) by (nonlinear_arith)
                    requires
                        n + 1 <= full,
                ;
                lemma_pair_freq_prefix(ws, w as int, a, b);
                lemma_pair_freq_le_weight(ws, a, b);
            }
            m.insert(k, old_v + count);
            proof {
                assert forall|x: u32, y: u32| #[trigger] lookup(m@, pair_key(x, y)) == pair_freq(ws.take(w as int), x, y)
                    + (count as nat) * windows_before(t, i + 1, x, y) by {
                    lemma_pair_key_injective(a, b, x, y);
                    let c = count as nat;
                    let n = windows_before(t, i as int, x, y);
                    if x == a && y == b {
                        assert(c * (n + 1) == c * n + c) by (nonlinear_arith);
                    } else {
                        assert(lookup(m@, pair_key(x, y)) == lookup(before, pair_key(x, y)));
                    }
                }
            }
            i += 1;
        }
        proof {
            assert forall|x: u32, y: u32| #[trigger] lookup(m@, pair_key(x, y)) == pair_freq(ws.take(w + 1), x, y) by {
                lemma_windows_before_tail(t, i as int, t.len() as int, x, y);
                lemma_pair_freq_prefix(ws, w as int, x, y);
            }
        }
        w += 1;
    }
    proof {
        assert(ws.take(w as int) =~= ws);
    }
    m
}


/// Add `count` for every adjacent pair of `toks` to the table.
fn add_windows(m: &mut HashMapWithView<u64, u64>, toks: &Vec<u32>, count: u64)
    requires
        forall|x: u32, y: u32| #[trigger] lookup(old(m)@, pair_key(x, y)) + (count as nat) * window_count(toks@, x, y) <= u64::MAX,
    ensures
        forall|x: u32, y: u32| #[trigger] lookup(final(m)@, pair_key(x, y)) == lookup(old(m)@, pair_key(x, y))
            + (count as nat) * window_count(toks@, x, y),
{
    let ghost t = toks@;
    let ghost m0 = m@;
    let mut i: usize = 0;
    proof {
        assert forall|x: u32, y: u32| #[trigger] lookup(m@, pair_key(x, y)) == lookup(m0, pair_key(x, y))
            + (count as nat) * windows_before(t, 0, x, y) by {
            assert(windows_before(t, 0, x, y) == 0);
        }
    }
    while i < toks.len() && i + 1 < toks.len()
        invariant
            t == toks@,
            i <= t.len(),
            forall|x: u32, y: u32| #[trigger] lookup(m0, pair_key(x, y)) + (count as nat) * window_count(t, x, y) <= u64::MAX,
            forall|x: u32, y: u32| #[trigger] lookup(m@, pair_key(x, y)) == lookup(m0, pair_key(x, y))
                + (count as nat) * windows_before(t, i as int, x, y),
        decreases t.len() - i,
    {
        let a = toks[i];
        let b = toks[i + 1];
        let k = a as u64 * 0x1_0000_0000 + b as u64;
        let old_v: u64 = match m.get(&k) {
            Some(v) => *v,
            None => 0,
        };
        let ghost before = m@;
        proof {
            assert(lookup(before, pair_key(a, b)) == old_v);
            let n = windows_before(t, i as int, a, b);
            assert(windows_before(t, i + 1, a, b) == n + 1);
            let c = count as nat;
            assert(c * (n + 1) == c * n + c) by (nonlinear_arith);
            lemma_windows_before_mono(t, i + 1, t.len() as int, a, b);
            let full = window_count(t, a, b);
            assert(c * (n + 1) <= c * full) by (nonlinear_arith)
                requires
                    n + 1 <= full,
            ;
            assert(lookup(m0, pair_key(a, b)) + c * full <= u64::MAX);
        }
        m.insert(k, old_v + count);
        proof {
            assert forall|x: u32, y: u32| #[trigger] lookup(m@, pair_key(x, y)) == lookup(m0, pair_key(x, y))
                + (count as nat) * windows_before(t, i + 1, x, y) by {
                lemma_pair_key_injective(a, b, x, y);
                let c = count as nat;
                let n = windows_before(t, i as int, x, y);
                if x == a && y == b {
                    assert(c * (n + 1) == c * n + c) by (nonlinear_arith);
                } else {
                    assert(lookup(m@, pair_key(x, y)) == lookup(before, pair_key(x, y)));
                }
            }
        }
        i += 1;
    }
    proof {
        assert forall|x: u32, y: u32| #[trigger] lookup(m@, pair_key(x, y)) == lookup(m0, pair_key(x, y))
            + (count as nat) * window_count(t, x, y) by {
            lemma_windows_before_tail(t, i as int, t.len() as int, x, y);
        }
    }
}

/// Take `count` for every adjacent pair of `toks` off the table.
fn subtract_windows(m: &mut HashMapWithView<u64, u64>, toks: &Vec<u32>, count: u64)
    requires
        forall|x: u32, y: u32| #[trigger] lookup(old(m)@, pair_key(x, y)) >= (count as nat) * window_count(toks@, x, y),
    ensures
        forall|x: u32, y: u32| #[trigger] lookup(final(m)@, pair_key(x, y)) + (count as nat) * window_count(toks@, x, y)
            == lookup(old(m)@, pair_key(x, y)),
{
    let ghost t = toks@;
    let ghost m0 = m@;
    let mut i: usize = 0;
    proof {
        assert forall|x: u32, y: u32| #[trigger] lookup(m@, pair_key(x, y)) + (count as nat) * windows_before(t, 0, x, y)
            == lookup(m0, pair_key(x, y)) by {
            assert(windows_before(t, 0, x, y) == 0);
        }
    }
    while i < toks.len() && i + 1 < toks.len()
        invariant
            t == toks@,
            i <= t.len(),
            forall|x: u32, y: u32| #[trigger] lookup(m0, pair_key(x, y)) >= (count as nat) * window_count(t, x, y),
            forall|x: u32, y: u32| #[trigger] lookup(m@, pair_key(x, y)) + (count as nat) * windows_before(t, i as int, x, y)
                == lookup(m0, pair_key(x, y)),
        decreases t.len() - i,
    {
        let a = toks[i];
        let b = toks[i + 1];
        let k = a as u64 * 0x1_0000_0000 + b as u64;
        let old_v: u64 = match m.get(&k) {
            Some(v) => *v,
            None => 0,
        };
        let ghost before = m@;
        proof {
            assert(lookup(before, pair_key(a, b)) == old_v);
            let n = windows_before(t, i as int, a, b);
            assert(windows_before(t, i + 1, a, b) == n + 1);
            let c = count as nat;
            assert(c * (n + 1) == c * n + c) by (nonlinear_arith);
            lemma_windows_before_mono(t, i + 1, t.len() as int, a, b);
            let full = window_count(t, a, b);
            assert(c * (n + 1) <= c * full) by (nonlinear_arith)
                requires
                    n + 1 <= full,
            ;
            assert(lookup(m0, pair_key(a, b)) >= c * full);
        }
        m.insert(k, old_v - count);
        proof {
            assert forall|x: u32, y: u32| #[trigger] lookup(m@, pair_key(x, y)) + (count as nat) * windows_before(t, i + 1, x, y)
                == lookup(m0, pair_key(x, y)) by {
                lemma_pair_key_injective(a, b, x, y);
                let c = count as nat;
                let n = windows_before(t, i as int, x, y);
                if x == a && y == b {
                    assert(c * (n + 1) == c * n + c) by (nonlinear_arith);
                } else {
                    assert(lookup(m@, pair_key(x, y)) == lookup(before, pair_key(x, y)));
                }
            }
        }
        i += 1;
    }
    proof {
        assert forall|x: u32, y: u32| #[trigger] lookup(m@, pair_key(x, y)) + (count as nat) * window_count(t, x, y)
            == lookup(m0, pair_key(x, y)) by {
            lemma_windows_before_tail(t, i as int, t.len() as int, x, y);
        }
    }
}

proof fn lemma_pair_freq_concat(s1: Seq<(u64, Seq<u32>)>, s2: Seq<(u64, Seq<u32>)>, x: u32, y: u32)
    ensures
        pair_freq(s1 + s2, x, y) == pair_freq(s1, x, y) + pair_freq(s2, x, y),
    decreases s2.len(),
{
    if s2.len() > 0 {
        assert((s1 + s2).drop_last() =~= s1 + s2.drop_last());
        lemma_pair_freq_concat(s1, s2.drop_last(), x, y);
    } else {
        assert(s1 + s2 =~= s1);
    }
}

proof fn lemma_weight_concat(s1: Seq<(u64, Seq<u32>)>, s2: Seq<(u64, Seq<u32>)>)
    ensures
        weight(s1 + s2) == weight(s1) + weight(s2),
    decreases s2.len(),
{
    if s2.len() > 0 {
        assert((s1 + s2).drop_last() =~= s1 + s2.drop_last());
        lemma_weight_concat(s1, s2.drop_last());
    } else {
        assert(s1 + s2 =~= s1);
    }
}

/// The word types while a merge is under way: the first `w` merged, the
/// rest as they were.
spec fn merge_mid(ws: Seq<(u64, Seq<u32>)>, a: u32, b: u32, id: u32, w: int) -> Seq<(u64, Seq<u32>)> {
    merge_words(ws, a, b, id).take(w) + ws.skip(w)
}

/// Merging word `w` trades its pairs for those of its merged tokens.
proof fn lemma_merge_mid_step(ws: Seq<(u64, Seq<u32>)>, a: u32, b: u32, id: u32, w: int, x: u32, y: u32)
    requires
        0 <= w < ws.len(),
    ensures
        pair_freq(merge_mid(ws, a, b, id, w), x, y) == pair_freq(merge_words(ws, a, b, id).take(w), x, y)
            + (ws[w].0 as nat) * window_count(ws[w].1, x, y) + pair_freq(ws.skip(w + 1), x, y),
        pair_freq(merge_mid(ws, a, b, id, w + 1), x, y) == pair_freq(merge_words(ws, a, b, id).take(w), x, y)
            + (ws[w].0 as nat) * window_count(merge_pass(ws[w].1, a, b, id), x, y) + pair_freq(ws.skip(w + 1), x, y),
{
    let nw = merge_words(ws, a, b, id);
    let e0 = ws[w];
    let e1 = nw[w];
    assert(merge_mid(ws, a, b, id, w) =~= (nw.take(w) + seq![e0]) + ws.skip(w + 1));
    assert(merge_mid(ws, a, b, id, w + 1) =~= (nw.take(w) + seq![e1]) + ws.skip(w + 1));
    lemma_pair_freq_concat(nw.take(w) + seq![e0], ws.skip(w + 1), x, y);
    lemma_pair_freq_concat(nw.take(w), seq![e0], x, y);
    lemma_pair_freq_concat(nw.take(w) + seq![e1], ws.skip(w + 1), x, y);
    lemma_pair_freq_concat(nw.take(w), seq![e1], x, y);
    assert(seq![e0].drop_last() =~= Seq::<(u64, Seq<u32>)>::empty());
    assert(seq![e1].drop_last() =~= Seq::<(u64, Seq<u32>)>::empty());
    assert(pair_freq(Seq::<(u64, Seq<u32>)>::empty(), x, y) == 0);
    assert(seq![e0].last() == e0);
    assert(seq![e1].last() == e1);
    assert(pair_freq(seq![e0], x, y) == (e0.0 as nat) * window_count(e0.1, x, y));
    assert(e1 == (ws[w].0, merge_pass(ws[w].1, a, b, id)));
    assert(pair_freq(seq![e1], x, y) == (e1.0 as nat) * window_count(e1.1, x, y));
}

/// While a merge is under way, the words weigh no more than before it.
proof fn lemma_merge_mid_weight(ws: Seq<(u64, Seq<u32>)>, a: u32, b: u32, id: u32, w: int)
    requires
        0 <= w <= ws.len(),
    ensures
        weight(merge_mid(ws, a, b, id, w)) <= weight(ws),
{
    let nw = merge_words(ws, a, b, id);
    assert(nw.take(w) =~= merge_words(ws.take(w), a, b, id));
    lemma_weight_merge(ws.take(w), a, b, id);
    lemma_weight_concat(nw.take(w), ws.skip(w));
    assert(ws =~= ws.take(w) + ws.skip(w));
    lemma_weight_concat(ws.take(w), ws.skip(w));
}

/// The working state of BPE training.
pub struct BpeState {
    /// Symbol id → symbol.
    pub sym_table: Vec<String>,
    /// Symbol → symbol id.
    pub sym_intern: StringHashMap<u32>,
    /// Number of symbols interned before any merge.
    pub base_sym_count: usize,
    /// The word types of the corpus.
    pub word_entries: Vec<WordEntry>,
    /// The frequency of every adjacent pair of the word types, by
    /// [`pair_key`], kept up to date by every merge.
    pub pair_counts: HashMapWithView<u64, u64>,
}

impl BpeState {
    /// The symbols, by id.
    pub open spec fn syms(&self) -> Seq<Seq<char>> {
        strings_view(self.sym_table@)
    }

    /// The word types, as counts and symbol ids.
    pub open spec fn entries(&self) -> Seq<(u64, Seq<u32>)> {
        entries_view(self.word_entries@)
    }

    /// The state is consistent: symbols are distinct and interned under
    /// their ids, every token is a symbol id, the total weight fits, and the
    /// pair table holds the frequency of every pair of the word types.
    pub open spec fn wf(&self) -> bool {
        &&& self.syms().len() <= u32::MAX
        &&& self.base_sym_count <= self.syms().len()
        &&& interned(self.syms(), self.sym_intern@)
        &&& forall|w: int, i: int| 0 <= w < self.entries().len() && 0 <= i < self.entries()[w].1.len()
            ==> #[trigger] self.entries()[w].1[i] < self.syms().len()
        &&& weight(self.entries()) <= u64::MAX
        &&& forall|x: u32, y: u32| #[trigger] lookup(self.pair_counts@, pair_key(x, y)) == pair_freq(self.entries(), x, y)
    }

    /// The mathematical content of the state.
    pub open spec fn model(&self) -> BpeModel {
        BpeModel { syms: self.syms(), words: self.entries() }
    }

    /// The state for word types `word_freqs` (symbols and counts), with
    /// the special tokens interned first. Fails with
    /// `Word2VecError::Vocabulary` when there are more distinct symbols than
    /// 32-bit ids, and with `Word2VecError::Training` when the total weight
    /// of the word types does not fit in `u64`.
    pub fn new(word_freqs: &Vec<(Vec<String>, u64)>, special_tokens: &Vec<String>) -> (r: Result<Self, Word2VecError>)
        ensures
            match r {
                Ok(st) => st.wf() && st.model() == initial_model(types_view(word_freqs@), strings_view(special_tokens@))
                    && st.base_sym_count == st.syms().len()
                    && st.base_sym_count == (strings_view(special_tokens@) + flatten_syms(types_view(word_freqs@))).to_set().len(),
                Err(e) => {
                    let m = initial_model(types_view(word_freqs@), strings_view(special_tokens@));
                    (e matches Word2VecError::Vocabulary(_) && m.syms.len() > u32::MAX)
                        || (e matches Word2VecError::Training(_) && m.syms.len() <= u32::MAX && weight(m.words) > u64::MAX)
                },
            },
    {
        let ghost types = types_view(word_freqs@);
        let ghost specials = strings_view(special_tokens@);
        let ghost all = specials + flatten_syms(types);
        let ghost fin = dedup(all);
        proof {
            law_base_symbols_fixed(types, specials, Seq::empty());
        }
        let mut sym_table: Vec<String> = Vec::new();
        let mut sym_intern: StringHashMap<u32> = StringHashMap::new();
        let mut k: usize = 0;
        proof {
            assert(all.take(0) =~= Seq::<Seq<char>>::empty());
            assert(strings_view(sym_table@) =~= Seq::<Seq<char>>::empty());
        }
        while k < special_tokens.len()
            invariant
                k <= specials.len(),
                specials == strings_view(special_tokens@),
                types == types_view(word_freqs@),
                all == specials + flatten_syms(types),
                fin == dedup(all),
                strings_view(sym_table@).len() <= u32::MAX,
                interned(strings_view(sym_table@), sym_intern@),
                strings_view(sym_table@) == dedup(all.take(k as int)),
            decreases specials.len() - k,
        {
            proof {
                assert(all.take(k + 1).drop_last() =~= all.take(k as int));
                assert(all.take(k + 1).last() == specials[k as int]);
                lemma_dedup_prefix(all, k + 1);
            }
            if sym_table.len() >= u32::MAX as usize && !sym_intern.contains_key(special_tokens[k].as_str()) {
                proof {
                    let tb = strings_view(sym_table@);
                    assert(!tb.contains(specials[k as int]));
                    assert(dedup(all.take(k + 1)).len() == tb.len() + 1);
                    assert(fin.len() > u32::MAX);
                    assert(initial_model(types, specials).syms.len() > u32::MAX);
                }
                return Err(Word2VecError::Vocabulary(String::from_str("too many distinct symbols for 32-bit ids")));
            }
            let _ = intern_symbol(&mut sym_table, &mut sym_intern, &special_tokens[k]);
            k += 1;
        }
        let mut word_entries: Vec<WordEntry> = Vec::new();
        let mut w: usize = 0;
        proof {
            assert(types.take(0) =~= Seq::<(Seq<Seq<char>>, u64)>::empty());
            assert(all.take(k as int) =~= specials + flatten_syms(types.take(0)));
        }
        while w < word_freqs.len()
            invariant
                w <= types.len(),
                types == types_view(word_freqs@),
                specials == strings_view(special_tokens@),
                all == specials + flatten_syms(types),
                fin == dedup(all),
                strings_view(sym_table@).len() <= u32::MAX,
                interned(strings_view(sym_table@), sym_intern@),
                strings_view(sym_table@) == dedup(specials + flatten_syms(types.take(w as int))),
                entries_view(word_entries@).len() == w,
                forall|v: int| 0 <= v < w ==> (#[trigger] entries_view(word_entries@)[v]).0 == types[v].1
                    && entries_view(word_entries@)[v].1.len() == types[v].0.len(),
                forall|v: int, j: int| 0 <= v < w && 0 <= j < types[v].0.len()
                    ==> (#[trigger] entries_view(word_entries@)[v].1[j]) < strings_view(sym_table@).len()
                    && strings_view(sym_table@)[entries_view(word_entries@)[v].1[j] as int] == types[v].0[j],
            decreases types.len() - w,
        {
            let syms_in = &word_freqs[w].0;
            let ghost t = types[w as int].0;
            let ghost pre = specials + flatten_syms(types.take(w as int));
            proof {
                assert(types.take(w + 1).drop_last() =~= types.take(w as int));
                assert(specials + flatten_syms(types.take(w + 1)) =~= pre + t);
                assert(strings_view(syms_in@) == t);
            }
            let mut ids: Vec<u32> = Vec::new();
            let mut j: usize = 0;
            proof {
                assert(pre + t.take(0) =~= pre);
            }
            while j < syms_in.len()
                invariant
                    w < types.len(),
                    types == types_view(word_freqs@),
                    specials == strings_view(special_tokens@),
                    all == specials + flatten_syms(types),
                    fin == dedup(all),
                    strings_view(sym_table@).len() <= u32::MAX,
                    t == types[w as int].0,
                    strings_view(syms_in@) == t,
                    pre + t == specials + flatten_syms(types.take(w + 1)),
                    j <= t.len(),
                    interned(strings_view(sym_table@), sym_intern@),
                    strings_view(sym_table@) == dedup(pre + t.take(j as int)),
                    ids@.len() == j,
                    forall|i: int| 0 <= i < j ==> (#[trigger] ids@[i]) < strings_view(sym_table@).len()
                        && strings_view(sym_table@)[ids@[i] as int] == t[i],
                    entries_view(word_entries@).len() == w,
                    forall|v: int, i: int| 0 <= v < w && 0 <= i < types[v].0.len()
                        ==> (#[trigger] entries_view(word_entries@)[v].1[i]) < strings_view(sym_table@).len()
                        && strings_view(sym_table@)[entries_view(word_entries@)[v].1[i] as int] == types[v].0[i],
                decreases t.len() - j,
            {
                let ghost before = strings_view(sym_table@);
                proof {
                    assert((pre + t.take(j + 1)).drop_last() =~= pre + t.take(j as int));
                    assert((pre + t.take(j + 1)).last() == t[j as int]);
                    lemma_flatten_prefix(types, w + 1);
                    let g = flatten_syms(types.take(w + 1));
                    let f = flatten_syms(types);
                    let sl = specials.len() as int;
                    let q = pre + t.take(j + 1);
                    assert(pre + t == specials + g);
                    assert(q.len() <= (pre + t).len());
                    assert forall|i: int| 0 <= i < q.len() implies all[i] == #[trigger] q[i] by {
                        assert(q[i] == (pre + t)[i]);
                        assert((pre + t)[i] == (specials + g)[i]);
                        if i >= sl {
                            assert(f.take(g.len() as int)[i - sl] == g[i - sl]);
                        }
                    }
                    assert(all.take(q.len() as int) =~= q);
                    lemma_dedup_prefix(all, (pre + t.take(j + 1)).len() as int);
                }
                if sym_table.len() >= u32::MAX as usize && !sym_intern.contains_key(syms_in[j].as_str()) {
                    proof {
                        let tb = strings_view(sym_table@);
                        assert(!tb.contains(t[j as int]));
                        assert(dedup(pre + t.take(j + 1)).len() == tb.len() + 1);
                        assert(fin.len() > u32::MAX);
                    }
                    return Err(Word2VecError::Vocabulary(String::from_str("too many distinct symbols for 32-bit ids")));
                }
                let id = intern_symbol(&mut sym_table, &mut sym_intern, &syms_in[j]);
                let ghost ids_before = ids@;
                ids.push(id);
                proof {
                    let now = strings_view(sym_table@);
                    assert(now.len() >= before.len());
                    assert forall|i: int| 0 <= i < before.len() implies now[i] == before[i] by {}
                    assert forall|i: int| 0 <= i < j + 1 implies (#[trigger] ids@[i]) < now.len() && now[ids@[i] as int] == t[i] by {
                        if i < j {
                            assert(ids@[i] == ids_before[i]);
                        }
                    }
                }
                j += 1;
            }
            let ghost before_entries = entries_view(word_entries@);
            word_entries.push(WordEntry { count: word_freqs[w].1, tokens: ids });
            proof {
                assert(t.take(j as int) =~= t);
                let ev = entries_view(word_entries@);
                assert forall|v: int| 0 <= v < w + 1 implies (#[trigger] ev[v]).0 == types[v].1 && ev[v].1.len() == types[v].0.len() by {
                    if v < w {
                        assert(ev[v] == before_entries[v]);
                    }
                }
                assert forall|v: int, i: int| 0 <= v < w + 1 && 0 <= i < types[v].0.len()
                    implies (#[trigger] ev[v].1[i]) < strings_view(sym_table@).len()
                    && strings_view(sym_table@)[ev[v].1[i] as int] == types[v].0[i] by {
                    if v < w {
                        assert(ev[v] == before_entries[v]);
                    }
                }
            }
            w += 1;
        }
        proof {
            assert(types.take(w as int) =~= types);
            let m = initial_model(types, specials);
            assert(strings_view(sym_table@) == m.syms);
            let ev = entries_view(word_entries@);
            assert forall|v: int| 0 <= v < ev.len() implies #[trigger] ev[v] == m.words[v] by {
                assert forall|i: int| 0 <= i < ev[v].1.len() implies #[trigger] ev[v].1[i] == m.words[v].1[i] by {
                    let x = types[v].0[i];
                    let id = ev[v].1[i];
                    assert(m.syms[id as int] == x);
                    assert(m.syms.contains(x));
                    let k = m.syms.index_of(x);
                    assert(m.syms[k] == x);
                    assert(k == id as int);
                }
                assert(ev[v].1 =~= m.words[v].1);
            }
            assert(ev =~= m.words);
        }
        let mut total: u64 = 0;
        let mut v: usize = 0;
        proof {
            assert(entries_view(word_entries@).take(0) =~= Seq::<(u64, Seq<u32>)>::empty());
        }
        while v < word_entries.len()
            invariant
                v <= word_entries@.len(),
                total == weight(entries_view(word_entries@).take(v as int)),
                fin == dedup(all),
                all == specials + flatten_syms(types),
                strings_view(sym_table@) == fin,
                fin.len() <= u32::MAX,
                entries_view(word_entries@) == initial_model(types, specials).words,
                forall|u: int, i: int| 0 <= u < entries_view(word_entries@).len() && 0 <= i < entries_view(word_entries@)[u].1.len()
                    ==> (#[trigger] entries_view(word_entries@)[u].1[i]) < fin.len(),
                interned(strings_view(sym_table@), sym_intern@),
                types == types_view(word_freqs@),
                specials == strings_view(special_tokens@),
            decreases word_entries@.len() - v,
        {
            let ghost ev = entries_view(word_entries@);
            let c = word_entries[v].count;
            let l = word_entries[v].tokens.len() as u64;
            proof {
                assert(ev.take(v + 1).drop_last() =~= ev.take(v as int));
                assert(ev.take(v + 1).last() == ev[v as int]);
                lemma_weight_prefix(ev, v + 1);
                lemma_weight_bound(ev, v as int);
            }
            match c.checked_mul(l) {
                None => {
                    return Err(Word2VecError::Training(String::from_str("corpus too large for 64-bit counts")));
                },
                Some(p) => match total.checked_add(p) {
                    None => {
                        return Err(Word2VecError::Training(String::from_str("corpus too large for 64-bit counts")));
                    },
                    Some(t) => {
                        total = t;
                    },
                },
            }
            v += 1;
        }
        proof {
            assert(entries_view(word_entries@).take(v as int) =~= entries_view(word_entries@));
        }
        let base_sym_count = sym_table.len();
        let pair_counts = count_pairs(&word_entries);
        let st = BpeState { sym_table, sym_intern, base_sym_count, word_entries, pair_counts };
        Ok(st)
    }

    /// Number of base (pre-merge) symbols.
    pub fn num_base_symbols(&self) -> (r: usize)
        ensures
            r == self.base_sym_count,
    {
        self.base_sym_count
    }

    /// Merge the pair `(a, b)` into the symbol `merged_str` in every word
    /// type, interning the symbol first; returns its id. The pair table is
    /// updated word by word: each word's old pairs are taken off and the
    /// pairs of its merged tokens added.
    pub fn apply_merge(&mut self, pair: (u32, u32), merged_str: &str) -> (r: Result<u32, Word2VecError>)
        requires
            old(self).wf(),
            old(self).syms().len() < u32::MAX,
        ensures
            final(self).wf(),
            final(self).model() == merge_model(old(self).model(), pair.0, pair.1, merged_str@),
            final(self).base_sym_count == old(self).base_sym_count,
            r == Ok::<u32, Word2VecError>(intern_model(old(self).syms(), merged_str@).1),
    {
        let (sym_a, sym_b) = pair;
        let ghost old_syms = self.syms();
        let ghost old_ws = self.entries();
        let merged = String::from_str(merged_str);
        let merged_id = intern_symbol(&mut self.sym_table, &mut self.sym_intern, &merged);
        proof {
            assert(merged_id == intern_model(old_syms, merged_str@).1);
            assert(self.syms() == intern_model(old_syms, merged_str@).0);
        }
        let ghost syms = self.syms();
        let ghost intern0 = self.sym_intern@;
        let ghost base0 = self.base_sym_count;
        let mut new_entries: Vec<WordEntry> = Vec::new();
        let mut w: usize = 0;
        proof {
            assert(merge_mid(old_ws, sym_a, sym_b, merged_id, 0) =~= old_ws);
        }
        while w < self.word_entries.len()
            invariant
                w <= old_ws.len(),
                old_ws == self.entries(),
                syms == self.syms(),
                merged_id < syms.len(),
                weight(old_ws) <= u64::MAX,
                self.sym_intern@ == intern0,
                self.base_sym_count == base0,
                forall|v: int, i: int| 0 <= v < old_ws.len() && 0 <= i < old_ws[v].1.len()
                    ==> #[trigger] old_ws[v].1[i] < syms.len(),
                entries_view(new_entries@) == merge_words(old_ws, sym_a, sym_b, merged_id).take(w as int),
                forall|x: u32, y: u32| #[trigger] lookup(self.pair_counts@, pair_key(x, y))
                    == pair_freq(merge_mid(old_ws, sym_a, sym_b, merged_id, w as int), x, y),
            decreases old_ws.len() - w,
        {
            let count = self.word_entries[w].count;
            let toks = merge_ids(&self.word_entries[w].tokens, sym_a, sym_b, merged_id);
            proof {
                assert(self.word_entries[w as int].tokens@ == old_ws[w as int].1);
                assert forall|x: u32, y: u32| #[trigger] lookup(self.pair_counts@, pair_key(x, y))
                    >= (count as nat) * window_count(self.word_entries[w as int].tokens@, x, y) by {
                    lemma_merge_mid_step(old_ws, sym_a, sym_b, merged_id, w as int, x, y);
                }
            }
            subtract_windows(&mut self.pair_counts, &self.word_entries[w].tokens, count);
            proof {
                lemma_merge_mid_weight(old_ws, sym_a, sym_b, merged_id, w + 1);
                assert forall|x: u32, y: u32| #[trigger] lookup(self.pair_counts@, pair_key(x, y))
                    + (count as nat) * window_count(toks@, x, y) <= u64::MAX by {
                    lemma_merge_mid_step(old_ws, sym_a, sym_b, merged_id, w as int, x, y);
                    lemma_pair_freq_le_weight(merge_mid(old_ws, sym_a, sym_b, merged_id, w + 1), x, y);
                }
            }
            add_windows(&mut self.pair_counts, &toks, count);
            proof {
                assert forall|x: u32, y: u32| #[trigger] lookup(self.pair_counts@, pair_key(x, y))
                    == pair_freq(merge_mid(old_ws, sym_a, sym_b, merged_id, w + 1), x, y) by {
                    lemma_merge_mid_step(old_ws, sym_a, sym_b, merged_id, w as int, x, y);
                }
            }
            let ghost before = new_entries@;
            new_entries.push(WordEntry { count, tokens: toks });
            proof {
                assert(entries_view(new_entries@) =~= entries_view(before).push((count, toks@)));
                assert(merge_words(old_ws, sym_a, sym_b, merged_id).take(w + 1) =~= merge_words(old_ws, sym_a, sym_b, merged_id).take(w as int).push((count, toks@)));
            }
            w += 1;
        }
        self.word_entries = new_entries;
        proof {
            let nw = merge_words(old_ws, sym_a, sym_b, merged_id);
            assert(nw.take(w as int) =~= nw);
            assert(merge_mid(old_ws, sym_a, sym_b, merged_id, w as int) =~= nw);
            assert(self.entries() == nw);
            lemma_weight_merge(old_ws, sym_a, sym_b, merged_id);
            assert forall|v: int, i: int| 0 <= v < nw.len() && 0 <= i < nw[v].1.len()
                implies #[trigger] nw[v].1[i] < syms.len() by {
                lemma_merge_pass_bounded(old_ws[v].1, sym_a, sym_b, merged_id, syms.len());
            }
        }
        Ok(merged_id)
    }

    /// The most frequent adjacent pair and its frequency, ties going to the
    /// smallest pair of ids; `None` when no pair occurs. Frequencies come
    /// from the kept pair table.
    pub fn find_best_pair(&self) -> (r: Option<(u64, (u32, u32))>)
        requires
            self.wf(),
        ensures
            r == best_pair(self.entries()),
            r matches Some((f, (a, b))) ==> a < self.syms().len() && b < self.syms().len(),
    {
        let counts = &self.pair_counts;
        let ghost ws = self.entries();
        let mut best_f: u64 = 0;
        let mut best_a: u32 = 0;
        let mut best_b: u32 = 0;
        let mut w: usize = 0;
        while w < self.word_entries.len()
            invariant
                w <= ws.len(),
                ws == self.entries(),
                forall|x: u32, y: u32| #[trigger] lookup(counts@, pair_key(x, y)) == pair_freq(ws, x, y),
                best_f > 0 ==> pair_freq(ws, best_a, best_b) == best_f,
                best_f > 0 ==> best_a < self.syms().len() && best_b < self.syms().len(),
                self.wf(),
                forall|v: int, i: int| 0 <= v < w && 0 <= i && i + 1 < ws[v].1.len()
                    ==> dominated(ws, best_f, best_a, best_b, #[trigger] ws[v].1[i], ws[v].1[i + 1]),
            decreases ws.len() - w,
        {
            let toks = &self.word_entries[w].tokens;
            let ghost t = ws[w as int].1;
            proof {
                assert(toks@ == t);
            }
            let mut i: usize = 0;
            while i < toks.len() && i + 1 < toks.len()
                invariant
                    w < ws.len(),
                    ws == self.entries(),
                    t == ws[w as int].1,
                    toks@ == t,
                    i <= t.len(),
                    forall|x: u32, y: u32| #[trigger] lookup(counts@, pair_key(x, y)) == pair_freq(ws, x, y),
                    best_f > 0 ==> pair_freq(ws, best_a, best_b) == best_f,
                    best_f > 0 ==> best_a < self.syms().len() && best_b < self.syms().len(),
                    self.wf(),
                    forall|v: int, j: int| 0 <= v < w && 0 <= j && j + 1 < ws[v].1.len()
                        ==> dominated(ws, best_f, best_a, best_b, #[trigger] ws[v].1[j], ws[v].1[j + 1]),
                    forall|j: int| 0 <= j < i && j + 1 < t.len()
                        ==> dominated(ws, best_f, best_a, best_b, #[trigger] t[j], t[j + 1]),
                decreases t.len() - i,
            {
                let x = toks[i];
                let y = toks[i + 1];
                let k = x as u64 * 0x1_0000_0000 + y as u64;
                let f: u64 = match counts.get(&k) {
                    Some(v) => *v,
                    None => 0,
                };
                proof {
                    assert(lookup(counts@, pair_key(x, y)) == f);
                    assert(ws[w as int].1[i as int] < self.syms().len());
                    assert(ws[w as int].1[i + 1] < self.syms().len());
                }
                if f > best_f || (f == best_f && f > 0 && (x < best_a || (x == best_a && y < best_b))) {
                    best_f = f;
                    best_a = x;
                    best_b = y;
                }
                i += 1;
            }
            proof {
                assert forall|v: int, j: int| 0 <= v < w + 1 && 0 <= j && j + 1 < ws[v].1.len()
                    implies dominated(ws, best_f, best_a, best_b, #[trigger] ws[v].1[j], ws[v].1[j + 1]) by {
                    if v == w {
                        assert(ws[v].1[j] == t[j]);
                    }
                }
            }
            w += 1;
        }
        if best_f == 0 {
            proof {
                assert forall|f: u64, a: u32, b: u32| !is_best_pair(ws, f, a, b) by {
                    if is_best_pair(ws, f, a, b) {
                        let wi = lemma_pair_exists(ws, a, b);
                        assert(dominated(ws, best_f, best_a, best_b, ws[wi.0].1[wi.1], ws[wi.0].1[wi.1 + 1]));
                    }
                }
            }
            None
        } else {
            proof {
                assert forall|x: u32, y: u32| #[trigger] pair_freq(ws, x, y) <= best_f && (pair_freq(ws, x, y)
                    == best_f ==> pair_before(best_a, best_b, x, y)) by {
                    if pair_freq(ws, x, y) > 0 {
                        let wi = lemma_pair_exists(ws, x, y);
                        assert(dominated(ws, best_f, best_a, best_b, ws[wi.0].1[wi.1], ws[wi.0].1[wi.1 + 1]));
                    }
                }
                assert(is_best_pair(ws, best_f, best_a, best_b));
                lemma_best_pair_unique(ws, best_f, best_a, best_b);
            }
            Some((best_f, (best_a, best_b)))
        }
    }
}

proof fn lemma_flatten_prefix(types: Seq<(Seq<Seq<char>>, u64)>, n: int)
    requires
        0 <= n <= types.len(),
    ensures
        flatten_syms(types.take(n)).len() <= flatten_syms(types).len(),
        flatten_syms(types).take(flatten_syms(types.take(n)).len() as int) == flatten_syms(types.take(n)),
    decreases types.len(),
{
    if n < types.len() {
        assert(types.drop_last().take(n) =~= types.take(n));
        lemma_flatten_prefix(types.drop_last(), n);
        let p = flatten_syms(types.drop_last());
        let q = flatten_syms(types.take(n));
        assert(flatten_syms(types).take(q.len() as int) =~= p.take(q.len() as int));
    } else {
        assert(types.take(n) =~= types);
        assert(flatten_syms(types).take(flatten_syms(types).len() as int) =~= flatten_syms(types));
    }
}

proof fn lemma_weight_bound(ws: Seq<(u64, Seq<u32>)>, w: int)
    requires
        0 <= w < ws.len(),
    ensures
        (ws[w].0 as nat) * ws[w].1.len() <= weight(ws),
    decreases ws.len(),
{
    if w < ws.len() - 1 {
        lemma_weight_bound(ws.drop_last(), w);
    }
}

} // verus!
