//! Byte-pair encoding (BPE) vocabularies over morpheme-segmented text.
//!
//! Every morpheme is split into characters, the last one carrying the
//! end-of-word marker `</w>`. Training repeatedly merges the most frequent
//! adjacent pair of symbols (ties to the smallest pair of symbol ids) until
//! the vocabulary budget is spent or no pair is frequent enough; encoding
//! applies the learned merges in order, each greedily from left to right.

use vstd::prelude::*;
use vstd::hash_map::StringHashMap;
use vstd::string::StringExecFns;
use crate::scan::{words, word_bounds};
use crate::text::{chars_of, join2, string_of_range, strings_view, text_eq};
use crate::bpe_state::{
    best_pair, dedup, initial_model, merge_model, types_view, weight, BpeModel, BpeState,
};
use crate::error::Word2VecError;
use crate::vocab_ids::{assign_ids, lemma_dedup_len_bound, number_symbols, sort_distinct, sorted_of};

verus! {

/// One BPE merge rule: the pair `(left, right)` is collapsed into `merged`.
#[derive(Debug, Clone)]
pub struct BpeMerge {
    /// Left symbol of the merge pair.
    pub left: String,
    /// Right symbol of the merge pair.
    pub right: String,
    /// The merged symbol (equals `left + right`).
    pub merged: String,
    /// Pair frequency at the time this merge was selected.
    pub freq: u64,
}

/// Trained BPE vocabulary: ordered merge rules plus a symbol-to-ID map.
pub struct BpeVocab {
    /// Merge rules in application order (first rule applied first during encoding).
    pub merges: Vec<BpeMerge>,
    /// Symbol → integer ID mapping (special tokens, base chars, merged tokens).
    pub vocab: StringHashMap<u32>,
}

/// The end-of-word marker `</w>`.
pub open spec fn end_marker() -> Seq<char> {
    seq!['<', '/', 'w', '>']
}

/// The symbols of one morpheme: its characters, the last with `</w>`.
pub open spec fn morpheme_symbols(m: Seq<char>) -> Seq<Seq<char>> {
    Seq::new(m.len(), |i: int| if i == m.len() - 1 { seq![m[i]] + end_marker() } else { seq![m[i]] })
}

/// The symbols of a sequence of morphemes, one after another.
pub open spec fn symbols_of(ms: Seq<Seq<char>>) -> Seq<Seq<char>>
    decreases ms.len(),
{
    if ms.len() == 0 {
        Seq::empty()
    } else {
        symbols_of(ms.drop_last()) + morpheme_symbols(ms.last())
    }
}

/// One greedy left-to-right pass replacing each non-overlapping
/// `(l, r)` by `m`.
pub open spec fn merge_pass<T>(ts: Seq<T>, l: T, r: T, m: T) -> Seq<T>
    decreases ts.len(),
{
    if ts.len() == 0 {
        ts
    } else if ts.len() >= 2 && ts[0] == l && ts[1] == r {
        seq![m] + merge_pass(ts.skip(2), l, r, m)
    } else {
        seq![ts[0]] + merge_pass(ts.drop_first(), l, r, m)
    }
}

/// The view of a merge rule: left, right, merged.
pub open spec fn rule_view(m: BpeMerge) -> (Seq<char>, Seq<char>, Seq<char>) {
    (m.left@, m.right@, m.merged@)
}

/// The symbols after applying `rules` in order.
pub open spec fn apply_rules(ts: Seq<Seq<char>>, rules: Seq<(Seq<char>, Seq<char>, Seq<char>)>) -> Seq<Seq<char>>
    decreases rules.len(),
{
    if rules.len() == 0 {
        ts
    } else {
        let r = rules.last();
        merge_pass(apply_rules(ts, rules.drop_last()), r.0, r.1, r.2)
    }
}

/// What encoding `text` with `rules` gives.
pub open spec fn encoding(text: Seq<char>, rules: Seq<(Seq<char>, Seq<char>, Seq<char>)>) -> Seq<Seq<char>> {
    apply_rules(symbols_of(words(text)), rules)
}

/// The symbols of the morpheme `cs[lo..hi]`, appended to `out`.
fn push_morpheme_symbols(out: &mut Vec<String>, cs: &[char], lo: usize, hi: usize)
    requires
        lo <= hi <= cs@.len(),
    ensures
        strings_view(final(out)@) == strings_view(old(out)@) + morpheme_symbols(cs@.subrange(lo as int, hi as int)),
{
    let ghost m = cs@.subrange(lo as int, hi as int);
    let mut i: usize = lo;
    while i < hi
        invariant
            lo <= i <= hi,
            hi <= cs@.len(),
            m == cs@.subrange(lo as int, hi as int),
            strings_view(out@) == strings_view(old(out)@) + morpheme_symbols(m).take(i - lo),
        decreases hi - i,
    {
        let ghost before = out@;
        let mut s = string_of_range(cs, i, i + 1);
        if i + 1 == hi {
            s.append("</w>");
            proof {
                reveal_strlit("</w>");
            }
        }
        out.push(s);
        proof {
            assert(strings_view(out@) =~= strings_view(before).push(s@));
            assert(cs@.subrange(i as int, i + 1) =~= seq![m[i - lo]]);
            assert(morpheme_symbols(m).take(i - lo + 1) =~= morpheme_symbols(m).take(i - lo).push(morpheme_symbols(m)[i - lo]));
            if i + 1 == hi {
                assert("</w>"@ =~= end_marker());
            }
        }
        i += 1;
    }
    proof {
        assert(morpheme_symbols(m).take(hi - lo) =~= morpheme_symbols(m));
    }
}

/// One greedy pass of a merge rule over string symbols.
fn merge_strings(ts: &Vec<String>, l: &String, r: &String, m: &String) -> (out: Vec<String>)
    ensures
        strings_view(out@) == merge_pass(strings_view(ts@), l@, r@, m@),
{
    let ghost v = strings_view(ts@);
    let mut out: Vec<String> = Vec::new();
    let mut i: usize = 0;
    proof {
        assert(v.skip(0) =~= v);
        assert(strings_view(out@) + merge_pass(v.skip(0), l@, r@, m@) =~= merge_pass(v, l@, r@, m@));
    }
    while i < ts.len()
        invariant
            i <= ts@.len(),
            v == strings_view(ts@),
            strings_view(out@) + merge_pass(v.skip(i as int), l@, r@, m@) == merge_pass(v, l@, r@, m@),
        decreases ts@.len() - i,
    {
        let ghost t = v.skip(i as int);
        let ghost before = out@;
        if i + 1 < ts.len() && text_eq(ts[i].as_str(), l.as_str()) && text_eq(ts[i + 1].as_str(), r.as_str()) {
            out.push(m.clone());
            proof {
                assert(t[0] == v[i as int] && t[1] == v[i + 1]);
                assert(t.skip(2) =~= v.skip(i + 2));
                assert(strings_view(out@) =~= strings_view(before).push(m@));
            }
            i += 2;
        } else {
            out.push(ts[i].clone());
            proof {
                assert(t[0] == v[i as int]);
                if i + 1 < ts@.len() {
                    assert(t[1] == v[i + 1]);
                }
                assert(t.drop_first() =~= v.skip(i + 1));
                assert(strings_view(out@) =~= strings_view(before).push(v[i as int]));
            }
            i += 1;
        }
    }
    proof {
        assert(v.skip(i as int) =~= Seq::<Seq<char>>::empty());
    }
    out
}

/// All morphemes of `lines`, line after line.
pub open spec fn corpus_morphemes(lines: Seq<Seq<char>>) -> Seq<Seq<char>>
    decreases lines.len(),
{
    if lines.len() == 0 {
        Seq::empty()
    } else {
        corpus_morphemes(lines.drop_last()) + words(lines.last())
    }
}

/// How often `m` occurs in `ms`.
pub open spec fn occurrences(ms: Seq<Seq<char>>, m: Seq<char>) -> nat
    decreases ms.len(),
{
    if ms.len() == 0 {
        0
    } else {
        occurrences(ms.drop_last(), m) + if ms.last() == m { 1nat } else { 0nat }
    }
}

/// Every distinct morpheme occurs at most `u64::MAX` times.
pub open spec fn counts_fit(lines: Seq<Seq<char>>) -> bool {
    forall|m: Seq<char>| #[trigger] occurrences(corpus_morphemes(lines), m) <= u64::MAX
}

/// The word types of a corpus, in order of first occurrence: each distinct
/// morpheme as its symbols, with its number of occurrences.
pub open spec fn word_types(lines: Seq<Seq<char>>) -> Seq<(Seq<Seq<char>>, u64)> {
    let ms = corpus_morphemes(lines);
    dedup(ms).map_values(|m: Seq<char>| (morpheme_symbols(m), occurrences(ms, m) as u64))
}

/// The morphemes are distinct and `m` maps each of them to its position.
spec fn indexed(d: Seq<Seq<char>>, m: Map<Seq<char>, usize>) -> bool {
    &&& forall|i: int, j: int| 0 <= i < j < d.len() ==> d[i] != d[j]
    &&& forall|s: Seq<char>| #[trigger] m.contains_key(s) <==> d.contains(s)
    &&& forall|s: Seq<char>| #[trigger] m.contains_key(s) ==> m[s] < d.len() && d[m[s] as int] == s
}

proof fn lemma_occurrences_prefix(ms: Seq<Seq<char>>, n: int, m: Seq<char>)
    requires
        0 <= n <= ms.len(),
    ensures
        occurrences(ms.take(n), m) <= occurrences(ms, m),
    decreases ms.len(),
{
    if n < ms.len() {
        assert(ms.drop_last().take(n) =~= ms.take(n));
        lemma_occurrences_prefix(ms.drop_last(), n, m);
    } else {
        assert(ms.take(n) =~= ms);
    }
}

proof fn lemma_occurrences_absent(ms: Seq<Seq<char>>, m: Seq<char>)
    requires
        !ms.contains(m),
    ensures
        occurrences(ms, m) == 0,
    decreases ms.len(),
{
    if ms.len() > 0 {
        assert(!ms.drop_last().contains(m)) by {
            if ms.drop_last().contains(m) {
                let k = choose|k: int| 0 <= k < ms.drop_last().len() && ms.drop_last()[k] == m;
                assert(ms[k] == m);
            }
        }
        lemma_occurrences_absent(ms.drop_last(), m);
        assert(ms.last() != m) by {
            if ms.last() == m {
                assert(ms[ms.len() - 1] == m);
            }
        }
    }
}

proof fn lemma_dedup_contains(s: Seq<Seq<char>>, x: Seq<char>)
    ensures
        dedup(s).contains(x) <==> s.contains(x),
    decreases s.len(),
{
    if s.len() > 0 {
        lemma_dedup_contains(s.drop_last(), x);
        let p = dedup(s.drop_last());
        if s.drop_last().contains(x) {
            let k = choose|k: int| 0 <= k < s.drop_last().len() && s.drop_last()[k] == x;
            assert(s[k] == x);
        }
        if s.contains(x) {
            let k = choose|k: int| 0 <= k < s.len() && s[k] == x;
            if k < s.len() - 1 {
                assert(s.drop_last()[k] == x);
            }
        }
        if p.contains(x) && !p.contains(s.last()) {
            let k = choose|k: int| 0 <= k < p.len() && p[k] == x;
            assert(p.push(s.last())[k] == x);
        }
        if !p.contains(s.last()) && x == s.last() {
            assert(p.push(s.last())[p.len() as int] == x);
        }
        if !p.contains(s.last()) && p.push(s.last()).contains(x) && x != s.last() {
            let k = choose|k: int| 0 <= k < p.len() + 1 && p.push(s.last())[k] == x;
            assert(p[k] == x);
        }
    }
}

proof fn lemma_corpus_prefix(ls: Seq<Seq<char>>, li: int, k: int)
    requires
        0 <= li < ls.len(),
        0 <= k <= words(ls[li]).len(),
    ensures
        (corpus_morphemes(ls.take(li)) + words(ls[li]).take(k)).len() <= corpus_morphemes(ls).len(),
        corpus_morphemes(ls).take((corpus_morphemes(ls.take(li)) + words(ls[li]).take(k)).len() as int)
            == corpus_morphemes(ls.take(li)) + words(ls[li]).take(k),
    decreases ls.len(),
{
    let q = corpus_morphemes(ls.take(li)) + words(ls[li]).take(k);
    let full = corpus_morphemes(ls.take(li + 1));
    assert(ls.take(li + 1).drop_last() =~= ls.take(li));
    assert(full == corpus_morphemes(ls.take(li)) + words(ls[li]));
    assert(full.take(q.len() as int) =~= q);
    if li + 1 < ls.len() {
        lemma_corpus_prefix_lines(ls, li + 1);
    } else {
        assert(ls.take(li + 1) =~= ls);
    }
    let all = corpus_morphemes(ls);
    assert(all.take(full.len() as int) == full);
    assert(all.take(q.len() as int) =~= full.take(q.len() as int));
}

proof fn lemma_corpus_prefix_lines(ls: Seq<Seq<char>>, n: int)
    requires
        0 <= n <= ls.len(),
    ensures
        corpus_morphemes(ls.take(n)).len() <= corpus_morphemes(ls).len(),
        corpus_morphemes(ls).take(corpus_morphemes(ls.take(n)).len() as int) == corpus_morphemes(ls.take(n)),
    decreases ls.len(),
{
    if n < ls.len() {
        assert(ls.drop_last().take(n) =~= ls.take(n));
        lemma_corpus_prefix_lines(ls.drop_last(), n);
        let p = corpus_morphemes(ls.drop_last());
        let q = corpus_morphemes(ls.take(n));
        assert(corpus_morphemes(ls).take(q.len() as int) =~= p.take(q.len() as int));
    } else {
        assert(ls.take(n) =~= ls);
        assert(corpus_morphemes(ls).take(corpus_morphemes(ls).len() as int) =~= corpus_morphemes(ls));
    }
}

/// The symbols of morpheme `cs[lo..hi]`, as strings.
fn morpheme_to_char_tokens(cs: &[char], lo: usize, hi: usize) -> (r: Vec<String>)
    requires
        lo <= hi <= cs@.len(),
    ensures
        strings_view(r@) == morpheme_symbols(cs@.subrange(lo as int, hi as int)),
{
    let mut r: Vec<String> = Vec::new();
    push_morpheme_symbols(&mut r, cs, lo, hi);
    proof {
        assert(strings_view(Seq::<String>::empty()) =~= Seq::<Seq<char>>::empty());
    }
    r
}

/// The word types of `lines`, in order of first occurrence; `None` when a
/// count does not fit in `u64`.
fn build_word_freqs(lines: &Vec<String>) -> (r: Option<Vec<(Vec<String>, u64)>>)
    ensures
        match r {
            Some(v) => counts_fit(strings_view(lines@)) && types_view(v@) == word_types(strings_view(lines@)),
            None => !counts_fit(strings_view(lines@)),
        },
{
    let ghost ls = strings_view(lines@);
    let ghost all = corpus_morphemes(ls);
    let mut index: StringHashMap<usize> = StringHashMap::new();
    let mut morphs: Vec<String> = Vec::new();
    let mut counts: Vec<u64> = Vec::new();
    let mut li: usize = 0;
    proof {
        assert(ls.take(0) =~= Seq::<Seq<char>>::empty());
        assert(strings_view(morphs@) =~= Seq::<Seq<char>>::empty());
    }
    while li < lines.len()
        invariant
            li <= ls.len(),
            ls == strings_view(lines@),
            all == corpus_morphemes(ls),
            indexed(strings_view(morphs@), index@),
            strings_view(morphs@) == dedup(corpus_morphemes(ls.take(li as int))),
            counts@.len() == morphs@.len(),
            forall|i: int| 0 <= i < counts@.len() ==> #[trigger] counts@[i] == occurrences(corpus_morphemes(ls.take(li as int)), strings_view(morphs@)[i]),
        decreases ls.len() - li,
    {
        let cs = chars_of(lines[li].as_str());
        let wb = word_bounds(cs.as_slice(), 0, cs.len());
        let ghost line = ls[li as int];
        let ghost pre = corpus_morphemes(ls.take(li as int));
        let ghost ws = words(line);
        proof {
            assert(cs@.subrange(0, cs@.len() as int) =~= line);
            assert(ls.take(li + 1).drop_last() =~= ls.take(li as int));
            assert(corpus_morphemes(ls.take(li + 1)) == pre + ws);
            assert(pre + ws.take(0) =~= pre);
        }
        let mut k: usize = 0;
        while k < wb.len()
            invariant
                li < ls.len(),
                ls == strings_view(lines@),
                all == corpus_morphemes(ls),
                line == ls[li as int],
                cs@ == line,
                ws == words(line),
                pre == corpus_morphemes(ls.take(li as int)),
                corpus_morphemes(ls.take(li + 1)) == pre + ws,
                k <= wb@.len(),
                wb@.len() == ws.len(),
                forall|j: int| 0 <= j < wb@.len() ==> (#[trigger] wb@[j]).0 <= wb@[j].1 <= cs@.len()
                    && cs@.subrange(wb@[j].0 as int, wb@[j].1 as int) == ws[j],
                indexed(strings_view(morphs@), index@),
                strings_view(morphs@) == dedup(pre + ws.take(k as int)),
                counts@.len() == morphs@.len(),
                forall|i: int| 0 <= i < counts@.len() ==> #[trigger] counts@[i] == occurrences(pre + ws.take(k as int), strings_view(morphs@)[i]),
            decreases wb@.len() - k,
        {
            let (lo, hi) = wb[k];
            let m = string_of_range(cs.as_slice(), lo, hi);
            let ghost cur = pre + ws.take(k as int);
            let ghost nxt = pre + ws.take(k + 1);
            let ghost d = strings_view(morphs@);
            proof {
                assert(nxt.drop_last() =~= cur);
                assert(nxt.last() == m@);
                lemma_corpus_prefix(ls, li as int, k as int + 1);
            }
            match index.get(m.as_str()) {
                Some(i) => {
                    let i = *i;
                    if counts[i] == u64::MAX {
                        proof {
                            let t = d[i as int];
                            assert(t == m@);
                            assert(occurrences(nxt, t) == u64::MAX + 1);
                            lemma_occurrences_prefix(all, nxt.len() as int, t);
                            assert(all.take(nxt.len() as int) == nxt);
                            assert(occurrences(all, t) > u64::MAX);
                        }
                        return None;
                    }
                    let c = counts[i];
                    counts.set(i, c + 1);
                    proof {
                        assert(d.contains(m@));
                        lemma_dedup_contains(cur, m@);
                        assert(dedup(nxt) == d);
                        assert forall|j: int| 0 <= j < counts@.len() implies #[trigger] counts@[j] == occurrences(nxt, strings_view(morphs@)[j]) by {
                            if j != i {
                                assert(d[j] != d[i as int]);
                            }
                        }
                    }
                },
                None => {
                    proof {
                        assert(!d.contains(m@));
                        lemma_dedup_contains(cur, m@);
                        lemma_occurrences_absent(cur, m@);
                    }
                    let pos = morphs.len();
                    let ghost old_index = index@;
                    index.insert(m.clone(), pos);
                    morphs.push(m);
                    counts.push(1);
                    proof {
                        let d2 = strings_view(morphs@);
                        assert(d2 =~= d.push(m@));
                        assert(dedup(nxt) == d2);
                        assert forall|x: Seq<char>| #[trigger] index@.contains_key(x) <==> d2.contains(x) by {
                            if x == m@ {
                                assert(d2[d.len() as int] == x);
                            } else {
                                assert(index@.contains_key(x) == old_index.contains_key(x));
                                if d2.contains(x) {
                                    let q = choose|q: int| 0 <= q < d2.len() && d2[q] == x;
                                    assert(d[q] == x);
                                }
                                if d.contains(x) {
                                    let q = choose|q: int| 0 <= q < d.len() && d[q] == x;
                                    assert(d2[q] == x);
                                }
                            }
                        }
                        assert forall|j: int| 0 <= j < counts@.len() implies #[trigger] counts@[j] == occurrences(nxt, d2[j]) by {
                            if j < d.len() {
                                assert(d2[j] == d[j]);
                                assert(d[j] != m@);
                            }
                        }
                    }
                },
            }
            k += 1;
        }
        proof {
            assert(ws.take(k as int) =~= ws);
        }
        li += 1;
    }
    proof {
        assert(ls.take(li as int) =~= ls);
    }
    let mut out: Vec<(Vec<String>, u64)> = Vec::new();
    let mut i: usize = 0;
    while i < morphs.len()
        invariant
            i <= morphs@.len(),
            counts@.len() == morphs@.len(),
            strings_view(morphs@) == dedup(all),
            all == corpus_morphemes(ls),
            forall|j: int| 0 <= j < counts@.len() ==> #[trigger] counts@[j] == occurrences(all, strings_view(morphs@)[j]),
            types_view(out@) == word_types(ls).take(i as int),
        decreases morphs@.len() - i,
    {
        let cs = chars_of(morphs[i].as_str());
        let toks = morpheme_to_char_tokens(cs.as_slice(), 0, cs.len());
        proof {
            assert(cs@.subrange(0, cs@.len() as int) =~= strings_view(morphs@)[i as int]);
        }
        let ghost before = out@;
        out.push((toks, counts[i]));
        proof {
            assert(types_view(out@) =~= types_view(before).push((strings_view(toks@), counts@[i as int])));
            assert(word_types(ls).take(i + 1) =~= word_types(ls).take(i as int).push(word_types(ls)[i as int]));
        }
        i += 1;
    }
    proof {
        assert(word_types(ls).take(i as int) =~= word_types(ls));
        assert forall|m: Seq<char>| #[trigger] occurrences(all, m) <= u64::MAX by {
            lemma_dedup_contains(all, m);
            if all.contains(m) {
                let d = strings_view(morphs@);
                let q = choose|q: int| 0 <= q < d.len() && d[q] == m;
                assert(counts@[q] == occurrences(all, m));
            } else {
                lemma_occurrences_absent(all, m);
            }
        }
    }
    Some(out)
}

/// A merge rule as (left, right, merged, frequency).
pub open spec fn merge_view(m: BpeMerge) -> (Seq<char>, Seq<char>, Seq<char>, u64) {
    (m.left@, m.right@, m.merged@, m.freq)
}

/// The view of a list of merge rules.
pub open spec fn merges_view(v: Seq<BpeMerge>) -> Seq<(Seq<char>, Seq<char>, Seq<char>, u64)> {
    v.map_values(|m: BpeMerge| merge_view(m))
}

/// The merges training performs from `st` with `remaining` merges left in
/// its budget: while symbol ids remain, merge the best pair as long as it
/// is at least `min_freq` frequent.
pub open spec fn run_merges(st: BpeModel, remaining: nat, min_freq: u64) -> Seq<(Seq<char>, Seq<char>, Seq<char>, u64)>
    decreases remaining,
{
    if remaining == 0 || st.syms.len() >= u32::MAX {
        Seq::empty()
    } else {
        match best_pair(st.words) {
            None => Seq::empty(),
            Some((f, (a, b))) => if f < min_freq {
                Seq::empty()
            } else {
                let merged = st.syms[a as int] + st.syms[b as int];
                seq![(st.syms[a as int], st.syms[b as int], merged, f)] + run_merges(
                    merge_model(st, a, b, merged),
                    (remaining - 1) as nat,
                    min_freq,
                )
            },
        }
    }
}

/// The state training starts from.
pub open spec fn training_start(lines: Seq<Seq<char>>, specials: Seq<Seq<char>>) -> BpeModel {
    initial_model(word_types(lines), specials)
}

/// Counts, symbol ids and the total weight of the corpus fit their types.
pub open spec fn training_fits(lines: Seq<Seq<char>>, specials: Seq<Seq<char>>) -> bool {
    &&& counts_fit(lines)
    &&& training_start(lines, specials).syms.len() <= u32::MAX
    &&& weight(training_start(lines, specials).words) <= u64::MAX
}

/// How many merges the target size leaves room for: the target minus the
/// base symbols (the special tokens are among them), or zero. Each merge
/// adds at most one symbol, so the vocabulary never passes the target.
pub open spec fn merge_budget(target: nat, n_base: nat) -> nat {
    if target > n_base {
        (target - n_base) as nat
    } else {
        0
    }
}

/// The merges that training on `lines` performs.
pub open spec fn trained_merges(target: nat, min_freq: u64, lines: Seq<Seq<char>>, specials: Seq<Seq<char>>) -> Seq<
    (Seq<char>, Seq<char>, Seq<char>, u64),
> {
    let st = training_start(lines, specials);
    run_merges(st, merge_budget(target, st.syms.len()), min_freq)
}

/// The merged symbols of a list of merges.
pub open spec fn merged_symbols(ms: Seq<(Seq<char>, Seq<char>, Seq<char>, u64)>) -> Seq<Seq<char>> {
    ms.map_values(|m: (Seq<char>, Seq<char>, Seq<char>, u64)| m.2)
}

/// The vocabulary training on `lines` builds: special tokens first, then
/// the base symbols in increasing order, then the merged symbols in merge
/// order, each distinct symbol numbered as it first appears.
pub open spec fn trained_vocab(target: nat, min_freq: u64, lines: Seq<Seq<char>>, specials: Seq<Seq<char>>) -> Map<
    Seq<char>,
    u32,
> {
    let st = training_start(lines, specials);
    assign_ids(specials + sorted_of(st.syms) + merged_symbols(trained_merges(target, min_freq, lines, specials)))
}

/// BPE vocabulary trainer.
pub struct BpeTrainer {
    /// Desired vocabulary size (number of symbols after training).
    target_vocab_size: usize,
    /// Minimum pair frequency for a merge.
    min_frequency: u64,
    /// Special tokens placed before the base symbols.
    special_tokens: Vec<String>,
}

impl BpeTrainer {
    /// The target vocabulary size.
    pub closed spec fn target(&self) -> usize {
        self.target_vocab_size
    }

    /// The minimum pair frequency for a merge.
    pub closed spec fn min_freq(&self) -> u64 {
        self.min_frequency
    }

    /// The special tokens.
    pub closed spec fn specials(&self) -> Seq<Seq<char>> {
        strings_view(self.special_tokens@)
    }

    /// A trainer targeting `target_vocab_size` symbols, with minimum pair
    /// frequency 2 and the special tokens `[UNK]`, `[BOS]`, `[EOS]`.
    pub fn new(target_vocab_size: usize) -> (r: Self)
        ensures
            r.target() == target_vocab_size,
            r.min_freq() == 2,
            r.specials() == seq!["[UNK]"@, "[BOS]"@, "[EOS]"@],
    {
        let special_tokens = vec![
            String::from_str("[UNK]"),
            String::from_str("[BOS]"),
            String::from_str("[EOS]"),
        ];
        let r = BpeTrainer { target_vocab_size, min_frequency: 2, special_tokens };
        proof {
            assert(r.specials() =~= seq!["[UNK]"@, "[BOS]"@, "[EOS]"@]);
        }
        r
    }

    /// Override the minimum pair frequency required to perform a merge.
    pub fn with_min_frequency(self, freq: u64) -> (r: Self)
        ensures
            r.target() == self.target(),
            r.min_freq() == freq,
            r.specials() == self.specials(),
    {
        let mut t = self;
        t.min_frequency = freq;
        t
    }

    /// Replace the default special-token list.
    pub fn with_special_tokens(self, tokens: Vec<String>) -> (r: Self)
        ensures
            r.target() == self.target(),
            r.min_freq() == self.min_freq(),
            r.specials() == strings_view(tokens@),
    {
        let mut t = self;
        t.special_tokens = tokens;
        t
    }

    /// Number the vocabulary: special tokens first, then the base symbols
    /// in increasing order, then the merged symbols in merge order; a symbol
    /// already numbered keeps its id. All of them are symbols of `table`.
    fn build_vocab_map(&self, merges: &Vec<BpeMerge>, base_syms: &Vec<String>, Ghost(table): Ghost<Seq<Seq<char>>>) -> (r: StringHashMap<u32>)
        requires
            forall|i: int, j: int| 0 <= i < j < base_syms@.len() ==> base_syms@[i]@ != base_syms@[j]@,
            forall|i: int, j: int| 0 <= i < j < table.len() ==> table[i] != table[j],
            table.len() <= u32::MAX,
            forall|k: int| 0 <= k < self.specials().len() ==> table.contains(#[trigger] self.specials()[k]),
            forall|k: int| 0 <= k < base_syms@.len() ==> table.contains(#[trigger] strings_view(base_syms@)[k]),
            forall|k: int| 0 <= k < merges@.len() ==> table.contains(#[trigger] merges_view(merges@)[k].2),
        ensures
            r@ == assign_ids(self.specials() + sorted_of(strings_view(base_syms@)) + merged_symbols(merges_view(merges@))),
            forall|x: Seq<char>| #[trigger] r@.contains_key(x) <==> (self.specials().contains(x) || strings_view(base_syms@).contains(x)
                || merged_symbols(merges_view(merges@)).contains(x)),
            forall|x: Seq<char>, y: Seq<char>| #[trigger] r@.contains_key(x) && #[trigger] r@.contains_key(y) && x != y
                ==> r@[x] != r@[y],
    {
        let ghost specials = self.specials();
        let ghost base = strings_view(base_syms@);
        let sorted = sort_distinct(&base_syms);
        let mut order: Vec<String> = Vec::new();
        let mut j: usize = 0;
        while j < self.special_tokens.len()
            invariant
                j <= specials.len(),
                specials == strings_view(self.special_tokens@),
                strings_view(order@) == specials.take(j as int),
            decreases specials.len() - j,
        {
            let ghost before = order@;
            let c = self.special_tokens[j].clone();
            order.push(c);
            proof {
                assert(order@ == before.push(c));
                assert(strings_view(order@) =~= strings_view(before).push(c@));
                assert(strings_view(order@) =~= specials.take(j + 1));
            }
            j += 1;
        }
        let mut j: usize = 0;
        proof {
            assert(specials.take(specials.len() as int) =~= specials);
            assert(strings_view(order@) =~= specials + strings_view(sorted@).take(0));
        }
        while j < sorted.len()
            invariant
                j <= sorted@.len(),
                strings_view(order@) == specials + strings_view(sorted@).take(j as int),
            decreases sorted@.len() - j,
        {
            let ghost before = order@;
            let c = sorted[j].clone();
            order.push(c);
            proof {
                assert(order@ == before.push(c));
                assert(strings_view(order@) =~= strings_view(before).push(c@));
                assert(strings_view(order@) =~= specials + strings_view(sorted@).take(j + 1));
            }
            j += 1;
        }
        let ghost prefix = specials + strings_view(sorted@);
        let mut j: usize = 0;
        proof {
            assert(strings_view(sorted@).take(sorted@.len() as int) =~= strings_view(sorted@));
            assert(strings_view(order@) =~= prefix + merged_symbols(merges_view(merges@)).take(0));
        }
        while j < merges.len()
            invariant
                j <= merges@.len(),
                strings_view(order@) == prefix + merged_symbols(merges_view(merges@)).take(j as int),
            decreases merges@.len() - j,
        {
            let ghost before = order@;
            let c = merges[j].merged.clone();
            order.push(c);
            proof {
                assert(order@ == before.push(c));
                assert(strings_view(order@) =~= strings_view(before).push(c@));
                assert(strings_view(order@) =~= prefix + merged_symbols(merges_view(merges@)).take(j + 1));
            }
            j += 1;
        }
        proof {
            let ms = merged_symbols(merges_view(merges@));
            assert(ms.take(merges@.len() as int) =~= ms);
            let o = strings_view(order@);
            assert forall|k: int| 0 <= k < o.len() implies table.contains(#[trigger] o[k]) by {
                if k < specials.len() {
                    assert(o[k] == specials[k]);
                } else if k < prefix.len() {
                    let x = o[k];
                    assert(strings_view(sorted@).contains(x)) by {
                        assert(strings_view(sorted@)[k - specials.len()] == x);
                    }
                    assert(crate::vocab_ids::is_sorted_of(sorted_of(base), base));
                    assert(base.contains(x));
                    let q = choose|q: int| 0 <= q < base.len() && base[q] == x;
                    assert(table.contains(base[q]));
                } else {
                    let i = k - prefix.len();
                    assert(o[k] == merges_view(merges@)[i].2);
                }
            }
            lemma_dedup_len_bound(o, table);
        }
        let vocab = number_symbols(&order);
        proof {
            let o = strings_view(order@);
            let srt = strings_view(sorted@);
            let ms = merged_symbols(merges_view(merges@));
            assert forall|x: Seq<char>| #[trigger] vocab@.contains_key(x) <==> (specials.contains(x) || base.contains(x)
                || ms.contains(x)) by {
                lemma_dedup_contains(o, x);
                if o.contains(x) {
                    let k = choose|k: int| 0 <= k < o.len() && o[k] == x;
                    if k < specials.len() {
                        assert(specials[k] == x);
                    } else if k < prefix.len() {
                        assert(srt[k - specials.len()] == x);
                        assert(srt.contains(x));
                    } else {
                        assert(ms[k - prefix.len()] == x);
                    }
                }
                if specials.contains(x) {
                    let k = choose|k: int| 0 <= k < specials.len() && specials[k] == x;
                    assert(o[k] == x);
                }
                if base.contains(x) {
                    assert(srt.contains(x));
                    let k = choose|k: int| 0 <= k < srt.len() && srt[k] == x;
                    assert(o[specials.len() + k] == x);
                }
                if ms.contains(x) {
                    let k = choose|k: int| 0 <= k < ms.len() && ms[k] == x;
                    assert(o[prefix.len() + k] == x);
                }
            }
        }
        vocab
    }

    /// Train BPE on corpus lines, each a space-separated sequence of
    /// morpheme surfaces. Fails only when counts, symbol ids or the total
    /// weight of the corpus do not fit their types.
    pub fn train(&self, lines: &Vec<String>) -> (r: Result<BpeVocab, Word2VecError>)
        ensures
            match r {
                Ok(v) => training_fits(strings_view(lines@), self.specials())
                    && merges_view(v.merges@) == trained_merges(self.target() as nat, self.min_freq(), strings_view(lines@), self.specials())
                    && v.vocab@ == trained_vocab(self.target() as nat, self.min_freq(), strings_view(lines@), self.specials())
                    && (forall|x: Seq<char>| #[trigger] v.vocab@.contains_key(x) <==> (self.specials().contains(x)
                        || training_start(strings_view(lines@), self.specials()).syms.contains(x)
                        || merged_symbols(merges_view(v.merges@)).contains(x)))
                    && (forall|x: Seq<char>, y: Seq<char>| #[trigger] v.vocab@.contains_key(x) && #[trigger] v.vocab@.contains_key(y)
                        && x != y ==> v.vocab@[x] != v.vocab@[y]),
                Err(_) => !training_fits(strings_view(lines@), self.specials()),
            },
    {
        let ghost ls = strings_view(lines@);
        let ghost specials = self.specials();
        let word_freqs = match build_word_freqs(lines) {
            Some(w) => w,
            None => {
                return Err(Word2VecError::Training(String::from_str("word counts overflow 64 bits")));
            },
        };
        let mut state = match BpeState::new(&word_freqs, &self.special_tokens) {
            Ok(st) => st,
            Err(e) => {
                return Err(e);
            },
        };
        let ghost start = state.model();
        proof {
            assert(start == training_start(ls, specials));
        }
        let initial_vocab_size = state.num_base_symbols();
        let budget: usize = if self.target_vocab_size > initial_vocab_size {
            self.target_vocab_size - initial_vocab_size
        } else {
            0
        };
        proof {
            assert(budget == merge_budget(self.target() as nat, start.syms.len()));
        }
        let ghost total = run_merges(start, budget as nat, self.min_frequency);
        let mut merges: Vec<BpeMerge> = Vec::new();
        proof {
            assert(merges_view(merges@) + run_merges(start, budget as nat, self.min_frequency) =~= total);
            assert(start.syms.take(start.syms.len() as int) =~= start.syms);
        }
        loop
            invariant_except_break
                merges@.len() <= budget,
            invariant
                state.wf(),
                state.syms().len() >= start.syms.len(),
                state.syms().take(start.syms.len() as int) == start.syms,
                state.base_sym_count == start.syms.len(),
                merges@.len() <= budget,
                merges_view(merges@) + run_merges(state.model(), (budget - merges@.len()) as nat, self.min_frequency) == total,
                forall|i: int| 0 <= i < merges@.len() ==> state.syms().contains(#[trigger] merges@[i].merged@),
            ensures
                merges_view(merges@) == total,
                state.wf(),
                state.syms().take(start.syms.len() as int) == start.syms,
                state.base_sym_count == start.syms.len(),
                forall|i: int| 0 <= i < merges@.len() ==> state.syms().contains(#[trigger] merges@[i].merged@),
            decreases budget - merges@.len(),
        {
            let ghost st = state.model();
            let ghost rem = (budget - merges@.len()) as nat;
            if merges.len() >= budget || state.sym_table.len() >= u32::MAX as usize {
                proof {
                    assert(run_merges(st, rem, self.min_frequency) =~= Seq::<(Seq<char>, Seq<char>, Seq<char>, u64)>::empty());
                    assert(merges_view(merges@) + run_merges(st, rem, self.min_frequency) =~= merges_view(merges@));
                }
                break;
            }
            match state.find_best_pair() {
                None => {
                    proof {
                        assert(merges_view(merges@) + run_merges(st, rem, self.min_frequency) =~= merges_view(merges@));
                    }
                    break;
                },
                Some((freq, pair)) => {
                    if freq < self.min_frequency {
                        proof {
                            assert(merges_view(merges@) + run_merges(st, rem, self.min_frequency) =~= merges_view(merges@));
                        }
                        break;
                    }
                    let sym_a = state.sym_table[pair.0 as usize].clone();
                    let sym_b = state.sym_table[pair.1 as usize].clone();
                    let merged = join2(sym_a.as_str(), sym_b.as_str());
                    let ghost old_syms = state.syms();
                    let ghost old_merges = merges@;
                    proof {
                        assert(sym_a@ == st.syms[pair.0 as int]);
                        assert(sym_b@ == st.syms[pair.1 as int]);
                    }
                    let _ = state.apply_merge(pair, merged.as_str());
                    let m = BpeMerge { left: sym_a, right: sym_b, merged, freq };
                    let ghost mv = merge_view(m);
                    merges.push(m);
                    proof {
                        let new_syms = state.syms();
                        assert(new_syms.take(start.syms.len() as int) =~= start.syms) by {
                            assert forall|i: int| 0 <= i < start.syms.len() implies new_syms[i] == start.syms[i] by {
                                assert(old_syms.take(start.syms.len() as int)[i] == start.syms[i]);
                            }
                        }
                        assert(merges_view(merges@) =~= merges_view(old_merges).push(mv));
                        assert(run_merges(st, rem, self.min_frequency) == seq![mv] + run_merges(state.model(), (rem - 1) as nat, self.min_frequency));
                        assert(merges_view(merges@) + run_merges(state.model(), (budget - merges@.len()) as nat, self.min_frequency)
                            =~= merges_view(old_merges) + run_merges(st, rem, self.min_frequency));
                        assert forall|i: int| 0 <= i < merges@.len() implies new_syms.contains(#[trigger] merges@[i].merged@) by {
                            if i < old_merges.len() {
                                assert(merges@[i] == old_merges[i]);
                                assert(old_syms.contains(old_merges[i].merged@));
                                let k = choose|k: int| 0 <= k < old_syms.len() && old_syms[k] == old_merges[i].merged@;
                                assert(new_syms[k] == old_syms[k]);
                            } else {
                                let (ns, id) = crate::bpe_state::intern_model(old_syms, mv.2);
                                assert(new_syms == ns);
                                if old_syms.contains(mv.2) {
                                    let k = choose|k: int| 0 <= k < old_syms.len() && old_syms[k] == mv.2;
                                    assert(new_syms[k] == mv.2);
                                } else {
                                    assert(new_syms[old_syms.len() as int] == mv.2);
                                }
                            }
                        }
                    }
                },
            }
        }
        let ghost syms = state.syms();
        let ghost base = start.syms;
        let mut base_syms: Vec<String> = Vec::new();
        let mut i: usize = 0;
        while i < state.base_sym_count
            invariant
                i <= state.base_sym_count,
                state.base_sym_count == base.len(),
                syms == state.syms(),
                syms.len() >= base.len(),
                state.sym_table@.len() == syms.len(),
                syms.take(base.len() as int) == base,
                strings_view(base_syms@) == base.take(i as int),
            decreases state.base_sym_count - i,
        {
            let ghost before = base_syms@;
            let c = state.sym_table[i].clone();
            base_syms.push(c);
            proof {
                assert(c@ == syms[i as int]);
                assert(syms.take(base.len() as int)[i as int] == syms[i as int]);
                assert(base_syms@ == before.push(c));
                assert(strings_view(base_syms@) =~= strings_view(before).push(c@));
                assert(strings_view(base_syms@) =~= base.take(i + 1));
            }
            i += 1;
        }
        proof {
            assert(strings_view(base_syms@) =~= base);
            assert forall|i: int, j: int| 0 <= i < j < base_syms@.len() implies base_syms@[i]@ != base_syms@[j]@ by {
                assert(strings_view(base_syms@)[i] == base_syms@[i]@);
                assert(strings_view(base_syms@)[j] == base_syms@[j]@);
                assert(base[i] == syms[i]);
                assert(base[j] == syms[j]);
            }
        }
        proof {
            assert forall|k: int| 0 <= k < specials.len() implies syms.contains(#[trigger] specials[k]) by {
                lemma_specials_in_start(ls, specials, k);
                let q = choose|q: int| 0 <= q < base.len() && base[q] == specials[k];
                assert(syms[q] == base[q]);
            }
            assert forall|k: int| 0 <= k < base.len() implies syms.contains(#[trigger] base[k]) by {
                assert(syms[k] == base[k]);
            }
            assert forall|k: int| 0 <= k < merges@.len() implies syms.contains(#[trigger] merges_view(merges@)[k].2) by {
                assert(merges_view(merges@)[k].2 == merges@[k].merged@);
            }
        }
        let vocab = self.build_vocab_map(&merges, &base_syms, Ghost(syms));
        Ok(BpeVocab { merges, vocab })
    }
}

proof fn lemma_specials_in_start(ls: Seq<Seq<char>>, specials: Seq<Seq<char>>, k: int)
    requires
        0 <= k < specials.len(),
    ensures
        training_start(ls, specials).syms.contains(specials[k]),
{
    let all = specials + crate::bpe_state::flatten_syms(word_types(ls));
    assert(all[k] == specials[k]);
    lemma_dedup_contains(all, specials[k]);
}

/// The characters of a sequence of symbols, one symbol after another.
pub open spec fn concat(ts: Seq<Seq<char>>) -> Seq<char>
    decreases ts.len(),
{
    if ts.len() == 0 {
        Seq::empty()
    } else {
        ts[0] + concat(ts.drop_first())
    }
}

proof fn lemma_merge_pass_concat(ts: Seq<Seq<char>>, l: Seq<char>, r: Seq<char>, m: Seq<char>)
    requires
        m == l + r,
    ensures
        concat(merge_pass(ts, l, r, m)) == concat(ts),
        merge_pass(ts, l, r, m).len() <= ts.len(),
    decreases ts.len(),
{
    if ts.len() > 0 {
        if ts.len() >= 2 && ts[0] == l && ts[1] == r {
            lemma_merge_pass_concat(ts.skip(2), l, r, m);
            assert(ts.drop_first().drop_first() =~= ts.skip(2));
            let p = merge_pass(ts, l, r, m);
            assert(p.drop_first() =~= merge_pass(ts.skip(2), l, r, m));
            assert(ts.drop_first()[0] == ts[1]);
            assert(concat(ts.drop_first()) == ts[1] + concat(ts.drop_first().drop_first()));
            assert(concat(ts) == ts[0] + (ts[1] + concat(ts.skip(2))));
            assert(ts[0] + (ts[1] + concat(ts.skip(2))) =~= (ts[0] + ts[1]) + concat(ts.skip(2)));
        } else {
            lemma_merge_pass_concat(ts.drop_first(), l, r, m);
            let p = merge_pass(ts, l, r, m);
            assert(p.drop_first() =~= merge_pass(ts.drop_first(), l, r, m));
        }
    }
}

proof fn lemma_apply_rules_concat(ts: Seq<Seq<char>>, rules: Seq<(Seq<char>, Seq<char>, Seq<char>)>)
    requires
        forall|i: int| 0 <= i < rules.len() ==> (#[trigger] rules[i]).2 == rules[i].0 + rules[i].1,
    ensures
        concat(apply_rules(ts, rules)) == concat(ts),
        apply_rules(ts, rules).len() <= ts.len(),
    decreases rules.len(),
{
    if rules.len() > 0 {
        let r = rules.last();
        assert(r == rules[rules.len() - 1]);
        lemma_apply_rules_concat(ts, rules.drop_last());
        lemma_merge_pass_concat(apply_rules(ts, rules.drop_last()), r.0, r.1, r.2);
    }
}

/// Encoding only regroups characters: when every merged symbol is the
/// concatenation of its pair, the encoded symbols spell the same
/// characters as the unmerged symbols (each morpheme followed by `</w>`),
/// and there are no more of them.
pub proof fn law_encoding_preserves_text(text: Seq<char>, rules: Seq<(Seq<char>, Seq<char>, Seq<char>)>)
    requires
        forall|i: int| 0 <= i < rules.len() ==> (#[trigger] rules[i]).2 == rules[i].0 + rules[i].1,
    ensures
        concat(encoding(text, rules)) == concat(symbols_of(words(text))),
        encoding(text, rules).len() <= symbols_of(words(text)).len(),
{
    lemma_apply_rules_concat(symbols_of(words(text)), rules);
}

proof fn lemma_run_merges_shape(st: BpeModel, remaining: nat, min_freq: u64)
    ensures
        run_merges(st, remaining, min_freq).len() <= remaining,
        forall|i: int| 0 <= i < run_merges(st, remaining, min_freq).len() ==> {
            let m = #[trigger] run_merges(st, remaining, min_freq)[i];
            &&& m.2 == m.0 + m.1
            &&& m.3 >= min_freq
            &&& m.3 > 0
        },
    decreases remaining,
{
    if remaining > 0 && st.syms.len() < u32::MAX {
        match best_pair(st.words) {
            None => {},
            Some((f, (a, b))) => {
                if f >= min_freq {
                    let merged = st.syms[a as int] + st.syms[b as int];
                    let rest = run_merges(merge_model(st, a, b, merged), (remaining - 1) as nat, min_freq);
                    lemma_run_merges_shape(merge_model(st, a, b, merged), (remaining - 1) as nat, min_freq);
                    let all = run_merges(st, remaining, min_freq);
                    assert forall|i: int| 0 <= i < all.len() implies {
                        let m = #[trigger] all[i];
                        &&& m.2 == m.0 + m.1
                        &&& m.3 >= min_freq
                        &&& m.3 > 0
                    } by {
                        if i > 0 {
                            assert(all[i] == rest[i - 1]);
                        } else {
                            let ch = choose|f2: u64, a2: u32, b2: u32| crate::bpe_state::is_best_pair(st.words, f2, a2, b2);
                            assert(crate::bpe_state::is_best_pair(st.words, ch.0, ch.1, ch.2));
                        }
                    }
                }
            },
        }
    }
}

/// Training's merges: each merged symbol is the concatenation of its pair,
/// each was at least `min_freq` (and at least once) frequent when chosen,
/// and there are no more of them than the budget allows.
pub proof fn law_trained_merges_shape(target: nat, min_freq: u64, lines: Seq<Seq<char>>, specials: Seq<Seq<char>>)
    ensures
        trained_merges(target, min_freq, lines, specials).len() <= merge_budget(
            target,
            training_start(lines, specials).syms.len(),
        ),
        forall|i: int| 0 <= i < trained_merges(target, min_freq, lines, specials).len() ==> {
            let m = #[trigger] trained_merges(target, min_freq, lines, specials)[i];
            &&& m.2 == m.0 + m.1
            &&& m.3 >= min_freq
            &&& m.3 > 0
        },
{
    let st = training_start(lines, specials);
    lemma_run_merges_shape(st, merge_budget(target, st.syms.len()), min_freq);
}

/// When no adjacent pair of the corpus is `min_freq` frequent, for
/// instance when `min_freq` exceeds the total number of symbols, training
/// performs no merge.
pub proof fn law_no_merge_below_min_frequency(target: nat, min_freq: u64, lines: Seq<Seq<char>>, specials: Seq<Seq<char>>)
    requires
        forall|a: u32, b: u32| crate::bpe_state::pair_freq(training_start(lines, specials).words, a, b) < min_freq,
    ensures
        trained_merges(target, min_freq, lines, specials) == Seq::<(Seq<char>, Seq<char>, Seq<char>, u64)>::empty(),
{
    let st = training_start(lines, specials);
    if let Some((f, (a, b))) = best_pair(st.words) {
        let ch = choose|f2: u64, a2: u32, b2: u32| crate::bpe_state::is_best_pair(st.words, f2, a2, b2);
        assert(crate::bpe_state::is_best_pair(st.words, ch.0, ch.1, ch.2));
        assert(crate::bpe_state::pair_freq(st.words, ch.1, ch.2) < min_freq);
    }
}

impl BpeVocab {
    /// The merge rules as (left, right, merged).
    pub open spec fn rules(&self) -> Seq<(Seq<char>, Seq<char>, Seq<char>)> {
        self.merges@.map_values(|m: BpeMerge| rule_view(m))
    }

    /// Encode `text` (space-separated morpheme surfaces): split every
    /// morpheme into characters with `</w>` on the last, then apply each
    /// merge rule in order, greedily from left to right.
    pub fn encode(&self, text: &str) -> (r: Vec<String>)
        ensures
            strings_view(r@) == encoding(text@, self.rules()),
    {
        let cs = chars_of(text);
        let wb = word_bounds(cs.as_slice(), 0, cs.len());
        let ghost ws = words(text@);
        proof {
            assert(cs@.subrange(0, cs@.len() as int) =~= text@);
        }
        let mut tokens: Vec<String> = Vec::new();
        let mut k: usize = 0;
        proof {
            assert(ws.take(0) =~= Seq::<Seq<char>>::empty());
            assert(strings_view(tokens@) =~= Seq::<Seq<char>>::empty());
        }
        while k < wb.len()
            invariant
                k <= wb@.len(),
                wb@.len() == ws.len(),
                ws == words(text@),
                forall|j: int| 0 <= j < wb@.len() ==> (#[trigger] wb@[j]).0 <= wb@[j].1 <= cs@.len()
                    && cs@.subrange(wb@[j].0 as int, wb@[j].1 as int) == ws[j],
                strings_view(tokens@) == symbols_of(ws.take(k as int)),
            decreases wb@.len() - k,
        {
            push_morpheme_symbols(&mut tokens, cs.as_slice(), wb[k].0, wb[k].1);
            proof {
                assert(ws.take(k + 1).drop_last() =~= ws.take(k as int));
                assert(ws.take(k + 1).last() == ws[k as int]);
            }
            k += 1;
        }
        proof {
            assert(ws.take(k as int) =~= ws);
        }
        if tokens.len() == 0 {
            proof {
                assert(symbols_of(ws) =~= Seq::<Seq<char>>::empty());
                lemma_apply_rules_empty(self.rules());
            }
            return tokens;
        }
        let mut j: usize = 0;
        let ghost rules = self.rules();
        proof {
            assert(rules.take(0) =~= Seq::<(Seq<char>, Seq<char>, Seq<char>)>::empty());
        }
        while j < self.merges.len()
            invariant
                j <= self.merges@.len(),
                rules == self.rules(),
                strings_view(tokens@) == apply_rules(symbols_of(ws), rules.take(j as int)),
            decreases self.merges@.len() - j,
        {
            let m = &self.merges[j];
            tokens = merge_strings(&tokens, &m.left, &m.right, &m.merged);
            proof {
                assert(rules.take(j + 1).drop_last() =~= rules.take(j as int));
                assert(rules.take(j + 1).last() == rule_view(*m));
            }
            j += 1;
        }
        proof {
            assert(rules.take(j as int) =~= rules);
        }
        tokens
    }
}

proof fn lemma_apply_rules_empty(rules: Seq<(Seq<char>, Seq<char>, Seq<char>)>)
    ensures
        apply_rules(Seq::empty(), rules) == Seq::<Seq<char>>::empty(),
    decreases rules.len(),
{
    if rules.len() > 0 {
        lemma_apply_rules_empty(rules.drop_last());
    }
}

} // verus!
