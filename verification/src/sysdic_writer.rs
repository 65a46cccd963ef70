//! `sys.dic` / `unk.dic` image writer.
//!
//! Layout: a 72-byte header (ten `u32` fields and a 32-byte NUL-padded
//! charset name), the double array (`i32 base`, `u32 check` per slot), the
//! token table (16 bytes per token) and the NUL-terminated feature strings.
//!
//! Entries are grouped by surface bytes in sorted order; a group keeps at
//! most 255 tokens, and its double-array value is `token_start << 8 | count`.

use vstd::prelude::*;
use vstd::utf8::encode_utf8;
use vstd::string::StringSliceAdditionalSpecFns;
use vstd::hash_map::StringHashMap;
use vstd::string::StringExecFns;
use crate::error::BuildError;
use crate::char_writer::name_field;
use crate::double_array::{DaUnit, da_lookup, build_double_array, fits_base_range, INITIAL_UNITS};
use crate::le_bytes::{le_u16, le_i16, le_u32, le_i32, push_u16_le, push_i16_le, push_u32_le, push_i32_le, from_le4, lemma_le_u32_roundtrip, from_le2, lemma_le_u16_roundtrip, lemma_le_i16_roundtrip};
use crate::lex::{stable_key_order, is_stable_key_order, key_index_le, lex_lt, lemma_lex_irreflexive, lemma_lex_transitive, compare_bytes};
use crate::trie::{TrieBuilder, NOT_TERMINAL};

verus! {

/// Magic number XOR-ed with the file size in the first header field.
pub const DICTIONARY_MAGIC_ID: u32 = 0xef71_8f77;
/// Format version.
pub const DIC_VERSION: u32 = 102;
/// Size of the fixed header.
pub const HEADER_SIZE: usize = 72;
/// Header `dict_type` of a system dictionary.
pub const SYS_DIC_TYPE: u32 = 0;
/// Header `dict_type` of an unknown-word dictionary.
pub const UNK_DIC_TYPE: u32 = 2;
/// Most tokens one surface keeps.
pub const MAX_GROUP_TOKENS: usize = 255;

/// A single dictionary entry.
#[derive(Debug, Clone)]
pub struct DicEntry {
    /// Surface form (the word as it appears in text)
    pub surface: String,
    /// Left context attribute
    pub left_id: u16,
    /// Right context attribute
    pub right_id: u16,
    /// Part-of-speech ID (0 if not applicable)
    pub pos_id: u16,
    /// Word cost
    pub wcost: i16,
    /// Feature string
    pub feature: String,
}

/// Statistics of a written dictionary image.
#[derive(Debug, Default)]
pub struct WriteSysDicStats {
    pub lexicon_size: u32,
    pub token_count: usize,
    pub da_units: usize,
    pub feature_bytes: usize,
    pub file_size: usize,
}

/// The UTF-8 surface bytes of every entry.
pub open spec fn keys_of(entries: Seq<DicEntry>) -> Seq<Seq<u8>> {
    entries.map_values(|e: DicEntry| encode_utf8(e.surface@))
}

/// The sum of a sequence of weights.
pub open spec fn seq_total(ws: Seq<nat>) -> nat
    decreases ws.len(),
{
    if ws.len() == 0 {
        0
    } else {
        seq_total(ws.drop_last()) + ws.last()
    }
}

/// The sum of the weights at the indices `s`.
pub open spec fn weights_over(ws: Seq<nat>, s: Seq<usize>) -> nat
    decreases s.len(),
{
    if s.len() == 0 {
        0
    } else {
        weights_over(ws, s.drop_last()) + ws[s.last() as int]
    }
}

/// The byte length of each entry's surface.
pub open spec fn key_weights(entries: Seq<DicEntry>) -> Seq<nat> {
    entries.map_values(|e: DicEntry| encode_utf8(e.surface@).len())
}

/// The byte length of each entry's feature with its terminating NUL.
pub open spec fn feature_weights(entries: Seq<DicEntry>) -> Seq<nat> {
    entries.map_values(|e: DicEntry| encode_utf8(e.feature@).len() + 1)
}

proof fn lemma_weights_concat(ws: Seq<nat>, s1: Seq<usize>, s2: Seq<usize>)
    ensures
        weights_over(ws, s1 + s2) == weights_over(ws, s1) + weights_over(ws, s2),
    decreases s2.len(),
{
    if s2.len() == 0 {
        assert(s1 + s2 =~= s1);
    } else {
        lemma_weights_concat(ws, s1, s2.drop_last());
        assert((s1 + s2).drop_last() =~= s1 + s2.drop_last());
    }
}

proof fn lemma_weights_prefix(ws: Seq<nat>, s: Seq<usize>, i: int)
    requires
        0 <= i <= s.len(),
    ensures
        weights_over(ws, s.take(i)) <= weights_over(ws, s),
{
    lemma_weights_concat(ws, s.take(i), s.skip(i));
    assert(s.take(i) + s.skip(i) =~= s);
}

proof fn lemma_weights_remove(ws: Seq<nat>, s: Seq<usize>, k: int)
    requires
        0 <= k < s.len(),
    ensures
        weights_over(ws, s) == weights_over(ws, s.remove(k)) + ws[s[k] as int],
    decreases s.len(),
{
    if k == s.len() - 1 {
        assert(s.remove(k) =~= s.drop_last());
    } else {
        lemma_weights_remove(ws, s.drop_last(), k);
        assert(s.remove(k).drop_last() =~= s.drop_last().remove(k));
        assert(s.remove(k).last() == s.last());
    }
}

proof fn lemma_weights_permutation(ws: Seq<nat>, s1: Seq<usize>, s2: Seq<usize>)
    requires
        s1.to_multiset() == s2.to_multiset(),
    ensures
        weights_over(ws, s1) == weights_over(ws, s2),
    decreases s1.len(),
{
    broadcast use vstd::seq_lib::group_to_multiset_ensures;
    if s1.len() == 0 {
        assert(s2.to_multiset().len() == 0);
    } else {
        let x = s1.last();
        let s1p = s1.drop_last();
        assert(s1p.push(x) =~= s1);
        assert(s1.to_multiset() == s1p.to_multiset().insert(x));
        assert(s2.to_multiset().count(x) > 0);
        assert(s2.contains(x));
        let k = choose|k: int| 0 <= k < s2.len() && s2[k] == x;
        assert(s2.remove(k).to_multiset() =~= s1p.to_multiset());
        lemma_weights_permutation(ws, s1p, s2.remove(k));
        lemma_weights_remove(ws, s2, k);
    }
}

proof fn lemma_weights_range(ws: Seq<nat>, n: int)
    requires
        0 <= n <= ws.len(),
        n <= usize::MAX,
    ensures
        weights_over(ws, Seq::new(n as nat, |i: int| i as usize)) == seq_total(ws.take(n)),
    decreases n,
{
    if n > 0 {
        lemma_weights_range(ws, n - 1);
        assert(Seq::new(n as nat, |i: int| i as usize).drop_last() =~= Seq::new((n - 1) as nat, |i: int| i as usize));
        assert(ws.take(n).drop_last() =~= ws.take(n - 1));
    }
}

/// The weights of an order of all entries sum to the weights of the entries.
proof fn lemma_order_total(ws: Seq<nat>, keys: Seq<Seq<u8>>, order: Seq<usize>)
    requires
        is_stable_key_order(keys, order),
        ws.len() == keys.len(),
        keys.len() <= usize::MAX,
    ensures
        weights_over(ws, order) == seq_total(ws),
{
    reveal(is_stable_key_order);
    lemma_weights_permutation(ws, order, Seq::new(keys.len(), |i: int| i as usize));
    lemma_weights_range(ws, ws.len() as int);
    assert(ws.take(ws.len() as int) =~= ws);
}

/// The feature section of some features is no longer than their bytes with
/// a NUL each.
proof fn lemma_feature_section_len(entries: Seq<DicEntry>, toks: Seq<usize>)
    requires
        forall|k: int| 0 <= k < toks.len() ==> toks[k] < entries.len(),
    ensures
        feature_section(token_features(entries, toks)).0.len() <= weights_over(feature_weights(entries), toks),
    decreases toks.len(),
{
    if toks.len() > 0 {
        lemma_feature_section_len(entries, toks.drop_last());
        assert(token_features(entries, toks).drop_last() =~= token_features(entries, toks.drop_last()));
        assert(token_features(entries, toks).last() == entries[toks.last() as int].feature@);
    }
}

/// The runs `[start, end)` of equal keys along `order`.
pub open spec fn runs(keys: Seq<Seq<u8>>, order: Seq<usize>) -> Seq<(int, int)>
    decreases order.len(),
{
    if order.len() == 0 {
        Seq::empty()
    } else {
        let prev = runs(keys, order.drop_last());
        let t = order.len() - 1;
        if t > 0 && keys[order[t] as int] == keys[order[t - 1] as int] {
            prev.update(prev.len() - 1, (prev.last().0, t + 1))
        } else {
            prev.push((t, t + 1))
        }
    }
}

/// Number of tokens a run of `len` entries keeps.
pub open spec fn kept_count(len: int) -> int {
    if len < 255 { len } else { 255 }
}

/// Entry indices of the kept tokens of the runs `rs`, in token order.
pub open spec fn kept(order: Seq<usize>, rs: Seq<(int, int)>) -> Seq<usize>
    decreases rs.len(),
{
    if rs.len() == 0 {
        Seq::empty()
    } else {
        kept(order, rs.drop_last()) + order.subrange(rs.last().0, rs.last().0 + kept_count(rs.last().1 - rs.last().0))
    }
}

/// Double-array value of a surface: first token index above the token count.
#[verifier::opaque]
pub open spec fn group_value(token_start: int, count: int) -> i32 {
    (((token_start as u32) << 8u32) | (count as u32)) as i32
}

/// Feature section and offsets: each distinct feature once, in order of
/// first use, NUL-terminated.
pub open spec fn feature_section(feats: Seq<Seq<char>>) -> (Seq<u8>, Map<Seq<char>, u32>)
    decreases feats.len(),
{
    if feats.len() == 0 {
        (Seq::empty(), Map::empty())
    } else {
        let prev = feature_section(feats.drop_last());
        let f = feats.last();
        if prev.1.contains_key(f) {
            prev
        } else {
            (prev.0 + encode_utf8(f) + seq![0u8], prev.1.insert(f, prev.0.len() as u32))
        }
    }
}

/// The 16-byte token record of an entry.
pub open spec fn token_record(e: DicEntry, feature_offset: u32) -> Seq<u8> {
    le_u16(e.left_id) + le_u16(e.right_id) + le_u16(e.pos_id) + le_i16(e.wcost) + le_u32(feature_offset) + le_u32(0)
}

/// The token table.
pub open spec fn token_table(entries: Seq<DicEntry>, toks: Seq<usize>, offs: Map<Seq<char>, u32>) -> Seq<u8>
    decreases toks.len(),
{
    if toks.len() == 0 {
        Seq::empty()
    } else {
        token_table(entries, toks.drop_last(), offs) + token_record(entries[toks.last() as int], offs[entries[toks.last() as int].feature@])
    }
}

/// The double-array section.
pub open spec fn da_section(units: Seq<DaUnit>) -> Seq<u8>
    decreases units.len(),
{
    if units.len() == 0 {
        Seq::empty()
    } else {
        da_section(units.drop_last()) + le_i32(units.last().base) + le_u32(units.last().check)
    }
}

/// The features of the kept tokens, in token order.
pub open spec fn token_features(entries: Seq<DicEntry>, toks: Seq<usize>) -> Seq<Seq<char>> {
    toks.map_values(|i: usize| entries[i as int].feature@)
}

/// The 72-byte header.
pub open spec fn dic_header(
    total: int,
    dict_type: u32,
    lexicon_size: int,
    left_size: u32,
    right_size: u32,
    da_bytes: int,
    token_bytes: int,
    feature_bytes: int,
    charset: Seq<u8>,
) -> Seq<u8> {
    le_u32((total as u32) ^ DICTIONARY_MAGIC_ID) + le_u32(DIC_VERSION) + le_u32(dict_type) + le_u32(lexicon_size as u32)
        + le_u32(left_size) + le_u32(right_size) + le_u32(da_bytes as u32) + le_u32(token_bytes as u32)
        + le_u32(feature_bytes as u32) + le_u32(0) + name_field(charset)
}

/// The complete image for a given entry order and double array.
#[verifier::opaque]
pub open spec fn dic_image(entries: Seq<DicEntry>, order: Seq<usize>, units: Seq<DaUnit>, left_size: u32, right_size: u32, charset: Seq<u8>, dict_type: u32) -> Seq<u8> {
    let rs = runs(keys_of(entries), order);
    let toks = kept(order, rs);
    let fs = feature_section(token_features(entries, toks));
    let total = HEADER_SIZE + 8 * units.len() + 16 * toks.len() + fs.0.len();
    dic_header(total, dict_type, rs.len() as int, left_size, right_size, (8 * units.len()) as int, (16 * toks.len()) as int, fs.0.len() as int, charset)
        + da_section(units) + token_table(entries, toks, fs.1) + fs.0
}

/// The reader finds every surface with its group value (when that value is
/// non-negative), and finds nothing that is not a surface.
pub open spec fn groups_found(entries: Seq<DicEntry>, order: Seq<usize>, units: Seq<DaUnit>) -> bool {
    let keys = keys_of(entries);
    let rs = runs(keys, order);
    &&& forall|g: int| 0 <= g < rs.len() ==> {
        let v = group_value(kept(order, rs.take(g)).len() as int, kept_count((#[trigger] rs[g]).1 - rs[g].0));
        v >= 0 ==> da_lookup(units, keys[order[rs[g].0] as int]) == Some(v as int)
    }
    &&& forall|key: Seq<u8>| #[trigger] da_lookup(units, key) is Some ==> exists|g: int| 0 <= g < rs.len()
        && key == keys[order[(#[trigger] rs[g]).0] as int]
}


/// Extending the entry order by a complete run of equal keys adds that run.
pub proof fn lemma_runs_extend(keys: Seq<Seq<u8>>, order: Seq<usize>, a: int, b: int)
    requires
        0 <= a < b <= order.len(),
        a == 0 || keys[order[a] as int] != keys[order[a - 1] as int],
        forall|t: int| a <= t < b ==> keys[order[t] as int] == keys[order[a] as int],
    ensures
        runs(keys, order.take(b)) == runs(keys, order.take(a)).push((a, b)),
    decreases b - a,
{
    let tb = order.take(b);
    assert(tb.drop_last() =~= order.take(b - 1));
    if b == a + 1 {
        assert(tb[b - 1] == order[a]);
        if a > 0 {
            assert(tb[b - 2] == order[a - 1]);
        }
    } else {
        lemma_runs_extend(keys, order, a, b - 1);
        assert(tb[b - 1] == order[b - 1]);
        assert(tb[b - 2] == order[b - 2]);
        assert(runs(keys, tb) =~= runs(keys, order.take(a)).push((a, b)));
    }
}

/// Once a feature has an offset, later features do not change it.
pub proof fn lemma_feature_offset_stable(feats: Seq<Seq<char>>, t: int, f: Seq<char>)
    requires
        0 <= t <= feats.len(),
        feature_section(feats.take(t)).1.contains_key(f),
    ensures
        feature_section(feats).1.contains_key(f),
        feature_section(feats).1[f] == feature_section(feats.take(t)).1[f],
    decreases feats.len() - t,
{
    if t < feats.len() {
        assert(feats.take(t + 1).drop_last() =~= feats.take(t));
        lemma_feature_offset_stable(feats, t + 1, f);
    } else {
        assert(feats.take(t) =~= feats);
    }
}

/// A group value is never the trie's "no value" marker: its low byte is the
/// (non-zero) token count.
pub proof fn lemma_group_value_terminal(token_start: int, count: int)
    requires
        1 <= count <= 255,
    ensures
        group_value(token_start, count) != NOT_TERMINAL,
{
    reveal(group_value);
    let t = token_start as u32;
    let c = count as u32;
    assert(((t << 8u32) | c) as i32 != i32::MIN) by (bit_vector)
        requires 1 <= c <= 255;
}

/// The double-array value of a group of `count` tokens starting at token
/// `token_start`.
fn group_value_of(token_start: usize, count: usize) -> (v: i32)
    requires
        1 <= count <= 255,
    ensures
        v == group_value(token_start as int, count as int),
        v != NOT_TERMINAL,
{
    proof {
        reveal(group_value);
        lemma_group_value_terminal(token_start as int, count as int);
    }
    (((token_start as u32) << 8u32) | (count as u32)) as i32
}

/// The UTF-8 surface bytes of every entry.
fn surface_keys(entries: &[DicEntry]) -> (keys: Vec<Vec<u8>>)
    ensures
        keys@.len() == entries@.len(),
        keys@.map_values(|k: Vec<u8>| k@) == keys_of(entries@),
{
    let mut keys: Vec<Vec<u8>> = Vec::new();
    let mut i: usize = 0;
    while i < entries.len()
        invariant
            i <= entries@.len(),
            keys@.len() == i,
            forall|j: int| 0 <= j < i ==> keys@[j]@ == encode_utf8(entries@[j].surface@),
        decreases entries.len() - i,
    {
        let k = vstd::slice::slice_to_vec(entries[i].surface.as_str().as_bytes());
        keys.push(k);
        i += 1;
    }
    assert(keys@.map_values(|k: Vec<u8>| k@) =~= keys_of(entries@));
    keys
}

/// End of the run of equal keys that starts at `a`.
fn run_end(keys: &Vec<Vec<u8>>, order: &Vec<usize>, a: usize) -> (b: usize)
    requires
        a < order@.len(),
        forall|t: int| 0 <= t < order@.len() ==> order@[t] < keys@.len(),
    ensures
        a < b <= order@.len(),
        forall|t: int| a <= t < b ==> keys@[order@[t] as int]@ == keys@[order@[a as int] as int]@,
        b < order@.len() ==> keys@[order@[b as int] as int]@ != keys@[order@[a as int] as int]@,
{
    let n = order.len();
    let mut b: usize = a + 1;
    while b < n && compare_bytes(keys[order[b]].as_slice(), keys[order[a]].as_slice()) == 0
        invariant
            a < b <= order@.len(),
            n == order@.len(),
            forall|t: int| 0 <= t < order@.len() ==> order@[t] < keys@.len(),
            forall|t: int| a <= t < b ==> keys@[order@[t] as int]@ == keys@[order@[a as int] as int]@,
        decreases order@.len() - b,
    {
        b += 1;
    }
    b
}

/// Appends the 16-byte token record of `e`.
fn push_token(buf: &mut Vec<u8>, e: &DicEntry, feature_offset: u32)
    ensures
        final(buf)@ == old(buf)@ + token_record(*e, feature_offset),
{
    push_u16_le(buf, e.left_id);
    push_u16_le(buf, e.right_id);
    push_u16_le(buf, e.pos_id);
    push_i16_le(buf, e.wcost);
    push_u32_le(buf, feature_offset);
    push_u32_le(buf, 0);
    assert(buf@ =~= old(buf)@ + token_record(*e, feature_offset));
}

/// Appends the 32-byte NUL-padded charset field.
fn push_charset(buf: &mut Vec<u8>, charset: &str)
    ensures
        final(buf)@ == old(buf)@ + name_field(charset.spec_bytes()),
{
    let bytes = charset.as_bytes();
    let copy_len: usize = if bytes.len() < 31 { bytes.len() } else { 31 };
    let mut i: usize = 0;
    while i < 32
        invariant
            i <= 32,
            copy_len == (if bytes@.len() < 31 { bytes@.len() } else { 31 }),
            bytes@ == charset.spec_bytes(),
            buf@ == old(buf)@ + name_field(charset.spec_bytes()).take(i as int),
        decreases 32 - i,
    {
        let b: u8 = if i < copy_len { bytes[i] } else { 0 };
        assert(b == name_field(charset.spec_bytes())[i as int]);
        buf.push(b);
        i += 1;
        assert(buf@ =~= old(buf)@ + name_field(charset.spec_bytes()).take(i as int));
    }
    assert(name_field(charset.spec_bytes()).take(32) =~= name_field(charset.spec_bytes()));
}

/// The double-array section has eight bytes per unit.
pub proof fn lemma_da_section_len(units: Seq<DaUnit>)
    ensures
        da_section(units).len() == 8 * units.len(),
    decreases units.len(),
{
    if units.len() > 0 {
        lemma_da_section_len(units.drop_last());
    }
}

/// Replacing the offset map by one that agrees on the tokens' features leaves
/// the token table unchanged.
proof fn lemma_token_table_maps(entries: Seq<DicEntry>, toks: Seq<usize>, m1: Map<Seq<char>, u32>, m2: Map<Seq<char>, u32>)
    requires
        forall|k: int| 0 <= k < toks.len() ==> m1[#[trigger] entries[toks[k] as int].feature@] == m2[entries[toks[k] as int].feature@],
    ensures
        token_table(entries, toks, m1) == token_table(entries, toks, m2),
    decreases toks.len(),
{
    if toks.len() > 0 {
        let d = toks.drop_last();
        assert forall|k: int| 0 <= k < d.len() implies m1[#[trigger] entries[d[k] as int].feature@] == m2[entries[d[k] as int].feature@] by {
            assert(d[k] == toks[k]);
        }
        lemma_token_table_maps(entries, d, m1, m2);
        let k = toks.len() - 1;
        assert(m1[entries[toks[k] as int].feature@] == m2[entries[toks[k] as int].feature@]);
    }
}

/// Every feature seen so far has an offset.
proof fn lemma_feature_section_keys(feats: Seq<Seq<char>>)
    ensures
        forall|k: int| 0 <= k < feats.len() ==> feature_section(feats).1.contains_key(#[trigger] feats[k]),
    decreases feats.len(),
{
    if feats.len() > 0 {
        let d = feats.drop_last();
        lemma_feature_section_keys(d);
        assert forall|k: int| 0 <= k < feats.len() implies feature_section(feats).1.contains_key(#[trigger] feats[k]) by {
            if k < d.len() {
                assert(d[k] == feats[k]);
            }
        }
    }
}

/// A run start after the first has a key different from every earlier run
/// start, because the order is sorted.
proof fn lemma_earlier_run_key(keys: Seq<Seq<u8>>, order: Seq<usize>, s: int, a: int)
    requires
        is_stable_key_order(keys, order),
        0 <= s < a < order.len(),
        keys[order[a] as int] != keys[order[a - 1] as int],
    ensures
        keys[order[s] as int] != keys[order[a] as int],
{
    reveal(is_stable_key_order);
    let ks = keys[order[s] as int];
    let kp = keys[order[a - 1] as int];
    let ka = keys[order[a] as int];
    if ks == ka {
        assert(key_index_le(keys, order[a - 1] as int, order[a] as int));
        assert(lex_lt(kp, ka));
        if s < a - 1 {
            assert(key_index_le(keys, order[s] as int, order[a - 1] as int));
            if ks != kp {
                lemma_lex_transitive(ks, kp, ka);
                lemma_lex_irreflexive(ks);
            }
        }
    }
}

/// Appending a run appends its kept tokens.
proof fn lemma_kept_push(order: Seq<usize>, rs: Seq<(int, int)>, a: int, b: int)
    ensures
        kept(order, rs.push((a, b))) == kept(order, rs) + order.subrange(a, a + kept_count(b - a)),
{
    let rs2 = rs.push((a, b));
    assert(rs2.drop_last() =~= rs);
}

/// Registering the surface of a new run keeps every earlier surface's value
/// and gives the new one its group value.
proof fn lemma_group_registered(
    keys: Seq<Seq<u8>>,
    order: Seq<usize>,
    rs: Seq<(int, int)>,
    a: int,
    b: int,
    before: TrieBuilder,
    after: TrieBuilder,
)
    requires
        is_stable_key_order(keys, order),
        0 <= a < b <= order.len(),
        a == 0 || keys[order[a] as int] != keys[order[a - 1] as int],
        forall|g: int| 0 <= g < rs.len() ==> 0 <= (#[trigger] rs[g]).0 < rs[g].1 <= a,
        forall|g: int| 0 <= g < rs.len() ==> before.get(keys[order[(#[trigger] rs[g]).0] as int]) == Some(
            group_value(kept(order, rs.take(g)).len() as int, kept_count(rs[g].1 - rs[g].0))),
        after.get(keys[order[a] as int]) == Some(group_value(kept(order, rs).len() as int, kept_count(b - a))),
        forall|p: Seq<u8>| p != keys[order[a] as int] ==> after.get(p) == before.get(p),
    ensures
        forall|g: int| 0 <= g < rs.push((a, b)).len() ==> after.get(keys[order[(#[trigger] rs.push((a, b))[g]).0] as int]) == Some(
            group_value(kept(order, rs.push((a, b)).take(g)).len() as int, kept_count(rs.push((a, b))[g].1 - rs.push((a, b))[g].0))),
{
    let rs2 = rs.push((a, b));
    assert(rs2.take(rs.len() as int) =~= rs);
    assert forall|g: int| 0 <= g < rs2.len() implies after.get(keys[order[(#[trigger] rs2[g]).0] as int]) == Some(
        group_value(kept(order, rs2.take(g)).len() as int, kept_count(rs2[g].1 - rs2[g].0))) by {
        if g < rs.len() {
            assert(rs2.take(g) =~= rs.take(g));
            assert(rs2[g] == rs[g]);
            lemma_earlier_run_key(keys, order, rs[g].0, a);
        }
    }
}

/// What a successful build returns, for a given sorted order and double array.
#[verifier::opaque]
pub open spec fn sysdic_built(
    entries: Seq<DicEntry>,
    order: Seq<usize>,
    units: Seq<DaUnit>,
    left_size: u32,
    right_size: u32,
    charset: Seq<u8>,
    dict_type: u32,
    bytes: Seq<u8>,
    stats: WriteSysDicStats,
) -> bool {
    let rs = runs(keys_of(entries), order);
    let toks = kept(order, rs);
    let fs = feature_section(token_features(entries, toks));
    &&& is_stable_key_order(keys_of(entries), order)
    &&& bytes == dic_image(entries, order, units, left_size, right_size, charset, dict_type)
    &&& groups_found(entries, order, units)
    &&& stats.lexicon_size == rs.len()
    &&& stats.token_count == toks.len()
    &&& stats.da_units == units.len()
    &&& stats.feature_bytes == fs.0.len()
    &&& stats.file_size == bytes.len()
    &&& bytes.len() == HEADER_SIZE + 8 * units.len() + 16 * toks.len() + fs.0.len()
}

/// Appends the token records of `order[a..end]`, registering each feature
/// the first time it is used.
fn append_tokens(
    entries: &[DicEntry],
    order: &Vec<usize>,
    a: usize,
    end: usize,
    token_bytes: &mut Vec<u8>,
    feature_bytes: &mut Vec<u8>,
    offsets: &mut StringHashMap<u32>,
    Ghost(toks0): Ghost<Seq<usize>>,
)
    requires
        a <= end <= order@.len(),
        forall|t: int| 0 <= t < order@.len() ==> order@[t] < entries@.len(),
        forall|k: int| 0 <= k < toks0.len() ==> toks0[k] < entries@.len(),
        old(token_bytes)@ == token_table(entries@, toks0, old(offsets)@),
        old(token_bytes)@.len() == 16 * toks0.len(),
        old(feature_bytes)@ == feature_section(token_features(entries@, toks0)).0,
        old(offsets)@ == feature_section(token_features(entries@, toks0)).1,
    ensures
        ({
            let toks = toks0 + order@.subrange(a as int, end as int);
            &&& final(token_bytes)@ == token_table(entries@, toks, final(offsets)@)
            &&& final(token_bytes)@.len() == 16 * toks.len()
            &&& final(feature_bytes)@ == feature_section(token_features(entries@, toks)).0
            &&& final(offsets)@ == feature_section(token_features(entries@, toks)).1
        }),
{
    let ghost mut toks = toks0;
    let mut t: usize = a;
    proof {
        assert(toks0 + order@.subrange(a as int, a as int) =~= toks0);
    }
    while t < end
        invariant
            a <= t <= end,
            end <= order@.len(),
            forall|t2: int| 0 <= t2 < order@.len() ==> order@[t2] < entries@.len(),
            toks == toks0 + order@.subrange(a as int, t as int),
            forall|k: int| 0 <= k < toks.len() ==> toks[k] < entries@.len(),
            token_bytes@ == token_table(entries@, toks, offsets@),
            token_bytes@.len() == 16 * toks.len(),
            feature_bytes@ == feature_section(token_features(entries@, toks)).0,
            offsets@ == feature_section(token_features(entries@, toks)).1,
        decreases end - t,
    {
        let i = order[t];
        let e = &entries[i];
        let ghost f = e.feature@;
        let ghost fs_old = token_features(entries@, toks);
        let ghost toks_new = toks.push(i);
        proof {
            assert(token_features(entries@, toks_new) =~= fs_old.push(f));
            assert(fs_old.push(f).drop_last() =~= fs_old);
            lemma_feature_section_keys(fs_old);
        }
        let ghost off_old = offsets@;
        let off: u32 = match offsets.get(e.feature.as_str()) {
            Some(o) => *o,
            None => {
                let o = feature_bytes.len() as u32;
                offsets.insert(e.feature.clone(), o);
                let mut fb = vstd::slice::slice_to_vec(e.feature.as_str().as_bytes());
                feature_bytes.append(&mut fb);
                feature_bytes.push(0u8);
                o
            },
        };
        proof {
            assert forall|k: int| 0 <= k < toks.len() implies off_old[#[trigger] entries@[toks[k] as int].feature@] == offsets@[entries@[toks[k] as int].feature@] by {
                assert(fs_old[k] == entries@[toks[k] as int].feature@);
            }
            lemma_token_table_maps(entries@, toks, off_old, offsets@);
            assert(toks_new.drop_last() =~= toks);
            assert(offsets@[f] == off);
        }
        push_token(token_bytes, e, off);
        proof {
            toks = toks_new;
            assert(toks0 + order@.subrange(a as int, t + 1) =~= toks);
        }
        t += 1;
    }
}

/// What grouping the sorted entries produces: the trie of surfaces, the
/// token table, the feature section and its offsets.
#[verifier::opaque]
pub open spec fn grouped(
    entries: Seq<DicEntry>,
    order: Seq<usize>,
    trie: TrieBuilder,
    token_bytes: Seq<u8>,
    feature_bytes: Seq<u8>,
    offsets: Map<Seq<char>, u32>,
) -> bool {
    let keys = keys_of(entries);
    let rs = runs(keys, order);
    let toks = kept(order, rs);
    &&& trie.wf()
    &&& forall|g: int| 0 <= g < rs.len() ==> trie.get(keys[order[(#[trigger] rs[g]).0] as int]) == Some(
            group_value(kept(order, rs.take(g)).len() as int, kept_count(rs[g].1 - rs[g].0)))
    &&& forall|p: Seq<u8>| #[trigger] trie.get(p) is Some ==> exists|g: int| 0 <= g < rs.len()
            && p == keys[order[(#[trigger] rs[g]).0] as int]
    &&& token_bytes == token_table(entries, toks, offsets)
    &&& token_bytes.len() == 16 * toks.len()
    &&& feature_bytes == feature_section(token_features(entries, toks)).0
    &&& offsets == feature_section(token_features(entries, toks)).1
}

/// The outcome of grouping: [`grouped`] for some offset map, and the
/// surface and token counts.
#[verifier::opaque]
pub open spec fn grouping_done(
    entries: Seq<DicEntry>,
    order: Seq<usize>,
    trie: TrieBuilder,
    token_bytes: Seq<u8>,
    feature_bytes: Seq<u8>,
    lexicon_size: u32,
    token_count: usize,
) -> bool {
    &&& exists|offsets: Map<Seq<char>, u32>| #[trigger] grouped(entries, order, trie, token_bytes, feature_bytes, offsets)
    &&& lexicon_size == runs(keys_of(entries), order).len()
    &&& token_count == kept(order, runs(keys_of(entries), order)).len()
}

/// Groups the sorted entries by surface: writes the token records and the
/// feature section, and registers every surface in a trie with its group
/// value. Fails only when the trie would outgrow the address space.
#[verifier::spinoff_prover]
#[verifier::rlimit(60)]
fn group_entries(entries: &[DicEntry], keys: &Vec<Vec<u8>>, order: &Vec<usize>)
    -> (r: Result<(TrieBuilder, Vec<u8>, Vec<u8>, u32, usize), BuildError>)
    requires
        entries@.len() <= u32::MAX,
        keys@.len() == entries@.len(),
        order@.len() == entries@.len(),
        forall|j: int| 0 <= j < keys@.len() ==> keys@[j]@ == #[trigger] keys_of(entries@)[j],
        is_stable_key_order(keys_of(entries@), order@),
        forall|t: int| 0 <= t < order@.len() ==> order@[t] < entries@.len(),
    ensures
        r matches Ok((trie, token_bytes, feature_bytes, lexicon_size, token_count)) ==> trie.wf() &&
            grouping_done(entries@, order@, trie, token_bytes@, feature_bytes@, lexicon_size, token_count),
        r matches Ok((trie, token_bytes, feature_bytes, lexicon_size, token_count)) ==> {
            &&& trie.len() <= 1 + seq_total(key_weights(entries@))
            &&& feature_bytes@.len() <= seq_total(feature_weights(entries@))
            &&& token_bytes@.len() == 16 * token_count
            &&& token_count <= entries@.len()
        },
        r matches Err(e) ==> e is InvalidInput,
        seq_total(key_weights(entries@)) + 1 < usize::MAX ==> r is Ok,
{
    let ghost kseq = keys_of(entries@);
    let ghost kw = key_weights(entries@);
    let ghost fw = feature_weights(entries@);
    let n = order.len();
    let mut trie = TrieBuilder::new();
    let mut token_bytes: Vec<u8> = Vec::new();
    let mut feature_bytes: Vec<u8> = Vec::new();
    let mut offsets: StringHashMap<u32> = StringHashMap::new();
    let mut token_count: usize = 0;
    let mut lexicon_size: u32 = 0;
    let ghost mut rs: Seq<(int, int)> = Seq::empty();
    let ghost mut toks: Seq<usize> = Seq::empty();
    let mut a: usize = 0;
    proof {
        assert(kseq.len() == entries@.len());
        lemma_order_total(kw, kseq, order@);
        assert(order@.take(0) =~= Seq::<usize>::empty());
        assert(token_features(entries@, toks) =~= Seq::<Seq<char>>::empty());
    }
    while a < n
        invariant
            n == order@.len(),
            n == entries@.len(),
            n == keys@.len(),
            n <= u32::MAX,
            kseq == keys_of(entries@),
            forall|j: int| 0 <= j < n ==> keys@[j]@ == #[trigger] kseq[j],
            is_stable_key_order(kseq, order@),
            forall|t: int| 0 <= t < n ==> order@[t] < n,
            a <= n,
            a == 0 || a == n || kseq[order@[a as int] as int] != kseq[order@[a - 1] as int],
            rs == runs(kseq, order@.take(a as int)),
            forall|g: int| 0 <= g < rs.len() ==> 0 <= (#[trigger] rs[g]).0 < rs[g].1 <= a,
            rs.len() <= a,
            lexicon_size == rs.len(),
            toks == kept(order@, rs),
            forall|k: int| 0 <= k < toks.len() ==> toks[k] < n,
            token_count == toks.len(),
            token_count <= a,
            token_bytes@ == token_table(entries@, toks, offsets@),
            token_bytes@.len() == 16 * toks.len(),
            feature_bytes@ == feature_section(token_features(entries@, toks)).0,
            offsets@ == feature_section(token_features(entries@, toks)).1,
            trie.wf(),
            forall|g: int| 0 <= g < rs.len() ==> trie.get(kseq[order@[(#[trigger] rs[g]).0] as int]) == Some(
                group_value(kept(order@, rs.take(g)).len() as int, kept_count(rs[g].1 - rs[g].0))),
            kw == key_weights(entries@),
            fw == feature_weights(entries@),
            weights_over(kw, order@) == seq_total(kw),
            trie.len() <= 1 + weights_over(kw, order@.take(a as int)),
            forall|p: Seq<u8>| #[trigger] trie.get(p) is Some ==> exists|g: int| 0 <= g < rs.len()
                && p == kseq[order@[(#[trigger] rs[g]).0] as int],
            weights_over(fw, toks) <= weights_over(fw, order@.take(a as int)),
        decreases n - a,
    {
        let b = run_end(keys, order, a);
        let count: usize = if b - a < MAX_GROUP_TOKENS { b - a } else { MAX_GROUP_TOKENS };
        let token_start = token_count;
        let value = group_value_of(token_start, count);
        let key = keys[order[a]].as_slice();
        proof {
            let ta = order@.take(a as int);
            let tb = order@.take(b as int);
            assert(key@.len() == kw[order@[a as int] as int]);
            assert(order@.take(a + 1).drop_last() =~= ta);
            assert(tb.take(a + 1) =~= order@.take(a + 1));
            lemma_weights_prefix(kw, tb, a + 1);
            lemma_weights_prefix(kw, order@, b as int);
            assert(weights_over(kw, ta) + key@.len() <= weights_over(kw, tb));
            assert(weights_over(kw, tb) <= seq_total(kw));
        }
        if trie.node_count() >= usize::MAX - key.len() {
            return Err(BuildError::InvalidInput(String::from_str("surface trie exceeds the address space")));
        }
        let ghost old_trie = trie;
        trie.insert(key, value);
        lexicon_size += 1;
        let ghost rs_new = rs.push((a as int, b as int));
        proof {
            assert forall|t: int| a <= t < b implies kseq[order@[t] as int] == kseq[order@[a as int] as int] by {
                assert(keys@[order@[t] as int]@ == keys@[order@[a as int] as int]@);
            }
            lemma_runs_extend(kseq, order@, a as int, b as int);
            lemma_group_registered(kseq, order@, rs, a as int, b as int, old_trie, trie);
        }
        append_tokens(entries, order, a, a + count, &mut token_bytes, &mut feature_bytes, &mut offsets, Ghost(toks));
        token_count += count;
        proof {
            let toks2 = toks + order@.subrange(a as int, a + count);
            lemma_kept_push(order@, rs, a as int, b as int);
            assert forall|k: int| 0 <= k < toks2.len() implies toks2[k] < n by {
                if k >= toks.len() {
                    assert(toks2[k] == order@[a + k - toks.len()]);
                }
            }
            let ta = order@.take(a as int);
            let run = order@.subrange(a as int, b as int);
            lemma_weights_concat(fw, toks, order@.subrange(a as int, a + count));
            assert(run.take(count as int) =~= order@.subrange(a as int, a + count));
            lemma_weights_prefix(fw, run, count as int);
            assert(ta + run =~= order@.take(b as int));
            lemma_weights_concat(fw, ta, run);
            assert forall|p: Seq<u8>| #[trigger] trie.get(p) is Some implies exists|g: int| 0 <= g < rs_new.len()
                && p == kseq[order@[(#[trigger] rs_new[g]).0] as int] by {
                if p == key@ {
                    let g = rs.len() as int;
                    assert(rs_new[g].0 == a);
                    assert(key@ == keys@[order@[a as int] as int]@);
                } else {
                    assert(old_trie.get(p) is Some);
                    let g = choose|g: int| 0 <= g < rs.len() && p == kseq[order@[(#[trigger] rs[g]).0] as int];
                    assert(rs_new[g] == rs[g]);
                }
            }
            rs = rs_new;
            toks = toks2;
            if b < n {
                assert(keys@[order@[b - 1] as int]@ == keys@[order@[a as int] as int]@);
            }
        }
        a = b;
    }
    proof {
        assert(order@.take(n as int) =~= order@);
        lemma_feature_section_len(entries@, toks);
        lemma_order_total(fw, kseq, order@);
        assert(rs == runs(keys_of(entries@), order@));
        assert(lexicon_size == runs(keys_of(entries@), order@).len());
        assert(token_count == kept(order@, runs(keys_of(entries@), order@)).len());
        reveal(grouped);
        reveal(grouping_done);
        assert(grouped(entries@, order@, trie, token_bytes@, feature_bytes@, offsets@));
        assert(grouping_done(entries@, order@, trie, token_bytes@, feature_bytes@, lexicon_size, token_count));
    }
    Ok((trie, token_bytes, feature_bytes, lexicon_size, token_count))
}

/// Appends the double-array section.
fn push_units(buf: &mut Vec<u8>, units: &Vec<DaUnit>)
    ensures
        final(buf)@ == old(buf)@ + da_section(units@),
{
    let mut i: usize = 0;
    proof {
        assert(units@.take(0) =~= Seq::<DaUnit>::empty());
        assert(buf@ =~= old(buf)@ + da_section(units@.take(0)));
    }
    while i < units.len()
        invariant
            i <= units@.len(),
            buf@ == old(buf)@ + da_section(units@.take(i as int)),
        decreases units@.len() - i,
    {
        push_i32_le(buf, units[i].base);
        push_u32_le(buf, units[i].check);
        proof {
            assert(units@.take(i + 1).drop_last() =~= units@.take(i as int));
            assert(buf@ =~= old(buf)@ + da_section(units@.take(i + 1)));
        }
        i += 1;
    }
    proof {
        assert(units@.take(units@.len() as int) =~= units@);
    }
}

/// Appends the header.
fn push_header(
    buf: &mut Vec<u8>,
    total_size: usize,
    dict_type: u32,
    lexicon_size: u32,
    left_size: u32,
    right_size: u32,
    da_size: usize,
    token_size: usize,
    feature_size: usize,
    charset: &str,
)
    ensures
        final(buf)@ == old(buf)@ + dic_header(total_size as int, dict_type, lexicon_size as int, left_size, right_size, da_size as int, token_size as int, feature_size as int, charset.spec_bytes()),
{
    push_u32_le(buf, (total_size as u32) ^ DICTIONARY_MAGIC_ID);
    push_u32_le(buf, DIC_VERSION);
    push_u32_le(buf, dict_type);
    push_u32_le(buf, lexicon_size);
    push_u32_le(buf, left_size);
    push_u32_le(buf, right_size);
    push_u32_le(buf, da_size as u32);
    push_u32_le(buf, token_size as u32);
    push_u32_le(buf, feature_size as u32);
    push_u32_le(buf, 0);
    push_charset(buf, charset);
    assert(buf@ =~= old(buf)@ + dic_header(total_size as int, dict_type, lexicon_size as int, left_size, right_size, da_size as int, token_size as int, feature_size as int, charset.spec_bytes()));
}

/// Every surface of a grouping is found in a double array built from its trie.
proof fn lemma_groups_found(
    entries: Seq<DicEntry>,
    order: Seq<usize>,
    trie: TrieBuilder,
    token_bytes: Seq<u8>,
    feature_bytes: Seq<u8>,
    offsets: Map<Seq<char>, u32>,
    units: Seq<DaUnit>,
)
    requires
        grouped(entries, order, trie, token_bytes, feature_bytes, offsets),
        forall|key: Seq<u8>| #[trigger] da_lookup(units, key)
            == (if trie.get(key) is Some && trie.get(key)->0 >= 0 { Some(trie.get(key)->0 as int) } else { None }),
    ensures
        groups_found(entries, order, units),
{
    reveal(grouped);
    let keys = keys_of(entries);
    let rs = runs(keys, order);
    assert forall|g: int| 0 <= g < rs.len() implies {
        let v = group_value(kept(order, rs.take(g)).len() as int, kept_count((#[trigger] rs[g]).1 - rs[g].0));
        v >= 0 ==> da_lookup(units, keys[order[rs[g].0] as int]) == Some(v as int)
    } by {
        let key = keys[order[rs[g].0] as int];
        assert(trie.get(key) is Some);
        assert(da_lookup(units, key) == (if trie.get(key) is Some && trie.get(key)->0 >= 0 { Some(trie.get(key)->0 as int) } else { None }));
    }
    assert forall|key: Seq<u8>| #[trigger] da_lookup(units, key) is Some implies exists|g: int| 0 <= g < rs.len()
        && key == keys[order[(#[trigger] rs[g]).0] as int] by {
        assert(da_lookup(units, key) == (if trie.get(key) is Some && trie.get(key)->0 >= 0 { Some(trie.get(key)->0 as int) } else { None }));
        assert(trie.get(key) is Some);
    }
}

/// The bytes written for a grouping are the dictionary image, and the
/// counts are its statistics.
#[verifier::spinoff_prover]
#[verifier::rlimit(40)]
proof fn lemma_built(
    entries: Seq<DicEntry>,
    order: Seq<usize>,
    units: Seq<DaUnit>,
    left_size: u32,
    right_size: u32,
    charset: Seq<u8>,
    dict_type: u32,
    trie: TrieBuilder,
    token_bytes: Seq<u8>,
    feature_bytes: Seq<u8>,
    offsets: Map<Seq<char>, u32>,
    bytes: Seq<u8>,
    stats: WriteSysDicStats,
)
    requires
        is_stable_key_order(keys_of(entries), order),
        grouped(entries, order, trie, token_bytes, feature_bytes, offsets),
        forall|key: Seq<u8>| #[trigger] da_lookup(units, key)
            == (if trie.get(key) is Some && trie.get(key)->0 >= 0 { Some(trie.get(key)->0 as int) } else { None }),
        bytes == dic_header(
            stats.file_size as int,
            dict_type,
            stats.lexicon_size as int,
            left_size,
            right_size,
            (8 * units.len()) as int,
            token_bytes.len() as int,
            stats.feature_bytes as int,
            charset,
        ) + da_section(units) + token_bytes + feature_bytes,
        stats.lexicon_size == runs(keys_of(entries), order).len(),
        stats.token_count == kept(order, runs(keys_of(entries), order)).len(),
        stats.da_units == units.len(),
        stats.feature_bytes == feature_bytes.len(),
        stats.file_size == HEADER_SIZE + 8 * units.len() + token_bytes.len() + feature_bytes.len(),
    ensures
        sysdic_built(entries, order, units, left_size, right_size, charset, dict_type, bytes, stats),
{
    reveal(sysdic_built);
    let toks = kept(order, runs(keys_of(entries), order));
    let fs = feature_section(token_features(entries, toks));
    assert({
        &&& token_bytes == token_table(entries, toks, offsets)
        &&& token_bytes.len() == 16 * toks.len()
        &&& feature_bytes == fs.0
        &&& offsets == fs.1
    }) by {
        reveal(grouped);
    }
    lemma_groups_found(entries, order, trie, token_bytes, feature_bytes, offsets, units);
    lemma_da_section_len(units);
    lemma_image(entries, order, units, left_size, right_size, charset, dict_type, token_bytes, feature_bytes, offsets, bytes);
}

/// The bytes written for the token table and feature section are the image.
proof fn lemma_image(
    entries: Seq<DicEntry>,
    order: Seq<usize>,
    units: Seq<DaUnit>,
    left_size: u32,
    right_size: u32,
    charset: Seq<u8>,
    dict_type: u32,
    token_bytes: Seq<u8>,
    feature_bytes: Seq<u8>,
    offsets: Map<Seq<char>, u32>,
    bytes: Seq<u8>,
)
    requires
        token_bytes == token_table(entries, kept(order, runs(keys_of(entries), order)), offsets),
        token_bytes.len() == 16 * kept(order, runs(keys_of(entries), order)).len(),
        feature_bytes == feature_section(token_features(entries, kept(order, runs(keys_of(entries), order)))).0,
        offsets == feature_section(token_features(entries, kept(order, runs(keys_of(entries), order)))).1,
        bytes == dic_header(
            HEADER_SIZE + 8 * units.len() + token_bytes.len() + feature_bytes.len(),
            dict_type,
            runs(keys_of(entries), order).len() as int,
            left_size,
            right_size,
            (8 * units.len()) as int,
            token_bytes.len() as int,
            feature_bytes.len() as int,
            charset,
        ) + da_section(units) + token_bytes + feature_bytes,
    ensures
        bytes == dic_image(entries, order, units, left_size, right_size, charset, dict_type),
{
    reveal(dic_image);
}

/// Lays out the header, the double array, the token table and the feature
/// section; fails when the total size does not fit in `usize`.
fn assemble(
    units: &Vec<DaUnit>,
    token_bytes: Vec<u8>,
    feature_bytes: Vec<u8>,
    lexicon_size: u32,
    token_count: usize,
    left_size: u32,
    right_size: u32,
    charset: &str,
    dict_type: u32,
) -> (r: Result<(Vec<u8>, WriteSysDicStats), BuildError>)
    ensures
        r matches Ok((bytes, stats)) ==> {
            &&& bytes@ == dic_header(stats.file_size as int, dict_type, stats.lexicon_size as int, left_size, right_size,
                (8 * units@.len()) as int, token_bytes@.len() as int, stats.feature_bytes as int, charset.spec_bytes())
                + da_section(units@) + token_bytes@ + feature_bytes@
            &&& stats.lexicon_size == lexicon_size
            &&& stats.token_count == token_count
            &&& stats.da_units == units@.len()
            &&& stats.feature_bytes == feature_bytes@.len()
            &&& stats.file_size == HEADER_SIZE + 8 * units@.len() + token_bytes@.len() + feature_bytes@.len()
        },
        r matches Err(e) ==> e is InvalidInput,
        r is Ok <==> HEADER_SIZE + 8 * units@.len() + token_bytes@.len() + feature_bytes@.len() <= usize::MAX,
{
    let ghost token_bytes_view = token_bytes@;
    let ghost feature_bytes_view = feature_bytes@;
    let mut token_bytes = token_bytes;
    let mut feature_bytes = feature_bytes;
    let da_size = match units.len().checked_mul(8) {
        Some(v) => v,
        None => return Err(BuildError::InvalidInput(String::from_str("double array too large"))),
    };
    let token_size = token_bytes.len();
    let feature_size = feature_bytes.len();
    let total_size = match HEADER_SIZE.checked_add(da_size) {
        Some(v1) => match v1.checked_add(token_size) {
            Some(v2) => match v2.checked_add(feature_size) {
                Some(v3) => v3,
                None => return Err(BuildError::InvalidInput(String::from_str("dictionary too large"))),
            },
            None => return Err(BuildError::InvalidInput(String::from_str("dictionary too large"))),
        },
        None => return Err(BuildError::InvalidInput(String::from_str("dictionary too large"))),
    };
    let mut buf: Vec<u8> = Vec::new();
    push_header(&mut buf, total_size, dict_type, lexicon_size, left_size, right_size, da_size, token_size, feature_size, charset);
    push_units(&mut buf, units);
    buf.append(&mut token_bytes);
    buf.append(&mut feature_bytes);
    let stats = WriteSysDicStats {
        lexicon_size,
        token_count,
        da_units: units.len(),
        feature_bytes: feature_size,
        file_size: total_size,
    };
    proof {
        assert(da_size == 8 * units@.len());
        assert(buf@ =~= dic_header(total_size as int, dict_type, lexicon_size as int, left_size, right_size, da_size as int, token_size as int, feature_size as int, charset.spec_bytes())
            + da_section(units@) + token_bytes_view + feature_bytes_view);
    }
    Ok((buf, stats))
}

/// Every built image is at least a header long and stores its dictionary
/// type in bytes 8..12 (little-endian).
#[verifier::spinoff_prover]
#[verifier::rlimit(40)]
pub proof fn lemma_dict_type_field(
    entries: Seq<DicEntry>,
    order: Seq<usize>,
    units: Seq<DaUnit>,
    left_size: u32,
    right_size: u32,
    charset: Seq<u8>,
    dict_type: u32,
    bytes: Seq<u8>,
    stats: WriteSysDicStats,
)
    requires
        sysdic_built(entries, order, units, left_size, right_size, charset, dict_type, bytes, stats),
    ensures
        bytes.len() >= HEADER_SIZE,
        bytes.subrange(8, 12) == le_u32(dict_type),
{
    reveal(sysdic_built);
    reveal(dic_image);
    let rs = runs(keys_of(entries), order);
    let toks = kept(order, rs);
    let fs = feature_section(token_features(entries, toks));
    let total = HEADER_SIZE + 8 * units.len() + 16 * toks.len() + fs.0.len();
    let h = dic_header(total, dict_type, rs.len() as int, left_size, right_size, (8 * units.len()) as int, (16 * toks.len()) as int, fs.0.len() as int, charset);
    assert(h.len() == 72);
    assert(bytes.subrange(8, 12) =~= h.subrange(8, 12));
    assert(h.subrange(8, 12) =~= le_u32(dict_type));
}

/// The byte count of the double array as a reader takes it from the
/// header of an image (bytes 24..28, little-endian).
pub open spec fn image_da_bytes(bytes: Seq<u8>) -> int {
    from_le4(bytes[24], bytes[25], bytes[26], bytes[27])
}

/// Unit `i` of the double array as a reader takes it from an image: after
/// the 72-byte header, eight bytes per unit, the base (two's complement)
/// and then the check, each little-endian.
pub open spec fn image_unit(bytes: Seq<u8>, i: int) -> DaUnit {
    let o = HEADER_SIZE + 8 * i;
    DaUnit {
        base: (from_le4(bytes[o], bytes[o + 1], bytes[o + 2], bytes[o + 3]) as u32) as i32,
        check: from_le4(bytes[o + 4], bytes[o + 5], bytes[o + 6], bytes[o + 7]) as u32,
    }
}

/// The double array a reader takes from an image.
pub open spec fn image_units(bytes: Seq<u8>) -> Seq<DaUnit> {
    Seq::new((image_da_bytes(bytes) / 8) as nat, |i: int| image_unit(bytes, i))
}

/// Unit `i` takes bytes `8 * i .. 8 * i + 8` of the double-array section.
proof fn lemma_da_section_unit(units: Seq<DaUnit>, i: int)
    requires
        0 <= i < units.len(),
    ensures
        da_section(units).subrange(8 * i, 8 * i + 8) == le_i32(units[i].base) + le_u32(units[i].check),
    decreases units.len(),
{
    lemma_da_section_len(units);
    lemma_da_section_len(units.drop_last());
    if i < units.len() - 1 {
        lemma_da_section_unit(units.drop_last(), i);
        assert(da_section(units).subrange(8 * i, 8 * i + 8) =~= da_section(units.drop_last()).subrange(8 * i, 8 * i + 8));
    } else {
        assert(da_section(units).subrange(8 * i, 8 * i + 8) =~= le_i32(units[i].base) + le_u32(units[i].check));
    }
}

/// Unit `i` read from `h + da_section(units) + rest`, after a 72-byte `h`,
/// is `units[i]`.
proof fn lemma_read_unit(bytes: Seq<u8>, h: Seq<u8>, units: Seq<DaUnit>, rest: Seq<u8>, i: int)
    requires
        bytes == h + da_section(units) + rest,
        h.len() == 72,
        0 <= i < units.len(),
    ensures
        image_unit(bytes, i) == units[i],
{
    lemma_da_section_len(units);
    lemma_da_section_unit(units, i);
    let da = da_section(units);
    let o = 72 + 8 * i;
    let b = units[i].base;
    let c = units[i].check;
    assert(bytes.subrange(o, o + 8) =~= da.subrange(8 * i, 8 * i + 8));
    lemma_le_u32_roundtrip(b as u32);
    lemma_le_u32_roundtrip(c);
    let lb = le_i32(b);
    let lc = le_u32(c);
    assert(bytes[o] == lb[0] && bytes[o + 1] == lb[1] && bytes[o + 2] == lb[2] && bytes[o + 3] == lb[3]) by {
        assert(bytes.subrange(o, o + 8)[0] == bytes[o]);
        assert(bytes.subrange(o, o + 8)[1] == bytes[o + 1]);
        assert(bytes.subrange(o, o + 8)[2] == bytes[o + 2]);
        assert(bytes.subrange(o, o + 8)[3] == bytes[o + 3]);
    }
    assert(bytes[o + 4] == lc[0] && bytes[o + 5] == lc[1] && bytes[o + 6] == lc[2] && bytes[o + 7] == lc[3]) by {
        assert(bytes.subrange(o, o + 8)[4] == bytes[o + 4]);
        assert(bytes.subrange(o, o + 8)[5] == bytes[o + 5]);
        assert(bytes.subrange(o, o + 8)[6] == bytes[o + 6]);
        assert(bytes.subrange(o, o + 8)[7] == bytes[o + 7]);
    }
    assert(((b as u32) as i32) == b) by (bit_vector);
}

/// The units read from `h + da_section(units) + rest`, whose 72-byte `h`
/// gives the section's byte count in bytes 24..28, are `units`.
proof fn lemma_read_units(bytes: Seq<u8>, h: Seq<u8>, units: Seq<DaUnit>, rest: Seq<u8>)
    requires
        bytes == h + da_section(units) + rest,
        h.len() == 72,
        8 * units.len() <= u32::MAX,
        h.subrange(24, 28) == le_u32((8 * units.len()) as u32),
    ensures
        image_units(bytes) == units,
{
    let n = (8 * units.len()) as u32;
    lemma_le_u32_roundtrip(n);
    assert(image_da_bytes(bytes) == 8 * units.len()) by {
        assert(h.subrange(24, 28)[0] == h[24]);
        assert(h.subrange(24, 28)[1] == h[25]);
        assert(h.subrange(24, 28)[2] == h[26]);
        assert(h.subrange(24, 28)[3] == h[27]);
    }
    assert forall|i: int| 0 <= i < units.len() implies #[trigger] image_units(bytes)[i] == units[i] by {
        lemma_read_unit(bytes, h, units, rest, i);
    }
    assert(image_units(bytes) =~= units);
}

/// A reader of a built image takes back exactly the double array that was
/// written (while its byte count fits the header's 32-bit field), so the
/// lookup law holds of the units read from the bytes: every surface is found
/// with its group value, and nothing else is found.
#[verifier::spinoff_prover]
#[verifier::rlimit(40)]
pub proof fn law_image_units_read_back(
    entries: Seq<DicEntry>,
    order: Seq<usize>,
    units: Seq<DaUnit>,
    left_size: u32,
    right_size: u32,
    charset: Seq<u8>,
    dict_type: u32,
    bytes: Seq<u8>,
    stats: WriteSysDicStats,
)
    requires
        sysdic_built(entries, order, units, left_size, right_size, charset, dict_type, bytes, stats),
        8 * units.len() <= u32::MAX,
    ensures
        image_units(bytes) == units,
        groups_found(entries, order, image_units(bytes)),
{
    reveal(sysdic_built);
    reveal(dic_image);
    let rs = runs(keys_of(entries), order);
    let toks = kept(order, rs);
    let fs = feature_section(token_features(entries, toks));
    let total = HEADER_SIZE + 8 * units.len() + 16 * toks.len() + fs.0.len();
    let h = dic_header(total, dict_type, rs.len() as int, left_size, right_size, (8 * units.len()) as int, (16 * toks.len()) as int, fs.0.len() as int, charset);
    let rest = token_table(entries, toks, fs.1) + fs.0;
    assert(h.len() == 72);
    assert(h.subrange(24, 28) =~= le_u32((8 * units.len()) as u32));
    assert(bytes =~= h + da_section(units) + rest);
    lemma_read_units(bytes, h, units, rest);
}

/// Token `k` takes bytes `16 * k .. 16 * k + 16` of the token table.
proof fn lemma_token_table_record(entries: Seq<DicEntry>, toks: Seq<usize>, offs: Map<Seq<char>, u32>, k: int)
    requires
        0 <= k < toks.len(),
    ensures
        token_table(entries, toks, offs).len() == 16 * toks.len(),
        token_table(entries, toks, offs).subrange(16 * k, 16 * k + 16)
            == token_record(entries[toks[k] as int], offs[entries[toks[k] as int].feature@]),
    decreases toks.len(),
{
    lemma_token_table_len(entries, toks, offs);
    lemma_token_table_len(entries, toks.drop_last(), offs);
    if k < toks.len() - 1 {
        lemma_token_table_record(entries, toks.drop_last(), offs, k);
        assert(token_table(entries, toks, offs).subrange(16 * k, 16 * k + 16)
            =~= token_table(entries, toks.drop_last(), offs).subrange(16 * k, 16 * k + 16));
    } else {
        assert(token_table(entries, toks, offs).subrange(16 * k, 16 * k + 16)
            =~= token_record(entries[toks[k] as int], offs[entries[toks[k] as int].feature@]));
    }
}

/// Sixteen bytes per token.
proof fn lemma_token_table_len(entries: Seq<DicEntry>, toks: Seq<usize>, offs: Map<Seq<char>, u32>)
    ensures
        token_table(entries, toks, offs).len() == 16 * toks.len(),
    decreases toks.len(),
{
    if toks.len() > 0 {
        lemma_token_table_len(entries, toks.drop_last(), offs);
    }
}

/// The fields of token `k` as a reader takes them from `h + da + tt + rest`.
proof fn lemma_read_token(bytes: Seq<u8>, h: Seq<u8>, da: Seq<u8>, tt: Seq<u8>, rest: Seq<u8>, k: int, e: DicEntry, off: u32)
    requires
        bytes == h + da + tt + rest,
        0 <= 16 * k && 16 * k + 16 <= tt.len(),
        tt.subrange(16 * k, 16 * k + 16) == token_record(e, off),
    ensures
        ({
            let o = h.len() + da.len() + 16 * k;
            &&& from_le2(bytes[o], bytes[o + 1]) == e.left_id
            &&& from_le2(bytes[o + 2], bytes[o + 3]) == e.right_id
            &&& from_le2(bytes[o + 4], bytes[o + 5]) == e.pos_id
            &&& from_le2(bytes[o + 6], bytes[o + 7]) == e.wcost as u16
        }),
{
    let o = h.len() + da.len() + 16 * k;
    let rec = token_record(e, off);
    assert forall|j: int| 0 <= j < 16 implies bytes[o + j] == #[trigger] rec[j] by {
        assert(tt.subrange(16 * k, 16 * k + 16)[j] == tt[16 * k + j]);
    }
    lemma_le_u16_roundtrip(e.left_id);
    lemma_le_u16_roundtrip(e.right_id);
    lemma_le_u16_roundtrip(e.pos_id);
    lemma_le_i16_roundtrip(e.wcost);
    assert(rec[0] == le_u16(e.left_id)[0] && rec[1] == le_u16(e.left_id)[1]);
    assert(rec[2] == le_u16(e.right_id)[0] && rec[3] == le_u16(e.right_id)[1]);
    assert(rec[4] == le_u16(e.pos_id)[0] && rec[5] == le_u16(e.pos_id)[1]);
    assert(rec[6] == le_i16(e.wcost)[0] && rec[7] == le_i16(e.wcost)[1]);
    assert(bytes[o] == rec[0] && bytes[o + 1] == rec[1] && bytes[o + 2] == rec[2] && bytes[o + 3] == rec[3]);
    assert(bytes[o + 4] == rec[4] && bytes[o + 5] == rec[5] && bytes[o + 6] == rec[6] && bytes[o + 7] == rec[7]);
}

/// A reader of a built image that skips the header and the double array
/// (whose byte count the header gives) finds token `k` in MeCab's order:
/// the little-endian `u16` at the token's offset 0 is the `k`-th kept
/// entry's left-context id, at offset 2 its right-context id, at offset 4
/// its part-of-speech id, and at offset 6 the bits of its cost. The kept
/// entries are those of each run of equal surfaces (in byte order of the
/// surfaces), at most 255 per surface.
#[verifier::spinoff_prover]
#[verifier::rlimit(40)]
pub proof fn law_image_tokens_read_back(
    entries: Seq<DicEntry>,
    order: Seq<usize>,
    units: Seq<DaUnit>,
    left_size: u32,
    right_size: u32,
    charset: Seq<u8>,
    dict_type: u32,
    bytes: Seq<u8>,
    stats: WriteSysDicStats,
    k: int,
)
    requires
        sysdic_built(entries, order, units, left_size, right_size, charset, dict_type, bytes, stats),
        8 * units.len() <= u32::MAX,
        0 <= k < stats.token_count,
    ensures
        ({
            let o = HEADER_SIZE + image_da_bytes(bytes) + 16 * k;
            let e = entries[kept(order, runs(keys_of(entries), order))[k] as int];
            &&& from_le2(bytes[o], bytes[o + 1]) == e.left_id
            &&& from_le2(bytes[o + 2], bytes[o + 3]) == e.right_id
            &&& from_le2(bytes[o + 4], bytes[o + 5]) == e.pos_id
            &&& from_le2(bytes[o + 6], bytes[o + 7]) == e.wcost as u16
        }),
{
    law_image_units_read_back(entries, order, units, left_size, right_size, charset, dict_type, bytes, stats);
    reveal(sysdic_built);
    reveal(dic_image);
    let rs = runs(keys_of(entries), order);
    let toks = kept(order, rs);
    let fs = feature_section(token_features(entries, toks));
    let total = HEADER_SIZE + 8 * units.len() + 16 * toks.len() + fs.0.len();
    let h = dic_header(total, dict_type, rs.len() as int, left_size, right_size, (8 * units.len()) as int, (16 * toks.len()) as int, fs.0.len() as int, charset);
    let da = da_section(units);
    let tt = token_table(entries, toks, fs.1);
    assert(h.len() == 72);
    lemma_da_section_len(units);
    assert(image_da_bytes(bytes) == 8 * units.len()) by {
        assert(image_units(bytes).len() == units.len());
    }
    lemma_token_table_record(entries, toks, fs.1, k);
    assert(bytes =~= h + da + tt + fs.0);
    lemma_read_token(bytes, h, da, tt, fs.0, k, entries[toks[k] as int], fs.1[entries[toks[k] as int].feature@]);
}

/// Every feature of the pool is stored at its offset, UTF-8 encoded and
/// followed by a NUL (while the pool's size fits 32 bits).
proof fn lemma_feature_pool_entry(feats: Seq<Seq<char>>, f: Seq<char>)
    requires
        feature_section(feats).1.contains_key(f),
        feature_section(feats).0.len() <= u32::MAX,
    ensures
        ({
            let pool = feature_section(feats).0;
            let m = feature_section(feats).1[f] as int;
            let b = encode_utf8(f);
            &&& m + b.len() + 1 <= pool.len()
            &&& pool.subrange(m, m + b.len()) == b
            &&& pool[m + b.len()] == 0
        }),
    decreases feats.len(),
{
    if feats.len() > 0 {
        let prev = feature_section(feats.drop_last());
        let l = feats.last();
        if prev.1.contains_key(l) {
            lemma_feature_pool_entry(feats.drop_last(), f);
        } else {
            let pool = prev.0 + encode_utf8(l) + seq![0u8];
            assert(feature_section(feats).0 == pool);
            if f == l {
                let m: int = prev.0.len() as int;
                assert(feature_section(feats).1[f] == m as u32);
                assert(pool.subrange(m, m + encode_utf8(f).len()) =~= encode_utf8(f));
                assert(pool[m + encode_utf8(f).len()] == 0);
            } else {
                assert(prev.1.contains_key(f));
                assert(feature_section(feats).1[f] == prev.1[f]);
                lemma_feature_pool_entry(feats.drop_last(), f);
                let m = prev.1[f] as int;
                let b = encode_utf8(f);
                assert(pool.subrange(m, m + b.len()) =~= prev.0.subrange(m, m + b.len()));
                assert(pool[m + b.len()] == prev.0[m + b.len()]);
            }
        }
    }
}

/// The feature offset of token `k`, and the pool bytes it points at, as a
/// reader takes them from `h + da + tt + pool`.
proof fn lemma_read_token_feature(bytes: Seq<u8>, h: Seq<u8>, da: Seq<u8>, tt: Seq<u8>, pool: Seq<u8>, k: int, e: DicEntry, off: u32)
    requires
        bytes == h + da + tt + pool,
        0 <= 16 * k && 16 * k + 16 <= tt.len(),
        tt.subrange(16 * k, 16 * k + 16) == token_record(e, off),
        off + encode_utf8(e.feature@).len() + 1 <= pool.len(),
        pool.subrange(off as int, off + encode_utf8(e.feature@).len()) == encode_utf8(e.feature@),
        pool[off + encode_utf8(e.feature@).len()] == 0,
    ensures
        ({
            let o = h.len() + da.len() + 16 * k;
            let q = h.len() + da.len() + tt.len() + off;
            let b = encode_utf8(e.feature@);
            &&& from_le4(bytes[o + 8], bytes[o + 9], bytes[o + 10], bytes[o + 11]) == off
            &&& bytes.subrange(q, q + b.len()) == b
            &&& bytes[q + b.len()] == 0
        }),
{
    let o = h.len() + da.len() + 16 * k;
    let rec = token_record(e, off);
    assert forall|j: int| 0 <= j < 16 implies bytes[o + j] == #[trigger] rec[j] by {
        assert(tt.subrange(16 * k, 16 * k + 16)[j] == tt[16 * k + j]);
    }
    lemma_le_u32_roundtrip(off);
    assert(rec[8] == le_u32(off)[0] && rec[9] == le_u32(off)[1] && rec[10] == le_u32(off)[2] && rec[11] == le_u32(off)[3]);
    assert(bytes[o + 8] == rec[8] && bytes[o + 9] == rec[9] && bytes[o + 10] == rec[10] && bytes[o + 11] == rec[11]);
    let q = h.len() + da.len() + tt.len() + off;
    let b = encode_utf8(e.feature@);
    assert(bytes.subrange(q, q + b.len()) =~= pool.subrange(off as int, off + b.len()));
}

/// A reader of a built image whose size fits 32 bits finds, at the feature
/// offset stored in token `k` (bytes 8..12 of the token, little-endian),
/// counted from the start of the feature pool after the token table, the
/// UTF-8 bytes of the `k`-th kept entry's feature, followed by a NUL.
#[verifier::spinoff_prover]
#[verifier::rlimit(40)]
pub proof fn law_image_token_features_read_back(
    entries: Seq<DicEntry>,
    order: Seq<usize>,
    units: Seq<DaUnit>,
    left_size: u32,
    right_size: u32,
    charset: Seq<u8>,
    dict_type: u32,
    bytes: Seq<u8>,
    stats: WriteSysDicStats,
    k: int,
)
    requires
        sysdic_built(entries, order, units, left_size, right_size, charset, dict_type, bytes, stats),
        bytes.len() <= u32::MAX,
        0 <= k < stats.token_count,
    ensures
        ({
            let o = HEADER_SIZE + image_da_bytes(bytes) + 16 * k;
            let off = from_le4(bytes[o + 8], bytes[o + 9], bytes[o + 10], bytes[o + 11]);
            let q = HEADER_SIZE + image_da_bytes(bytes) + 16 * stats.token_count + off;
            let b = encode_utf8(entries[kept(order, runs(keys_of(entries), order))[k] as int].feature@);
            &&& bytes.subrange(q, q + b.len()) == b
            &&& bytes[q + b.len()] == 0
        }),
{
    reveal(sysdic_built);
    assert(8 * units.len() <= bytes.len());
    law_image_units_read_back(entries, order, units, left_size, right_size, charset, dict_type, bytes, stats);
    reveal(dic_image);
    let rs = runs(keys_of(entries), order);
    let toks = kept(order, rs);
    let feats = token_features(entries, toks);
    let fs = feature_section(feats);
    let total = HEADER_SIZE + 8 * units.len() + 16 * toks.len() + fs.0.len();
    let h = dic_header(total, dict_type, rs.len() as int, left_size, right_size, (8 * units.len()) as int, (16 * toks.len()) as int, fs.0.len() as int, charset);
    let da = da_section(units);
    let tt = token_table(entries, toks, fs.1);
    assert(h.len() == 72);
    lemma_da_section_len(units);
    assert(image_da_bytes(bytes) == 8 * units.len()) by {
        assert(image_units(bytes).len() == units.len());
    }
    lemma_token_table_record(entries, toks, fs.1, k);
    assert(bytes =~= h + da + tt + fs.0);
    let e = entries[toks[k] as int];
    lemma_feature_section_keys(feats);
    assert(feats[k] == e.feature@);
    lemma_feature_pool_entry(feats, e.feature@);
    lemma_read_token_feature(bytes, h, da, tt, fs.0, k, e, fs.1[e.feature@]);
}

/// Entries small enough that their image always builds: the surface trie
/// (one node per surface byte at most, plus the root) fits the double
/// array's base range, and the image's size, bounded by the array the trie
/// can need, a 16-byte token per entry and every feature with its NUL, fits
/// in `usize`.
pub open spec fn sysdic_fits(entries: Seq<DicEntry>) -> bool {
    let nodes: int = (1 + seq_total(key_weights(entries))) as int;
    &&& fits_base_range(nodes)
    &&& HEADER_SIZE + 8 * (INITIAL_UNITS + 2 + 514 * nodes) + 16 * entries.len() + seq_total(feature_weights(entries)) <= usize::MAX
}

proof fn lemma_utf8_len_bound(s: Seq<char>)
    ensures
        encode_utf8(s).len() <= 4 * s.len(),
    decreases s.len(),
{
    if s.len() > 0 {
        lemma_utf8_len_bound(s.drop_first());
    }
}

proof fn lemma_total_bound(ws: Seq<nat>, c: nat)
    requires
        forall|i: int| 0 <= i < ws.len() ==> ws[i] <= c,
    ensures
        seq_total(ws) <= c * ws.len(),
    decreases ws.len(),
{
    if ws.len() > 0 {
        lemma_total_bound(ws.drop_last(), c);
        let n = ws.len();
        assert(c * (n - 1) + c == c * n) by (nonlinear_arith);
    }
}

/// A few short entries always build: at most 64 of them, with surfaces of
/// at most 16 characters and features of at most 64.
pub proof fn lemma_small_entries_fit(es: Seq<DicEntry>)
    requires
        es.len() <= 64,
        forall|i: int| 0 <= i < es.len() ==> (#[trigger] es[i]).surface@.len() <= 16 && es[i].feature@.len() <= 64,
    ensures
        sysdic_fits(es),
{
    let kw = key_weights(es);
    let fw = feature_weights(es);
    assert forall|i: int| 0 <= i < kw.len() implies kw[i] <= 64 by {
        lemma_utf8_len_bound(es[i].surface@);
    }
    assert forall|i: int| 0 <= i < fw.len() implies fw[i] <= 257 by {
        lemma_utf8_len_bound(es[i].feature@);
    }
    lemma_total_bound(kw, 64);
    lemma_total_bound(fw, 257);
    assert(64 * kw.len() <= 64 * 64) by (nonlinear_arith)
        requires kw.len() <= 64;
    assert(257 * fw.len() <= 257 * 64) by (nonlinear_arith)
        requires fw.len() <= 64;
}

/// Builds a dictionary image (`sys.dic` when `dict_type` is 0, `unk.dic`
/// when it is 2) from `entries`.
///
/// Entries are sorted by surface bytes (stably); each surface keeps its first
/// 255 entries as tokens and is registered in the double array with value
/// `token_start << 8 | count`. Fails only when the double array or the image
/// would exceed the sizes its fields can address.
pub fn build_sysdic_bytes(
    entries: &[DicEntry],
    left_size: u32,
    right_size: u32,
    charset: &str,
    dict_type: u32,
) -> (r: Result<(Vec<u8>, WriteSysDicStats), BuildError>)
    requires
        entries@.len() <= u32::MAX,
    ensures
        r matches Ok((bytes, stats)) ==> exists|order: Seq<usize>, units: Seq<DaUnit>| #[trigger]
            sysdic_built(entries@, order, units, left_size, right_size, charset.spec_bytes(), dict_type, bytes@, stats),
        r matches Err(e) ==> e is InvalidInput,
        sysdic_fits(entries@) ==> r is Ok,
{
    let keys = surface_keys(entries);
    let order = stable_key_order(&keys);
    proof {
        let kseq = keys_of(entries@);
        assert forall|j: int| 0 <= j < keys@.len() implies keys@[j]@ == #[trigger] kseq[j] by {
            assert(keys@.map_values(|k: Vec<u8>| k@)[j] == keys@[j]@);
        }
    }
    let (trie, token_bytes, feature_bytes, lexicon_size, token_count) = match group_entries(entries, &keys, &order) {
        Ok(g) => g,
        Err(e) => return Err(e),
    };
    let ghost mut offsets: Map<Seq<char>, u32> = Map::empty();
    proof {
        reveal(grouping_done);
        offsets = choose|offsets: Map<Seq<char>, u32>| grouped(entries@, order@, trie, token_bytes@, feature_bytes@, offsets);
        assert(grouped(entries@, order@, trie, token_bytes@, feature_bytes@, offsets));
        assert(lexicon_size == runs(keys_of(entries@), order@).len());
        assert(token_count == kept(order@, runs(keys_of(entries@), order@)).len());
    }
    let ghost token_bytes_view = token_bytes@;
    let ghost feature_bytes_view = feature_bytes@;
    let units = match build_double_array(&trie) {
        Ok(u) => u,
        Err(e) => return Err(e),
    };
    proof {
        if sysdic_fits(entries@) {
            let nodes: int = (1 + seq_total(key_weights(entries@))) as int;
            assert(8 * units@.len() <= 8 * (INITIAL_UNITS + 2 + 514 * nodes));
        }
    }
    match assemble(&units, token_bytes, feature_bytes, lexicon_size, token_count, left_size, right_size, charset, dict_type) {
        Ok((buf, stats)) => {
            proof {
                lemma_built(entries@, order@, units@, left_size, right_size, charset.spec_bytes(), dict_type, trie, token_bytes_view, feature_bytes_view, offsets, buf@, stats);
            }
            Ok((buf, stats))
        },
        Err(e) => Err(e),
    }
}

/// Builds an unknown-word dictionary image (`unk.dic`, dictionary type 2).
pub fn build_unkdic_bytes(
    entries: &[DicEntry],
    left_size: u32,
    right_size: u32,
    charset: &str,
) -> (r: Result<(Vec<u8>, WriteSysDicStats), BuildError>)
    requires
        entries@.len() <= u32::MAX,
    ensures
        r matches Ok((bytes, stats)) ==> exists|order: Seq<usize>, units: Seq<DaUnit>| #[trigger]
            sysdic_built(entries@, order, units, left_size, right_size, charset.spec_bytes(), UNK_DIC_TYPE, bytes@, stats),
        r matches Err(e) ==> e is InvalidInput,
        sysdic_fits(entries@) ==> r is Ok,
{
    build_sysdic_bytes(entries, left_size, right_size, charset, UNK_DIC_TYPE)
}

} // verus!
