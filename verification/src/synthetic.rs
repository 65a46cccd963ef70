//! A small, complete dictionary built entirely in memory.
//!
//! [`build_synthetic_dictionary`] produces the four binary images of a
//! MeCab-format dictionary (system dictionary, connection matrix, character
//! definitions, unknown-word dictionary) from a curated lexicon that covers
//! the classic segmentation sentence 「すもももももももものうち」 and a few
//! more words, so pipelines can be exercised without an installed dictionary.
//!
//! Context ids: 0 is BOS/EOS, 1 is a noun, 2 is a particle; the matrix is
//! 8×8, leaving ids 3–7 free.

use vstd::prelude::*;
use vstd::string::StringExecFns;
use vstd::string::StringSliceAdditionalSpecFns;
use crate::char_writer::{CharRange, canonical_categories, canonical_category_names, build_char_bytes, pack_char_info, spec_pack_char_info, char_bin, range_well_ordered};
use crate::matrix_writer::{build_matrix_bytes, set_cost, cost_index, matrix_bin};
use crate::sysdic_writer::{DicEntry, build_sysdic_bytes, build_unkdic_bytes, sysdic_built, sysdic_fits, lemma_dict_type_field, lemma_small_entries_fit, SYS_DIC_TYPE, UNK_DIC_TYPE};
use crate::double_array::DaUnit;
use crate::le_bytes::le_u32;

verus! {

/// The four binary images that make up a MeCab-format dictionary.
pub struct SyntheticDictionary {
    /// sys.dic bytes (dictionary type 0)
    pub sys_dic: Vec<u8>,
    /// matrix.bin bytes
    pub matrix: Vec<u8>,
    /// char.bin bytes
    pub char_def: Vec<u8>,
    /// unk.dic bytes (dictionary type 2)
    pub unk_def: Vec<u8>,
}

/// Number of left context ids.
pub const LSIZE: u16 = 8;
/// Number of right context ids.
pub const RSIZE: u16 = 8;

/// Whether `e` holds exactly the given fields.
pub open spec fn entry_is(e: DicEntry, surface: &str, left_id: u16, right_id: u16, pos_id: u16, wcost: i16, feature: &str) -> bool {
    &&& e.surface@ == surface@
    &&& e.left_id == left_id
    &&& e.right_id == right_id
    &&& e.pos_id == pos_id
    &&& e.wcost == wcost
    &&& e.feature@ == feature@
}

/// The curated system lexicon.
pub open spec fn synthetic_sys_entries(es: Seq<DicEntry>) -> bool {
    &&& es.len() == 9
    &&& entry_is(es[0], "すもも", 1, 1, 1, 5000, "名詞,一般,*,*,*,*,すもも,スモモ,スモモ")
    &&& entry_is(es[1], "もも", 1, 1, 1, 5000, "名詞,一般,*,*,*,*,もも,モモ,モモ")
    &&& entry_is(es[2], "うち", 1, 1, 1, 5000, "名詞,非自立,副詞可能,*,*,*,うち,ウチ,ウチ")
    &&& entry_is(es[3], "東京", 1, 1, 1, 4500, "名詞,固有名詞,地名,一般,*,*,東京,トウキョウ,トウキョウ")
    &&& entry_is(es[4], "日本", 1, 1, 1, 4500, "名詞,固有名詞,地名,一般,*,*,日本,ニホン,ニホン")
    &&& entry_is(es[5], "人", 1, 1, 1, 5500, "名詞,接尾,一般,*,*,*,人,ニン,ニン")
    &&& entry_is(es[6], "も", 2, 2, 2, 4000, "助詞,係助詞,*,*,*,*,も,モ,モ")
    &&& entry_is(es[7], "の", 2, 2, 2, 3000, "助詞,連体化,*,*,*,*,の,ノ,ノ")
    &&& entry_is(es[8], "は", 2, 2, 2, 3500, "助詞,係助詞,*,*,*,*,は,ハ,ワ")
}

/// The unknown-word entries, one per category that starts unknown words.
pub open spec fn synthetic_unk_entries(es: Seq<DicEntry>) -> bool {
    &&& es.len() == 8
    &&& entry_is(es[0], "DEFAULT", 1, 1, 1, 10000, "記号,一般,*,*,*,*,*,*,*")
    &&& entry_is(es[1], "SPACE", 1, 1, 1, 8000, "記号,一般,*,*,*,*,*,*,*")
    &&& entry_is(es[2], "KANJI", 1, 1, 1, 6000, "名詞,一般,*,*,*,*,*,*,*")
    &&& entry_is(es[3], "SYMBOL", 1, 1, 1, 9000, "記号,一般,*,*,*,*,*,*,*")
    &&& entry_is(es[4], "NUMERIC", 1, 1, 1, 7000, "名詞,数,*,*,*,*,*,*,*")
    &&& entry_is(es[5], "ALPHA", 1, 1, 1, 7000, "名詞,一般,*,*,*,*,*,*,*")
    &&& entry_is(es[6], "HIRAGANA", 1, 1, 1, 8000, "名詞,一般,*,*,*,*,*,*,*")
    &&& entry_is(es[7], "KATAKANA", 1, 1, 1, 7000, "名詞,一般,*,*,*,*,*,*,*")
}

/// The connection costs: 1000 everywhere except the BOS/EOS, noun and
/// particle transitions.
pub open spec fn synthetic_costs() -> Seq<i16> {
    Seq::new(64, |i: int| 1000i16)
        .update(cost_index(8, 0, 1), 0)
        .update(cost_index(8, 0, 2), 200)
        .update(cost_index(8, 1, 0), 0)
        .update(cost_index(8, 2, 0), 400)
        .update(cost_index(8, 1, 2), 0)
        .update(cost_index(8, 2, 1), 0)
        .update(cost_index(8, 1, 1), 1500)
        .update(cost_index(8, 2, 2), 1500)
}

/// CharInfo of category `id`: only its own type bit, itself as default,
/// no length limit, grouping and invocation on.
pub open spec fn category_info(id: int) -> u32 {
    spec_pack_char_info(1u32 << (id as u32), id as u8, 0, true, true)
}

/// The code point ranges of the categories.
pub open spec fn synthetic_char_ranges() -> Seq<CharRange> {
    seq![
        CharRange { lo: 0x0020, hi: 0x0020, info: category_info(1) },
        CharRange { lo: 0x0021, hi: 0x0021, info: category_info(3) },
        CharRange { lo: 0x3000, hi: 0x303F, info: category_info(3) },
        CharRange { lo: 0x0030, hi: 0x0039, info: category_info(4) },
        CharRange { lo: 0x0041, hi: 0x005A, info: category_info(5) },
        CharRange { lo: 0x0061, hi: 0x007A, info: category_info(5) },
        CharRange { lo: 0x3041, hi: 0x3096, info: category_info(6) },
        CharRange { lo: 0x30A1, hi: 0x30FC, info: category_info(7) },
        CharRange { lo: 0x4E00, hi: 0x4E00, info: category_info(8) },
        CharRange { lo: 0x4E01, hi: 0x9FFF, info: category_info(2) },
        CharRange { lo: 0x0391, hi: 0x03C9, info: category_info(9) },
        CharRange { lo: 0x0410, hi: 0x044F, info: category_info(10) },
    ]
}

/// One dictionary entry.
fn entry(surface: &str, left_id: u16, right_id: u16, pos_id: u16, wcost: i16, feature: &str) -> (e: DicEntry)
    ensures
        entry_is(e, surface, left_id, right_id, pos_id, wcost, feature),
{
    DicEntry { surface: String::from_str(surface), left_id, right_id, pos_id, wcost, feature: String::from_str(feature) }
}

/// The curated system lexicon.
fn sys_entries() -> (v: Vec<DicEntry>)
    ensures
        synthetic_sys_entries(v@),
{
    let mut v: Vec<DicEntry> = Vec::new();
    v.push(entry("すもも", 1, 1, 1, 5000, "名詞,一般,*,*,*,*,すもも,スモモ,スモモ"));
    v.push(entry("もも", 1, 1, 1, 5000, "名詞,一般,*,*,*,*,もも,モモ,モモ"));
    v.push(entry("うち", 1, 1, 1, 5000, "名詞,非自立,副詞可能,*,*,*,うち,ウチ,ウチ"));
    v.push(entry("東京", 1, 1, 1, 4500, "名詞,固有名詞,地名,一般,*,*,東京,トウキョウ,トウキョウ"));
    v.push(entry("日本", 1, 1, 1, 4500, "名詞,固有名詞,地名,一般,*,*,日本,ニホン,ニホン"));
    v.push(entry("人", 1, 1, 1, 5500, "名詞,接尾,一般,*,*,*,人,ニン,ニン"));
    v.push(entry("も", 2, 2, 2, 4000, "助詞,係助詞,*,*,*,*,も,モ,モ"));
    v.push(entry("の", 2, 2, 2, 3000, "助詞,連体化,*,*,*,*,の,ノ,ノ"));
    v.push(entry("は", 2, 2, 2, 3500, "助詞,係助詞,*,*,*,*,は,ハ,ワ"));
    v
}

/// The unknown-word entries.
fn unk_entries() -> (v: Vec<DicEntry>)
    ensures
        synthetic_unk_entries(v@),
{
    let mut v: Vec<DicEntry> = Vec::new();
    v.push(entry("DEFAULT", 1, 1, 1, 10000, "記号,一般,*,*,*,*,*,*,*"));
    v.push(entry("SPACE", 1, 1, 1, 8000, "記号,一般,*,*,*,*,*,*,*"));
    v.push(entry("KANJI", 1, 1, 1, 6000, "名詞,一般,*,*,*,*,*,*,*"));
    v.push(entry("SYMBOL", 1, 1, 1, 9000, "記号,一般,*,*,*,*,*,*,*"));
    v.push(entry("NUMERIC", 1, 1, 1, 7000, "名詞,数,*,*,*,*,*,*,*"));
    v.push(entry("ALPHA", 1, 1, 1, 7000, "名詞,一般,*,*,*,*,*,*,*"));
    v.push(entry("HIRAGANA", 1, 1, 1, 8000, "名詞,一般,*,*,*,*,*,*,*"));
    v.push(entry("KATAKANA", 1, 1, 1, 7000, "名詞,一般,*,*,*,*,*,*,*"));
    v
}

/// The connection costs.
fn matrix_costs() -> (v: Vec<i16>)
    ensures
        v@ == synthetic_costs(),
{
    let lsize = LSIZE as usize;
    let n = lsize * (RSIZE as usize);
    let mut costs = vec![1000i16; n];
    assert(costs@ =~= Seq::new(64, |i: int| 1000i16));
    set_cost(costs.as_mut_slice(), lsize, 0, 1, 0);
    set_cost(costs.as_mut_slice(), lsize, 0, 2, 200);
    set_cost(costs.as_mut_slice(), lsize, 1, 0, 0);
    set_cost(costs.as_mut_slice(), lsize, 2, 0, 400);
    set_cost(costs.as_mut_slice(), lsize, 1, 2, 0);
    set_cost(costs.as_mut_slice(), lsize, 2, 1, 0);
    set_cost(costs.as_mut_slice(), lsize, 1, 1, 1500);
    set_cost(costs.as_mut_slice(), lsize, 2, 2, 1500);
    costs
}

/// CharInfo of category `id`.
fn make_char_info(id: u32) -> (r: u32)
    requires
        id <= 10,
    ensures
        r == category_info(id as int),
{
    pack_char_info(1u32 << id, id as u8, 0, true, true)
}

/// The code point ranges of the categories.
fn char_ranges() -> (v: Vec<CharRange>)
    ensures
        v@ == synthetic_char_ranges(),
{
    let mut v: Vec<CharRange> = Vec::new();
    v.push(CharRange { lo: 0x0020, hi: 0x0020, info: make_char_info(1) });
    v.push(CharRange { lo: 0x0021, hi: 0x0021, info: make_char_info(3) });
    v.push(CharRange { lo: 0x3000, hi: 0x303F, info: make_char_info(3) });
    v.push(CharRange { lo: 0x0030, hi: 0x0039, info: make_char_info(4) });
    v.push(CharRange { lo: 0x0041, hi: 0x005A, info: make_char_info(5) });
    v.push(CharRange { lo: 0x0061, hi: 0x007A, info: make_char_info(5) });
    v.push(CharRange { lo: 0x3041, hi: 0x3096, info: make_char_info(6) });
    v.push(CharRange { lo: 0x30A1, hi: 0x30FC, info: make_char_info(7) });
    v.push(CharRange { lo: 0x4E00, hi: 0x4E00, info: make_char_info(8) });
    v.push(CharRange { lo: 0x4E01, hi: 0x9FFF, info: make_char_info(2) });
    v.push(CharRange { lo: 0x0391, hi: 0x03C9, info: make_char_info(9) });
    v.push(CharRange { lo: 0x0410, hi: 0x044F, info: make_char_info(10) });
    assert(v@ =~= synthetic_char_ranges());
    v
}

/// What the four images of a synthetic dictionary are.
pub open spec fn synthetic_dictionary_images(d: SyntheticDictionary) -> bool {
    &&& exists|es: Seq<DicEntry>, order: Seq<usize>, units: Seq<DaUnit>, stats| synthetic_sys_entries(es)
        && #[trigger] sysdic_built(es, order, units, 8, 8, "UTF-8".spec_bytes(), SYS_DIC_TYPE, d.sys_dic@, stats)
    &&& exists|es: Seq<DicEntry>, order: Seq<usize>, units: Seq<DaUnit>, stats| synthetic_unk_entries(es)
        && #[trigger] sysdic_built(es, order, units, 8, 8, "UTF-8".spec_bytes(), UNK_DIC_TYPE, d.unk_def@, stats)
    &&& d.matrix@ == matrix_bin(LSIZE, RSIZE, synthetic_costs())
    &&& d.char_def@ == char_bin(canonical_category_names(), synthetic_char_ranges())
    &&& d.sys_dic@.subrange(8, 12) == le_u32(SYS_DIC_TYPE)
    &&& d.unk_def@.subrange(8, 12) == le_u32(UNK_DIC_TYPE)
}

/// The curated lexicon is small: every surface has at most 16 characters
/// and every feature at most 64.
proof fn lemma_sys_entries_short(es: Seq<DicEntry>)
    requires
        synthetic_sys_entries(es),
    ensures
        sysdic_fits(es),
{
    reveal_strlit("すもも");
    reveal_strlit("名詞,一般,*,*,*,*,すもも,スモモ,スモモ");
    reveal_strlit("もも");
    reveal_strlit("名詞,一般,*,*,*,*,もも,モモ,モモ");
    reveal_strlit("うち");
    reveal_strlit("名詞,非自立,副詞可能,*,*,*,うち,ウチ,ウチ");
    reveal_strlit("東京");
    reveal_strlit("名詞,固有名詞,地名,一般,*,*,東京,トウキョウ,トウキョウ");
    reveal_strlit("日本");
    reveal_strlit("名詞,固有名詞,地名,一般,*,*,日本,ニホン,ニホン");
    reveal_strlit("人");
    reveal_strlit("名詞,接尾,一般,*,*,*,人,ニン,ニン");
    reveal_strlit("も");
    reveal_strlit("助詞,係助詞,*,*,*,*,も,モ,モ");
    reveal_strlit("の");
    reveal_strlit("助詞,連体化,*,*,*,*,の,ノ,ノ");
    reveal_strlit("は");
    reveal_strlit("助詞,係助詞,*,*,*,*,は,ハ,ワ");
    lemma_small_entries_fit(es);
}

/// The unknown-word entries are small in the same way.
proof fn lemma_unk_entries_short(es: Seq<DicEntry>)
    requires
        synthetic_unk_entries(es),
    ensures
        sysdic_fits(es),
{
    reveal_strlit("DEFAULT");
    reveal_strlit("記号,一般,*,*,*,*,*,*,*");
    reveal_strlit("SPACE");
    reveal_strlit("KANJI");
    reveal_strlit("名詞,一般,*,*,*,*,*,*,*");
    reveal_strlit("SYMBOL");
    reveal_strlit("NUMERIC");
    reveal_strlit("名詞,数,*,*,*,*,*,*,*");
    reveal_strlit("ALPHA");
    reveal_strlit("HIRAGANA");
    reveal_strlit("KATAKANA");
    lemma_small_entries_fit(es);
}

/// Builds the synthetic dictionary.
///
/// The system and unknown-word images are built from the curated lexicons
/// with 8×8 context ids and charset `UTF-8`; the matrix and character images
/// are exactly the curated costs and ranges. The lexicons are small enough
/// that the build always succeeds.
pub fn build_synthetic_dictionary() -> (r: SyntheticDictionary)
    ensures
        synthetic_dictionary_images(r),
{
    let entries = sys_entries();
    proof {
        lemma_sys_entries_short(entries@);
    }
    let charset = "UTF-8";
    let sys_dic = match build_sysdic_bytes(entries.as_slice(), LSIZE as u32, RSIZE as u32, charset, SYS_DIC_TYPE) {
        Ok((bytes, stats)) => {
            proof {
                let (order, units) = choose|order: Seq<usize>, units: Seq<DaUnit>|
                    sysdic_built(entries@, order, units, 8, 8, charset.spec_bytes(), SYS_DIC_TYPE, bytes@, stats);
                lemma_dict_type_field(entries@, order, units, 8, 8, charset.spec_bytes(), SYS_DIC_TYPE, bytes@, stats);
            }
            bytes
        },
        Err(_) => vstd::pervasive::unreached(),
    };
    let costs = matrix_costs();
    let matrix = match build_matrix_bytes(LSIZE, RSIZE, costs.as_slice()) {
        Ok(bytes) => bytes,
        Err(_) => vstd::pervasive::unreached(),
    };
    let names = canonical_categories();
    let ranges = char_ranges();
    proof {
        assert forall|k: int| 0 <= k < ranges@.len() implies range_well_ordered(#[trigger] ranges@[k]) by {}
    }
    let char_def = match build_char_bytes(names.as_slice(), ranges.as_slice()) {
        Ok(bytes) => bytes,
        Err(_) => vstd::pervasive::unreached(),
    };
    let unk = unk_entries();
    proof {
        lemma_unk_entries_short(unk@);
    }
    let unk_def = match build_unkdic_bytes(unk.as_slice(), LSIZE as u32, RSIZE as u32, charset) {
        Ok((bytes, stats)) => {
            proof {
                let (order, units) = choose|order: Seq<usize>, units: Seq<DaUnit>|
                    sysdic_built(unk@, order, units, 8, 8, charset.spec_bytes(), UNK_DIC_TYPE, bytes@, stats);
                lemma_dict_type_field(unk@, order, units, 8, 8, charset.spec_bytes(), UNK_DIC_TYPE, bytes@, stats);
            }
            bytes
        },
        Err(_) => vstd::pervasive::unreached(),
    };
    SyntheticDictionary { sys_dic, matrix, char_def, unk_def }
}

} // verus!
