//! Character property table (`char.bin`) writer.
//!
//! Layout: `[u32 csize LE][csize x 32-byte NUL-padded names][0xFFFF x u32 CharInfo LE]`.
//!
//! CharInfo bit layout: bits 0..18 type mask, 18..26 default type,
//! 26..30 length, bit 30 group, bit 31 invoke.

use vstd::prelude::*;
use crate::error::BuildError;
use vstd::string::StringSliceAdditionalSpecFns;
use crate::le_bytes::{le_u32, le_u32_seq, from_le4, push_u32_le, lemma_le_u32_seq_index, lemma_le_u32_roundtrip};

verus! {

/// Number of code-point entries in the CharInfo lookup table.
pub const CHARINFO_TABLE_SIZE: usize = 0xFFFF;

/// A contiguous range of code points that all receive one CharInfo value.
#[derive(Debug, Clone, Copy)]
pub struct CharRange {
    /// First code point in the range (inclusive)
    pub lo: u32,
    /// Last code point in the range (inclusive)
    pub hi: u32,
    /// Packed CharInfo value for every code point in `lo..=hi`
    pub info: u32,
}

/// The fields of a packed CharInfo value, as the reader decodes them.
pub open spec fn char_info_fields(r: u32, type_mask: u32, default_type: u8, length: u8, group: bool, invoke: bool) -> bool {
    &&& r & 0x3_FFFF == type_mask & 0x3_FFFF
    &&& (r >> 18) & 0xFF == default_type as u32
    &&& (r >> 26) & 0xF == (length as u32) & 0xF
    &&& (r >> 30) & 1 == (if group { 1u32 } else { 0u32 })
    &&& r >> 31 == (if invoke { 1u32 } else { 0u32 })
}

/// The packed CharInfo value with the given fields.
pub open spec fn spec_pack_char_info(type_mask: u32, default_type: u8, length: u8, group: bool, invoke: bool) -> u32 {
    (type_mask & 0x3_FFFF) | ((default_type as u32) << 18) | (((length as u32) & 0xF) << 26)
        | ((if group { 1u32 } else { 0u32 }) << 30) | ((if invoke { 1u32 } else { 0u32 }) << 31)
}

/// Two packed values with the same decoded fields are equal.
pub proof fn lemma_char_info_fields_unique(r: u32, type_mask: u32, default_type: u8, length: u8, group: bool, invoke: bool)
    requires
        char_info_fields(r, type_mask, default_type, length, group, invoke),
    ensures
        r == spec_pack_char_info(type_mask, default_type, length, group, invoke),
{
    let g: u32 = if group { 1 } else { 0 };
    let i: u32 = if invoke { 1 } else { 0 };
    let d = default_type as u32;
    let l = length as u32;
    assert(r == (type_mask & 0x3_FFFF) | (d << 18) | ((l & 0xF) << 26) | (g << 30) | (i << 31)) by (bit_vector)
        requires
            r & 0x3_FFFF == type_mask & 0x3_FFFF,
            (r >> 18) & 0xFF == d,
            (r >> 26) & 0xF == l & 0xF,
            (r >> 30) & 1 == g,
            r >> 31 == i,
            d < 256,
            g <= 1,
            i <= 1;
}

/// Pack a CharInfo `u32` value from its components.
///
/// The result decodes back to exactly the given fields (see
/// [`char_info_fields`]): the low 18 bits of `type_mask`, `default_type`, the
/// low 4 bits of `length`, and the two flags.
pub fn pack_char_info(type_mask: u32, default_type: u8, length: u8, group: bool, invoke: bool) -> (r: u32)
    ensures
        r == spec_pack_char_info(type_mask, default_type, length, group, invoke),
        char_info_fields(r, type_mask, default_type, length, group, invoke),
{
    let g: u32 = if group { 1 } else { 0 };
    let i: u32 = if invoke { 1 } else { 0 };
    let d: u32 = default_type as u32;
    let l: u32 = length as u32;
    let r: u32 = (type_mask & 0x3_FFFF) | (d << 18) | ((l & 0xF) << 26) | (g << 30) | (i << 31);
    assert(
        r & 0x3_FFFF == type_mask & 0x3_FFFF
        && (r >> 18) & 0xFF == d
        && (r >> 26) & 0xF == l & 0xF
        && (r >> 30) & 1 == g
        && r >> 31 == i
    ) by (bit_vector)
        requires
            r == (type_mask & 0x3_FFFF) | (d << 18) | ((l & 0xF) << 26) | (g << 30) | (i << 31),
            d < 256,
            g <= 1,
            i <= 1;
    r
}

/// Highest code point stored in the table.
pub open spec fn max_table_code_point() -> int {
    CHARINFO_TABLE_SIZE - 1
}

/// Category names in category-id order: the ids the dictionary reader
/// assigns to character categories.
pub open spec fn canonical_category_names() -> Seq<&'static str> {
    seq!["DEFAULT", "SPACE", "KANJI", "SYMBOL", "NUMERIC", "ALPHA", "HIRAGANA", "KATAKANA", "KANJINUMERIC", "GREEK", "CYRILLIC"]
}

/// The canonical category names, in id order.
pub fn canonical_categories() -> (v: Vec<&'static str>)
    ensures
        v@ == canonical_category_names(),
{
    let mut v: Vec<&'static str> = Vec::new();
    v.push("DEFAULT");
    v.push("SPACE");
    v.push("KANJI");
    v.push("SYMBOL");
    v.push("NUMERIC");
    v.push("ALPHA");
    v.push("HIRAGANA");
    v.push("KATAKANA");
    v.push("KANJINUMERIC");
    v.push("GREEK");
    v.push("CYRILLIC");
    assert(v@ =~= canonical_category_names());
    v
}

/// Whether `r` assigns its info to code point `cp` of the table (its upper
/// end is clamped to the table).
pub open spec fn range_covers(r: CharRange, cp: int) -> bool {
    r.lo <= cp && cp <= r.hi && cp <= max_table_code_point()
}

/// The CharInfo stored for `cp`: the info of the last range covering it, or 0.
pub open spec fn char_table_entry(ranges: Seq<CharRange>, cp: int) -> u32
    decreases ranges.len(),
{
    if ranges.len() == 0 {
        0
    } else if range_covers(ranges.last(), cp) {
        ranges.last().info
    } else {
        char_table_entry(ranges.drop_last(), cp)
    }
}

/// The whole CharInfo table.
pub open spec fn char_table(ranges: Seq<CharRange>) -> Seq<u32> {
    Seq::new(CHARINFO_TABLE_SIZE as nat, |cp: int| char_table_entry(ranges, cp))
}

/// The 32-byte NUL-padded name field: at most 31 name bytes, then zeros.
pub open spec fn name_field(name: Seq<u8>) -> Seq<u8> {
    Seq::new(32, |i: int| if i < name.len() && i < 31 { name[i] } else { 0u8 })
}

/// The name fields of all categories, in order.
pub open spec fn name_fields(names: Seq<&str>) -> Seq<u8>
    decreases names.len(),
{
    if names.len() == 0 {
        Seq::empty()
    } else {
        name_fields(names.drop_last()) + name_field(names.last().spec_bytes())
    }
}

/// The complete `char.bin` image.
pub open spec fn char_bin(names: Seq<&str>, ranges: Seq<CharRange>) -> Seq<u8> {
    le_u32(names.len() as u32) + name_fields(names) + le_u32_seq(char_table(ranges))
}

/// A range whose clamped end lies more than one below its start makes the
/// table fill step compute a negative count.
pub open spec fn range_well_ordered(r: CharRange) -> bool {
    r.lo <= max_table_code_point() ==> r.lo <= (if r.hi <= max_table_code_point() { r.hi as int } else { max_table_code_point() }) + 1
}

/// Each category name takes 32 bytes.
pub proof fn lemma_name_fields_len(names: Seq<&str>)
    ensures
        name_fields(names).len() == 32 * names.len(),
    decreases names.len(),
{
    if names.len() > 0 {
        lemma_name_fields_len(names.drop_last());
    }
}

/// Appends the 32-byte name field of `name`.
fn push_name_field(buf: &mut Vec<u8>, name: &str)
    ensures
        final(buf)@ == old(buf)@ + name_field(name.spec_bytes()),
{
    let bytes = name.as_bytes();
    let copy_len: usize = if bytes.len() < 31 { bytes.len() } else { 31 };
    let mut i: usize = 0;
    while i < 32
        invariant
            i <= 32,
            copy_len == (if bytes@.len() < 31 { bytes@.len() } else { 31 }),
            bytes@ == name.spec_bytes(),
            buf@ == old(buf)@ + name_field(name.spec_bytes()).take(i as int),
        decreases 32 - i,
    {
        let b: u8 = if i < copy_len { bytes[i] } else { 0 };
        assert(b == name_field(name.spec_bytes())[i as int]);
        buf.push(b);
        i += 1;
        assert(buf@ =~= old(buf)@ + name_field(name.spec_bytes()).take(i as int));
    }
    assert(name_field(name.spec_bytes()).take(32) =~= name_field(name.spec_bytes()));
}

/// Build the CharInfo table by applying `ranges` in order.
fn build_char_table(ranges: &[CharRange]) -> (table: Vec<u32>)
    requires
        forall|k: int| 0 <= k < ranges@.len() ==> range_well_ordered(#[trigger] ranges@[k]),
    ensures
        table@ == char_table(ranges@),
{
    let mut table: Vec<u32> = Vec::new();
    let mut n: usize = 0;
    while n < CHARINFO_TABLE_SIZE
        invariant
            n <= CHARINFO_TABLE_SIZE,
            table@.len() == n,
            forall|c: int| 0 <= c < n ==> table@[c] == 0,
        decreases CHARINFO_TABLE_SIZE - n,
    {
        table.push(0);
        n += 1;
    }
    let mut k: usize = 0;
    while k < ranges.len()
        invariant
            k <= ranges@.len(),
            table@.len() == CHARINFO_TABLE_SIZE,
            forall|j: int| 0 <= j < ranges@.len() ==> range_well_ordered(#[trigger] ranges@[j]),
            forall|c: int| 0 <= c < CHARINFO_TABLE_SIZE ==> table@[c] == char_table_entry(ranges@.take(k as int), c),
        decreases ranges.len() - k,
    {
        let r = ranges[k];
        let lo: usize = r.lo as usize;
        let hi: usize = if (r.hi as usize) < CHARINFO_TABLE_SIZE - 1 { r.hi as usize } else { CHARINFO_TABLE_SIZE - 1 };
        assert(ranges@.take(k + 1).drop_last() =~= ranges@.take(k as int));
        assert(ranges@.take(k + 1).last() == r);
        if lo < CHARINFO_TABLE_SIZE {
            assert(range_well_ordered(ranges@[k as int]));
            let mut cp: usize = lo;
            while cp <= hi
                invariant
                    lo <= cp <= hi + 1,
                    hi < CHARINFO_TABLE_SIZE,
                    lo == r.lo,
                    hi as int == (if r.hi <= max_table_code_point() { r.hi as int } else { max_table_code_point() }),
                    table@.len() == CHARINFO_TABLE_SIZE,
                    forall|c: int| 0 <= c < CHARINFO_TABLE_SIZE ==> table@[c] == (if lo <= c < cp { r.info } else { char_table_entry(ranges@.take(k as int), c) }),
                decreases hi + 1 - cp,
            {
                table.set(cp, r.info);
                cp += 1;
            }
        }
        k += 1;
        assert forall|c: int| 0 <= c < CHARINFO_TABLE_SIZE implies table@[c] == char_table_entry(ranges@.take(k as int), c) by {
            assert(ranges@.take(k as int).drop_last() =~= ranges@.take(k - 1));
        }
    }
    assert(ranges@.take(k as int) =~= ranges@);
    assert(table@ =~= char_table(ranges@));
    table
}

/// Build the `char.bin` byte image.
///
/// The result is exactly [`char_bin`]: the category count, one 32-byte
/// NUL-padded name field per category, and the CharInfo of every code point
/// `0..0xFFFF`, where a later range overrides an earlier one and uncovered
/// code points get 0. The builder never fails.
pub fn build_char_bytes(categories: &[&str], ranges: &[CharRange]) -> (r: Result<Vec<u8>, BuildError>)
    requires
        forall|k: int| 0 <= k < ranges@.len() ==> range_well_ordered(#[trigger] ranges@[k]),
    ensures
        r matches Ok(bytes) && bytes@ == char_bin(categories@, ranges@),
{
    let mut buf: Vec<u8> = Vec::new();
    push_u32_le(&mut buf, categories.len() as u32);
    let mut i: usize = 0;
    while i < categories.len()
        invariant
            i <= categories@.len(),
            buf@ == le_u32(categories@.len() as u32) + name_fields(categories@.take(i as int)),
        decreases categories.len() - i,
    {
        push_name_field(&mut buf, categories[i]);
        i += 1;
        assert(categories@.take(i as int).drop_last() =~= categories@.take(i - 1));
        assert(buf@ =~= le_u32(categories@.len() as u32) + name_fields(categories@.take(i as int)));
    }
    assert(categories@.take(i as int) =~= categories@);
    let table = build_char_table(ranges);
    let ghost prefix = buf@;
    let mut j: usize = 0;
    while j < table.len()
        invariant
            j <= table@.len(),
            buf@ == prefix + le_u32_seq(table@.take(j as int)),
        decreases table.len() - j,
    {
        push_u32_le(&mut buf, table[j]);
        j += 1;
        assert(table@.take(j as int).drop_last() =~= table@.take(j - 1));
        assert(buf@ =~= prefix + le_u32_seq(table@.take(j as int)));
    }
    assert(table@.take(j as int) =~= table@);
    Ok(buf)
}

/// Reading the `u32` at the table slot of code point `cp` in a built
/// `char.bin` gives back the CharInfo of the last range covering `cp`.
pub proof fn lemma_char_bin_lookup(names: Seq<&str>, ranges: Seq<CharRange>, cp: int)
    requires
        0 <= cp < CHARINFO_TABLE_SIZE,
    ensures
        ({
            let b = char_bin(names, ranges);
            let off = 4 + 32 * names.len() + 4 * cp;
            &&& b.len() == 4 + 32 * names.len() + 4 * CHARINFO_TABLE_SIZE
            &&& from_le4(b[off], b[off + 1], b[off + 2], b[off + 3]) == char_table_entry(ranges, cp)
        }),
{
    let b = char_bin(names, ranges);
    let t = char_table(ranges);
    lemma_name_fields_len(names);
    lemma_le_u32_seq_index(t, cp);
    lemma_le_u32_roundtrip(t[cp]);
    let off = 4 + 32 * names.len() + 4 * cp;
    let head = le_u32(names.len() as u32) + name_fields(names);
    assert(head.len() == 4 + 32 * names.len());
    assert(b =~= head + le_u32_seq(t));
    assert forall|k: int| 0 <= k < 4 implies b[off + k] == le_u32(t[cp])[k] by {
        assert(le_u32_seq(t).subrange(4 * cp, 4 * cp + 4)[k] == le_u32_seq(t)[4 * cp + k]);
    }
}

} // verus!
