//! Parsing of MeCab source dictionaries: `char.def`, `unk.def`,
//! `matrix.def` and the lexicon CSV files.
//!
//! The parsers take decoded text and produce exactly what the binary writers
//! consume: character ranges with packed CharInfo, dictionary entries and the
//! flat connection-cost array. Each one's contract is a specification of the
//! file format over the character sequence of the text.

use vstd::prelude::*;
use vstd::string::StringExecFns;
use vstd::string::StringSliceAdditionalSpecFns;
use crate::scan::{
    trim, words, lines_of, find_first, parse_unsigned, parse_signed, trim_bounds, word_bounds, line_bounds,
    find_char, parse_unsigned_at, parse_i64_at, lemma_find_first, int_error, int_error_at,
};
use crate::text::{chars_of, string_of_range, join2, join3, usize_text};
use crate::output_format::{decimal, hex4, hex4_text, i64_text, signed_decimal};
use crate::decode::{debug_quoted, debug_text};
use crate::sysdic_writer::{DicEntry, WriteSysDicStats, build_sysdic_bytes, build_unkdic_bytes, sysdic_built, sysdic_fits, SYS_DIC_TYPE, UNK_DIC_TYPE};
use crate::double_array::DaUnit;
use crate::error::BuildError;
use crate::matrix_writer::{set_cost, cost_index, build_matrix_bytes, matrix_bin};
use crate::char_writer::{CharRange, pack_char_info, spec_pack_char_info, canonical_category_names, canonical_categories, build_char_bytes, char_bin, range_well_ordered};

verus! {

/// Highest code point of the `char.bin` lookup table.
pub const MAX_CODE_POINT: u32 = 0xFFFE;

/// The `INVOKE GROUP LENGTH` triple of one `char.def` category.
#[derive(Debug, Clone, Copy)]
pub struct CategoryFlags {
    /// Run unknown-word processing even when the lexicon matched.
    pub invoke: bool,
    /// Group a whole run of same-category characters into one candidate.
    pub group: bool,
    /// Emit prefix candidates of 1..=`length` characters (4 bit field).
    pub length: u8,
}

/// A parsed `char.def`.
#[derive(Debug)]
pub struct CharDefSource {
    /// Flags per canonical category id; `None` when the source never declares it.
    pub flags: [Option<CategoryFlags>; 11],
    /// Code-point ranges in declaration order (later entries override earlier ones).
    pub ranges: Vec<CharRange>,
}

/// Counts reported after a successful compile.
pub struct CompileStats {
    /// Lexicon entries written to `sys.dic`.
    pub sys_tokens: usize,
    /// Entries written to `unk.dic`.
    pub unk_tokens: usize,
    /// Connection-matrix dimensions.
    pub matrix_size: (u16, u16),
    /// Byte sizes of the four outputs, in the order sys/matrix/char/unk.
    pub bytes: [usize; 4],
}

// ── Specification of the formats ───────────────────────────────────────────

/// The first canonical id at or after `k` whose name is `name`.
pub open spec fn category_index_from(name: Seq<char>, k: int) -> Option<usize>
    decreases 11 - k,
{
    if k < 0 || k >= 11 {
        None
    } else if canonical_category_names()[k]@ == name {
        Some(k as usize)
    } else {
        category_index_from(name, k + 1)
    }
}

/// The canonical id of a category name.
pub open spec fn category_index(name: Seq<char>) -> Option<usize> {
    category_index_from(name, 0)
}

/// A source line without its `#` comment and surrounding whitespace.
pub open spec fn strip_comment_spec(s: Seq<char>) -> Seq<char> {
    match find_first(s, '#') {
        Some(i) => trim(s.take(i)),
        None => trim(s),
    }
}

/// A `0x`/`0X` hexadecimal code point.
pub open spec fn code_point(s: Seq<char>) -> Option<u32> {
    if s.len() >= 2 && s[0] == '0' && (s[1] == 'x' || s[1] == 'X') {
        match parse_unsigned(s.skip(2), 16, u32::MAX as int) {
            Some(v) => Some(v as u32),
            None => None,
        }
    } else {
        None
    }
}

/// Index of the first `".."` at or after `i`.
pub open spec fn find_dots(s: Seq<char>, i: int) -> Option<int>
    decreases s.len() - i,
{
    if i < 0 || i + 1 >= s.len() {
        None
    } else if s[i] == '.' && s[i + 1] == '.' {
        Some(i)
    } else {
        find_dots(s, i + 1)
    }
}

/// A code point or an inclusive `lo..hi` range of code points.
pub open spec fn code_point_range(s: Seq<char>) -> Option<(u32, u32)> {
    match find_dots(s, 0) {
        Some(i) => match (code_point(s.take(i)), code_point(s.skip(i + 2))) {
            (Some(lo), Some(hi)) => if lo <= hi { Some((lo, hi)) } else { None },
            _ => None,
        },
        None => match code_point(s) {
            Some(c) => Some((c, c)),
            None => None,
        },
    }
}

/// A mapping line starts with `0x` or `0X`.
pub open spec fn is_mapping_line(l: Seq<char>) -> bool {
    l.len() >= 2 && l[0] == '0' && (l[1] == 'x' || l[1] == 'X')
}

/// The ids of `names`, if every one is a canonical category.
pub open spec fn category_ids(names: Seq<Seq<char>>) -> Option<Seq<usize>>
    decreases names.len(),
{
    if names.len() == 0 {
        Some(Seq::empty())
    } else {
        match (category_ids(names.drop_last()), category_index(names.last())) {
            (Some(ids), Some(id)) => Some(ids.push(id)),
            _ => None,
        }
    }
}

/// A mapping line `0xXXXX[..0xYYYY] CATEGORY [COMPATIBLE …]`: the range, the
/// default category and the compatible ones.
pub open spec fn mapping_spec(l: Seq<char>) -> Option<(u32, u32, usize, Seq<usize>)> {
    let ws = words(l);
    if ws.len() < 2 {
        None
    } else {
        match (code_point_range(ws[0]), category_index(ws[1]), category_ids(ws.skip(2))) {
            (Some(r), Some(d), Some(c)) => Some((r.0, r.1, d, c)),
            _ => None,
        }
    }
}

/// A category line `NAME INVOKE GROUP LENGTH` (further words ignored).
pub open spec fn category_spec(l: Seq<char>) -> Option<(usize, CategoryFlags)> {
    let ws = words(l);
    if ws.len() < 4 {
        None
    } else {
        match (category_index(ws[0]), parse_unsigned(ws[1], 10, u32::MAX as int), parse_unsigned(ws[2], 10, u32::MAX as int),
            parse_unsigned(ws[3], 10, u32::MAX as int)) {
            (Some(id), Some(inv), Some(grp), Some(len)) => if len <= 15 {
                Some((id, CategoryFlags { invoke: inv != 0, group: grp != 0, length: len as u8 }))
            } else {
                None
            },
            _ => None,
        }
    }
}

/// No category declared yet.
pub open spec fn no_flags() -> Seq<Option<CategoryFlags>> {
    Seq::new(11, |i: int| None::<CategoryFlags>)
}

/// The declared flags and the mappings of the lines, or `None` at the first
/// malformed line.
pub open spec fn char_def_lines(lines: Seq<Seq<char>>) -> Option<(Seq<Option<CategoryFlags>>, Seq<(u32, u32, usize, Seq<usize>)>)>
    decreases lines.len(),
{
    if lines.len() == 0 {
        Some((no_flags(), Seq::empty()))
    } else {
        match char_def_lines(lines.drop_last()) {
            None => None,
            Some((fl, maps)) => {
                let l = strip_comment_spec(lines.last());
                if l.len() == 0 {
                    Some((fl, maps))
                } else if is_mapping_line(l) {
                    match mapping_spec(l) {
                        Some(m) => Some((fl, maps.push(m))),
                        None => None,
                    }
                } else {
                    match category_spec(l) {
                        Some((id, f)) => Some((fl.update(id as int, Some(f)), maps)),
                        None => None,
                    }
                }
            },
        }
    }
}

/// The message of a malformed code point or range (meaningful when
/// [`code_point_range`] rejects it): the first end that does not parse, or
/// the whole range when it runs backwards.
pub open spec fn code_point_range_error(s: Seq<char>) -> Seq<char> {
    match find_dots(s, 0) {
        Some(i) => if code_point(s.take(i)) is None {
            code_point_error(s.take(i))
        } else if code_point(s.skip(i + 2)) is None {
            code_point_error(s.skip(i + 2))
        } else {
            "range "@ + debug_text(s) + " runs backwards"@
        },
        None => code_point_error(s),
    }
}

/// The first of `names` that is no canonical category (meaningful when
/// [`category_ids`] rejects them).
pub open spec fn first_unknown(names: Seq<Seq<char>>) -> Seq<char>
    decreases names.len(),
{
    if names.len() == 0 {
        Seq::empty()
    } else if category_ids(names.drop_last()) is None {
        first_unknown(names.drop_last())
    } else {
        names.last()
    }
}

/// The message of a malformed mapping line `l` at line `no` (meaningful
/// when [`mapping_spec`] rejects it).
pub open spec fn mapping_error(l: Seq<char>, no: nat) -> Seq<char> {
    let ws = words(l);
    line_error_message("char.def"@, no,
        if ws.len() < 1 {
            "empty mapping"@
        } else if code_point_range(ws[0]) is None {
            code_point_range_error(ws[0])
        } else if ws.len() < 2 {
            ws[0] + " has no category name"@
        } else if category_index(ws[1]) is None {
            unknown_category_message(ws[1])
        } else {
            unknown_category_message(first_unknown(ws.skip(2)))
        })
}

/// The message of a malformed category line `l` at line `no` (meaningful
/// when [`category_spec`] rejects it).
pub open spec fn category_error(l: Seq<char>, no: nat) -> Seq<char> {
    let ws = words(l);
    line_error_message("char.def"@, no,
        if ws.len() < 4 {
            "expected 'NAME INVOKE GROUP LENGTH', got "@ + debug_text(l)
        } else if category_index(ws[0]) is None {
            unknown_category_message(ws[0])
        } else if parse_unsigned(ws[1], 10, u32::MAX as int) is None {
            u32_field_error("INVOKE"@, ws[1])
        } else if parse_unsigned(ws[2], 10, u32::MAX as int) is None {
            u32_field_error("GROUP"@, ws[2])
        } else if parse_unsigned(ws[3], 10, u32::MAX as int) is None {
            u32_field_error("LENGTH"@, ws[3])
        } else {
            "LENGTH "@ + decimal(parse_unsigned(ws[3], 10, u32::MAX as int)->0 as nat) + " does not fit the 4 bit field (max 15)"@
        })
}

/// The message of the first malformed line (meaningful when
/// [`char_def_lines`] rejects the lines).
pub open spec fn char_def_lines_error(lines: Seq<Seq<char>>) -> Seq<char>
    decreases lines.len(),
{
    if lines.len() == 0 {
        Seq::empty()
    } else if char_def_lines(lines.drop_last()) is None {
        char_def_lines_error(lines.drop_last())
    } else {
        let l = strip_comment_spec(lines.last());
        if is_mapping_line(l) {
            mapping_error(l, lines.len())
        } else {
            category_error(l, lines.len())
        }
    }
}

/// The index of the first mapping at or after `t` whose category `fl`
/// leaves undefined (`maps.len()` when there is none).
pub open spec fn first_undefined(fl: Seq<Option<CategoryFlags>>, maps: Seq<(u32, u32, usize, Seq<usize>)>, t: int) -> int
    decreases maps.len() - t,
{
    if t < 0 || t >= maps.len() {
        maps.len() as int
    } else if fl[maps[t].2 as int] is None {
        t
    } else {
        first_undefined(fl, maps, t + 1)
    }
}

proof fn lemma_first_undefined_at(fl: Seq<Option<CategoryFlags>>, maps: Seq<(u32, u32, usize, Seq<usize>)>, i: int, j: int)
    requires
        0 <= i <= j < maps.len(),
        forall|t: int| 0 <= t < j ==> fl[maps[t].2 as int] is Some,
        fl[maps[j].2 as int] is None,
    ensures
        first_undefined(fl, maps, i) == j,
    decreases j - i,
{
    if i < j {
        lemma_first_undefined_at(fl, maps, i + 1, j);
    }
}

/// The message `parse_char_def` fails with (meaningful when
/// [`char_def_result`] rejects the text): the first malformed line's, else
/// a missing `DEFAULT` category, else the first mapping to an undeclared
/// category, with its range in hexadecimal and the category's name.
pub open spec fn char_def_error(text: Seq<char>) -> Seq<char> {
    match char_def_lines(lines_of(text)) {
        None => char_def_lines_error(lines_of(text)),
        Some((fl, maps)) => if fl[0] is None {
            "char.def does not define the mandatory DEFAULT category"@
        } else {
            let m = maps[first_undefined(fl, maps, 0)];
            "char.def maps 0x"@ + hex4(m.0 as nat) + "..0x"@ + hex4(m.1 as nat) + " to category "@
                + canonical_category_names()[m.2 as int]@ + " before defining it"@
        },
    }
}

/// The type mask `init | 1 << id | …` over `ids`.
pub open spec fn type_mask(init: u32, ids: Seq<usize>) -> u32
    decreases ids.len(),
{
    if ids.len() == 0 {
        init
    } else {
        type_mask(init, ids.drop_last()) | (1u32 << (ids.last() as u32))
    }
}

/// The character range of a mapping whose default category has flags `f`.
pub open spec fn mapping_range(m: (u32, u32, usize, Seq<usize>), f: CategoryFlags) -> CharRange {
    CharRange { lo: m.0, hi: m.1, info: spec_pack_char_info(type_mask(1u32 << (m.2 as u32), m.3), m.2 as u8, f.length, f.group, f.invoke) }
}

/// The range that assigns `DEFAULT` (flags `d`) to every code point.
pub open spec fn default_range(d: CategoryFlags) -> CharRange {
    CharRange { lo: 0, hi: MAX_CODE_POINT, info: spec_pack_char_info(1, 0, d.length, d.group, d.invoke) }
}

/// What a `char.def` text parses to: the flags per category, and the base
/// `DEFAULT` range followed by one range per mapping. `None` on a malformed
/// line, without a `DEFAULT` category, or when a mapping names a category
/// the file never declares.
pub open spec fn char_def_result(text: Seq<char>) -> Option<(Seq<Option<CategoryFlags>>, Seq<CharRange>)> {
    match char_def_lines(lines_of(text)) {
        None => None,
        Some((fl, maps)) => {
            if fl[0] is None || exists|k: int| 0 <= k < maps.len() && fl[maps[k].2 as int] is None {
                None
            } else {
                Some((fl, seq![default_range(fl[0]->0)] + maps.map_values(|m: (u32, u32, usize, Seq<usize>)| mapping_range(m, fl[m.2 as int]->0))))
            }
        },
    }
}

proof fn lemma_char_def_lines_ordered(lines: Seq<Seq<char>>)
    ensures
        char_def_lines(lines) matches Some((fl, maps)) ==> forall|k: int| 0 <= k < maps.len() ==> (#[trigger] maps[k]).0 <= maps[k].1,
    decreases lines.len(),
{
    if lines.len() > 0 {
        lemma_char_def_lines_ordered(lines.drop_last());
    }
}

/// Every range a `char.def` text parses to runs forwards: mappings are
/// checked to, and the `DEFAULT` range covers the whole table.
proof fn lemma_char_def_ranges_ordered(text: Seq<char>)
    ensures
        char_def_result(text) matches Some(p) ==> forall|k: int| 0 <= k < p.1.len() ==> range_well_ordered(#[trigger] p.1[k]),
{
    lemma_char_def_lines_ordered(lines_of(text));
    if let Some((fl, maps)) = char_def_lines(lines_of(text)) {
        if let Some(p) = char_def_result(text) {
            assert forall|k: int| 0 <= k < p.1.len() implies range_well_ordered(#[trigger] p.1[k]) by {
                if k > 0 {
                    assert(p.1[k] == mapping_range(maps[k - 1], fl[maps[k - 1].2 as int]->0));
                }
            }
        }
    }
}

// ── Parsing ────────────────────────────────────────────────────────────────

/// The error message `"<file> line <n>: <msg>"`.
pub open spec fn line_error_message(file: Seq<char>, line_no: nat, msg: Seq<char>) -> Seq<char> {
    file + " line "@ + crate::output_format::decimal(line_no) + ": "@ + msg
}

/// `"<file> line <n>: <msg>"` (see [`line_error_message`]).
fn line_error(file: &str, line_no: usize, msg: &str) -> (r: String)
    ensures
        r@ == line_error_message(file@, line_no as nat, msg@),
{
    let n = usize_text(line_no);
    let head = join3(file, " line ", n.as_str());
    join3(head.as_str(), ": ", msg)
}

/// Whether `cs[lo..hi]` holds exactly the characters of `s`.
fn chars_equal(cs: &[char], lo: usize, hi: usize, s: &str) -> (b: bool)
    requires
        lo <= hi <= cs@.len(),
    ensures
        b == (cs@.subrange(lo as int, hi as int) == s@),
{
    let t = chars_of(s);
    if hi - lo != t.len() {
        return false;
    }
    let mut i: usize = 0;
    while i < t.len()
        invariant
            i <= t@.len(),
            hi - lo == t@.len(),
            t@ == s@,
            lo <= hi <= cs@.len(),
            forall|j: int| 0 <= j < i ==> cs@[lo + j] == t@[j],
        decreases t@.len() - i,
    {
        if cs[lo + i] != t[i] {
            assert(cs@.subrange(lo as int, hi as int)[i as int] != t@[i as int]);
            return false;
        }
        i += 1;
    }
    assert(cs@.subrange(lo as int, hi as int) =~= s@);
    true
}

/// Resolve a category name to its canonical id.
pub fn canonical_id(cs: &[char], lo: usize, hi: usize) -> (r: Option<usize>)
    requires
        lo <= hi <= cs@.len(),
    ensures
        r == category_index(cs@.subrange(lo as int, hi as int)),
        r matches Some(id) ==> id < 11,
{
    let names = canonical_categories();
    let ghost name = cs@.subrange(lo as int, hi as int);
    let mut k: usize = 0;
    while k < 11
        invariant
            k <= 11,
            names@ == canonical_category_names(),
            lo <= hi <= cs@.len(),
            name == cs@.subrange(lo as int, hi as int),
            category_index(name) == category_index_from(name, k as int),
        decreases 11 - k,
    {
        if chars_equal(cs, lo, hi, names[k]) {
            return Some(k);
        }
        k += 1;
    }
    None
}

/// The message for a category name that no canonical category has: the
/// name as `{:?}` writes it, then the list of the categories the reader
/// defines.
pub open spec fn unknown_category_message(name: Seq<char>) -> Seq<char> {
    "unknown character category "@ + debug_text(name)
        + ": mecrab's CharCategory only defines DEFAULT, SPACE, KANJI, SYMBOL, NUMERIC, ALPHA, HIRAGANA, KATAKANA, KANJINUMERIC, GREEK, CYRILLIC. A dictionary using other categories cannot be represented — rename the category or extend CharCategory first."@
}

/// The message for the category name `cs[lo..hi]` (see [`unknown_category_message`]).
fn unknown_category(cs: &[char], lo: usize, hi: usize) -> (r: String)
    requires
        lo <= hi <= cs@.len(),
    ensures
        r@ == unknown_category_message(cs@.subrange(lo as int, hi as int)),
{
    let name = string_of_range(cs, lo, hi);
    join3("unknown character category ", debug_quoted(name.as_str()).as_str(),
        ": mecrab's CharCategory only defines DEFAULT, SPACE, KANJI, SYMBOL, NUMERIC, ALPHA, HIRAGANA, KATAKANA, KANJINUMERIC, GREEK, CYRILLIC. A dictionary using other categories cannot be represented — rename the category or extend CharCategory first.")
}

/// The message for the `u32` field `s` named `what` that does not parse:
/// the field as `{:?}` writes it, then why.
pub open spec fn u32_field_error(what: Seq<char>, s: Seq<char>) -> Seq<char> {
    "bad "@ + what + " "@ + debug_text(s) + ": "@ + int_error(s, 10, u32::MAX as int, false)
}

/// The message for the `u32` field `cs[lo..hi]` (see [`u32_field_error`]).
fn u32_field_message(cs: &[char], lo: usize, hi: usize, what: &str) -> (r: String)
    requires
        lo <= hi <= cs@.len(),
    ensures
        r@ == u32_field_error(what@, cs@.subrange(lo as int, hi as int)),
{
    let field = string_of_range(cs, lo, hi);
    let e = int_error_at(cs, lo, hi, 10, 0xFFFF_FFFF, false);
    let head = join3("bad ", what, " ");
    let mid = join3(head.as_str(), debug_quoted(field.as_str()).as_str(), ": ");
    join2(mid.as_str(), e.as_str())
}

/// The message for a code point `p` that does not parse: without a `0x`
/// prefix, or with digits that do not spell a `u32`.
pub open spec fn code_point_error(p: Seq<char>) -> Seq<char> {
    if p.len() >= 2 && p[0] == '0' && (p[1] == 'x' || p[1] == 'X') {
        "bad code point "@ + debug_text(p) + ": "@ + int_error(p.skip(2), 16, u32::MAX as int, false)
    } else {
        debug_text(p) + " is not a 0x… code point"@
    }
}

/// The message for the code point `cs[lo..hi]` (see [`code_point_error`]).
fn code_point_message(cs: &[char], lo: usize, hi: usize) -> (r: String)
    requires
        lo <= hi <= cs@.len(),
    ensures
        r@ == code_point_error(cs@.subrange(lo as int, hi as int)),
{
    let ghost p = cs@.subrange(lo as int, hi as int);
    let field = string_of_range(cs, lo, hi);
    let q = debug_quoted(field.as_str());
    if hi - lo >= 2 && cs[lo] == '0' && (cs[lo + 1] == 'x' || cs[lo + 1] == 'X') {
        proof {
            assert(p.skip(2) =~= cs@.subrange(lo + 2, hi as int));
        }
        let e = int_error_at(cs, lo + 2, hi, 16, 0xFFFF_FFFF, false);
        let head = join3("bad code point ", q.as_str(), ": ");
        join2(head.as_str(), e.as_str())
    } else {
        join2(q.as_str(), " is not a 0x… code point")
    }
}

/// The bounds of `cs[lo..hi]` without its `#` comment and surrounding whitespace.
pub fn strip_comment(cs: &[char], lo: usize, hi: usize) -> (r: (usize, usize))
    requires
        lo <= hi <= cs@.len(),
    ensures
        lo <= r.0 <= r.1 <= hi,
        cs@.subrange(r.0 as int, r.1 as int) == strip_comment_spec(cs@.subrange(lo as int, hi as int)),
{
    let ghost s = cs@.subrange(lo as int, hi as int);
    match find_char(cs, lo, hi, '#') {
        Some(i) => {
            proof {
                lemma_find_first(s, '#');
                assert(s.take(i - lo) =~= cs@.subrange(lo as int, i as int));
            }
            trim_bounds(cs, lo, i)
        },
        None => trim_bounds(cs, lo, hi),
    }
}

/// A `0x`/`0X` hexadecimal code point.
fn parse_code_point(cs: &[char], lo: usize, hi: usize) -> (r: Option<u32>)
    requires
        lo <= hi <= cs@.len(),
    ensures
        r == code_point(cs@.subrange(lo as int, hi as int)),
{
    let ghost s = cs@.subrange(lo as int, hi as int);
    if hi - lo >= 2 && cs[lo] == '0' && (cs[lo + 1] == 'x' || cs[lo + 1] == 'X') {
        proof {
            assert(s.skip(2) =~= cs@.subrange(lo + 2, hi as int));
        }
        match parse_unsigned_at(cs, lo + 2, hi, 16, 0xFFFF_FFFF) {
            Some(v) => Some(v as u32),
            None => None,
        }
    } else {
        None
    }
}

/// Position of the first `".."` in `cs[lo..hi]`.
fn find_dots_at(cs: &[char], lo: usize, hi: usize) -> (r: Option<usize>)
    requires
        lo <= hi <= cs@.len(),
    ensures
        match find_dots(cs@.subrange(lo as int, hi as int), 0) {
            Some(i) => r is Some && r->0 == lo + i,
            None => r is None,
        },
        r matches Some(d) ==> lo <= d && d + 2 <= hi,
{
    let ghost s = cs@.subrange(lo as int, hi as int);
    let mut i: usize = lo;
    while hi - i >= 2
        invariant
            lo <= i <= hi,
            hi <= cs@.len(),
            s == cs@.subrange(lo as int, hi as int),
            find_dots(s, 0) == find_dots(s, i - lo),
        decreases hi - i,
    {
        if cs[i] == '.' && cs[i + 1] == '.' {
            return Some(i);
        }
        i += 1;
    }
    None
}

/// Parse one `0xXXXX` / `0xXXXX..0xYYYY` code-point spec.
fn parse_code_point_range(cs: &[char], lo: usize, hi: usize, line_no: usize) -> (r: Result<(u32, u32), String>)
    requires
        lo <= hi <= cs@.len(),
    ensures
        match code_point_range(cs@.subrange(lo as int, hi as int)) {
            Some(p) => r == Ok::<(u32, u32), String>(p),
            None => r matches Err(m) && m@ == line_error_message("char.def"@, line_no as nat,
                code_point_range_error(cs@.subrange(lo as int, hi as int))),
        },
{
    let ghost s = cs@.subrange(lo as int, hi as int);
    match find_dots_at(cs, lo, hi) {
        Some(d) => {
            proof {
                assert(s.take(d - lo) =~= cs@.subrange(lo as int, d as int));
                assert(s.skip(d - lo + 2) =~= cs@.subrange(d + 2, hi as int));
            }
            let a = parse_code_point(cs, lo, d);
            let b = parse_code_point(cs, d + 2, hi);
            match (a, b) {
                (Some(x), Some(y)) => {
                    if x <= y {
                        Ok((x, y))
                    } else {
                        let whole = string_of_range(cs, lo, hi);
                        let m = join3("range ", debug_quoted(whole.as_str()).as_str(), " runs backwards");
                        Err(line_error("char.def", line_no, m.as_str()))
                    }
                },
                (None, _) => Err(line_error("char.def", line_no, code_point_message(cs, lo, d).as_str())),
                (Some(_), None) => Err(line_error("char.def", line_no, code_point_message(cs, d + 2, hi).as_str())),
            }
        },
        None => match parse_code_point(cs, lo, hi) {
            Some(c) => Ok((c, c)),
            None => Err(line_error("char.def", line_no, code_point_message(cs, lo, hi).as_str())),
        },
    }
}

/// The ids of the names `names[from..to]` extend one at a time.
proof fn lemma_category_ids_step(names: Seq<Seq<char>>, k: int)
    requires
        0 <= k < names.len(),
    ensures
        category_ids(names.take(k + 1)) == (match (category_ids(names.take(k)), category_index(names[k])) {
            (Some(ids), Some(id)) => Some(ids.push(id)),
            _ => None::<Seq<usize>>,
        }),
{
    assert(names.take(k + 1).drop_last() =~= names.take(k));
}

/// An unknown name makes the ids of every longer list unknown.
proof fn lemma_category_ids_prefix(names: Seq<Seq<char>>, j: int)
    requires
        0 <= j <= names.len(),
        category_ids(names.take(j)) is None,
    ensures
        category_ids(names) is None,
    decreases names.len() - j,
{
    if j < names.len() {
        assert(names.drop_last().take(j) =~= names.take(j));
        lemma_category_ids_prefix(names.drop_last(), j);
    } else {
        assert(names.take(j) =~= names);
    }
}

/// A mapping line `0xXXXX[..0xYYYY] CATEGORY [COMPATIBLE …]`.
fn parse_mapping(cs: &[char], lo: usize, hi: usize, line_no: usize) -> (r: Result<(u32, u32, usize, Vec<usize>), String>)
    requires
        lo <= hi <= cs@.len(),
    ensures
        match mapping_spec(cs@.subrange(lo as int, hi as int)) {
            Some(m) => r matches Ok(x) && x.0 == m.0 && x.1 == m.1 && x.2 == m.2 && x.3@ == m.3,
            None => r matches Err(e) && e@ == mapping_error(cs@.subrange(lo as int, hi as int), line_no as nat),
        },
        r matches Ok(x) ==> x.2 < 11 && forall|k: int| 0 <= k < x.3@.len() ==> x.3@[k] < 11,
{
    let ghost w = words(cs@.subrange(lo as int, hi as int));
    let ws = word_bounds(cs, lo, hi);
    if ws.len() < 1 {
        return Err(line_error("char.def", line_no, "empty mapping"));
    }
    let (a0, b0) = ws[0];
    let (clo, chi) = match parse_code_point_range(cs, a0, b0, line_no) {
        Ok(p) => p,
        Err(e) => return Err(e),
    };
    if ws.len() < 2 {
        let first = string_of_range(cs, a0, b0);
        return Err(line_error("char.def", line_no, join2(first.as_str(), " has no category name").as_str()));
    }
    let (a1, b1) = ws[1];
    let d = match canonical_id(cs, a1, b1) {
        Some(id) => id,
        None => return Err(line_error("char.def", line_no, unknown_category(cs, a1, b1).as_str())),
    };
    let ghost rest = w.skip(2);
    let mut compat: Vec<usize> = Vec::new();
    let mut k: usize = 2;
    proof {
        assert(rest.take(0) =~= Seq::<Seq<char>>::empty());
        assert(cs@.subrange(a0 as int, b0 as int) == w[0]);
        assert(cs@.subrange(a1 as int, b1 as int) == w[1]);
    }
    while k < ws.len()
        invariant
            2 <= k <= ws@.len(),
            w == words(cs@.subrange(lo as int, hi as int)),
            ws@.len() == w.len(),
            rest == w.skip(2),
            lo <= hi <= cs@.len(),
            forall|j: int| 0 <= j < ws@.len() ==> lo <= (#[trigger] ws@[j]).0 <= ws@[j].1 <= hi
                && cs@.subrange(ws@[j].0 as int, ws@[j].1 as int) == w[j],
            category_ids(rest.take(k - 2)) == Some(compat@),
            forall|j: int| 0 <= j < compat@.len() ==> compat@[j] < 11,
            code_point_range(w[0]) is Some,
            category_index(w[1]) is Some,
        decreases ws@.len() - k,
    {
        let (a, b) = ws[k];
        proof {
            lemma_category_ids_step(rest, k - 2);
            assert(rest[k - 2] == w[k as int]);
        }
        match canonical_id(cs, a, b) {
            Some(id) => compat.push(id),
            None => {
                proof {
                    lemma_category_ids_prefix(rest, k - 1);
                    lemma_first_unknown_at(rest, k - 2);
                }
                return Err(line_error("char.def", line_no, unknown_category(cs, a, b).as_str()));
            },
        }
        k += 1;
    }
    proof {
        assert(rest.take(k - 2) =~= rest);
    }
    Ok((clo, chi, d, compat))
}

/// A category line `NAME INVOKE GROUP LENGTH`.
fn parse_category(cs: &[char], lo: usize, hi: usize, line_no: usize) -> (r: Result<(usize, CategoryFlags), String>)
    requires
        lo <= hi <= cs@.len(),
    ensures
        match category_spec(cs@.subrange(lo as int, hi as int)) {
            Some(p) => r matches Ok(x) && x == p,
            None => r matches Err(e) && e@ == category_error(cs@.subrange(lo as int, hi as int), line_no as nat),
        },
        r matches Ok(x) ==> x.0 < 11,
{
    let ghost w = words(cs@.subrange(lo as int, hi as int));
    let ws = word_bounds(cs, lo, hi);
    if ws.len() < 4 {
        let line = string_of_range(cs, lo, hi);
        let m = join2("expected 'NAME INVOKE GROUP LENGTH', got ", debug_quoted(line.as_str()).as_str());
        return Err(line_error("char.def", line_no, m.as_str()));
    }
    let (a0, b0) = ws[0];
    let id = match canonical_id(cs, a0, b0) {
        Some(id) => id,
        None => return Err(line_error("char.def", line_no, unknown_category(cs, a0, b0).as_str())),
    };
    let (a1, b1) = ws[1];
    let invoke = match parse_unsigned_at(cs, a1, b1, 10, 0xFFFF_FFFF) {
        Some(v) => v,
        None => return Err(line_error("char.def", line_no, u32_field_message(cs, a1, b1, "INVOKE").as_str())),
    };
    let (a2, b2) = ws[2];
    let group = match parse_unsigned_at(cs, a2, b2, 10, 0xFFFF_FFFF) {
        Some(v) => v,
        None => return Err(line_error("char.def", line_no, u32_field_message(cs, a2, b2, "GROUP").as_str())),
    };
    let (a3, b3) = ws[3];
    let length = match parse_unsigned_at(cs, a3, b3, 10, 0xFFFF_FFFF) {
        Some(v) => v,
        None => return Err(line_error("char.def", line_no, u32_field_message(cs, a3, b3, "LENGTH").as_str())),
    };
    if length > 0xF {
        let m = join3("LENGTH ", usize_text(length as usize).as_str(), " does not fit the 4 bit field (max 15)");
        return Err(line_error("char.def", line_no, m.as_str()));
    }
    Ok((id, CategoryFlags { invoke: invoke != 0, group: group != 0, length: length as u8 }))
}

/// The specification view of a parsed mapping.
pub open spec fn mapping_view(m: (u32, u32, usize, Vec<usize>)) -> (u32, u32, usize, Seq<usize>) {
    (m.0, m.1, m.2, m.3@)
}

/// A malformed line makes every longer text malformed.
proof fn lemma_char_def_lines_prefix(lines: Seq<Seq<char>>, j: int)
    requires
        0 <= j <= lines.len(),
        char_def_lines(lines.take(j)) is None,
    ensures
        char_def_lines(lines) is None,
    decreases lines.len() - j,
{
    if j < lines.len() {
        assert(lines.drop_last().take(j) =~= lines.take(j));
        lemma_char_def_lines_prefix(lines.drop_last(), j);
    } else {
        assert(lines.take(j) =~= lines);
    }
}

proof fn lemma_char_def_lines_error_at(lines: Seq<Seq<char>>, k: int)
    requires
        0 <= k < lines.len(),
        char_def_lines(lines.take(k)) is Some,
        char_def_lines(lines.take(k + 1)) is None,
    ensures
        char_def_lines_error(lines) == ({
            let l = strip_comment_spec(lines[k]);
            if is_mapping_line(l) { mapping_error(l, (k + 1) as nat) } else { category_error(l, (k + 1) as nat) }
        }),
    decreases lines.len() - k,
{
    if k + 1 < lines.len() {
        assert(lines.drop_last().take(k) =~= lines.take(k));
        assert(lines.drop_last().take(k + 1) =~= lines.take(k + 1));
        lemma_char_def_lines_error_at(lines.drop_last(), k);
        lemma_char_def_lines_prefix(lines.drop_last(), k + 1);
    } else {
        assert(lines.take(k + 1) =~= lines);
        assert(lines.drop_last() =~= lines.take(k));
    }
}

proof fn lemma_first_unknown_at(names: Seq<Seq<char>>, j: int)
    requires
        0 <= j < names.len(),
        category_ids(names.take(j)) is Some,
        category_index(names[j]) is None,
    ensures
        first_unknown(names) == names[j],
    decreases names.len() - j,
{
    if j + 1 < names.len() {
        assert(names.drop_last().take(j) =~= names.take(j));
        lemma_first_unknown_at(names.drop_last(), j);
        lemma_category_ids_step(names, j);
        lemma_category_ids_prefix(names.drop_last(), j + 1);
        assert(names.drop_last().take(j + 1) =~= names.take(j + 1));
    } else {
        assert(names.drop_last() =~= names.take(j));
    }
}

/// The type mask of a mapping's default category and its compatible ones.
fn mapping_mask(default_id: usize, compat: &Vec<usize>) -> (mask: u32)
    requires
        default_id < 11,
        forall|k: int| 0 <= k < compat@.len() ==> compat@[k] < 11,
    ensures
        mask == type_mask(1u32 << (default_id as u32), compat@),
{
    let mut mask: u32 = 1u32 << (default_id as u32);
    let mut t: usize = 0;
    proof {
        assert(compat@.take(0) =~= Seq::<usize>::empty());
    }
    while t < compat.len()
        invariant
            t <= compat@.len(),
            default_id < 11,
            forall|k: int| 0 <= k < compat@.len() ==> compat@[k] < 11,
            mask == type_mask(1u32 << (default_id as u32), compat@.take(t as int)),
        decreases compat@.len() - t,
    {
        proof {
            assert(compat@.take(t + 1).drop_last() =~= compat@.take(t as int));
        }
        mask = mask | (1u32 << (compat[t] as u32));
        t += 1;
    }
    proof {
        assert(compat@.take(t as int) =~= compat@);
    }
    mask
}

/// Parse a MeCab `char.def`.
///
/// Category definitions (`NAME INVOKE GROUP LENGTH`) and code-point mappings
/// (`0xXXXX[..0xYYYY] CATEGORY [COMPATIBLE …]`, the lines that start with
/// `0x`) share the file; `#` starts a comment. The ranges start with a base
/// range that assigns `DEFAULT` to every code point; each mapping then gives
/// its range the type mask of its categories and the flags of its default
/// category. The result is exactly [`char_def_result`]: it fails on a
/// malformed line, an unknown category name, a missing `DEFAULT` category,
/// or a mapping to a category the file never declares.
pub fn parse_char_def(text: &str) -> (r: Result<CharDefSource, String>)
    ensures
        match char_def_result(text@) {
            Some(p) => r matches Ok(src) && src.flags@ == p.0 && src.ranges@ == p.1,
            None => r matches Err(m) && m@ == char_def_error(text@),
        },
        r matches Ok(src) ==> forall|k: int| 0 <= k < src.ranges@.len() ==> range_well_ordered(#[trigger] src.ranges@[k]),
{
    proof {
        lemma_char_def_ranges_ordered(text@);
    }
    let cs = chars_of(text);
    let lb = line_bounds(cs.as_slice());
    let ghost lines = lines_of(cs@);
    let mut flags: Vec<Option<CategoryFlags>> = Vec::new();
    let mut i: usize = 0;
    while i < 11
        invariant
            i <= 11,
            flags@ =~= Seq::new(i as nat, |j: int| None::<CategoryFlags>),
        decreases 11 - i,
    {
        flags.push(None);
        i += 1;
    }
    let mut mappings: Vec<(u32, u32, usize, Vec<usize>)> = Vec::new();
    let mut k: usize = 0;
    proof {
        assert(lines.take(0) =~= Seq::<Seq<char>>::empty());
        assert(flags@ =~= no_flags());
        assert(mappings@.map_values(|m: (u32, u32, usize, Vec<usize>)| mapping_view(m)) =~= Seq::<(u32, u32, usize, Seq<usize>)>::empty());
    }
    while k < lb.len()
        invariant
            k <= lb@.len(),
            cs@ == text@,
            lines == lines_of(cs@),
            lb@.len() == lines.len(),
            forall|j: int| 0 <= j < lb@.len() ==> (#[trigger] lb@[j]).0 <= lb@[j].1 <= cs@.len()
                && cs@.subrange(lb@[j].0 as int, lb@[j].1 as int) == lines[j],
            flags@.len() == 11,
            forall|j: int| 0 <= j < mappings@.len() ==> (#[trigger] mappings@[j]).2 < 11
                && forall|t: int| 0 <= t < mappings@[j].3@.len() ==> mappings@[j].3@[t] < 11,
            char_def_lines(lines.take(k as int)) == Some((flags@, mappings@.map_values(|m: (u32, u32, usize, Vec<usize>)| mapping_view(m)))),
        decreases lb@.len() - k,
    {
        let (a, b) = lb[k];
        let (s0, e0) = strip_comment(cs.as_slice(), a, b);
        let ghost before = mappings@;
        proof {
            assert(lines.take(k + 1).drop_last() =~= lines.take(k as int));
            assert(lines.take(k + 1).last() == lines[k as int]);
        }
        if s0 < e0 {
            if e0 - s0 >= 2 && cs[s0] == '0' && (cs[s0 + 1] == 'x' || cs[s0 + 1] == 'X') {
                match parse_mapping(cs.as_slice(), s0, e0, k + 1) {
                    Ok(m) => {
                        mappings.push(m);
                        proof {
                            assert(mappings@.map_values(|m: (u32, u32, usize, Vec<usize>)| mapping_view(m))
                                =~= before.map_values(|m: (u32, u32, usize, Vec<usize>)| mapping_view(m)).push(mapping_view(m)));
                        }
                    },
                    Err(e) => {
                        proof {
                            lemma_char_def_lines_prefix(lines, k + 1);
                            lemma_char_def_lines_error_at(lines, k as int);
                        }
                        return Err(e);
                    },
                }
            } else {
                match parse_category(cs.as_slice(), s0, e0, k + 1) {
                    Ok((id, f)) => {
                        flags.set(id, Some(f));
                    },
                    Err(e) => {
                        proof {
                            lemma_char_def_lines_prefix(lines, k + 1);
                            lemma_char_def_lines_error_at(lines, k as int);
                        }
                        return Err(e);
                    },
                }
            }
        }
        k += 1;
    }
    proof {
        assert(lines.take(k as int) =~= lines);
        assert(cs@ == text@);
    }
    let def = match flags[0] {
        Some(f) => f,
        None => return Err(String::from_str("char.def does not define the mandatory DEFAULT category")),
    };
    let ghost maps = mappings@.map_values(|m: (u32, u32, usize, Vec<usize>)| mapping_view(m));
    let ghost fl = flags@;
    let mut ranges: Vec<CharRange> = Vec::new();
    ranges.push(CharRange { lo: 0, hi: MAX_CODE_POINT, info: pack_char_info(1, 0, def.length, def.group, def.invoke) });
    let mut j: usize = 0;
    proof {
        assert(ranges@ =~= seq![default_range(def)] + maps.take(0).map_values(|m: (u32, u32, usize, Seq<usize>)| mapping_range(m, fl[m.2 as int]->0)));
    }
    while j < mappings.len()
        invariant
            j <= mappings@.len(),
            char_def_lines(lines_of(text@)) == Some((fl, maps)),
            maps == mappings@.map_values(|m: (u32, u32, usize, Vec<usize>)| mapping_view(m)),
            fl == flags@,
            fl.len() == 11,
            fl[0] == Some(def),
            forall|t: int| 0 <= t < mappings@.len() ==> (#[trigger] mappings@[t]).2 < 11
                && forall|u: int| 0 <= u < mappings@[t].3@.len() ==> mappings@[t].3@[u] < 11,
            forall|t: int| 0 <= t < j ==> fl[maps[t].2 as int] is Some,
            ranges@ == seq![default_range(def)] + maps.take(j as int).map_values(|m: (u32, u32, usize, Seq<usize>)| mapping_range(m, fl[m.2 as int]->0)),
        decreases mappings@.len() - j,
    {
        let m = &mappings[j];
        let f = match flags[m.2] {
            Some(f) => f,
            None => {
                proof {
                    assert(maps[j as int].2 == m.2);
                    assert(fl[maps[j as int].2 as int] is None);
                    lemma_first_undefined_at(fl, maps, 0, j as int);
                }
                let names = canonical_categories();
                let head = join3("char.def maps 0x", hex4_text(m.0).as_str(), "..0x");
                let mid = join3(head.as_str(), hex4_text(m.1).as_str(), " to category ");
                let msg = join3(mid.as_str(), names[m.2], " before defining it");
                return Err(msg);
            },
        };
        let mask = mapping_mask(m.2, &m.3);
        let ghost before = ranges@;
        ranges.push(CharRange { lo: m.0, hi: m.1, info: pack_char_info(mask, m.2 as u8, f.length, f.group, f.invoke) });
        proof {
            assert(maps[j as int] == mapping_view(*m));
            assert(maps.take(j + 1).map_values(|m: (u32, u32, usize, Seq<usize>)| mapping_range(m, fl[m.2 as int]->0))
                =~= maps.take(j as int).map_values(|m: (u32, u32, usize, Seq<usize>)| mapping_range(m, fl[m.2 as int]->0)).push(mapping_range(maps[j as int], f)));
            assert(ranges@ =~= seq![default_range(def)] + maps.take(j + 1).map_values(|m: (u32, u32, usize, Seq<usize>)| mapping_range(m, fl[m.2 as int]->0)));
        }
        j += 1;
    }
    proof {
        assert(maps.take(j as int) =~= maps);
    }
    let arr: [Option<CategoryFlags>; 11] = [flags[0], flags[1], flags[2], flags[3], flags[4], flags[5], flags[6], flags[7], flags[8], flags[9], flags[10]];
    proof {
        assert(arr@ =~= flags@);
    }
    Ok(CharDefSource { flags: arr, ranges })
}

// ── Lexicon CSV, unk.def ──────────────────────────────────────────────────

/// `trim_end_matches(['\r', '\n'])`.
pub open spec fn strip_eol(s: Seq<char>) -> Seq<char>
    decreases s.len(),
{
    if s.len() > 0 && (s.last() == '\r' || s.last() == '\n') {
        strip_eol(s.drop_last())
    } else {
        s
    }
}

/// `splitn(n, sep)`: at most `n` fields, the last one keeping every
/// remaining separator.
pub open spec fn split_n(s: Seq<char>, n: nat, sep: char) -> Seq<Seq<char>>
    decreases n,
{
    if n == 0 {
        Seq::empty()
    } else if n == 1 {
        seq![s]
    } else {
        match find_first(s, sep) {
            Some(i) => seq![s.take(i)] + split_n(s.skip(i + 1), (n - 1) as nat, sep),
            None => seq![s],
        }
    }
}

/// The fields of an entry: surface, left id, right id, part-of-speech id,
/// cost, feature.
pub open spec fn entry_view(e: DicEntry) -> (Seq<char>, u16, u16, u16, i16, Seq<char>) {
    (e.surface@, e.left_id, e.right_id, e.pos_id, e.wcost, e.feature@)
}

/// One CSV record `surface,left_id,right_id,cost,feature…`: `Some(None)` for
/// a blank line, `None` when malformed. The feature keeps every further
/// comma; the numbers may be padded with whitespace; the part-of-speech id
/// is 0.
pub open spec fn csv_record(raw: Seq<char>) -> Option<Option<(Seq<char>, u16, u16, u16, i16, Seq<char>)>> {
    let l = strip_eol(raw);
    if trim(l).len() == 0 {
        Some(None)
    } else {
        let f = split_n(l, 5, ',');
        if f.len() < 5 {
            None
        } else {
            match (parse_signed(trim(f[1]), i64::MIN as int, i64::MAX as int), parse_signed(trim(f[2]), i64::MIN as int, i64::MAX as int),
                parse_signed(trim(f[3]), i64::MIN as int, i64::MAX as int)) {
                (Some(li), Some(ri), Some(w)) => if 0 <= li <= u16::MAX && 0 <= ri <= u16::MAX && i16::MIN <= w <= i16::MAX {
                    Some(Some((f[0], li as u16, ri as u16, 0u16, w as i16, f[4])))
                } else {
                    None
                },
                _ => None,
            }
        }
    }
}

/// The entries of the CSV lines, or `None` at the first malformed record.
pub open spec fn csv_entries(lines: Seq<Seq<char>>) -> Option<Seq<(Seq<char>, u16, u16, u16, i16, Seq<char>)>>
    decreases lines.len(),
{
    if lines.len() == 0 {
        Some(Seq::empty())
    } else {
        match (csv_entries(lines.drop_last()), csv_record(lines.last())) {
            (Some(es), Some(Some(e))) => Some(es.push(e)),
            (Some(es), Some(None)) => Some(es),
            _ => None,
        }
    }
}

/// The message of a malformed CSV record (meaningful when [`csv_record`]
/// rejects it): too few fields, the first number field that is not a
/// number, or the first one out of its range.
pub open spec fn csv_record_error(raw: Seq<char>) -> Seq<char> {
    let f = split_n(strip_eol(raw), 5, ',');
    if f.len() < 5 {
        "expected 'surface,left_id,right_id,cost,feature…', got "@ + debug_text(strip_eol(raw))
    } else {
        let li = parse_signed(trim(f[1]), i64::MIN as int, i64::MAX as int);
        let ri = parse_signed(trim(f[2]), i64::MIN as int, i64::MAX as int);
        let w = parse_signed(trim(f[3]), i64::MIN as int, i64::MAX as int);
        if li is None {
            number_field_error("left_id"@, f[1])
        } else if ri is None {
            number_field_error("right_id"@, f[2])
        } else if w is None {
            number_field_error("cost"@, f[3])
        } else if !(0 <= li->0 <= u16::MAX) {
            "left_id "@ + signed_decimal(li->0) + " is outside 0..=65535"@
        } else if !(0 <= ri->0 <= u16::MAX) {
            "right_id "@ + signed_decimal(ri->0) + " is outside 0..=65535"@
        } else {
            "cost "@ + signed_decimal(w->0) + " is outside -32768..=32767"@
        }
    }
}

/// The message for the number field `s` named `what` that is no `i64`:
/// the field as `{:?}` writes it, then why its trimmed text does not parse.
pub open spec fn number_field_error(what: Seq<char>, s: Seq<char>) -> Seq<char> {
    "bad "@ + what + " "@ + debug_text(s) + ": "@ + int_error(trim(s), 10, i64::MAX as int, true)
}

/// The message for the number field `cs[lo..hi]` (see [`number_field_error`]).
fn number_field_message(cs: &[char], lo: usize, hi: usize, what: &str) -> (r: String)
    requires
        lo <= hi <= cs@.len(),
    ensures
        r@ == number_field_error(what@, cs@.subrange(lo as int, hi as int)),
{
    let field = string_of_range(cs, lo, hi);
    let (a, b) = trim_bounds(cs, lo, hi);
    let e = int_error_at(cs, a, b, 10, 0x7FFF_FFFF_FFFF_FFFF, true);
    let head = join3("bad ", what, " ");
    let mid = join3(head.as_str(), debug_quoted(field.as_str()).as_str(), ": ");
    join2(mid.as_str(), e.as_str())
}

/// The message of the first malformed record of CSV lines read from
/// `origin` (meaningful when [`csv_entries`] rejects them), naming its line.
pub open spec fn csv_entries_error(lines: Seq<Seq<char>>, origin: Seq<char>) -> Seq<char>
    decreases lines.len(),
{
    if lines.len() == 0 {
        Seq::empty()
    } else if csv_entries(lines.drop_last()) is None {
        csv_entries_error(lines.drop_last(), origin)
    } else {
        line_error_message(origin, lines.len(), csv_record_error(lines.last()))
    }
}

/// The index of the first entry at or after `k` whose surface is no
/// canonical category.
pub open spec fn first_unknown_surface(es: Seq<(Seq<char>, u16, u16, u16, i16, Seq<char>)>, k: int) -> Option<int>
    decreases es.len() - k,
{
    if k < 0 || k >= es.len() {
        None
    } else if category_index(es[k].0) is None {
        Some(k)
    } else {
        first_unknown_surface(es, k + 1)
    }
}

/// The message `parse_unk_def` fails with (meaningful when
/// [`unk_def_result`] rejects the text): the CSV's, the first surface that
/// names no category, or that there is no entry.
pub open spec fn unk_def_error(text: Seq<char>) -> Seq<char> {
    match csv_entries(lines_of(text)) {
        None => csv_entries_error(lines_of(text), "unk.def"@),
        Some(es) => match first_unknown_surface(es, 0) {
            Some(k) => "unk.def: "@ + unknown_category_message(es[k].0),
            None => "unk.def defines no unknown-word entries"@,
        },
    }
}

proof fn lemma_first_unknown_skip(es: Seq<(Seq<char>, u16, u16, u16, i16, Seq<char>)>, k: int)
    requires
        0 <= k <= es.len(),
        forall|j: int| 0 <= j < k ==> category_index(#[trigger] es[j].0) is Some,
    ensures
        first_unknown_surface(es, 0) == first_unknown_surface(es, k),
    decreases k,
{
    if k > 0 {
        lemma_first_unknown_skip(es, k - 1);
    }
}

proof fn lemma_csv_entries_error_at(lines: Seq<Seq<char>>, k: int, origin: Seq<char>)
    requires
        0 <= k < lines.len(),
        csv_entries(lines.take(k)) is Some,
        csv_entries(lines.take(k + 1)) is None,
    ensures
        csv_entries_error(lines, origin) == line_error_message(origin, (k + 1) as nat, csv_record_error(lines[k])),
    decreases lines.len() - k,
{
    if k + 1 < lines.len() {
        assert(lines.drop_last().take(k) =~= lines.take(k));
        assert(lines.drop_last().take(k + 1) =~= lines.take(k + 1));
        lemma_csv_entries_error_at(lines.drop_last(), k, origin);
        lemma_csv_entries_prefix(lines.drop_last(), k + 1);
    } else {
        assert(lines.take(k + 1) =~= lines);
        assert(lines.drop_last() =~= lines.take(k));
    }
}

/// What `unk.def` parses to: its CSV entries, when every surface names a
/// canonical category and there is at least one.
pub open spec fn unk_def_result(text: Seq<char>) -> Option<Seq<(Seq<char>, u16, u16, u16, i16, Seq<char>)>> {
    match csv_entries(lines_of(text)) {
        None => None,
        Some(es) => if es.len() == 0 || exists|k: int| 0 <= k < es.len() && category_index(es[k].0) is None {
            None
        } else {
            Some(es)
        },
    }
}

/// Removing trailing line-ending characters by position.
proof fn lemma_strip_eol_at(s: Seq<char>, k: int)
    requires
        0 <= k <= s.len(),
        forall|j: int| k <= j < s.len() ==> s[j] == '\r' || s[j] == '\n',
        k == 0 || !(s[k - 1] == '\r' || s[k - 1] == '\n'),
    ensures
        strip_eol(s) == s.take(k),
    decreases s.len() - k,
{
    if k < s.len() {
        let d = s.drop_last();
        assert forall|j: int| k <= j < d.len() implies d[j] == '\r' || d[j] == '\n' by {
            assert(d[j] == s[j]);
        }
        if k > 0 {
            assert(d[k - 1] == s[k - 1]);
        }
        lemma_strip_eol_at(d, k);
        assert(d.take(k) =~= s.take(k));
    } else {
        assert(s.take(k) =~= s);
    }
}

/// The bounds of the `splitn(5, ',')` fields of `cs[lo..hi]`.
fn split_fields(cs: &[char], lo: usize, hi: usize) -> (r: Vec<(usize, usize)>)
    requires
        lo <= hi <= cs@.len(),
    ensures
        r@.len() == split_n(cs@.subrange(lo as int, hi as int), 5, ',').len(),
        forall|k: int| 0 <= k < r@.len() ==> lo <= (#[trigger] r@[k]).0 <= r@[k].1 <= hi
            && cs@.subrange(r@[k].0 as int, r@[k].1 as int) == split_n(cs@.subrange(lo as int, hi as int), 5, ',')[k],
{
    let ghost whole = split_n(cs@.subrange(lo as int, hi as int), 5, ',');
    let mut r: Vec<(usize, usize)> = Vec::new();
    let mut p: usize = lo;
    let mut n: usize = 5;
    proof {
        assert(r@.map_values(|q: (usize, usize)| cs@.subrange(q.0 as int, q.1 as int)) + whole =~= whole);
    }
    while n > 1
        invariant
            lo <= p <= hi,
            hi <= cs@.len(),
            n <= 5,
            whole == split_n(cs@.subrange(lo as int, hi as int), 5, ','),
            n >= 1 ==> whole == r@.map_values(|q: (usize, usize)| cs@.subrange(q.0 as int, q.1 as int)) + split_n(cs@.subrange(p as int, hi as int), n as nat, ','),
            n == 0 ==> whole == r@.map_values(|q: (usize, usize)| cs@.subrange(q.0 as int, q.1 as int)),
            forall|k: int| 0 <= k < r@.len() ==> lo <= (#[trigger] r@[k]).0 <= r@[k].1 <= hi,
        decreases n,
    {
        let ghost s = cs@.subrange(p as int, hi as int);
        let ghost before = r@;
        let ghost p0 = p;
        match find_char(cs, p, hi, ',') {
            Some(c) => {
                proof {
                    lemma_find_first(s, ',');
                    assert(s.take(c - p) =~= cs@.subrange(p as int, c as int));
                    assert(s.skip(c - p + 1) =~= cs@.subrange(c + 1, hi as int));
                }
                r.push((p, c));
                p = c + 1;
                n -= 1;
                proof {
                    assert(r@.map_values(|q: (usize, usize)| cs@.subrange(q.0 as int, q.1 as int))
                        =~= before.map_values(|q: (usize, usize)| cs@.subrange(q.0 as int, q.1 as int)).push(cs@.subrange(p0 as int, c as int)));
                }
            },
            None => {
                r.push((p, hi));
                n = 0;
                proof {
                    assert(r@.map_values(|q: (usize, usize)| cs@.subrange(q.0 as int, q.1 as int))
                        =~= before.map_values(|q: (usize, usize)| cs@.subrange(q.0 as int, q.1 as int)).push(s));
                }
            },
        }
    }
    if n == 1 {
        let ghost before = r@;
        r.push((p, hi));
        proof {
            assert(r@.map_values(|q: (usize, usize)| cs@.subrange(q.0 as int, q.1 as int))
                =~= before.map_values(|q: (usize, usize)| cs@.subrange(q.0 as int, q.1 as int)).push(cs@.subrange(p as int, hi as int)));
        }
    }
    proof {
        assert(whole =~= r@.map_values(|q: (usize, usize)| cs@.subrange(q.0 as int, q.1 as int)));
        assert forall|k: int| 0 <= k < r@.len() implies cs@.subrange((#[trigger] r@[k]).0 as int, r@[k].1 as int) == whole[k] by {}
    }
    r
}

/// A trimmed decimal `i64` field.
fn parse_number_field(cs: &[char], lo: usize, hi: usize) -> (r: Option<i64>)
    requires
        lo <= hi <= cs@.len(),
    ensures
        match parse_signed(trim(cs@.subrange(lo as int, hi as int)), i64::MIN as int, i64::MAX as int) {
            Some(v) => r == Some(v as i64),
            None => r is None,
        },
        r matches Some(x) ==> parse_signed(trim(cs@.subrange(lo as int, hi as int)), i64::MIN as int, i64::MAX as int) == Some(x as int),
{
    let (a, b) = trim_bounds(cs, lo, hi);
    parse_i64_at(cs, a, b)
}

/// Parse one MeCab CSV record (see [`csv_record`]).
fn parse_csv_record(cs: &[char], lo: usize, hi: usize, origin: &str, line_no: usize) -> (r: Result<Option<DicEntry>, String>)
    requires
        lo <= hi <= cs@.len(),
    ensures
        match csv_record(cs@.subrange(lo as int, hi as int)) {
            Some(Some(e)) => r matches Ok(Some(x)) && entry_view(x) == e,
            Some(None) => r matches Ok(None),
            None => r matches Err(m) && m@ == line_error_message(origin@, line_no as nat, csv_record_error(cs@.subrange(lo as int, hi as int))),
        },
{
    let ghost raw = cs@.subrange(lo as int, hi as int);
    let mut e: usize = hi;
    while e > lo && (cs[e - 1] == '\r' || cs[e - 1] == '\n')
        invariant
            lo <= e <= hi,
            hi <= cs@.len(),
            forall|j: int| e <= j < hi ==> cs@[j] == '\r' || cs@[j] == '\n',
        decreases e - lo,
    {
        e -= 1;
    }
    proof {
        lemma_strip_eol_at(raw, e - lo);
        assert(raw.take(e - lo) =~= cs@.subrange(lo as int, e as int));
    }
    let (t0, t1) = trim_bounds(cs, lo, e);
    if t0 == t1 {
        return Ok(None);
    }
    let f = split_fields(cs, lo, e);
    if f.len() < 5 {
        let line = string_of_range(cs, lo, e);
        let m = join2("expected 'surface,left_id,right_id,cost,feature…', got ", debug_quoted(line.as_str()).as_str());
        return Err(line_error(origin, line_no, m.as_str()));
    }
    let left_id = match parse_number_field(cs, f[1].0, f[1].1) {
        Some(v) => v,
        None => return Err(line_error(origin, line_no, number_field_message(cs, f[1].0, f[1].1, "left_id").as_str())),
    };
    let right_id = match parse_number_field(cs, f[2].0, f[2].1) {
        Some(v) => v,
        None => return Err(line_error(origin, line_no, number_field_message(cs, f[2].0, f[2].1, "right_id").as_str())),
    };
    let wcost = match parse_number_field(cs, f[3].0, f[3].1) {
        Some(v) => v,
        None => return Err(line_error(origin, line_no, number_field_message(cs, f[3].0, f[3].1, "cost").as_str())),
    };
    if left_id < 0 || left_id > 0xFFFF {
        return Err(line_error(origin, line_no, join3("left_id ", i64_text(left_id).as_str(), " is outside 0..=65535").as_str()));
    }
    if right_id < 0 || right_id > 0xFFFF {
        return Err(line_error(origin, line_no, join3("right_id ", i64_text(right_id).as_str(), " is outside 0..=65535").as_str()));
    }
    if wcost < -32768 || wcost > 32767 {
        return Err(line_error(origin, line_no, join3("cost ", i64_text(wcost).as_str(), " is outside -32768..=32767").as_str()));
    }
    let surface = string_of_range(cs, f[0].0, f[0].1);
    let feature = string_of_range(cs, f[4].0, f[4].1);
    Ok(Some(DicEntry { surface, left_id: left_id as u16, right_id: right_id as u16, pos_id: 0, wcost: wcost as i16, feature }))
}

/// A malformed record makes every longer file malformed.
proof fn lemma_csv_entries_prefix(lines: Seq<Seq<char>>, j: int)
    requires
        0 <= j <= lines.len(),
        csv_entries(lines.take(j)) is None,
    ensures
        csv_entries(lines) is None,
    decreases lines.len() - j,
{
    if j < lines.len() {
        assert(lines.drop_last().take(j) =~= lines.take(j));
        lemma_csv_entries_prefix(lines.drop_last(), j);
    } else {
        assert(lines.take(j) =~= lines);
    }
}

/// The entries of the CSV lines of `cs`.
fn parse_csv_lines(cs: &[char], origin: &str) -> (r: Result<Vec<DicEntry>, String>)
    ensures
        match csv_entries(lines_of(cs@)) {
            Some(es) => r matches Ok(v) && v@.map_values(|e: DicEntry| entry_view(e)) == es,
            None => r matches Err(m) && m@ == csv_entries_error(lines_of(cs@), origin@),
        },
{
    let lb = line_bounds(cs);
    let ghost lines = lines_of(cs@);
    let mut entries: Vec<DicEntry> = Vec::new();
    let mut k: usize = 0;
    proof {
        assert(lines.take(0) =~= Seq::<Seq<char>>::empty());
        assert(entries@.map_values(|e: DicEntry| entry_view(e)) =~= Seq::<(Seq<char>, u16, u16, u16, i16, Seq<char>)>::empty());
    }
    while k < lb.len()
        invariant
            k <= lb@.len(),
            lines == lines_of(cs@),
            lb@.len() == lines.len(),
            forall|j: int| 0 <= j < lb@.len() ==> (#[trigger] lb@[j]).0 <= lb@[j].1 <= cs@.len()
                && cs@.subrange(lb@[j].0 as int, lb@[j].1 as int) == lines[j],
            csv_entries(lines.take(k as int)) == Some(entries@.map_values(|e: DicEntry| entry_view(e))),
        decreases lb@.len() - k,
    {
        let (a, b) = lb[k];
        proof {
            assert(lines.take(k + 1).drop_last() =~= lines.take(k as int));
            assert(lines.take(k + 1).last() == lines[k as int]);
        }
        let ghost before = entries@;
        match parse_csv_record(cs, a, b, origin, k + 1) {
            Ok(Some(e)) => {
                entries.push(e);
                proof {
                    assert(entries@.map_values(|e: DicEntry| entry_view(e)) =~= before.map_values(|e: DicEntry| entry_view(e)).push(entry_view(e)));
                }
            },
            Ok(None) => {},
            Err(msg) => {
                proof {
                    lemma_csv_entries_prefix(lines, k + 1);
                    lemma_csv_entries_error_at(lines, k as int, origin@);
                }
                return Err(msg);
            },
        }
        k += 1;
    }
    proof {
        assert(lines.take(k as int) =~= lines);
    }
    Ok(entries)
}

/// Parse a lexicon `*.csv` file.
///
/// Each non-blank line is `surface,left_id,right_id,cost,feature…` (see
/// [`csv_record`]); the first malformed record fails the whole file, its
/// message naming `origin` and the line (see [`csv_entries_error`]).
pub fn parse_lexicon_csv(text: &str, origin: &str) -> (r: Result<Vec<DicEntry>, String>)
    ensures
        match csv_entries(lines_of(text@)) {
            Some(es) => r matches Ok(v) && v@.map_values(|e: DicEntry| entry_view(e)) == es,
            None => r matches Err(m) && m@ == csv_entries_error(lines_of(text@), origin@),
        },
{
    let cs = chars_of(text);
    parse_csv_lines(cs.as_slice(), origin)
}

/// Parse `unk.def`: a lexicon CSV whose surfaces are character category
/// names. Fails as the CSV does, on a surface that is no canonical category,
/// and when there is no entry at all (see [`unk_def_result`]).
pub fn parse_unk_def(text: &str) -> (r: Result<Vec<DicEntry>, String>)
    ensures
        match unk_def_result(text@) {
            Some(es) => r matches Ok(v) && v@.map_values(|e: DicEntry| entry_view(e)) == es,
            None => r matches Err(m) && m@ == unk_def_error(text@),
        },
{
    let entries = match parse_lexicon_csv(text, "unk.def") {
        Ok(v) => v,
        Err(e) => return Err(e),
    };
    let ghost es = entries@.map_values(|e: DicEntry| entry_view(e));
    let mut k: usize = 0;
    while k < entries.len()
        invariant
            k <= entries@.len(),
            es == entries@.map_values(|e: DicEntry| entry_view(e)),
            csv_entries(lines_of(text@)) == Some(es),
            forall|j: int| 0 <= j < k ==> category_index(#[trigger] es[j].0) is Some,
        decreases entries@.len() - k,
    {
        let name = chars_of(entries[k].surface.as_str());
        if canonical_id(name.as_slice(), 0, name.len()).is_none() {
            proof {
                assert(name@.subrange(0, name@.len() as int) =~= name@);
                assert(es[k as int].0 == name@);
            }
            let msg = unknown_category(name.as_slice(), 0, name.len());
            proof {
                lemma_first_unknown_skip(es, k as int);
            }
            return Err(join2("unk.def: ", msg.as_str()));
        }
        proof {
            assert(name@.subrange(0, name@.len() as int) =~= name@);
            assert(es[k as int].0 == name@);
        }
        k += 1;
    }
    if entries.len() == 0 {
        proof {
            assert(first_unknown_surface(es, 0) is None);
        }
        return Err(String::from_str("unk.def defines no unknown-word entries"));
    }
    proof {
        lemma_first_unknown_skip(es, k as int);
    }
    Ok(entries)
}

// ── matrix.def ─────────────────────────────────────────────────────────────

/// Index of the first line at or after `k` with content besides comments.
pub open spec fn first_content_line(lines: Seq<Seq<char>>, k: int) -> Option<int>
    decreases lines.len() - k,
{
    if k < 0 || k >= lines.len() {
        None
    } else if strip_comment_spec(lines[k]).len() > 0 {
        Some(k)
    } else {
        first_content_line(lines, k + 1)
    }
}

/// A cost line `rc_attr lc_attr cost` (further words ignored), with
/// `rc_attr < lsize`, `lc_attr < rsize` and the cost in `i16`.
pub open spec fn matrix_line(l: Seq<char>, lsize: int, rsize: int) -> Option<(int, int, i16)> {
    let ws = words(l);
    if ws.len() < 3 {
        None
    } else {
        match (parse_signed(ws[0], i64::MIN as int, i64::MAX as int), parse_signed(ws[1], i64::MIN as int, i64::MAX as int),
            parse_signed(ws[2], i64::MIN as int, i64::MAX as int)) {
            (Some(rc), Some(lc), Some(c)) => if 0 <= rc < lsize && 0 <= lc < rsize && i16::MIN <= c <= i16::MAX {
                Some((rc, lc, c as i16))
            } else {
                None
            },
            _ => None,
        }
    }
}

/// The costs after the cost lines, each setting cell `rc_attr + lsize * lc_attr`.
pub open spec fn matrix_cells(lines: Seq<Seq<char>>, lsize: int, rsize: int, init: Seq<i16>) -> Option<Seq<i16>>
    decreases lines.len(),
{
    if lines.len() == 0 {
        Some(init)
    } else {
        match matrix_cells(lines.drop_last(), lsize, rsize, init) {
            None => None,
            Some(c) => {
                let l = strip_comment_spec(lines.last());
                if l.len() == 0 {
                    Some(c)
                } else {
                    match matrix_line(l, lsize, rsize) {
                        Some((rc, lc, v)) => Some(c.update(cost_index(lsize, rc, lc), v)),
                        None => None,
                    }
                }
            },
        }
    }
}

/// What a `matrix.def` text parses to: the dimensions from its first
/// content line (two `u16`, not both… at least one zero fails), and the
/// costs, 0 where no line sets them.
pub open spec fn matrix_def_result(text: Seq<char>) -> Option<(u16, u16, Seq<i16>)> {
    let ls = lines_of(text);
    match first_content_line(ls, 0) {
        None => None,
        Some(h) => {
            let ws = words(strip_comment_spec(ls[h]));
            if ws.len() < 2 {
                None
            } else {
                match (parse_unsigned(ws[0], 10, u16::MAX as int), parse_unsigned(ws[1], 10, u16::MAX as int)) {
                    (Some(l), Some(r)) => if l * r == 0 {
                        None
                    } else {
                        match matrix_cells(ls.skip(h + 1), l, r, Seq::new((l * r) as nat, |i: int| 0i16)) {
                            Some(c) => Some((l as u16, r as u16, c)),
                            None => None,
                        }
                    },
                    _ => None,
                }
            }
        },
    }
}

/// The message of a malformed cost line (meaningful when [`matrix_line`]
/// rejects it): a missing or non-numeric field, in order, or the first
/// value out of its range.
pub open spec fn matrix_line_error(l: Seq<char>, lsize: int, rsize: int) -> Seq<char> {
    let ws = words(l);
    let rc = parse_signed(ws[0], i64::MIN as int, i64::MAX as int);
    let lc = parse_signed(ws[1], i64::MIN as int, i64::MAX as int);
    let cost = parse_signed(ws[2], i64::MIN as int, i64::MAX as int);
    if ws.len() < 1 {
        "missing right-context id"@
    } else if rc is None {
        "bad right-context id: "@ + int_error(ws[0], 10, i64::MAX as int, true)
    } else if ws.len() < 2 {
        "missing left-context id"@
    } else if lc is None {
        "bad left-context id: "@ + int_error(ws[1], 10, i64::MAX as int, true)
    } else if ws.len() < 3 {
        "missing cost"@
    } else if cost is None {
        "bad cost: "@ + int_error(ws[2], 10, i64::MAX as int, true)
    } else if !(0 <= rc->0 < lsize) {
        "right-context id "@ + signed_decimal(rc->0) + " is outside 0.."@ + decimal(lsize as nat)
    } else if !(0 <= lc->0 < rsize) {
        "left-context id "@ + signed_decimal(lc->0) + " is outside 0.."@ + decimal(rsize as nat)
    } else {
        "cost "@ + signed_decimal(cost->0) + " does not fit an i16"@
    }
}

/// The message of the first malformed cost line (meaningful when
/// [`matrix_cells`] rejects the lines); the first of `lines` is line
/// number `first_no`.
pub open spec fn matrix_cells_error(lines: Seq<Seq<char>>, lsize: int, rsize: int, init: Seq<i16>, first_no: nat) -> Seq<char>
    decreases lines.len(),
{
    if lines.len() == 0 {
        Seq::empty()
    } else if matrix_cells(lines.drop_last(), lsize, rsize, init) is None {
        matrix_cells_error(lines.drop_last(), lsize, rsize, init, first_no)
    } else {
        line_error_message("matrix.def"@, (first_no + lines.len() - 1) as nat,
            matrix_line_error(strip_comment_spec(lines.last()), lsize, rsize))
    }
}

/// The message `parse_matrix_def` fails with (meaningful when
/// [`matrix_def_result`] rejects the text).
pub open spec fn matrix_def_error(text: Seq<char>) -> Seq<char> {
    let ls = lines_of(text);
    match first_content_line(ls, 0) {
        None => "matrix.def is empty"@,
        Some(h) => {
            let ws = words(strip_comment_spec(ls[h]));
            let no = (h + 1) as nat;
            if ws.len() < 1 {
                line_error_message("matrix.def"@, no, "missing left_size"@)
            } else if parse_unsigned(ws[0], 10, u16::MAX as int) is None {
                line_error_message("matrix.def"@, no, "bad left_size: "@ + int_error(ws[0], 10, u16::MAX as int, false))
            } else if ws.len() < 2 {
                line_error_message("matrix.def"@, no, "missing right_size"@)
            } else if parse_unsigned(ws[1], 10, u16::MAX as int) is None {
                line_error_message("matrix.def"@, no, "bad right_size: "@ + int_error(ws[1], 10, u16::MAX as int, false))
            } else {
                let l = parse_unsigned(ws[0], 10, u16::MAX as int)->0;
                let r = parse_unsigned(ws[1], 10, u16::MAX as int)->0;
                if l * r == 0 {
                    line_error_message("matrix.def"@, no, "dimensions "@ + decimal(l as nat) + "×"@ + decimal(r as nat)
                        + " describe an empty matrix"@)
                } else {
                    matrix_cells_error(ls.skip(h + 1), l, r, Seq::new((l * r) as nat, |i: int| 0i16), (h + 2) as nat)
                }
            }
        },
    }
}

proof fn lemma_matrix_cells_error_at(lines: Seq<Seq<char>>, lsize: int, rsize: int, init: Seq<i16>, first_no: nat, k: int)
    requires
        0 <= k < lines.len(),
        matrix_cells(lines.take(k), lsize, rsize, init) is Some,
        matrix_cells(lines.take(k + 1), lsize, rsize, init) is None,
    ensures
        matrix_cells_error(lines, lsize, rsize, init, first_no) == line_error_message("matrix.def"@, (first_no + k) as nat,
            matrix_line_error(strip_comment_spec(lines[k]), lsize, rsize)),
    decreases lines.len() - k,
{
    if k + 1 < lines.len() {
        assert(lines.drop_last().take(k) =~= lines.take(k));
        assert(lines.drop_last().take(k + 1) =~= lines.take(k + 1));
        lemma_matrix_cells_error_at(lines.drop_last(), lsize, rsize, init, first_no, k);
        lemma_matrix_cells_prefix(lines.drop_last(), lsize, rsize, init, k + 1);
    } else {
        assert(lines.take(k + 1) =~= lines);
        assert(lines.drop_last() =~= lines.take(k));
    }
}

/// A malformed cost line makes every longer list malformed.
proof fn lemma_matrix_cells_prefix(lines: Seq<Seq<char>>, lsize: int, rsize: int, init: Seq<i16>, j: int)
    requires
        0 <= j <= lines.len(),
        matrix_cells(lines.take(j), lsize, rsize, init) is None,
    ensures
        matrix_cells(lines, lsize, rsize, init) is None,
    decreases lines.len() - j,
{
    if j < lines.len() {
        assert(lines.drop_last().take(j) =~= lines.take(j));
        lemma_matrix_cells_prefix(lines.drop_last(), lsize, rsize, init, j);
    } else {
        assert(lines.take(j) =~= lines);
    }
}

/// Every update of a cost line stays inside the matrix.
proof fn lemma_matrix_cells_len(lines: Seq<Seq<char>>, lsize: int, rsize: int, init: Seq<i16>)
    requires
        matrix_cells(lines, lsize, rsize, init) is Some,
        init.len() == lsize * rsize,
    ensures
        matrix_cells(lines, lsize, rsize, init)->0.len() == init.len(),
    decreases lines.len(),
{
    if lines.len() > 0 {
        lemma_matrix_cells_len(lines.drop_last(), lsize, rsize, init);
        let l = strip_comment_spec(lines.last());
        if l.len() > 0 {
            if let Some((rc, lc, v)) = matrix_line(l, lsize, rsize) {
                assert(rc + lsize * lc < lsize * rsize) by (nonlinear_arith)
                    requires 0 <= rc < lsize, 0 <= lc < rsize;
            }
        }
    }
}

/// One cost line of `matrix.def`.
fn parse_matrix_line(cs: &[char], lo: usize, hi: usize, lsize: u16, rsize: u16, line_no: usize) -> (r: Result<(usize, usize, i16), String>)
    requires
        lo <= hi <= cs@.len(),
    ensures
        match matrix_line(cs@.subrange(lo as int, hi as int), lsize as int, rsize as int) {
            Some(t) => r matches Ok(x) && x.0 == t.0 && x.1 == t.1 && x.2 == t.2,
            None => r matches Err(m) && m@ == line_error_message("matrix.def"@, line_no as nat,
                matrix_line_error(cs@.subrange(lo as int, hi as int), lsize as int, rsize as int)),
        },
{
    let ws = word_bounds(cs, lo, hi);
    if ws.len() < 1 {
        return Err(line_error("matrix.def", line_no, "missing right-context id"));
    }
    let rc = match parse_i64_at(cs, ws[0].0, ws[0].1) {
        Some(v) => v,
        None => {
            let e = int_error_at(cs, ws[0].0, ws[0].1, 10, 0x7FFF_FFFF_FFFF_FFFF, true);
            return Err(line_error("matrix.def", line_no, join2("bad right-context id: ", e.as_str()).as_str()));
        },
    };
    if ws.len() < 2 {
        return Err(line_error("matrix.def", line_no, "missing left-context id"));
    }
    let lc = match parse_i64_at(cs, ws[1].0, ws[1].1) {
        Some(v) => v,
        None => {
            let e = int_error_at(cs, ws[1].0, ws[1].1, 10, 0x7FFF_FFFF_FFFF_FFFF, true);
            return Err(line_error("matrix.def", line_no, join2("bad left-context id: ", e.as_str()).as_str()));
        },
    };
    if ws.len() < 3 {
        return Err(line_error("matrix.def", line_no, "missing cost"));
    }
    let cost = match parse_i64_at(cs, ws[2].0, ws[2].1) {
        Some(v) => v,
        None => {
            let e = int_error_at(cs, ws[2].0, ws[2].1, 10, 0x7FFF_FFFF_FFFF_FFFF, true);
            return Err(line_error("matrix.def", line_no, join2("bad cost: ", e.as_str()).as_str()));
        },
    };
    if rc < 0 || rc >= lsize as i64 {
        let head = join3("right-context id ", i64_text(rc).as_str(), " is outside 0..");
        return Err(line_error("matrix.def", line_no, join2(head.as_str(), usize_text(lsize as usize).as_str()).as_str()));
    }
    if lc < 0 || lc >= rsize as i64 {
        let head = join3("left-context id ", i64_text(lc).as_str(), " is outside 0..");
        return Err(line_error("matrix.def", line_no, join2(head.as_str(), usize_text(rsize as usize).as_str()).as_str()));
    }
    if cost < -32768 || cost > 32767 {
        return Err(line_error("matrix.def", line_no, join3("cost ", i64_text(cost).as_str(), " does not fit an i16").as_str()));
    }
    Ok((rc as usize, lc as usize, cost as i16))
}

/// Parse `matrix.def` into `(lsize, rsize, costs)`.
///
/// The first content line holds the two dimensions; every later line is
/// `rc_attr lc_attr cost`, the right-context id of the preceding word
/// followed by the left-context id of the following one, and sets
/// `costs[rc_attr + lsize * lc_attr]` (see [`set_cost`]). Cells no line
/// names stay 0. The result is exactly [`matrix_def_result`].
pub fn parse_matrix_def(text: &str) -> (r: Result<(u16, u16, Vec<i16>), String>)
    ensures
        match matrix_def_result(text@) {
            Some(t) => r matches Ok(x) && x.0 == t.0 && x.1 == t.1 && x.2@ == t.2,
            None => r matches Err(m) && m@ == matrix_def_error(text@),
        },
{
    let cs = chars_of(text);
    let lb = line_bounds(cs.as_slice());
    let ghost ls = lines_of(cs@);
    let mut h: usize = 0;
    let mut found = false;
    let mut hs: usize = 0;
    let mut he: usize = 0;
    while h < lb.len() && !found
        invariant
            h <= lb@.len(),
            ls == lines_of(cs@),
            lb@.len() == ls.len(),
            forall|j: int| 0 <= j < lb@.len() ==> (#[trigger] lb@[j]).0 <= lb@[j].1 <= cs@.len()
                && cs@.subrange(lb@[j].0 as int, lb@[j].1 as int) == ls[j],
            !found ==> first_content_line(ls, 0) == first_content_line(ls, h as int),
            found ==> h >= 1 && first_content_line(ls, 0) == Some(h - 1) && hs <= he <= cs@.len()
                && cs@.subrange(hs as int, he as int) == strip_comment_spec(ls[h - 1]),
        decreases lb@.len() - h,
    {
        let (a, b) = lb[h];
        let (s0, e0) = strip_comment(cs.as_slice(), a, b);
        if s0 < e0 {
            found = true;
            hs = s0;
            he = e0;
        }
        h += 1;
    }
    if !found {
        return Err(String::from_str("matrix.def is empty"));
    }
    let header_no = h;
    let dims = word_bounds(cs.as_slice(), hs, he);
    if dims.len() < 1 {
        return Err(line_error("matrix.def", header_no, "missing left_size"));
    }
    let lsize = match parse_unsigned_at(cs.as_slice(), dims[0].0, dims[0].1, 10, 0xFFFF) {
        Some(v) => v as u16,
        None => {
            let e = int_error_at(cs.as_slice(), dims[0].0, dims[0].1, 10, 0xFFFF, false);
            return Err(line_error("matrix.def", header_no, join2("bad left_size: ", e.as_str()).as_str()));
        },
    };
    if dims.len() < 2 {
        return Err(line_error("matrix.def", header_no, "missing right_size"));
    }
    let rsize = match parse_unsigned_at(cs.as_slice(), dims[1].0, dims[1].1, 10, 0xFFFF) {
        Some(v) => v as u16,
        None => {
            let e = int_error_at(cs.as_slice(), dims[1].0, dims[1].1, 10, 0xFFFF, false);
            return Err(line_error("matrix.def", header_no, join2("bad right_size: ", e.as_str()).as_str()));
        },
    };
    assert((lsize as usize) * (rsize as usize) <= 0xFFFF * 0xFFFF) by (nonlinear_arith)
        requires lsize <= 0xFFFF, rsize <= 0xFFFF;
    let cells: usize = (lsize as usize) * (rsize as usize);
    if cells == 0 {
        let head = join3("dimensions ", usize_text(lsize as usize).as_str(), "×");
        let m = join3(head.as_str(), usize_text(rsize as usize).as_str(), " describe an empty matrix");
        return Err(line_error("matrix.def", header_no, m.as_str()));
    }
    let mut costs: Vec<i16> = vec![0i16; cells];
    let ghost init = costs@;
    let ghost rest = ls.skip(h as int);
    let mut k: usize = h;
    proof {
        assert(init =~= Seq::new((lsize * rsize) as nat, |i: int| 0i16));
        assert(rest.take(0) =~= Seq::<Seq<char>>::empty());
        assert(cs@ == text@);
        assert(matrix_def_error(text@) == matrix_cells_error(rest, lsize as int, rsize as int, init, (h + 1) as nat));
        assert(matrix_def_result(text@) == match matrix_cells(rest, lsize as int, rsize as int, init) {
            Some(c) => Some((lsize, rsize, c)),
            None => None::<(u16, u16, Seq<i16>)>,
        });
    }
    while k < lb.len()
        invariant
            h <= k <= lb@.len(),
            ls == lines_of(cs@),
            lb@.len() == ls.len(),
            rest == ls.skip(h as int),
            forall|j: int| 0 <= j < lb@.len() ==> (#[trigger] lb@[j]).0 <= lb@[j].1 <= cs@.len()
                && cs@.subrange(lb@[j].0 as int, lb@[j].1 as int) == ls[j],
            cells == lsize * rsize,
            init.len() == cells,
            matrix_def_result(text@) == match matrix_cells(rest, lsize as int, rsize as int, init) {
                Some(c) => Some((lsize, rsize, c)),
                None => None::<(u16, u16, Seq<i16>)>,
            },
            matrix_cells(rest.take(k - h), lsize as int, rsize as int, init) == Some(costs@),
            matrix_def_error(text@) == matrix_cells_error(rest, lsize as int, rsize as int, init, (h + 1) as nat),
        decreases lb@.len() - k,
    {
        let (a, b) = lb[k];
        let (s0, e0) = strip_comment(cs.as_slice(), a, b);
        proof {
            assert(rest.take(k - h + 1).drop_last() =~= rest.take(k - h));
            assert(rest.take(k - h + 1).last() == ls[k as int]);
            lemma_matrix_cells_len(rest.take(k - h), lsize as int, rsize as int, init);
        }
        if s0 < e0 {
            match parse_matrix_line(cs.as_slice(), s0, e0, lsize, rsize, k + 1) {
                Ok((rc, lc, v)) => {
                    assert(rc + (lsize as usize) * lc < cells) by (nonlinear_arith)
                        requires rc < lsize, lc < rsize, cells == lsize * rsize;
                    set_cost(costs.as_mut_slice(), lsize as usize, rc, lc, v);
                },
                Err(e) => {
                    proof {
                        lemma_matrix_cells_prefix(rest, lsize as int, rsize as int, init, k - h + 1);
                        lemma_matrix_cells_error_at(rest, lsize as int, rsize as int, init, (h + 1) as nat, k - h);
                        assert(rest[k - h] == ls[k as int]);
                    }
                    return Err(e);
                },
            }
        }
        k += 1;
    }
    proof {
        assert(rest.take(k - h) =~= rest);
    }
    Ok((lsize, rsize, costs))
}

// ── Compiling ──────────────────────────────────────────────────────────────

/// Every `unk.def` entry names a category that `char.def` declares.
pub open spec fn unk_categories_declared(flags: Seq<Option<CategoryFlags>>, unk: Seq<DicEntry>) -> bool {
    forall|k: int| 0 <= k < unk.len() ==> ((#[trigger] category_index(unk[k].surface@)) matches Some(id) && flags[id as int] is Some)
}

/// Check that every unknown-word entry belongs to a category `char.def`
/// declares: an entry for any other category could never be reached.
pub fn check_unk_categories(flags: &[Option<CategoryFlags>; 11], unk: &Vec<DicEntry>) -> (r: Result<(), String>)
    ensures
        r is Ok <==> unk_categories_declared(flags@, unk@),
{
    let mut k: usize = 0;
    while k < unk.len()
        invariant
            k <= unk@.len(),
            forall|j: int| 0 <= j < k ==> ((#[trigger] category_index(unk@[j].surface@)) matches Some(id) && flags@[id as int] is Some),
        decreases unk@.len() - k,
    {
        let name = chars_of(unk[k].surface.as_str());
        proof {
            assert(name@.subrange(0, name@.len() as int) =~= name@);
        }
        match canonical_id(name.as_slice(), 0, name.len()) {
            Some(id) => {
                if flags[id].is_none() {
                    return Err(join3("unk.def defines entries for category ", unk[k].surface.as_str(), " but char.def never declares it"));
                }
            },
            None => {
                let msg = unknown_category(name.as_slice(), 0, name.len());
                return Err(msg);
            },
        }
        k += 1;
    }
    Ok(())
}

/// What compiling parsed sources produces: the four images and their
/// statistics.
pub open spec fn compiled(
    ranges: Seq<CharRange>,
    unk: Seq<DicEntry>,
    lsize: u16,
    rsize: u16,
    costs: Seq<i16>,
    lexicon: Seq<DicEntry>,
    sys_dic: Seq<u8>,
    matrix: Seq<u8>,
    char_def: Seq<u8>,
    unk_dic: Seq<u8>,
    stats: CompileStats,
) -> bool {
    &&& exists|order: Seq<usize>, units: Seq<DaUnit>, st: WriteSysDicStats|
        #[trigger] sysdic_built(lexicon, order, units, lsize as u32, rsize as u32, "UTF-8".spec_bytes(), SYS_DIC_TYPE, sys_dic, st)
        && stats.sys_tokens == st.token_count
    &&& exists|order: Seq<usize>, units: Seq<DaUnit>, st: WriteSysDicStats|
        #[trigger] sysdic_built(unk, order, units, lsize as u32, rsize as u32, "UTF-8".spec_bytes(), UNK_DIC_TYPE, unk_dic, st)
        && stats.unk_tokens == st.token_count
    &&& matrix == matrix_bin(lsize, rsize, costs)
    &&& char_def == char_bin(canonical_category_names(), ranges)
    &&& stats.matrix_size == (lsize, rsize)
    &&& stats.bytes@ == seq![sys_dic.len() as usize, matrix.len() as usize, char_def.len() as usize, unk_dic.len() as usize]
}

/// Build the four binary images (`sys.dic`, `matrix.bin`, `char.bin`,
/// `unk.dic`, in that order) of a dictionary from its parsed sources.
///
/// Compiled dictionaries store UTF-8. Fails when the lexicon is empty, when
/// `costs` does not hold `lsize * rsize` cells, and otherwise only when a
/// double array would exceed its 32-bit range or an image the address space,
/// which entries of [`sysdic_fits`] size never do.
pub fn compile_images(
    char_def: &CharDefSource,
    unk: &Vec<DicEntry>,
    lsize: u16,
    rsize: u16,
    costs: &Vec<i16>,
    lexicon: &Vec<DicEntry>,
) -> (r: Result<(Vec<u8>, Vec<u8>, Vec<u8>, Vec<u8>, CompileStats), String>)
    requires
        forall|k: int| 0 <= k < char_def.ranges@.len() ==> range_well_ordered(#[trigger] char_def.ranges@[k]),
        unk@.len() <= u32::MAX,
        lexicon@.len() <= u32::MAX,
    ensures
        r matches Ok((sys_dic, matrix, char_bin, unk_dic, stats)) ==>
            compiled(char_def.ranges@, unk@, lsize, rsize, costs@, lexicon@, sys_dic@, matrix@, char_bin@, unk_dic@, stats),
        lexicon@.len() == 0 || costs@.len() != lsize * rsize ==> r is Err,
        lexicon@.len() > 0 && costs@.len() == lsize * rsize && sysdic_fits(unk@) && sysdic_fits(lexicon@) ==> r is Ok,
{
    if lexicon.len() == 0 {
        return Err(String::from_str("the lexicon CSV files contain no entries"));
    }
    let charset = "UTF-8";
    let names = canonical_categories();
    let char_bytes = match build_char_bytes(names.as_slice(), char_def.ranges.as_slice()) {
        Ok(b) => b,
        Err(e) => return Err(join2("cannot build char.bin: ", e.message().as_str())),
    };
    let matrix_bytes = match build_matrix_bytes(lsize, rsize, costs.as_slice()) {
        Ok(b) => b,
        Err(e) => return Err(join2("cannot build matrix.bin: ", e.message().as_str())),
    };
    let (unk_bytes, unk_stats) = match build_unkdic_bytes(unk.as_slice(), lsize as u32, rsize as u32, charset) {
        Ok(p) => p,
        Err(e) => return Err(join2("cannot build unk.dic: ", e.message().as_str())),
    };
    let (sys_bytes, sys_stats) = match build_sysdic_bytes(lexicon.as_slice(), lsize as u32, rsize as u32, charset, SYS_DIC_TYPE) {
        Ok(p) => p,
        Err(e) => return Err(join2("cannot build sys.dic: ", e.message().as_str())),
    };
    let stats = CompileStats {
        sys_tokens: sys_stats.token_count,
        unk_tokens: unk_stats.token_count,
        matrix_size: (lsize, rsize),
        bytes: [sys_bytes.len(), matrix_bytes.len(), char_bytes.len(), unk_bytes.len()],
    };
    proof {
        assert(stats.bytes@ =~= seq![sys_bytes@.len() as usize, matrix_bytes@.len() as usize, char_bytes@.len() as usize, unk_bytes@.len() as usize]);
        let l32 = lsize as u32;
        let r32 = rsize as u32;
        let cb = charset.spec_bytes();
        let (o1, u1) = choose|order: Seq<usize>, units: Seq<DaUnit>|
            #[trigger] sysdic_built(lexicon@, order, units, l32, r32, cb, SYS_DIC_TYPE, sys_bytes@, sys_stats);
        assert(sysdic_built(lexicon@, o1, u1, lsize as u32, rsize as u32, "UTF-8".spec_bytes(), SYS_DIC_TYPE, sys_bytes@, sys_stats));
        let (o2, u2) = choose|order: Seq<usize>, units: Seq<DaUnit>|
            #[trigger] sysdic_built(unk@, order, units, l32, r32, cb, UNK_DIC_TYPE, unk_bytes@, unk_stats);
        assert(sysdic_built(unk@, o2, u2, lsize as u32, rsize as u32, "UTF-8".spec_bytes(), UNK_DIC_TYPE, unk_bytes@, unk_stats));
    }
    Ok((sys_bytes, matrix_bytes, char_bytes, unk_bytes, stats))
}

} // verus!
