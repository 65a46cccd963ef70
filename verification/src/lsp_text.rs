//! Text helpers of the language server: words under the cursor, line
//! prefixes, LSP positions (UTF-16 columns), and IPADIC feature fields.

use vstd::prelude::*;
use crate::scan::{lines_of, find_first, lemma_find_first};
use crate::text::{chars_of, string_of_range};

verus! {

/// CJK, Japanese kana and compatibility ideographs: U+3000–U+9FFF,
/// U+F900–U+FAFF and U+20000–U+2A6DF.
pub open spec fn cjk(c: char) -> bool {
    let v = c as u32;
    (0x3000 <= v <= 0x9FFF) || (0xF900 <= v <= 0xFAFF) || (0x20000 <= v <= 0x2A6DF)
}

/// What `char::is_alphanumeric` answers for `c` (Unicode `Alphabetic` or
/// `Numeric`).
pub uninterp spec fn alphanumeric(c: char) -> bool;

/// A character that belongs to a word: alphanumeric, `_`, or CJK.
pub open spec fn word_char(c: char) -> bool {
    alphanumeric(c) || c == '_' || cjk(c)
}

/// `char::is_alphanumeric`.
#[verifier::external_body]
pub(crate) fn is_alphanumeric(c: char) -> (r: bool)
    ensures
        r == alphanumeric(c),
{
    c.is_alphanumeric()
}

/// Whether `c` is CJK (see [`cjk`]).
pub fn is_cjk(c: char) -> (r: bool)
    ensures
        r == cjk(c),
{
    let v = c as u32;
    (0x3000 <= v && v <= 0x9FFF) || (0xF900 <= v && v <= 0xFAFF) || (0x20000 <= v && v <= 0x2A6DF)
}

/// Whether `c` belongs to a word (see [`word_char`]).
pub fn is_word_char(c: char) -> (r: bool)
    ensures
        r == word_char(c),
{
    is_alphanumeric(c) || c == '_' || is_cjk(c)
}

/// Start of the run of `true` that ends at `i`.
pub open spec fn run_start(w: Seq<bool>, i: int) -> int
    decreases i,
{
    if i > 0 && i <= w.len() && w[i - 1] {
        run_start(w, i - 1)
    } else {
        i
    }
}

/// End of the run of `true` that starts at `i`.
pub open spec fn run_end(w: Seq<bool>, i: int) -> int
    decreases w.len() - i,
{
    if 0 <= i < w.len() && w[i] {
        run_end(w, i + 1)
    } else {
        i
    }
}

/// The word span at column `col` of a line whose characters are word
/// characters where `w` holds: the run containing `col`, or the one just
/// before it; `None` past the end or between non-word characters.
pub open spec fn word_span(w: Seq<bool>, col: int) -> Option<(int, int)> {
    let n = w.len();
    if col < 0 || col > n {
        None
    } else {
        let at = col < n && w[col];
        let before = col > 0 && w[col - 1];
        if !at && !before {
            None
        } else {
            let s = run_start(w, if at { col } else { col - 1 });
            let e = run_end(w, col);
            if s == e { None } else { Some((s, e)) }
        }
    }
}

/// The word-character flags of a line.
pub open spec fn word_flags(line: Seq<char>) -> Seq<bool> {
    line.map_values(|c: char| word_char(c))
}

proof fn lemma_run_start(w: Seq<bool>, i: int, s: int)
    requires
        0 <= s <= i <= w.len(),
        forall|j: int| s <= j < i ==> w[j],
        s == 0 || !w[s - 1],
    ensures
        run_start(w, i) == s,
    decreases i,
{
    if i > s {
        lemma_run_start(w, i - 1, s);
    }
}

proof fn lemma_run_end(w: Seq<bool>, i: int, e: int)
    requires
        0 <= i <= e <= w.len(),
        forall|j: int| i <= j < e ==> w[j],
        e == w.len() || !w[e],
    ensures
        run_end(w, i) == e,
    decreases e - i,
{
    if i < e {
        lemma_run_end(w, i + 1, e);
    }
}

/// The word span at `col` over word-character flags (see [`word_span`]).
pub fn extract_word_span(w: &[bool], col: usize) -> (r: Option<(usize, usize)>)
    ensures
        match word_span(w@, col as int) {
            Some((s, e)) => r matches Some((a, b)) && a == s && b == e,
            None => r is None,
        },
        r matches Some((s, e)) ==> s < e <= w@.len(),
{
    let n = w.len();
    if col > n {
        return None;
    }
    let at = col < n && w[col];
    let before = col > 0 && w[col - 1];
    if !at && !before {
        return None;
    }
    let mut start = if at { col } else { col - 1 };
    let ghost s0 = start;
    while start > 0 && w[start - 1]
        invariant
            start <= s0 <= n,
            n == w@.len(),
            forall|j: int| start <= j < s0 ==> w@[j],
        decreases start,
    {
        start -= 1;
    }
    let mut end = col;
    while end < n && w[end]
        invariant
            col <= end <= n,
            n == w@.len(),
            forall|j: int| col <= j < end ==> w@[j],
        decreases n - end,
    {
        end += 1;
    }
    proof {
        lemma_run_start(w@, s0 as int, start as int);
        lemma_run_end(w@, col as int, end as int);
    }
    if start == end {
        return None;
    }
    proof {
        if at {
            assert(end > col);
        } else {
            assert(start < col);
        }
    }
    Some((start, end))
}

/// The word-character flags of `cs`.
fn flags_of(cs: &[char]) -> (r: Vec<bool>)
    ensures
        r@ == word_flags(cs@),
{
    let mut r: Vec<bool> = Vec::new();
    let mut i: usize = 0;
    while i < cs.len()
        invariant
            i <= cs@.len(),
            r@.len() == i,
            forall|j: int| 0 <= j < i ==> r@[j] == word_char(cs@[j]),
        decreases cs@.len() - i,
    {
        r.push(is_word_char(cs[i]));
        i += 1;
    }
    assert(r@ =~= word_flags(cs@));
    r
}

/// Extract the word at a *character* column of one line: the word, and its
/// character start and end. `None` past the end of the line, or when neither
/// the character at `col` nor the one before it belongs to a word.
pub fn extract_word_at_column(line: &str, col: usize) -> (r: Option<(String, usize, usize)>)
    ensures
        match word_span(word_flags(line@), col as int) {
            Some((s, e)) => r matches Some((word, s2, e2)) && s2 == s && e2 == e && word@ == line@.subrange(s, e),
            None => r is None,
        },
{
    let cs = chars_of(line);
    let w = flags_of(cs.as_slice());
    match extract_word_span(w.as_slice(), col) {
        Some((s, e)) => Some((string_of_range(cs.as_slice(), s, e), s, e)),
        None => None,
    }
}

/// The bounds of line `k` of `cs`, if there is one.
fn nth_line(cs: &[char], k: usize) -> (r: Option<(usize, usize)>)
    ensures
        k < lines_of(cs@).len() ==> (r matches Some((a, b)) && a <= b <= cs@.len() && cs@.subrange(a as int, b as int) == lines_of(cs@)[k as int]),
        k >= lines_of(cs@).len() ==> r is None,
{
    let lb = crate::scan::line_bounds(cs);
    if k < lb.len() {
        Some(lb[k])
    } else {
        None
    }
}

/// The word at an LSP position (`line`, character column) of `text`, with its
/// character start and end on that line.
pub fn word_at_position(text: &str, line: u32, character: u32) -> (r: Option<(String, u32, u32)>)
    ensures
        line < lines_of(text@).len() ==> match word_span(word_flags(lines_of(text@)[line as int]), character as int) {
            Some((s, e)) => r matches Some((word, s2, e2)) && s2 == s as u32 && e2 == e as u32
                && word@ == lines_of(text@)[line as int].subrange(s, e),
            None => r is None,
        },
        line >= lines_of(text@).len() ==> r is None,
{
    let cs = chars_of(text);
    match nth_line(cs.as_slice(), line as usize) {
        Some((a, b)) => {
            let l = string_of_range(cs.as_slice(), a, b);
            match extract_word_at_column(l.as_str(), character as usize) {
                Some((word, s, e)) => Some((word, s as u32, e as u32)),
                None => None,
            }
        },
        None => None,
    }
}

/// The text of line `line` up to character column `character` (clamped to
/// the line); empty when there is no such line.
pub fn extract_prefix_at(text: &str, line: u32, character: u32) -> (r: String)
    ensures
        line < lines_of(text@).len() ==> r@ == lines_of(text@)[line as int].take(
            if character < lines_of(text@)[line as int].len() { character as int } else { lines_of(text@)[line as int].len() as int }),
        line >= lines_of(text@).len() ==> r@ == Seq::<char>::empty(),
{
    let cs = chars_of(text);
    match nth_line(cs.as_slice(), line as usize) {
        Some((a, b)) => {
            let col: usize = if (character as usize) < b - a { character as usize } else { b - a };
            proof {
                assert(cs@.subrange(a as int, (a + col) as int) =~= cs@.subrange(a as int, b as int).take(col as int));
            }
            string_of_range(cs.as_slice(), a, a + col)
        },
        None => String::new(),
    }
}

/// `char::len_utf16`: 2 above U+FFFF, else 1.
pub open spec fn utf16_len(c: char) -> nat {
    if c as u32 > 0xFFFF { 2 } else { 1 }
}

/// UTF-16 code units of a text.
pub open spec fn utf16_units(s: Seq<char>) -> nat
    decreases s.len(),
{
    if s.len() == 0 {
        0
    } else {
        utf16_units(s.drop_last()) + utf16_len(s.last())
    }
}

proof fn lemma_utf16_units_bound(s: Seq<char>)
    ensures
        utf16_units(s) <= 2 * s.len(),
    decreases s.len(),
{
    if s.len() > 0 {
        lemma_utf16_units_bound(s.drop_last());
    }
}

/// UTF-16 code units of `s` (the LSP column width).
pub fn utf16_width(s: &str) -> (r: u32)
    requires
        s@.len() <= u32::MAX / 2,
    ensures
        r == utf16_units(s@),
{
    let cs = chars_of(s);
    let mut total: u32 = 0;
    let mut i: usize = 0;
    while i < cs.len()
        invariant
            i <= cs@.len(),
            cs@ == s@,
            cs@.len() <= u32::MAX / 2,
            total == utf16_units(cs@.take(i as int)),
        decreases cs@.len() - i,
    {
        proof {
            assert(cs@.take(i + 1).drop_last() =~= cs@.take(i as int));
            lemma_utf16_units_bound(cs@.take(i as int));
        }
        let w: u32 = if (cs[i] as u32) > 0xFFFF { 2 } else { 1 };
        total = total + w;
        i += 1;
    }
    proof {
        assert(cs@.take(i as int) =~= cs@);
    }
    total
}

/// Number of `'\n'` in `s`.
pub open spec fn newlines(s: Seq<char>) -> nat
    decreases s.len(),
{
    if s.len() == 0 {
        0
    } else {
        newlines(s.drop_last()) + if s.last() == '\n' { 1nat } else { 0nat }
    }
}

/// Length of the part of `s` after its last `'\n'`.
pub open spec fn last_line_len(s: Seq<char>) -> nat
    decreases s.len(),
{
    if s.len() == 0 {
        0
    } else if s.last() == '\n' {
        0
    } else {
        last_line_len(s.drop_last()) + 1
    }
}

/// The LSP position of character offset `char_off` of `text` (clamped to the
/// end): the line (the number of `'\n'` before it) and the column in UTF-16
/// code units from the start of that line.
pub open spec fn lsp_position(text: Seq<char>, char_off: int) -> (u32, u32) {
    let k = if char_off < text.len() { char_off } else { text.len() as int };
    let before = text.take(k);
    let line_text = before.skip(before.len() - last_line_len(before));
    (newlines(before) as u32, utf16_units(line_text) as u32)
}

proof fn lemma_last_line_len_bound(s: Seq<char>)
    ensures
        last_line_len(s) <= s.len(),
        newlines(s) <= s.len(),
    decreases s.len(),
{
    if s.len() > 0 {
        lemma_last_line_len_bound(s.drop_last());
    }
}

/// The LSP position (line, UTF-16 column) of a character offset (see
/// [`lsp_position`]).
pub fn char_offset_to_position(text: &str, char_off: usize) -> (r: (u32, u32))
    requires
        text@.len() <= u32::MAX / 2,
    ensures
        r == lsp_position(text@, char_off as int),
{
    let cs = chars_of(text);
    let k: usize = if char_off < cs.len() { char_off } else { cs.len() };
    let mut line: u32 = 0;
    let mut line_start: usize = 0;
    let mut i: usize = 0;
    proof {
        assert(cs@.take(0) =~= Seq::<char>::empty());
    }
    while i < k
        invariant
            i <= k <= cs@.len(),
            cs@ == text@,
            cs@.len() <= u32::MAX / 2,
            line == newlines(cs@.take(i as int)),
            line_start == i - last_line_len(cs@.take(i as int)),
            line_start <= i,
        decreases k - i,
    {
        proof {
            assert(cs@.take(i + 1).drop_last() =~= cs@.take(i as int));
            lemma_last_line_len_bound(cs@.take(i as int));
        }
        if cs[i] == '\n' {
            line = line + 1;
            line_start = i + 1;
        }
        i += 1;
    }
    let mut col: u32 = 0;
    let mut j: usize = line_start;
    let ghost before = cs@.take(k as int);
    proof {
        assert(before.skip(line_start as int).take(0) =~= Seq::<char>::empty());
    }
    while j < k
        invariant
            line_start <= j <= k <= cs@.len(),
            before == cs@.take(k as int),
            cs@.len() <= u32::MAX / 2,
            col == utf16_units(cs@.subrange(line_start as int, j as int)),
        decreases k - j,
    {
        proof {
            assert(cs@.subrange(line_start as int, j + 1).drop_last() =~= cs@.subrange(line_start as int, j as int));
            lemma_utf16_units_bound(cs@.subrange(line_start as int, j as int));
        }
        let w: u32 = if (cs[j] as u32) > 0xFFFF { 2 } else { 1 };
        col = col + w;
        j += 1;
    }
    proof {
        assert(before.skip(before.len() - last_line_len(before)) =~= cs@.subrange(line_start as int, k as int));
    }
    (line, col)
}

/// All `sep`-separated fields of `s` (`str::split`).
pub open spec fn split_all(s: Seq<char>, sep: char) -> Seq<Seq<char>>
    decreases s.len(),
{
    match find_first(s, sep) {
        Some(i) => {
            proof {
                lemma_find_first(s, sep);
            }
            seq![s.take(i)] + split_all(s.skip(i + 1), sep)
        },
        None => seq![s],
    }
}

/// Field `k`, or `"*"` when there are fewer fields.
pub open spec fn field_or_star(fields: Seq<Seq<char>>, k: int) -> Seq<char> {
    if k < fields.len() { fields[k] } else { seq!['*'] }
}

/// The bounds of every `sep`-separated field of `cs[lo..hi]`.
fn split_bounds(cs: &[char], lo: usize, hi: usize, sep: char) -> (r: Vec<(usize, usize)>)
    requires
        lo <= hi <= cs@.len(),
    ensures
        r@.len() == split_all(cs@.subrange(lo as int, hi as int), sep).len(),
        forall|k: int| 0 <= k < r@.len() ==> lo <= (#[trigger] r@[k]).0 <= r@[k].1 <= hi
            && cs@.subrange(r@[k].0 as int, r@[k].1 as int) == split_all(cs@.subrange(lo as int, hi as int), sep)[k],
    decreases hi - lo,
{
    let ghost s = cs@.subrange(lo as int, hi as int);
    match crate::scan::find_char(cs, lo, hi, sep) {
        Some(i) => {
            proof {
                lemma_find_first(s, sep);
                assert(s.take(i - lo) =~= cs@.subrange(lo as int, i as int));
                assert(s.skip(i - lo + 1) =~= cs@.subrange(i + 1, hi as int));
            }
            let rest = split_bounds(cs, i + 1, hi, sep);
            let mut r: Vec<(usize, usize)> = Vec::new();
            r.push((lo, i));
            let mut k: usize = 0;
            while k < rest.len()
                invariant
                    k <= rest@.len(),
                    r@.len() == k + 1,
                    r@[0] == (lo, i),
                    forall|t: int| 1 <= t < r@.len() ==> r@[t] == rest@[t - 1],
                decreases rest@.len() - k,
            {
                r.push(rest[k]);
                k += 1;
            }
            proof {
                let tail = split_all(cs@.subrange(i + 1, hi as int), sep);
                assert(split_all(s, sep) =~= seq![cs@.subrange(lo as int, i as int)] + tail);
                assert forall|t: int| 0 <= t < r@.len() implies lo <= (#[trigger] r@[t]).0 <= r@[t].1 <= hi
                    && cs@.subrange(r@[t].0 as int, r@[t].1 as int) == split_all(s, sep)[t] by {
                    if t > 0 {
                        assert(r@[t] == rest@[t - 1]);
                    }
                }
            }
            r
        },
        None => {
            let mut r: Vec<(usize, usize)> = Vec::new();
            r.push((lo, hi));
            r
        },
    }
}

/// The bounds of every `sep`-separated field of `cs[lo..hi]` (see
/// [`split_all`]).
pub(crate) fn split_bounds_pub(cs: &[char], lo: usize, hi: usize, sep: char) -> (r: Vec<(usize, usize)>)
    requires
        lo <= hi <= cs@.len(),
    ensures
        r@.len() == split_all(cs@.subrange(lo as int, hi as int), sep).len(),
        forall|k: int| 0 <= k < r@.len() ==> lo <= (#[trigger] r@[k]).0 <= r@[k].1 <= hi
            && cs@.subrange(r@[k].0 as int, r@[k].1 as int) == split_all(cs@.subrange(lo as int, hi as int), sep)[k],
{
    split_bounds(cs, lo, hi, sep)
}

/// Field `k` of the fields `f` of `cs`, or `"*"`.
fn field_text(cs: &[char], f: &Vec<(usize, usize)>, k: usize) -> (r: String)
    requires
        forall|t: int| 0 <= t < f@.len() ==> (#[trigger] f@[t]).0 <= f@[t].1 <= cs@.len(),
    ensures
        k < f@.len() ==> r@ == cs@.subrange(f@[k as int].0 as int, f@[k as int].1 as int),
        k >= f@.len() ==> r@ == seq!['*'],
{
    if k < f.len() {
        string_of_range(cs, f[k].0, f[k].1)
    } else {
        let star = ['*'];
        let r = string_of_range(&star, 0, 1);
        assert(star@.subrange(0, 1) =~= seq!['*']);
        r
    }
}

/// Split an IPADIC feature string into (part of speech, sub-POS, base form,
/// reading): fields 0, 1, 6 and 7, each `"*"` when missing.
pub fn parse_ipadic_features(feature: &str) -> (r: (String, String, String, String))
    ensures
        r.0@ == field_or_star(split_all(feature@, ','), 0),
        r.1@ == field_or_star(split_all(feature@, ','), 1),
        r.2@ == field_or_star(split_all(feature@, ','), 6),
        r.3@ == field_or_star(split_all(feature@, ','), 7),
{
    let cs = chars_of(feature);
    let f = split_bounds(cs.as_slice(), 0, cs.len(), ',');
    proof {
        assert(cs@.subrange(0, cs@.len() as int) =~= feature@);
    }
    (field_text(cs.as_slice(), &f, 0), field_text(cs.as_slice(), &f, 1), field_text(cs.as_slice(), &f, 6), field_text(cs.as_slice(), &f, 7))
}

/// Completion kinds the language server offers for a part of speech.
#[derive(Debug, Clone, Copy, PartialEq, Eq)]
pub enum CompletionKind {
    Text,
    Function,
    Keyword,
    Operator,
    Value,
}

/// Whether `s` starts with `p`.
pub(crate) fn starts_with(s: &[char], p: &str) -> (r: bool)
    ensures
        r == (s@.len() >= p@.len() && s@.take(p@.len() as int) == p@),
{
    let pc = chars_of(p);
    if s.len() < pc.len() {
        return false;
    }
    let mut i: usize = 0;
    while i < pc.len()
        invariant
            i <= pc@.len(),
            pc@ == p@,
            s@.len() >= pc@.len(),
            forall|j: int| 0 <= j < i ==> s@[j] == pc@[j],
        decreases pc@.len() - i,
    {
        if s[i] != pc[i] {
            assert(s@.take(p@.len() as int)[i as int] != p@[i as int]);
            return false;
        }
        i += 1;
    }
    assert(s@.take(p@.len() as int) =~= p@);
    true
}

/// `s` starts with `p`.
pub open spec fn has_prefix(s: Seq<char>, p: Seq<char>) -> bool {
    s.len() >= p.len() && s.take(p.len() as int) == p
}

/// The completion kind of a MeCab part of speech: nouns are text, verbs
/// functions, adjectives keywords, particles and auxiliaries operators,
/// anything else a value.
pub open spec fn completion_kind(pos: Seq<char>) -> CompletionKind {
    if has_prefix(pos, "名詞"@) {
        CompletionKind::Text
    } else if has_prefix(pos, "動詞"@) {
        CompletionKind::Function
    } else if has_prefix(pos, "形容詞"@) || has_prefix(pos, "形状詞"@) {
        CompletionKind::Keyword
    } else if has_prefix(pos, "助詞"@) || has_prefix(pos, "助動詞"@) {
        CompletionKind::Operator
    } else {
        CompletionKind::Value
    }
}

/// Map a MeCab part of speech to a completion kind (see [`completion_kind`]).
pub fn pos_to_completion_kind(pos: &str) -> (r: CompletionKind)
    ensures
        r == completion_kind(pos@),
{
    let cs = chars_of(pos);
    if starts_with(cs.as_slice(), "名詞") {
        CompletionKind::Text
    } else if starts_with(cs.as_slice(), "動詞") {
        CompletionKind::Function
    } else if starts_with(cs.as_slice(), "形容詞") || starts_with(cs.as_slice(), "形状詞") {
        CompletionKind::Keyword
    } else if starts_with(cs.as_slice(), "助詞") || starts_with(cs.as_slice(), "助動詞") {
        CompletionKind::Operator
    } else {
        CompletionKind::Value
    }
}

/// Whether a morpheme's feature marks an unknown word: it starts with
/// `未知語`, or its first field is `*`.
pub open spec fn unknown_feature(feature: Seq<char>) -> bool {
    has_prefix(feature, "未知語"@) || split_all(feature, ',')[0] == seq!['*']
}

/// Whether a morpheme's feature string marks an unknown word (see
/// [`unknown_feature`]).
pub fn is_unknown_feature(feature: &str) -> (r: bool)
    ensures
        r == unknown_feature(feature@),
{
    let cs = chars_of(feature);
    if starts_with(cs.as_slice(), "未知語") {
        return true;
    }
    let f = split_bounds(cs.as_slice(), 0, cs.len(), ',');
    proof {
        assert(cs@.subrange(0, cs@.len() as int) =~= feature@);
    }
    let first = field_text(cs.as_slice(), &f, 0);
    let fc = chars_of(first.as_str());
    let r = fc.len() == 1 && fc[0] == '*';
    proof {
        if r {
            assert(fc@ =~= seq!['*']);
        }
    }
    r
}

} // verus!
