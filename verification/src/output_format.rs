//! Text renderings of analysis results for the command line and the HTTP
//! server: JSON string escaping, decimal numbers, MeCab-style dumps,
//! space-separated (wakati) output, and the choice of output format.

use vstd::prelude::*;
use vstd::string::StringExecFns;
use vstd::string::StringSliceAdditionalSpecFns;
use crate::text::{chars_of, join3, text_eq};

verus! {

/// The escape of one character inside a JSON string.
pub open spec fn json_escape_char(c: char) -> Seq<char> {
    if c == '"' {
        seq!['\\', '"']
    } else if c == '\\' {
        seq!['\\', '\\']
    } else if c == '\n' {
        seq!['\\', 'n']
    } else if c == '\r' {
        seq!['\\', 'r']
    } else if c == '\t' {
        seq!['\\', 't']
    } else if (c as u32) < 0x20 {
        seq!['\\', 'u', '0', '0', hex_digit((c as u32) as int / 16), hex_digit((c as u32) as int % 16)]
    } else {
        seq![c]
    }
}

/// The lower-case hexadecimal digit of `d` (0 to 15).
pub open spec fn hex_digit(d: int) -> char {
    if d < 10 {
        ((d + 48) as u8) as char
    } else {
        ((d - 10 + 97) as u8) as char
    }
}

/// The escapes of every character of `s`, one after another.
pub open spec fn json_escape_body(s: Seq<char>) -> Seq<char>
    decreases s.len(),
{
    if s.len() == 0 {
        Seq::empty()
    } else {
        json_escape_body(s.drop_last()) + json_escape_char(s.last())
    }
}

/// `s` as a JSON string literal: quoted, with `"`, `\`, newline, carriage
/// return and tab escaped by a backslash and other control characters as
/// `\u00XX`.
pub open spec fn json_string(s: Seq<char>) -> Seq<char> {
    seq!['"'] + json_escape_body(s) + seq!['"']
}

/// Append `c` to `out`.
fn push_char(out: &mut String, c: char)
    ensures
        final(out)@ == old(out)@.push(c),
{
    out.push(c);
}

/// Quote and escape `s` as a JSON string (see [`json_string`]).
pub fn escape_json_str(s: &str) -> (r: String)
    ensures
        r@ == json_string(s@),
{
    let cs = chars_of(s);
    let mut out = String::new();
    push_char(&mut out, '"');
    let mut i: usize = 0;
    proof {
        assert(cs@.take(0) =~= Seq::<char>::empty());
        assert(out@ =~= seq!['"'] + json_escape_body(cs@.take(0)));
    }
    while i < cs.len()
        invariant
            i <= cs@.len(),
            cs@ == s@,
            out@ == seq!['"'] + json_escape_body(cs@.take(i as int)),
        decreases cs@.len() - i,
    {
        let c = cs[i];
        let ghost before = out@;
        proof {
            assert(cs@.take(i + 1).drop_last() =~= cs@.take(i as int));
            assert(cs@.take(i + 1).last() == c);
        }
        if c == '"' {
            push_char(&mut out, '\\');
            push_char(&mut out, '"');
        } else if c == '\\' {
            push_char(&mut out, '\\');
            push_char(&mut out, '\\');
        } else if c == '\n' {
            push_char(&mut out, '\\');
            push_char(&mut out, 'n');
        } else if c == '\r' {
            push_char(&mut out, '\\');
            push_char(&mut out, 'r');
        } else if c == '\t' {
            push_char(&mut out, '\\');
            push_char(&mut out, 't');
        } else if (c as u32) < 0x20 {
            let v = c as u32;
            push_char(&mut out, '\\');
            push_char(&mut out, 'u');
            push_char(&mut out, '0');
            push_char(&mut out, '0');
            push_char(&mut out, hex_char(v / 16));
            push_char(&mut out, hex_char(v % 16));
        } else {
            push_char(&mut out, c);
        }
        proof {
            assert(out@ =~= before + json_escape_char(c));
        }
        i += 1;
    }
    push_char(&mut out, '"');
    proof {
        assert(cs@.take(i as int) =~= cs@);
    }
    out
}

/// The lower-case hexadecimal digit of `d`.
fn hex_char(d: u32) -> (r: char)
    requires
        d < 16,
    ensures
        r == hex_digit(d as int),
{
    if d < 10 {
        ((d + 48) as u8) as char
    } else {
        ((d - 10 + 97) as u8) as char
    }
}

/// The decimal digits of `n`.
pub open spec fn decimal(n: nat) -> Seq<char>
    decreases n,
{
    if n < 10 {
        seq![((n + 48) as u8) as char]
    } else {
        decimal(n / 10) + seq![(((n % 10) + 48) as u8) as char]
    }
}

/// The decimal rendering of `v`, with a `-` when negative.
pub open spec fn signed_decimal(v: int) -> Seq<char> {
    if v < 0 {
        seq!['-'] + decimal((-v) as nat)
    } else {
        decimal(v as nat)
    }
}

/// Append the decimal digits of `n` to `out`.
fn push_decimal(out: &mut String, n: u64)
    ensures
        final(out)@ == old(out)@ + decimal(n as nat),
    decreases n,
{
    if n >= 10 {
        push_decimal(out, n / 10);
    }
    let d = (n % 10) as u8;
    push_char(out, (d + 48) as char);
    proof {
        if n >= 10 {
            assert(final(out)@ =~= old(out)@ + decimal(n as nat));
        } else {
            assert(final(out)@ =~= old(out)@ + decimal(n as nat));
        }
    }
}

/// Append the signed decimal rendering of `v` to `out`.
fn push_signed(out: &mut String, v: i64)
    ensures
        final(out)@ == old(out)@ + signed_decimal(v as int),
{
    if v < 0 {
        push_char(out, '-');
        let m: u64 = if v == i64::MIN { 9223372036854775808u64 } else { (-v) as u64 };
        push_decimal(out, m);
        proof {
            assert(final(out)@ =~= old(out)@ + signed_decimal(v as int));
        }
    } else {
        push_decimal(out, v as u64);
    }
}

/// The decimal rendering of `n`.
pub fn decimal_string(n: u64) -> (r: String)
    ensures
        r@ == decimal(n as nat),
{
    let mut s = String::new();
    push_decimal(&mut s, n);
    proof {
        assert(s@ =~= decimal(n as nat));
    }
    s
}

/// The signed decimal rendering of `v`.
pub fn i64_text(v: i64) -> (r: String)
    ensures
        r@ == signed_decimal(v as int),
{
    let mut s = String::new();
    push_signed(&mut s, v);
    proof {
        assert(s@ =~= signed_decimal(v as int));
    }
    s
}

/// The uppercase hexadecimal digit for `d < 16`.
pub open spec fn upper_hex_digit(d: nat) -> char {
    if d < 10 {
        ((d + 48) as u8) as char
    } else {
        ((d + 55) as u8) as char
    }
}

/// The uppercase hexadecimal digits of `n`.
pub open spec fn hex_upper(n: nat) -> Seq<char>
    decreases n,
{
    if n < 16 {
        seq![upper_hex_digit(n)]
    } else {
        hex_upper(n / 16) + seq![upper_hex_digit(n % 16)]
    }
}

/// `{:04X}`: the uppercase hexadecimal digits of `n`, zero-padded to four.
pub open spec fn hex4(n: nat) -> Seq<char> {
    let h = hex_upper(n);
    if h.len() < 4 {
        Seq::new((4 - h.len()) as nat, |i: int| '0') + h
    } else {
        h
    }
}

/// Append the uppercase hexadecimal digits of `n` to `out`.
fn push_hex(out: &mut String, n: u32)
    ensures
        final(out)@ == old(out)@ + hex_upper(n as nat),
    decreases n,
{
    if n >= 16 {
        push_hex(out, n / 16);
    }
    let d = n % 16;
    let c: char = if d < 10 { ((d + 48) as u8) as char } else { ((d + 55) as u8) as char };
    push_char(out, c);
    proof {
        assert(final(out)@ =~= old(out)@ + hex_upper(n as nat));
    }
}

/// `format!("{:04X}", n)` (see [`hex4`]).
pub fn hex4_text(n: u32) -> (r: String)
    ensures
        r@ == hex4(n as nat),
{
    let mut h = String::new();
    push_hex(&mut h, n);
    proof {
        assert(h@ =~= hex_upper(n as nat));
    }
    let len = h.as_str().unicode_len();
    let mut r = String::new();
    let mut i: usize = len;
    while i < 4
        invariant
            len == hex_upper(n as nat).len(),
            len <= i <= 4 || (len > 4 && i == len),
            r@ == Seq::new((i - len) as nat, |j: int| '0'),
        decreases 4 - i,
    {
        push_char(&mut r, '0');
        i = i + 1;
        proof {
            assert(r@ =~= Seq::new((i - len) as nat, |j: int| '0'));
        }
    }
    r.append(h.as_str());
    proof {
        if len >= 4 {
            assert(r@ =~= hex4(n as nat));
        } else {
            assert(r@ =~= hex4(n as nat));
        }
    }
    r
}

/// What the dump shows of a morpheme.
pub struct DumpMorpheme {
    pub surface: String,
    pub pos_id: u64,
    pub wcost: i64,
    pub feature: String,
}

/// The dump line of morpheme number `i`:
/// `[i] surface (pos_id=…, wcost=…)<TAB>feature`, then a newline.
pub open spec fn dump_line(i: nat, m: DumpMorpheme) -> Seq<char> {
    seq!['['] + decimal(i) + "] "@ + m.surface@ + " (pos_id="@ + decimal(m.pos_id as nat) + ", wcost="@
        + signed_decimal(m.wcost as int) + ")\t"@ + m.feature@ + seq!['\n']
}

/// The dump lines of `ms`, numbered from 0.
pub open spec fn dump_lines(ms: Seq<DumpMorpheme>) -> Seq<char>
    decreases ms.len(),
{
    if ms.len() == 0 {
        Seq::empty()
    } else {
        dump_lines(ms.drop_last()) + dump_line((ms.len() - 1) as nat, ms.last())
    }
}

/// Append `s` to `out`.
fn push_text(out: &mut String, s: &str)
    ensures
        final(out)@ == old(out)@ + s@,
{
    out.append(s);
}

/// The MeCab-style dump of an analysis: one line per morpheme, then `EOS`.
#[verifier::spinoff_prover]
pub fn build_dump_string(morphemes: &Vec<DumpMorpheme>) -> (r: String)
    ensures
        r@ == dump_lines(morphemes@) + "EOS\n"@,
{
    let mut out = String::new();
    let mut i: usize = 0;
    proof {
        assert(morphemes@.take(0) =~= Seq::<DumpMorpheme>::empty());
        assert(out@ =~= dump_lines(morphemes@.take(0)));
    }
    while i < morphemes.len()
        invariant
            i <= morphemes@.len(),
            out@ == dump_lines(morphemes@.take(i as int)),
        decreases morphemes@.len() - i,
    {
        let m = &morphemes[i];
        let ghost before = out@;
        push_char(&mut out, '[');
        push_decimal(&mut out, i as u64);
        push_text(&mut out, "] ");
        push_text(&mut out, m.surface.as_str());
        push_text(&mut out, " (pos_id=");
        push_decimal(&mut out, m.pos_id);
        push_text(&mut out, ", wcost=");
        push_signed(&mut out, m.wcost);
        push_text(&mut out, ")\t");
        push_text(&mut out, m.feature.as_str());
        push_char(&mut out, '\n');
        proof {
            assert(morphemes@.take(i + 1).drop_last() =~= morphemes@.take(i as int));
            assert(morphemes@.take(i + 1).last() == *m);
            assert(out@ =~= before + dump_line(i as nat, *m));
        }
        i += 1;
    }
    push_text(&mut out, "EOS\n");
    proof {
        assert(morphemes@.take(i as int) =~= morphemes@);
    }
    out
}

/// The surfaces joined with single spaces.
pub open spec fn wakati(ss: Seq<Seq<char>>) -> Seq<char>
    decreases ss.len(),
{
    if ss.len() == 0 {
        Seq::empty()
    } else if ss.len() == 1 {
        ss[0]
    } else {
        wakati(ss.drop_last()) + seq![' '] + ss.last()
    }
}

/// The space-separated surfaces of an analysis (see [`wakati`]).
pub fn build_wakati_string(surfaces: &Vec<String>) -> (r: String)
    ensures
        r@ == wakati(surfaces@.map_values(|s: String| s@)),
{
    let ghost v = surfaces@.map_values(|s: String| s@);
    let mut out = String::new();
    let mut i: usize = 0;
    proof {
        assert(v.take(0) =~= Seq::<Seq<char>>::empty());
    }
    while i < surfaces.len()
        invariant
            i <= v.len(),
            v == surfaces@.map_values(|s: String| s@),
            out@ == wakati(v.take(i as int)),
        decreases v.len() - i,
    {
        if i > 0 {
            push_char(&mut out, ' ');
        }
        push_text(&mut out, surfaces[i].as_str());
        proof {
            assert(v.take(i + 1).drop_last() =~= v.take(i as int));
            assert(v.take(i + 1).last() == v[i as int]);
            if i == 0 {
                assert(v.take(1) =~= seq![v[0]]);
            }
            assert(out@ =~= wakati(v.take(i + 1)));
        }
        i += 1;
    }
    proof {
        assert(v.take(i as int) =~= v);
    }
    out
}

/// Number of out-of-vocabulary ids (`u32::MAX`) in `ids`.
pub open spec fn oov_count(ids: Seq<u32>) -> nat
    decreases ids.len(),
{
    if ids.len() == 0 {
        0
    } else {
        oov_count(ids.drop_last()) + if ids.last() == u32::MAX { 1nat } else { 0nat }
    }
}

/// Count the out-of-vocabulary tokens of an analysis, given the word ids
/// of its morphemes (see [`oov_count`]).
pub fn count_oov(word_ids: &Vec<u32>) -> (r: usize)
    ensures
        r == oov_count(word_ids@),
{
    let mut n: usize = 0;
    let mut i: usize = 0;
    proof {
        assert(word_ids@.take(0) =~= Seq::<u32>::empty());
    }
    while i < word_ids.len()
        invariant
            i <= word_ids@.len(),
            n == oov_count(word_ids@.take(i as int)),
            n <= i,
        decreases word_ids@.len() - i,
    {
        proof {
            assert(word_ids@.take(i + 1).drop_last() =~= word_ids@.take(i as int));
        }
        if word_ids[i] == u32::MAX {
            n += 1;
        }
        i += 1;
    }
    proof {
        assert(word_ids@.take(i as int) =~= word_ids@);
    }
    n
}

/// Output formats of the HTTP parse endpoint.
#[derive(Debug, Clone, Copy, PartialEq, Eq, Default)]
pub enum ParseFormat {
    /// Full token array with surface and feature.
    #[default]
    Json,
    /// Space-separated surface forms only.
    Wakati,
    /// MeCab-style dump.
    Dump,
}

/// The lower-case form of `s`, as `str::to_lowercase` computes it.
pub uninterp spec fn lowercase(s: Seq<char>) -> Seq<char>;

/// `str::to_lowercase`. Claimed: the result is a function of the
/// characters of `s` alone (Unicode's fixed lower-case mapping), named
/// [`lowercase`]; what that mapping is, is not stated.
#[verifier::external_body]
fn to_lowercase(s: &str) -> (r: String)
    ensures
        r@ == lowercase(s@),
{
    s.to_lowercase()
}

/// The format named by an already lower-cased value.
pub open spec fn format_named(l: Seq<char>) -> Option<ParseFormat> {
    if l == "json"@ {
        Some(ParseFormat::Json)
    } else if l == "wakati"@ {
        Some(ParseFormat::Wakati)
    } else if l == "dump"@ {
        Some(ParseFormat::Dump)
    } else {
        None
    }
}

impl ParseFormat {
    /// The format named by a lower-cased value (see [`format_named`]).
    pub fn from_lowercase(l: &str) -> (r: Option<ParseFormat>)
        ensures
            r == format_named(l@),
    {
        if text_eq(l, "json") {
            Some(ParseFormat::Json)
        } else if text_eq(l, "wakati") {
            Some(ParseFormat::Wakati)
        } else if text_eq(l, "dump") {
            Some(ParseFormat::Dump)
        } else {
            None
        }
    }

    /// Parse a `?format=` value, ignoring case.
    pub fn from_str_opt(s: &str) -> (r: Option<ParseFormat>)
        ensures
            r == format_named(lowercase(s@)),
    {
        let l = to_lowercase(s);
        Self::from_lowercase(l.as_str())
    }
}

/// Errors of the HTTP API.
#[derive(Debug)]
pub enum ApiError {
    /// The analysis failed.
    Parse(String),
    /// The request is malformed.
    BadRequest(String),
}

/// The message for an unknown format name.
pub open spec fn unknown_format_message(s: Seq<char>) -> Seq<char> {
    "Unknown format '"@ + s + "'. Valid values: json, wakati, dump"@
}

/// The output format of a request: the query parameter wins over the body
/// field; neither gives the default (JSON); an unknown name is a bad
/// request.
pub fn resolve_format(body_format: Option<&str>, query_format: Option<&str>) -> (r: Result<ParseFormat, ApiError>)
    ensures
        match (if query_format is Some { query_format } else { body_format }) {
            None => r == Ok::<ParseFormat, ApiError>(ParseFormat::Json),
            Some(s) => match format_named(lowercase(s@)) {
                Some(f) => r == Ok::<ParseFormat, ApiError>(f),
                None => r matches Err(ApiError::BadRequest(m)) && m@ == unknown_format_message(s@),
            },
        },
{
    let raw = match query_format {
        Some(q) => Some(q),
        None => body_format,
    };
    match raw {
        None => Ok(ParseFormat::Json),
        Some(s) => match ParseFormat::from_str_opt(s) {
            Some(f) => Ok(f),
            None => Err(ApiError::BadRequest(join3("Unknown format '", s, "'. Valid values: json, wakati, dump"))),
        },
    }
}

} // verus!
