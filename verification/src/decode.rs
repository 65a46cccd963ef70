//! Decoding of dictionary sources in their declared character set.
//!
//! Stock IPADIC ships in EUC-JP, so source text is decoded with the encoding
//! that `encoding_rs` registers under the `--charset` label; input that only
//! decodes with replacement characters is refused rather than compiled into
//! mojibake.

use vstd::prelude::*;
use vstd::string::StringSliceAdditionalSpecFns;
use encoding_rs::Encoding;
use crate::text::{join2, join3};

verus! {

#[verifier::external_type_specification]
#[verifier::external_body]
pub struct ExEncoding(Encoding);

/// An `encoding_rs` encoding, with the label it was looked up by.
pub struct Charset {
    encoding: &'static Encoding,
    label: Vec<u8>,
}

impl Charset {
    /// The label this encoding was looked up by.
    pub closed spec fn label(&self) -> Seq<u8> {
        self.label@
    }
}

/// Whether `encoding_rs` knows `label` (a WHATWG encoding label, matched
/// case-insensitively after trimming ASCII whitespace).
pub uninterp spec fn label_known(label: Seq<u8>) -> bool;

/// The canonical name of the encoding `label` selects.
pub uninterp spec fn encoding_name(label: Seq<u8>) -> Seq<char>;

/// Decoding `bytes` with the encoding `label` selects (after BOM sniffing):
/// the text, and whether malformed sequences were replaced.
pub uninterp spec fn decode_outcome(label: Seq<u8>, bytes: Seq<u8>) -> (Seq<char>, bool);

/// What `{:?}` formatting writes for the string `s`.
pub uninterp spec fn debug_text(s: Seq<char>) -> Seq<char>;

/// `format!("{:?}", s)`: `s` in double quotes, with quotes, backslashes
/// and non-printable characters escaped. The contract claims only that
/// the result is the formatting of `s` and is enclosed in double quotes;
/// which characters are escaped, and how, is left to std.
#[verifier::external_body]
pub(crate) fn debug_quoted(s: &str) -> (r: String)
    ensures
        r@ == debug_text(s@),
        r@.len() >= 2 && r@[0] == '"' && r@.last() == '"',
{
    format!("{:?}", s)
}

/// `Encoding::for_label`: the encoding registered under `label`, if any.
/// The lookup depends on the label alone; which labels are known is not
/// written out here.
#[verifier::external_body]
fn charset_for_label(label: &[u8]) -> (r: Option<Charset>)
    ensures
        r is Some <==> label_known(label@),
        r matches Some(c) ==> c.label() == label@,
{
    match Encoding::for_label(label) {
        Some(e) => Some(Charset { encoding: e, label: label.to_vec() }),
        None => None,
    }
}

/// `Encoding::name`: the canonical name of the encoding.
#[verifier::external_body]
fn charset_name(cs: &Charset) -> (r: &'static str)
    ensures
        r@ == encoding_name(cs.label()),
{
    cs.encoding.name()
}

/// `Encoding::decode`: the decoded text and whether replacement characters
/// were needed. The text is owned; which encoding BOM sniffing chose is
/// dropped. The inputs are bounded so the output buffer size cannot
/// overflow, where the crate would panic.
#[verifier::external_body]
fn decode_with(cs: &Charset, bytes: &[u8]) -> (r: (String, bool))
    requires
        bytes@.len() <= usize::MAX / 8,
    ensures
        (r.0@, r.1) == decode_outcome(cs.label(), bytes@),
{
    let (text, _, had_errors) = cs.encoding.decode(bytes);
    (text.into_owned(), had_errors)
}

/// The error for input `origin` that is not valid text in `encoding`.
pub open spec fn invalid_text_message(origin: Seq<char>, encoding: Seq<char>) -> Seq<char> {
    origin + " is not valid "@ + encoding
        + ": it decoded with replacement characters. Stock IPADIC sources are EUC-JP — pass the right --charset."@
}

/// The error for a charset label no encoding is registered under; the
/// label is written as `{:?}` writes it.
pub open spec fn unknown_charset_message(charset: Seq<char>) -> Seq<char> {
    "unknown --charset "@ + debug_text(charset) + " (try utf-8, euc-jp or shift_jis)"@
}

/// The text when decoding needed no replacement characters; otherwise an
/// error naming `origin` and the encoding (see [`invalid_text_message`]).
pub fn accept_decoded(text: String, had_errors: bool, encoding: &str, origin: &str) -> (r: Result<String, String>)
    ensures
        had_errors ==> (r matches Err(m) && m@ == invalid_text_message(origin@, encoding@)),
        !had_errors ==> (r matches Ok(t) && t@ == text@),
{
    if had_errors {
        let head = join3(origin, " is not valid ", encoding);
        return Err(join2(head.as_str(),
            ": it decoded with replacement characters. Stock IPADIC sources are EUC-JP — pass the right --charset."));
    }
    Ok(text)
}

/// What decoding `bytes` with `label` gives: the text, when the label is
/// known and the bytes are valid in its encoding.
pub open spec fn decode_result(bytes: Seq<u8>, label: Seq<u8>) -> Option<Seq<char>> {
    if label_known(label) && !decode_outcome(label, bytes).1 {
        Some(decode_outcome(label, bytes).0)
    } else {
        None
    }
}

/// Decode `bytes` with the encoding registered under `charset`, naming
/// `origin` in any error.
pub fn decode_bytes(bytes: &[u8], charset: &str, origin: &str) -> (r: Result<String, String>)
    requires
        bytes@.len() <= usize::MAX / 8,
    ensures
        match decode_result(bytes@, charset.spec_bytes()) {
            Some(t) => r matches Ok(s) && s@ == t,
            None => r is Err,
        },
        !label_known(charset.spec_bytes()) ==> (r matches Err(m) && m@ == unknown_charset_message(charset@)),
        label_known(charset.spec_bytes()) && decode_outcome(charset.spec_bytes(), bytes@).1
            ==> (r matches Err(m) && m@ == invalid_text_message(origin@, encoding_name(charset.spec_bytes()))),
{
    let cs = match charset_for_label(charset.as_bytes()) {
        Some(c) => c,
        None => {
            return Err(join3("unknown --charset ", debug_quoted(charset).as_str(), " (try utf-8, euc-jp or shift_jis)"));
        },
    };
    let (text, had_errors) = decode_with(&cs, bytes);
    let name = charset_name(&cs);
    accept_decoded(text, had_errors, name, origin)
}

} // verus!
