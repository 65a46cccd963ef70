//! Editor diagnostics for unknown words: each morpheme whose feature marks
//! an unknown word gets a warning over its characters, placed by LSP
//! position (line, UTF-16 column).

use vstd::prelude::*;
use crate::lsp_text::{char_offset_to_position, is_unknown_feature, lsp_position, unknown_feature};
use crate::text::{chars_of, join3};

verus! {

/// A warning about an unknown word, from `start` to `end` (LSP positions).
#[derive(Debug)]
pub struct UnknownWordDiagnostic {
    pub start: (u32, u32),
    pub end: (u32, u32),
    pub message: String,
}

/// Total number of characters of the surfaces of `ms`.
pub open spec fn surface_chars(ms: Seq<(Seq<char>, Seq<char>)>) -> nat
    decreases ms.len(),
{
    if ms.len() == 0 {
        0
    } else {
        surface_chars(ms.drop_last()) + ms.last().0.len()
    }
}

/// The message for an unknown word.
pub open spec fn unknown_word_message(surface: Seq<char>) -> Seq<char> {
    "Unknown word '"@ + surface + "': not found in dictionary"@
}

/// The diagnostics of morphemes `ms` (surface, feature) of `text`: the
/// morphemes cover the text one after another, and each unknown one gets a
/// warning from its first character to the one after its last.
pub open spec fn diagnostics_spec(text: Seq<char>, ms: Seq<(Seq<char>, Seq<char>)>) -> Seq<((u32, u32), (u32, u32), Seq<char>)>
    decreases ms.len(),
{
    if ms.len() == 0 {
        Seq::empty()
    } else {
        let prev = diagnostics_spec(text, ms.drop_last());
        let at = surface_chars(ms.drop_last()) as int;
        let m = ms.last();
        if unknown_feature(m.1) {
            prev.push((lsp_position(text, at), lsp_position(text, at + m.0.len()), unknown_word_message(m.0)))
        } else {
            prev
        }
    }
}

/// The view of morphemes given as (surface, feature).
pub open spec fn morphemes_view(v: Seq<(String, String)>) -> Seq<(Seq<char>, Seq<char>)> {
    v.map_values(|m: (String, String)| (m.0@, m.1@))
}

/// The view of diagnostics.
pub open spec fn diagnostics_view(v: Seq<UnknownWordDiagnostic>) -> Seq<((u32, u32), (u32, u32), Seq<char>)> {
    v.map_values(|d: UnknownWordDiagnostic| (d.start, d.end, d.message@))
}

/// Warnings for the unknown words of an analysis of `text` (see
/// [`diagnostics_spec`]).
pub fn build_diagnostics(text: &str, morphemes: &Vec<(String, String)>) -> (r: Vec<UnknownWordDiagnostic>)
    requires
        text@.len() <= u32::MAX / 2,
        surface_chars(morphemes_view(morphemes@)) <= usize::MAX,
    ensures
        diagnostics_view(r@) == diagnostics_spec(text@, morphemes_view(morphemes@)),
{
    let ghost ms = morphemes_view(morphemes@);
    let mut out: Vec<UnknownWordDiagnostic> = Vec::new();
    let mut cursor: usize = 0;
    let mut i: usize = 0;
    proof {
        assert(ms.take(0) =~= Seq::<(Seq<char>, Seq<char>)>::empty());
        assert(diagnostics_view(out@) =~= Seq::<((u32, u32), (u32, u32), Seq<char>)>::empty());
    }
    while i < morphemes.len()
        invariant
            i <= ms.len(),
            ms == morphemes_view(morphemes@),
            text@.len() <= u32::MAX / 2,
            surface_chars(ms) <= usize::MAX,
            cursor == surface_chars(ms.take(i as int)),
            diagnostics_view(out@) == diagnostics_spec(text@, ms.take(i as int)),
        decreases ms.len() - i,
    {
        let surface = &morphemes[i].0;
        let n = chars_of(surface.as_str()).len();
        proof {
            assert(ms.take(i + 1).drop_last() =~= ms.take(i as int));
            assert(ms.take(i + 1).last() == ms[i as int]);
            lemma_surface_chars_prefix(ms, i + 1);
        }
        if is_unknown_feature(morphemes[i].1.as_str()) {
            let start = char_offset_to_position(text, cursor);
            let end = char_offset_to_position(text, cursor + n);
            let message = join3("Unknown word '", surface.as_str(), "': not found in dictionary");
            let ghost before = out@;
            out.push(UnknownWordDiagnostic { start, end, message });
            proof {
                assert(diagnostics_view(out@) =~= diagnostics_view(before).push((start, end, message@)));
            }
        }
        cursor = cursor + n;
        i += 1;
    }
    proof {
        assert(ms.take(i as int) =~= ms);
    }
    out
}

proof fn lemma_surface_chars_prefix(ms: Seq<(Seq<char>, Seq<char>)>, n: int)
    requires
        0 <= n <= ms.len(),
    ensures
        surface_chars(ms.take(n)) <= surface_chars(ms),
    decreases ms.len(),
{
    if n < ms.len() {
        assert(ms.drop_last().take(n) =~= ms.take(n));
        lemma_surface_chars_prefix(ms.drop_last(), n);
    } else {
        assert(ms.take(n) =~= ms);
    }
}

} // verus!
