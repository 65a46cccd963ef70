//! ANSI colours of the terminal output, by part of speech.

use vstd::prelude::*;
use crate::lsp_text::{has_prefix, starts_with};
use crate::text::chars_of;

verus! {

/// Reset all attributes.
pub const RESET: &'static str = "\x1b[0m";
/// Bold text.
pub const BOLD: &'static str = "\x1b[1m";
/// Dim text.
pub const DIM: &'static str = "\x1b[2m";
/// Nouns: blue.
pub const NOUN: &'static str = "\x1b[38;5;39m";
/// Verbs: orange.
pub const VERB: &'static str = "\x1b[38;5;208m";
/// Adjectives: green.
pub const ADJ: &'static str = "\x1b[38;5;118m";
/// Particles: gray.
pub const PARTICLE: &'static str = "\x1b[38;5;243m";
/// Auxiliary verbs: purple.
pub const AUX: &'static str = "\x1b[38;5;141m";
/// Symbols: light gray.
pub const SYMBOL: &'static str = "\x1b[38;5;245m";
/// Anything else: white.
pub const OTHER: &'static str = "\x1b[38;5;250m";

/// The colour of a part of speech: nouns, verbs, adjectives, particles,
/// auxiliaries and symbols each have one; anything else is `OTHER`.
pub open spec fn pos_color_spec(pos: Seq<char>) -> &'static str {
    if has_prefix(pos, "名詞"@) {
        NOUN
    } else if has_prefix(pos, "動詞"@) {
        VERB
    } else if has_prefix(pos, "形容詞"@) || has_prefix(pos, "形状詞"@) {
        ADJ
    } else if has_prefix(pos, "助詞"@) {
        PARTICLE
    } else if has_prefix(pos, "助動詞"@) {
        AUX
    } else if has_prefix(pos, "記号"@) || has_prefix(pos, "補助記号"@) {
        SYMBOL
    } else {
        OTHER
    }
}

/// Get the colour for a part of speech (see [`pos_color_spec`]).
pub fn pos_color(pos: &str) -> (r: &'static str)
    ensures
        r == pos_color_spec(pos@),
{
    let cs = chars_of(pos);
    let s = cs.as_slice();
    if starts_with(s, "名詞") {
        NOUN
    } else if starts_with(s, "動詞") {
        VERB
    } else if starts_with(s, "形容詞") || starts_with(s, "形状詞") {
        ADJ
    } else if starts_with(s, "助詞") {
        PARTICLE
    } else if starts_with(s, "助動詞") {
        AUX
    } else if starts_with(s, "記号") || starts_with(s, "補助記号") {
        SYMBOL
    } else {
        OTHER
    }
}

} // verus!
