//! Inputs of the `parse` command: forced byte spans (`START:END`) and MeCab
//! `--partial` constraint files.

use vstd::prelude::*;
use vstd::utf8::encode_utf8;
use vstd::string::StringExecFns;
use crate::scan::{find_first, lemma_find_first, lines_of, parse_unsigned, find_char, line_bounds, parse_unsigned_at};
use crate::text::{chars_of, string_of_range, join3, usize_text};
use crate::output_format::decimal;

verus! {

/// A `"START:END"` span: two decimal byte offsets around the first `:`, the
/// start strictly below the end.
pub open spec fn span_spec(s: Seq<char>) -> Option<(usize, usize)> {
    match find_first(s, ':') {
        None => None,
        Some(i) => match (parse_unsigned(s.take(i), 10, usize::MAX as int), parse_unsigned(s.skip(i + 1), 10, usize::MAX as int)) {
            (Some(a), Some(b)) => if a < b { Some((a as usize, b as usize)) } else { None },
            _ => None,
        },
    }
}

/// The error for a malformed span `s`: no `:`; a part before or after the
/// first `:` that is not a byte offset (the first such part is named); or a
/// start not below the end (both offsets are named).
pub open spec fn span_error(s: Seq<char>) -> Seq<char> {
    match find_first(s, ':') {
        None => "invalid span '"@ + s + "': expected format START:END"@,
        Some(i) => if parse_unsigned(s.take(i), 10, usize::MAX as int) is None {
            "invalid span '"@ + s + "': '"@ + s.take(i) + "' is not a valid byte offset"@
        } else if parse_unsigned(s.skip(i + 1), 10, usize::MAX as int) is None {
            "invalid span '"@ + s + "': '"@ + s.skip(i + 1) + "' is not a valid byte offset"@
        } else {
            let a = parse_unsigned(s.take(i), 10, usize::MAX as int)->0;
            let b = parse_unsigned(s.skip(i + 1), 10, usize::MAX as int)->0;
            "invalid span '"@ + s + "': start ("@ + decimal(a as nat) + ") must be less than end ("@
                + decimal(b as nat) + ")"@
        },
    }
}

/// Parse a `"start:end"` span string (see [`span_spec`]); the error message
/// names the malformed part (see [`span_error`]).
pub fn parse_span_str(s: &str) -> (r: Result<(usize, usize), String>)
    ensures
        match span_spec(s@) {
            Some(p) => r == Ok::<(usize, usize), String>(p),
            None => r matches Err(m) && m@ == span_error(s@),
        },
{
    let cs = chars_of(s);
    let n = cs.len();
    let colon = match find_char(cs.as_slice(), 0, n, ':') {
        Some(i) => i,
        None => {
            proof {
                assert(cs@.subrange(0, n as int) =~= s@);
            }
            return Err(join3("invalid span '", s, "': expected format START:END"));
        },
    };
    proof {
        assert(cs@.subrange(0, n as int) =~= s@);
        lemma_find_first(s@, ':');
        assert(s@.take(colon as int) =~= cs@.subrange(0, colon as int));
        assert(s@.skip(colon + 1) =~= cs@.subrange(colon + 1, n as int));
    }
    let start = match parse_unsigned_at(cs.as_slice(), 0, colon, 10, usize::MAX as u64) {
        Some(v) => v as usize,
        None => {
            let part = string_of_range(cs.as_slice(), 0, colon);
            let head = join3("invalid span '", s, "': '");
            let m = join3(head.as_str(), part.as_str(), "' is not a valid byte offset");
            proof {
                assert(m@ =~= span_error(s@));
            }
            return Err(m);
        },
    };
    let end = match parse_unsigned_at(cs.as_slice(), colon + 1, n, 10, usize::MAX as u64) {
        Some(v) => v as usize,
        None => {
            let part = string_of_range(cs.as_slice(), colon + 1, n);
            let head = join3("invalid span '", s, "': '");
            let m = join3(head.as_str(), part.as_str(), "' is not a valid byte offset");
            proof {
                assert(m@ =~= span_error(s@));
            }
            return Err(m);
        },
    };
    if start >= end {
        let head = join3("invalid span '", s, "': start (");
        let mid = join3(head.as_str(), usize_text(start).as_str(), ") must be less than end (");
        let m = join3(mid.as_str(), usize_text(end).as_str(), ")");
        proof {
            assert(m@ =~= span_error(s@));
        }
        return Err(m);
    }
    Ok((start, end))
}

/// One forced span of a `--partial` sentence: start byte, end byte, and the
/// forced feature when the line had one.
pub open spec fn span_view(p: (usize, usize, Option<String>)) -> (int, int, Option<Seq<char>>) {
    (p.0 as int, p.1 as int, match p.2 { Some(f) => Some(f@), None => None })
}

/// A parsed sentence: its text and its forced spans.
pub open spec fn sentence_view(s: (String, Vec<(usize, usize, Option<String>)>)) -> (Seq<char>, Seq<(int, int, Option<Seq<char>>)>) {
    (s.0@, s.1@.map_values(|p: (usize, usize, Option<String>)| span_view(p)))
}

/// State of the `--partial` reader: finished sentences, the text and spans
/// of the current one.
pub type PartialState = (Seq<(Seq<char>, Seq<(int, int, Option<Seq<char>>)>)>, Seq<char>, Seq<(int, int, Option<Seq<char>>)>);

/// One constraint line: a blank line or `EOS` ends the current sentence (kept
/// when it has a span); otherwise the surface (up to the first tab) is
/// appended and, when not empty, forced as a span with the feature after
/// the tab.
pub open spec fn partial_step(st: PartialState, line: Seq<char>) -> PartialState {
    let (done, text, spans) = st;
    if line.len() == 0 || line == "EOS"@ {
        if spans.len() > 0 {
            (done.push((text, spans)), Seq::empty(), Seq::empty())
        } else {
            (done, Seq::empty(), Seq::empty())
        }
    } else {
        let (surface, feature) = match find_first(line, '\t') {
            Some(i) => (line.take(i), Some(line.skip(i + 1))),
            None => (line, None),
        };
        let start = encode_utf8(text).len() as int;
        let text2 = text + surface;
        let end = encode_utf8(text2).len() as int;
        if end > start {
            (done, text2, spans.push((start, end, feature)))
        } else {
            (done, text2, spans)
        }
    }
}

/// The reader state after `lines`.
pub open spec fn partial_fold(lines: Seq<Seq<char>>) -> PartialState
    decreases lines.len(),
{
    if lines.len() == 0 {
        (Seq::empty(), Seq::empty(), Seq::empty())
    } else {
        partial_step(partial_fold(lines.drop_last()), lines.last())
    }
}

/// The sentences of a `--partial` file: those ended by a terminator, and a
/// final unterminated one when it has a span.
pub open spec fn partial_sentences(contents: Seq<char>) -> Seq<(Seq<char>, Seq<(int, int, Option<Seq<char>>)>)> {
    let (done, text, spans) = partial_fold(lines_of(contents));
    if spans.len() > 0 { done.push((text, spans)) } else { done }
}

/// Whether `cs[lo..hi]` is exactly `EOS`.
fn is_eos(cs: &[char], lo: usize, hi: usize) -> (r: bool)
    requires
        lo <= hi <= cs@.len(),
    ensures
        r == (cs@.subrange(lo as int, hi as int) == "EOS"@),
{
    let e = chars_of("EOS");
    if hi - lo != e.len() {
        return false;
    }
    let mut i: usize = 0;
    while i < e.len()
        invariant
            i <= e@.len(),
            e@ == "EOS"@,
            hi - lo == e@.len(),
            lo <= hi <= cs@.len(),
            forall|j: int| 0 <= j < i ==> cs@[lo + j] == e@[j],
        decreases e@.len() - i,
    {
        if cs[lo + i] != e[i] {
            assert(cs@.subrange(lo as int, hi as int)[i as int] != e@[i as int]);
            return false;
        }
        i += 1;
    }
    assert(cs@.subrange(lo as int, hi as int) =~= "EOS"@);
    true
}

/// The UTF-8 length of a string.
fn utf8_len(s: &String) -> (r: usize)
    ensures
        r == encode_utf8(s@).len(),
{
    let b = vstd::slice::slice_to_vec(s.as_str().as_bytes());
    b.len()
}

/// Parse a MeCab `--partial` constraint file into sentences and forced
/// spans (see [`partial_sentences`]). Each non-terminator line is a token
/// `surface` or `surface<TAB>feature`; the sentence is the concatenation of
/// the surfaces and each non-empty surface forces its byte span.
pub fn parse_partial_file(contents: &str) -> (r: Vec<(String, Vec<(usize, usize, Option<String>)>)>)
    ensures
        r@.map_values(|s: (String, Vec<(usize, usize, Option<String>)>)| sentence_view(s)) == partial_sentences(contents@),
{
    let cs = chars_of(contents);
    let lb = line_bounds(cs.as_slice());
    let ghost lines = lines_of(cs@);
    let mut sentences: Vec<(String, Vec<(usize, usize, Option<String>)>)> = Vec::new();
    let mut text = String::new();
    let mut spans: Vec<(usize, usize, Option<String>)> = Vec::new();
    let mut k: usize = 0;
    proof {
        assert(lines.take(0) =~= Seq::<Seq<char>>::empty());
        assert(sentences@.map_values(|s: (String, Vec<(usize, usize, Option<String>)>)| sentence_view(s))
            =~= Seq::<(Seq<char>, Seq<(int, int, Option<Seq<char>>)>)>::empty());
        assert(spans@.map_values(|p: (usize, usize, Option<String>)| span_view(p)) =~= Seq::<(int, int, Option<Seq<char>>)>::empty());
    }
    while k < lb.len()
        invariant
            k <= lb@.len(),
            cs@ == contents@,
            lines == lines_of(cs@),
            lb@.len() == lines.len(),
            forall|j: int| 0 <= j < lb@.len() ==> (#[trigger] lb@[j]).0 <= lb@[j].1 <= cs@.len()
                && cs@.subrange(lb@[j].0 as int, lb@[j].1 as int) == lines[j],
            partial_fold(lines.take(k as int)) == (
                sentences@.map_values(|s: (String, Vec<(usize, usize, Option<String>)>)| sentence_view(s)),
                text@,
                spans@.map_values(|p: (usize, usize, Option<String>)| span_view(p)),
            ),
            encode_utf8(text@).len() <= usize::MAX,
        decreases lb@.len() - k,
    {
        let (a, b) = lb[k];
        let ghost before_sent = sentences@;
        let ghost before_spans = spans@;
        proof {
            assert(lines.take(k + 1).drop_last() =~= lines.take(k as int));
            assert(lines.take(k + 1).last() == lines[k as int]);
        }
        if a == b || is_eos(cs.as_slice(), a, b) {
            if spans.len() > 0 {
                let t = text;
                let s = spans;
                sentences.push((t, s));
                proof {
                    assert(sentences@.map_values(|s: (String, Vec<(usize, usize, Option<String>)>)| sentence_view(s))
                        =~= before_sent.map_values(|s: (String, Vec<(usize, usize, Option<String>)>)| sentence_view(s)).push(
                            (t@, before_spans.map_values(|p: (usize, usize, Option<String>)| span_view(p)))));
                }
            }
            text = String::new();
            spans = Vec::new();
            proof {
                assert(spans@.map_values(|p: (usize, usize, Option<String>)| span_view(p)) =~= Seq::<(int, int, Option<Seq<char>>)>::empty());
                assert(a == b ==> cs@.subrange(a as int, b as int).len() == 0);
            }
        } else {
            let ghost line = cs@.subrange(a as int, b as int);
            let (surface_end, feature) = match find_char(cs.as_slice(), a, b, '\t') {
                Some(t) => {
                    proof {
                        lemma_find_first(line, '\t');
                        assert(line.take(t - a) =~= cs@.subrange(a as int, t as int));
                        assert(line.skip(t - a + 1) =~= cs@.subrange(t + 1, b as int));
                    }
                    (t, Some(string_of_range(cs.as_slice(), t + 1, b)))
                },
                None => (b, None),
            };
            let surface = string_of_range(cs.as_slice(), a, surface_end);
            let start = utf8_len(&text);
            let ghost text0 = text@;
            text.append(surface.as_str());
            let end = utf8_len(&text);
            proof {
                assert(text@ == text0 + surface@);
            }
            if end > start {
                spans.push((start, end, feature));
                proof {
                    assert(spans@.map_values(|p: (usize, usize, Option<String>)| span_view(p))
                        =~= before_spans.map_values(|p: (usize, usize, Option<String>)| span_view(p)).push(span_view((start, end, feature))));
                }
            }
        }
        k += 1;
    }
    proof {
        assert(lines.take(k as int) =~= lines);
    }
    if spans.len() > 0 {
        let ghost before_sent = sentences@;
        let ghost sp = spans@;
        let t = text;
        sentences.push((t, spans));
        proof {
            assert(sentences@.map_values(|s: (String, Vec<(usize, usize, Option<String>)>)| sentence_view(s))
                =~= before_sent.map_values(|s: (String, Vec<(usize, usize, Option<String>)>)| sentence_view(s)).push(
                    (t@, sp.map_values(|p: (usize, usize, Option<String>)| span_view(p)))));
        }
    }
    sentences
}

} // verus!
