//! N-Triples lines of DBpedia dumps: IRIs, string literals with language
//! tags, and the label / abstract predicates that carry Japanese surfaces.

use vstd::prelude::*;
use crate::scan::{trim, find_first, lemma_find_first, find_char, trim_bounds};
use crate::text::{chars_of, string_of_range, string_of};
use crate::lsp_text::{alphanumeric, is_alphanumeric};

verus! {

/// Statistics from processing a DBpedia N-Triples dump.
#[derive(Debug, Default)]
pub struct DBpediaStats {
    /// Total N-Triple lines processed (excluding comments and blanks)
    pub triples_processed: u64,
    /// Number of Japanese-language label/name triples found
    pub labels_found: u64,
    /// Number of Japanese-language abstract triples found
    pub abstracts_found: u64,
    /// Number of surface→URI pairs added to the index
    pub surfaces_added: u64,
}

/// A parsed N-Triple: subject IRI, predicate IRI, object (IRI or literal
/// text) and the literal's language tag.
#[derive(Debug)]
pub struct Triple {
    pub subject: String,
    pub predicate: String,
    pub object: String,
    pub lang: Option<String>,
}

/// `s` with every trailing copy of `p` removed (`trim_end_matches`).
pub open spec fn trim_end_pattern(s: Seq<char>, p: Seq<char>) -> Seq<char>
    decreases s.len(),
{
    if p.len() > 0 && s.len() >= p.len() && s.skip(s.len() - p.len()) == p {
        trim_end_pattern(s.take(s.len() - p.len()), p)
    } else {
        s
    }
}

/// An IRI `<…>` at the start of `s`: its content and the text after `>`.
pub open spec fn iri_spec(s: Seq<char>) -> Option<(Seq<char>, Seq<char>)> {
    if s.len() > 0 && s[0] == '<' {
        match find_first(s, '>') {
            Some(e) => Some((s.subrange(1, e), s.skip(e + 1))),
            None => None,
        }
    } else {
        None
    }
}

/// Index of the first `"` at or after `i` that does not follow a backslash.
pub open spec fn closing_quote(s: Seq<char>, i: int) -> Option<int>
    decreases s.len() - i,
{
    if i < 1 || i >= s.len() {
        None
    } else if s[i] == '"' && s[i - 1] != '\\' {
        Some(i)
    } else {
        closing_quote(s, i + 1)
    }
}

/// `str::replace`: every non-overlapping occurrence of `pat`, left to right,
/// replaced by `rep`.
pub open spec fn replace_all(s: Seq<char>, pat: Seq<char>, rep: Seq<char>) -> Seq<char>
    decreases s.len(),
{
    if s.len() == 0 {
        s
    } else if pat.len() > 0 && s.len() >= pat.len() && s.take(pat.len() as int) == pat {
        rep + replace_all(s.skip(pat.len() as int), pat, rep)
    } else {
        seq![s[0]] + replace_all(s.drop_first(), pat, rep)
    }
}

/// The escapes of a literal resolved: `\"`, `\n`, `\t`, then `\\`.
pub open spec fn unescape(s: Seq<char>) -> Seq<char> {
    replace_all(replace_all(replace_all(replace_all(s, seq!['\\', '"'], seq!['"']), seq!['\\', 'n'], seq!['\n']),
        seq!['\\', 't'], seq!['\t']), seq!['\\', '\\'], seq!['\\'])
}

/// Number of leading characters that may belong to a language tag
/// (alphanumeric or `-`).
pub open spec fn tag_len(s: Seq<char>) -> nat
    decreases s.len(),
{
    if s.len() > 0 && (alphanumeric(s[0]) || s[0] == '-') {
        1 + tag_len(s.drop_first())
    } else {
        0
    }
}

/// A string literal `"…"` at the start of `s` with an optional `@lang` tag:
/// its unescaped content and the tag.
pub open spec fn literal_spec(s: Seq<char>) -> Option<(Seq<char>, Option<Seq<char>>)> {
    if s.len() > 0 && s[0] == '"' {
        match closing_quote(s, 1) {
            Some(e) => {
                let rest = s.skip(e + 1);
                let lang = if rest.len() > 0 && rest[0] == '@' {
                    Some(rest.drop_first().take(tag_len(rest.drop_first()) as int))
                } else {
                    None
                };
                Some((unescape(s.subrange(1, e)), lang))
            },
            None => None,
        }
    } else {
        None
    }
}

/// An N-Triple line (a trailing `" ."` and `.` ignored): subject and
/// predicate IRIs, then an IRI or a literal object.
pub open spec fn ntriple_spec(line: Seq<char>) -> Option<(Seq<char>, Seq<char>, Seq<char>, Option<Seq<char>>)> {
    let l = trim_end_pattern(trim_end_pattern(line, seq![' ', '.']), seq!['.']);
    match iri_spec(trim(l)) {
        None => None,
        Some((subject, r1)) => match iri_spec(trim(r1)) {
            None => None,
            Some((predicate, r2)) => {
                let r = trim(r2);
                if r.len() > 0 && r[0] == '<' {
                    match iri_spec(r) {
                        Some((o, _)) => Some((subject, predicate, o, None)),
                        None => None,
                    }
                } else if r.len() > 0 && r[0] == '"' {
                    match literal_spec(r) {
                        Some((c, lang)) => Some((subject, predicate, c, lang)),
                        None => None,
                    }
                } else {
                    None
                }
            },
        },
    }
}

/// The bounds of `cs[lo..hi]` with trailing copies of `p` removed.
fn trim_end_pattern_at(cs: &[char], lo: usize, hi: usize, p: &[char]) -> (r: usize)
    requires
        lo <= hi <= cs@.len(),
    ensures
        lo <= r <= hi,
        cs@.subrange(lo as int, r as int) == trim_end_pattern(cs@.subrange(lo as int, hi as int), p@),
    decreases hi - lo,
{
    let n = p.len();
    if n > 0 && hi - lo >= n {
        let mut i: usize = 0;
        let mut same = true;
        while i < n
            invariant
                i <= n,
                n == p@.len(),
                lo + n <= hi <= cs@.len(),
                same == (forall|j: int| 0 <= j < i ==> cs@[hi - n + j] == p@[j]),
            decreases n - i,
        {
            if cs[hi - n + i] != p[i] {
                same = false;
            }
            i += 1;
        }
        let ghost s = cs@.subrange(lo as int, hi as int);
        if same {
            proof {
                assert(s.skip(s.len() - n) =~= p@);
                assert(s.take(s.len() - n) =~= cs@.subrange(lo as int, hi - n));
            }
            return trim_end_pattern_at(cs, lo, hi - n, p);
        } else {
            proof {
                if s.skip(s.len() - n) == p@ {
                    assert forall|j: int| 0 <= j < n implies cs@[hi - n + j] == p@[j] by {
                        assert(s.skip(s.len() - n)[j] == cs@[hi - n + j]);
                    }
                }
            }
        }
    }
    hi
}

/// Extract an IRI `<…>` from the start of `s`: its content and the rest.
pub fn extract_iri(s: &str) -> (r: Option<(String, String)>)
    ensures
        match iri_spec(s@) {
            Some((iri, rest)) => r matches Some((a, b)) && a@ == iri && b@ == rest,
            None => r is None,
        },
{
    let cs = chars_of(s);
    let n = cs.len();
    proof {
        assert(cs@.subrange(0, n as int) =~= s@);
    }
    if n == 0 || cs[0] != '<' {
        return None;
    }
    match find_char(cs.as_slice(), 0, n, '>') {
        Some(e) => {
            proof {
                lemma_find_first(s@, '>');
                assert(s@.skip(e + 1) =~= cs@.subrange(e + 1, n as int));
            }
            Some((string_of_range(cs.as_slice(), 1, e), string_of_range(cs.as_slice(), e + 1, n)))
        },
        None => None,
    }
}

/// `replace_all` on a character vector, for a two-character pattern.
fn replace_pair(s: &Vec<char>, p0: char, p1: char, rep: char) -> (r: Vec<char>)
    ensures
        r@ == replace_all(s@, seq![p0, p1], seq![rep]),
{
    let mut out: Vec<char> = Vec::new();
    let mut i: usize = 0;
    let ghost pat = seq![p0, p1];
    proof {
        assert(s@.skip(0) =~= s@);
        assert(out@ + replace_all(s@.skip(0), pat, seq![rep]) =~= replace_all(s@, pat, seq![rep]));
    }
    while i < s.len()
        invariant
            i <= s@.len(),
            pat == seq![p0, p1],
            out@ + replace_all(s@.skip(i as int), pat, seq![rep]) == replace_all(s@, pat, seq![rep]),
        decreases s@.len() - i,
    {
        let ghost t = s@.skip(i as int);
        if i + 1 < s.len() && s[i] == p0 && s[i + 1] == p1 {
            proof {
                assert(t.take(2) =~= pat);
                assert(t.skip(2) =~= s@.skip(i + 2));
                assert(out@.push(rep) + replace_all(s@.skip(i + 2), pat, seq![rep]) =~= out@ + (seq![rep] + replace_all(t.skip(2), pat, seq![rep])));
            }
            out.push(rep);
            i += 2;
        } else {
            proof {
                if t.len() >= 2 && t.take(2) == pat {
                    assert(t.take(2)[0] == s@[i as int] && t.take(2)[1] == s@[i + 1]);
                }
                assert(t.drop_first() =~= s@.skip(i + 1));
                assert(out@.push(s@[i as int]) + replace_all(s@.skip(i + 1), pat, seq![rep]) =~= out@ + (seq![t[0]] + replace_all(t.drop_first(), pat, seq![rep])));
            }
            out.push(s[i]);
            i += 1;
        }
    }
    proof {
        assert(s@.skip(i as int) =~= Seq::<char>::empty());
        assert(out@ + replace_all(s@.skip(i as int), pat, seq![rep]) =~= out@);
    }
    out
}

/// Extract a string literal `"…"@lang` or `"…"^^<type>` from the start of
/// `s`: the content with its escapes resolved, and the language tag.
pub fn extract_literal(s: &str) -> (r: Option<(String, Option<String>)>)
    ensures
        match literal_spec(s@) {
            Some((text, lang)) => r matches Some((a, b)) && a@ == text && match lang {
                Some(l) => b matches Some(x) && x@ == l,
                None => b is None,
            },
            None => r is None,
        },
{
    let cs = chars_of(s);
    let n = cs.len();
    if n == 0 || cs[0] != '"' {
        return None;
    }
    let mut end: usize = 1;
    while end < n && !(cs[end] == '"' && cs[end - 1] != '\\')
        invariant
            1 <= end <= n,
            n == cs@.len(),
            cs@ == s@,
            closing_quote(s@, 1) == closing_quote(s@, end as int),
        decreases n - end,
    {
        end += 1;
    }
    if end >= n {
        return None;
    }
    let mut content: Vec<char> = Vec::new();
    let mut i: usize = 1;
    while i < end
        invariant
            1 <= i <= end < n,
            n == cs@.len(),
            content@ == cs@.subrange(1, i as int),
        decreases end - i,
    {
        content.push(cs[i]);
        i += 1;
        assert(content@ =~= cs@.subrange(1, i as int));
    }
    let c1 = replace_pair(&content, '\\', '"', '"');
    let c2 = replace_pair(&c1, '\\', 'n', '\n');
    let c3 = replace_pair(&c2, '\\', 't', '\t');
    let c4 = replace_pair(&c3, '\\', '\\', '\\');
    let text = string_of(c4.as_slice());
    let ghost rest = s@.skip(end + 1);
    let lang = if end + 1 < n && cs[end + 1] == '@' {
        let start = end + 2;
        let mut j: usize = start;
        while j < n && (is_alphanumeric(cs[j]) || cs[j] == '-')
            invariant
                start <= j <= n,
                n == cs@.len(),
                forall|t: int| start <= t < j ==> (alphanumeric(cs@[t]) || cs@[t] == '-'),
            decreases n - j,
        {
            j += 1;
        }
        proof {
            let a = rest.drop_first();
            assert(a =~= cs@.subrange(start as int, n as int));
            lemma_tag_len(a, j - start);
            assert(a.take(j - start) =~= cs@.subrange(start as int, j as int));
        }
        Some(string_of_range(cs.as_slice(), start, j))
    } else {
        None
    };
    Some((text, lang))
}

proof fn lemma_tag_len(s: Seq<char>, k: int)
    requires
        0 <= k <= s.len(),
        forall|j: int| 0 <= j < k ==> (alphanumeric(s[j]) || s[j] == '-'),
        k == s.len() || !(alphanumeric(s[k]) || s[k] == '-'),
    ensures
        tag_len(s) == k,
    decreases k,
{
    if k > 0 {
        let d = s.drop_first();
        assert forall|j: int| 0 <= j < k - 1 implies (alphanumeric(d[j]) || d[j] == '-') by {
            assert(d[j] == s[j + 1]);
        }
        if k - 1 < d.len() {
            assert(d[k - 1] == s[k]);
        }
        lemma_tag_len(d, k - 1);
    }
}

/// Parse a single N-Triple line (see [`ntriple_spec`]).
pub fn parse_ntriple(line: &str) -> (r: Option<Triple>)
    ensures
        match ntriple_spec(line@) {
            Some((subject, predicate, object, lang)) => r matches Some(t) && t.subject@ == subject && t.predicate@ == predicate
                && t.object@ == object && match lang {
                    Some(l) => t.lang matches Some(x) && x@ == l,
                    None => t.lang is None,
                },
            None => r is None,
        },
{
    let cs = chars_of(line);
    let n = cs.len();
    let dot_space = [' ', '.'];
    let dot = ['.'];
    let e1 = trim_end_pattern_at(cs.as_slice(), 0, n, &dot_space);
    let e2 = trim_end_pattern_at(cs.as_slice(), 0, e1, &dot);
    proof {
        assert(cs@.subrange(0, n as int) =~= line@);
        assert(dot_space@ =~= seq![' ', '.']);
        assert(dot@ =~= seq!['.']);
    }
    let (a, b) = trim_bounds(cs.as_slice(), 0, e2);
    let t1 = string_of_range(cs.as_slice(), a, b);
    let (subject, r1) = match extract_iri(t1.as_str()) {
        Some(p) => p,
        None => return None,
    };
    let r1c = chars_of(r1.as_str());
    let (a2, b2) = trim_bounds(r1c.as_slice(), 0, r1c.len());
    proof {
        assert(r1c@.subrange(0, r1c@.len() as int) =~= r1@);
    }
    let t2 = string_of_range(r1c.as_slice(), a2, b2);
    let (predicate, r2) = match extract_iri(t2.as_str()) {
        Some(p) => p,
        None => return None,
    };
    let r2c = chars_of(r2.as_str());
    let (a3, b3) = trim_bounds(r2c.as_slice(), 0, r2c.len());
    proof {
        assert(r2c@.subrange(0, r2c@.len() as int) =~= r2@);
    }
    let t3 = string_of_range(r2c.as_slice(), a3, b3);
    if a3 < b3 && r2c[a3] == '<' {
        match extract_iri(t3.as_str()) {
            Some((o, _)) => Some(Triple { subject, predicate, object: o, lang: None }),
            None => None,
        }
    } else if a3 < b3 && r2c[a3] == '"' {
        match extract_literal(t3.as_str()) {
            Some((c, lang)) => Some(Triple { subject, predicate, object: c, lang }),
            None => None,
        }
    } else {
        None
    }
}

/// `s` ends with `p`.
pub open spec fn has_suffix(s: Seq<char>, p: Seq<char>) -> bool {
    s.len() >= p.len() && s.skip(s.len() - p.len()) == p
}

/// `p` occurs in `s`.
pub open spec fn contains_sub(s: Seq<char>, p: Seq<char>) -> bool {
    exists|i: int| 0 <= i && i + p.len() <= s.len() && #[trigger] s.subrange(i, i + p.len()) == p
}

/// Whether `cs[at..at + p.len()]` is `p`.
pub(crate) fn matches_at(cs: &[char], at: usize, p: &[char]) -> (r: bool)
    requires
        at + p@.len() <= cs@.len(),
    ensures
        r == (cs@.subrange(at as int, at + p@.len()) == p@),
{
    let mut i: usize = 0;
    while i < p.len()
        invariant
            i <= p@.len(),
            at + p@.len() <= cs@.len(),
            cs@.len() == cs.len(),
            forall|j: int| 0 <= j < i ==> cs@[at + j] == p@[j],
        decreases p@.len() - i,
    {
        if cs[at + i] != p[i] {
            assert(cs@.subrange(at as int, at + p@.len())[i as int] != p@[i as int]);
            return false;
        }
        i += 1;
    }
    assert(cs@.subrange(at as int, at + p@.len()) =~= p@);
    true
}

/// Whether `cs` ends with `p`.
pub(crate) fn ends_with(cs: &[char], p: &str) -> (r: bool)
    ensures
        r == has_suffix(cs@, p@),
{
    let pc = chars_of(p);
    if pc.len() > cs.len() {
        return false;
    }
    let r = matches_at(cs, cs.len() - pc.len(), pc.as_slice());
    proof {
        assert(cs@.skip(cs@.len() - pc@.len()) =~= cs@.subrange(cs@.len() - pc@.len(), cs@.len() as int));
    }
    r
}

/// Whether `p` occurs in `cs`.
pub(crate) fn contains(cs: &[char], p: &str) -> (r: bool)
    ensures
        r == contains_sub(cs@, p@),
{
    let pc = chars_of(p);
    if pc.len() > cs.len() {
        return false;
    }
    let last = cs.len() - pc.len();
    let mut i: usize = 0;
    while i < last
        invariant
            i <= last,
            last + pc@.len() == cs@.len(),
            pc@ == p@,
            forall|j: int| 0 <= j < i ==> #[trigger] cs@.subrange(j, j + p@.len()) != p@,
        decreases last - i,
    {
        if matches_at(cs, i, pc.as_slice()) {
            return true;
        }
        i += 1;
    }
    matches_at(cs, last, pc.as_slice())
}

/// A label-style predicate (`rdfs:label`, `foaf:name`, `skos:prefLabel`, …).
pub open spec fn label_predicate(p: Seq<char>) -> bool {
    has_suffix(p, "label"@) || has_suffix(p, "name"@) || contains_sub(p, "foaf/0.1/name"@) || contains_sub(p, "rdfs#label"@)
        || contains_sub(p, "skos/core#prefLabel"@) || contains_sub(p, "skos/core#altLabel"@)
}

/// An abstract-style predicate (`dbo:abstract`, …).
pub open spec fn abstract_predicate(p: Seq<char>) -> bool {
    has_suffix(p, "abstract"@) || contains_sub(p, "dbpedia.org/ontology/abstract"@)
}

/// Whether `pred` is a label-style predicate (see [`label_predicate`]).
pub fn is_label_predicate(pred: &str) -> (r: bool)
    ensures
        r == label_predicate(pred@),
{
    let cs = chars_of(pred);
    let s = cs.as_slice();
    ends_with(s, "label") || ends_with(s, "name") || contains(s, "foaf/0.1/name") || contains(s, "rdfs#label")
        || contains(s, "skos/core#prefLabel") || contains(s, "skos/core#altLabel")
}

/// Whether `pred` is an abstract-style predicate (see [`abstract_predicate`]).
pub fn is_abstract_predicate(pred: &str) -> (r: bool)
    ensures
        r == abstract_predicate(pred@),
{
    let cs = chars_of(pred);
    ends_with(cs.as_slice(), "abstract") || contains(cs.as_slice(), "dbpedia.org/ontology/abstract")
}

/// Every predicate IRI that ends in `name` (such as
/// `http://ja.dbpedia.org/property/name` or `http://schema.org/name`) or in
/// `label` (such as `rdfs:label`) is a label predicate.
pub proof fn law_name_and_label_suffixes_are_labels(p: Seq<char>)
    ensures
        p.len() >= 4 && p[p.len() - 4] == 'n' && p[p.len() - 3] == 'a' && p[p.len() - 2] == 'm' && p[p.len() - 1] == 'e'
            ==> label_predicate(p),
        p.len() >= 5 && p[p.len() - 5] == 'l' && p[p.len() - 4] == 'a' && p[p.len() - 3] == 'b' && p[p.len() - 2] == 'e'
            && p[p.len() - 1] == 'l' ==> label_predicate(p),
{
    reveal_strlit("name");
    reveal_strlit("label");
    if p.len() >= 4 {
        assert(p.len() >= 4 && p[p.len() - 4] == 'n' && p[p.len() - 3] == 'a' && p[p.len() - 2] == 'm' && p[p.len() - 1] == 'e'
            ==> p.skip(p.len() - 4) =~= "name"@);
    }
    if p.len() >= 5 {
        assert(p[p.len() - 5] == 'l' && p[p.len() - 4] == 'a' && p[p.len() - 3] == 'b' && p[p.len() - 2] == 'e'
            && p[p.len() - 1] == 'l' ==> p.skip(p.len() - 5) =~= "label"@);
    }
}

/// Every predicate IRI that ends in `abstract` is an abstract predicate.
pub proof fn law_abstract_suffix(p: Seq<char>)
    ensures
        p.len() >= 8 && p.skip(p.len() - 8) == seq!['a', 'b', 's', 't', 'r', 'a', 'c', 't'] ==> abstract_predicate(p),
{
    reveal_strlit("abstract");
    if p.len() >= 8 && p.skip(p.len() - 8) == seq!['a', 'b', 's', 't', 'r', 'a', 'c', 't'] {
        assert(p.skip(p.len() - 8) =~= "abstract"@);
    }
}

} // verus!
