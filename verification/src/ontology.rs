//! Custom ontology files: format detection by extension, and the
//! line-level extraction of RDF/XML subjects and Japanese labels.

use vstd::prelude::*;
use vstd::string::StringSliceAdditionalSpecFns;
use crate::paths::{extension, path_extension};
use crate::scan::{trim, find_first, lemma_find_first, find_char, trim_bounds};
use crate::ntriples::{contains_sub, contains, matches_at};
use crate::text::{chars_of, string_of_range, text_eq};

verus! {

/// Statistics of an ontology import.
#[derive(Debug, Default, Clone)]
pub struct OntologyStats {
    /// Number of logical entries (primary surfaces) successfully read
    pub entries_read: u64,
    /// Number of primary surface→URI pairs inserted or updated
    pub surfaces_added: u64,
    /// Number of alias surface→URI pairs inserted or updated
    pub aliases_added: u64,
    /// Number of records skipped due to missing/invalid fields
    pub skipped_invalid: u64,
}

/// Supported ontology file formats.
#[derive(Debug, Clone, Copy, PartialEq, Eq)]
pub enum OntologyFormat {
    /// Simple CSV with header `surface,uri[,confidence[,type]]`
    Csv,
    /// JSON array of entries
    Json,
    /// Lightweight RDF/XML: `rdfs:label xml:lang="ja"` values
    RdfXml,
}

/// The format a file extension selects: `csv`, `json`, or `owl`/`rdf`/`xml`.
pub open spec fn format_of_extension(e: Seq<char>) -> Option<OntologyFormat> {
    if e == "csv"@ {
        Some(OntologyFormat::Csv)
    } else if e == "json"@ {
        Some(OntologyFormat::Json)
    } else if e == "owl"@ || e == "rdf"@ || e == "xml"@ {
        Some(OntologyFormat::RdfXml)
    } else {
        None
    }
}

impl OntologyFormat {
    /// Detect the format from the extension of `path` (see
    /// [`format_of_extension`]); `None` without a recognised one.
    pub fn detect(path: &str) -> (r: Option<OntologyFormat>)
        ensures
            r == match extension(path@) {
                Some(e) => format_of_extension(e),
                None => None,
            },
    {
        match path_extension(path) {
            None => None,
            Some(e) => {
                if text_eq(e.as_str(), "csv") {
                    Some(OntologyFormat::Csv)
                } else if text_eq(e.as_str(), "json") {
                    Some(OntologyFormat::Json)
                } else if text_eq(e.as_str(), "owl") || text_eq(e.as_str(), "rdf") || text_eq(e.as_str(), "xml") {
                    Some(OntologyFormat::RdfXml)
                } else {
                    None
                }
            },
        }
    }
}

/// Index of the first occurrence of `p` in `s` at or after `i`.
pub open spec fn find_sub(s: Seq<char>, p: Seq<char>, i: int) -> Option<int>
    decreases s.len() + 1 - i,
{
    if i < 0 || i + p.len() > s.len() {
        None
    } else if s.subrange(i, i + p.len()) == p {
        Some(i)
    } else {
        find_sub(s, p, i + 1)
    }
}

/// The value of the first `rdf:about="…"` attribute of a line.
pub open spec fn rdf_about(line: Seq<char>) -> Option<Seq<char>> {
    let marker = "rdf:about=\""@;
    match find_sub(line, marker, 0) {
        None => None,
        Some(m) => {
            let rest = line.skip(m + marker.len());
            match find_first(rest, '"') {
                Some(e) => Some(rest.take(e)),
                None => None,
            }
        },
    }
}

/// Position of the first `p` in `cs` at or after `from`.
pub(crate) fn find_text(cs: &[char], p: &[char], from: usize) -> (r: Option<usize>)
    requires
        from <= cs@.len(),
    ensures
        match find_sub(cs@, p@, from as int) {
            Some(i) => r matches Some(j) && j == i,
            None => r is None,
        },
        r matches Some(j) ==> j + p@.len() <= cs@.len(),
{
    if p.len() > cs.len() {
        return None;
    }
    let last = cs.len() - p.len();
    if from > last {
        return None;
    }
    let mut i: usize = from;
    while i < last
        invariant
            from <= i <= last,
            last + p@.len() == cs@.len(),
            find_sub(cs@, p@, from as int) == find_sub(cs@, p@, i as int),
        decreases last - i,
    {
        if matches_at(cs, i, p) {
            return Some(i);
        }
        i += 1;
    }
    proof {
        assert(find_sub(cs@, p@, last + 1) is None);
    }
    if matches_at(cs, last, p) { Some(last) } else { None }
}

/// Extract the `rdf:about` attribute value of a line (see [`rdf_about`]).
pub fn extract_rdf_about(line: &str) -> (r: Option<String>)
    ensures
        match rdf_about(line@) {
            Some(v) => r matches Some(s) && s@ == v,
            None => r is None,
        },
{
    let cs = chars_of(line);
    let marker = chars_of("rdf:about=\"");
    let m = match find_text(cs.as_slice(), marker.as_slice(), 0) {
        Some(m) => m,
        None => return None,
    };
    assert(m + marker@.len() <= cs@.len());
    assert(cs@.len() == cs.len());
    let start = m + marker.len();
    let n = cs.len();
    let ghost rest = line@.skip(start as int);
    proof {
        assert(rest =~= cs@.subrange(start as int, n as int));
    }
    match find_char(cs.as_slice(), start, n, '"') {
        Some(e) => {
            proof {
                lemma_find_first(rest, '"');
                assert(rest.take(e - start) =~= cs@.subrange(start as int, e as int));
            }
            Some(string_of_range(cs.as_slice(), start, e))
        },
        None => None,
    }
}

/// The trimmed text between the first `>` and the next `<` of a line that
/// carries `lang="ja"` and a label element; `None` when empty.
pub open spec fn rdfs_label_ja(line: Seq<char>) -> Option<Seq<char>> {
    if !contains_sub(line, "lang=\"ja\""@) {
        None
    } else if !contains_sub(line, "rdfs:label"@) && !contains_sub(line, ":label"@) {
        None
    } else {
        match find_first(line, '>') {
            None => None,
            Some(o) => {
                let rest = line.skip(o + 1);
                match find_first(rest, '<') {
                    None => None,
                    Some(c) => {
                        let content = trim(rest.take(c));
                        if content.len() == 0 { None } else { Some(content) }
                    },
                }
            },
        }
    }
}

/// Extract the Japanese `rdfs:label` text of a line (see [`rdfs_label_ja`]).
pub fn extract_rdfs_label_ja(line: &str) -> (r: Option<String>)
    ensures
        match rdfs_label_ja(line@) {
            Some(v) => r matches Some(s) && s@ == v,
            None => r is None,
        },
{
    let cs = chars_of(line);
    if !contains(cs.as_slice(), "lang=\"ja\"") {
        return None;
    }
    if !contains(cs.as_slice(), "rdfs:label") && !contains(cs.as_slice(), ":label") {
        return None;
    }
    let n = cs.len();
    proof {
        assert(cs@.subrange(0, n as int) =~= line@);
    }
    let o = match find_char(cs.as_slice(), 0, n, '>') {
        Some(o) => o,
        None => return None,
    };
    let ghost rest = line@.skip(o + 1);
    proof {
        lemma_find_first(line@, '>');
        assert(rest =~= cs@.subrange(o + 1, n as int));
    }
    let c = match find_char(cs.as_slice(), o + 1, n, '<') {
        Some(c) => c,
        None => return None,
    };
    proof {
        lemma_find_first(rest, '<');
        assert(rest.take(c - (o + 1)) =~= cs@.subrange(o + 1, c as int));
    }
    let (a, b) = trim_bounds(cs.as_slice(), o + 1, c);
    if a == b {
        return None;
    }
    Some(string_of_range(cs.as_slice(), a, b))
}

/// The non-empty strings of `s`, in order.
pub open spec fn non_empty(s: Seq<Seq<char>>) -> Seq<Seq<char>>
    decreases s.len(),
{
    if s.len() == 0 {
        Seq::empty()
    } else if s.last().len() > 0 {
        non_empty(s.drop_last()).push(s.last())
    } else {
        non_empty(s.drop_last())
    }
}

/// The entries of a JSON ontology, each `(surface, uri, aliases)`, that are
/// kept (surface and URI both non-empty), each as its index and its
/// non-empty aliases; and the numbers of aliases kept and of entries
/// skipped.
pub open spec fn json_entries_plan(es: Seq<(Seq<char>, Seq<char>, Seq<Seq<char>>)>) -> (Seq<(int, Seq<Seq<char>>)>, nat, nat)
    decreases es.len(),
{
    if es.len() == 0 {
        (Seq::empty(), 0, 0)
    } else {
        let (kept, aliases, skipped) = json_entries_plan(es.drop_last());
        let e = es.last();
        if e.0.len() > 0 && e.1.len() > 0 {
            (kept.push((es.len() - 1, non_empty(e.2))), aliases + non_empty(e.2).len(), skipped)
        } else {
            (kept, aliases, skipped + 1)
        }
    }
}

/// The view of JSON ontology entries.
pub open spec fn json_entries_view(v: Seq<(String, String, Vec<String>)>) -> Seq<(Seq<char>, Seq<char>, Seq<Seq<char>>)> {
    v.map_values(|e: (String, String, Vec<String>)| (e.0@, e.1@, e.2@.map_values(|a: String| a@)))
}

/// The view of kept entries.
pub open spec fn kept_entries_view(v: Seq<(usize, Vec<String>)>) -> Seq<(int, Seq<Seq<char>>)> {
    v.map_values(|e: (usize, Vec<String>)| (e.0 as int, e.1@.map_values(|a: String| a@)))
}

proof fn lemma_non_empty_len(s: Seq<Seq<char>>)
    ensures
        non_empty(s).len() <= s.len(),
    decreases s.len(),
{
    if s.len() > 0 {
        lemma_non_empty_len(s.drop_last());
    }
}

proof fn lemma_plan_counts(es: Seq<(Seq<char>, Seq<char>, Seq<Seq<char>>)>)
    ensures
        json_entries_plan(es).0.len() + json_entries_plan(es).2 == es.len(),
    decreases es.len(),
{
    if es.len() > 0 {
        lemma_plan_counts(es.drop_last());
    }
}

/// The non-empty aliases of one entry.
fn non_empty_aliases(aliases: &Vec<String>) -> (r: Vec<String>)
    ensures
        r@.map_values(|a: String| a@) == non_empty(aliases@.map_values(|a: String| a@)),
{
    let ghost all = aliases@.map_values(|a: String| a@);
    let mut r: Vec<String> = Vec::new();
    let mut i: usize = 0;
    while i < aliases.len()
        invariant
            i <= aliases@.len(),
            all == aliases@.map_values(|a: String| a@),
            r@.map_values(|a: String| a@) == non_empty(all.take(i as int)),
        decreases aliases@.len() - i,
    {
        proof {
            assert(all.take(i + 1).drop_last() =~= all.take(i as int));
        }
        let ghost before = r@;
        if aliases[i].as_str().unicode_len() > 0 {
            r.push(aliases[i].clone());
            proof {
                assert(r@.map_values(|a: String| a@) =~= before.map_values(|a: String| a@).push(all[i as int]));
            }
        }
        i = i + 1;
    }
    proof {
        assert(all.take(aliases@.len() as int) =~= all);
    }
    r
}

/// Decide which entries of a JSON ontology are imported: those with a
/// surface and a URI, each with its non-empty aliases; the statistics
/// count them, their aliases, and the entries skipped.
pub fn plan_json_entries(entries: &Vec<(String, String, Vec<String>)>) -> (r: (Vec<(usize, Vec<String>)>, OntologyStats))
    requires
        json_entries_plan(json_entries_view(entries@)).1 <= u64::MAX,
    ensures
        ({
            let (kept, aliases, skipped) = json_entries_plan(json_entries_view(entries@));
            &&& kept_entries_view(r.0@) == kept
            &&& r.1.entries_read == kept.len()
            &&& r.1.surfaces_added == kept.len()
            &&& r.1.aliases_added == aliases
            &&& r.1.skipped_invalid == skipped
        }),
{
    let ghost es = json_entries_view(entries@);
    let mut kept: Vec<(usize, Vec<String>)> = Vec::new();
    let mut aliases_added: u64 = 0;
    let mut skipped: u64 = 0;
    let mut i: usize = 0;
    while i < entries.len()
        invariant
            i <= entries@.len(),
            es == json_entries_view(entries@),
            json_entries_plan(es).1 <= u64::MAX,
            kept_entries_view(kept@) == json_entries_plan(es.take(i as int)).0,
            aliases_added == json_entries_plan(es.take(i as int)).1,
            skipped == json_entries_plan(es.take(i as int)).2,
        decreases entries@.len() - i,
    {
        proof {
            assert(es.take(i + 1).drop_last() =~= es.take(i as int));
            lemma_plan_counts(es.take(i as int));
            lemma_plan_monotone(es, i as int + 1);
        }
        let (surface, uri, aliases) = &entries[i];
        if surface.as_str().unicode_len() > 0 && uri.as_str().unicode_len() > 0 {
            let keep = non_empty_aliases(aliases);
            let n = keep.len();
            let ghost before = kept@;
            kept.push((i, keep));
            aliases_added = aliases_added + n as u64;
            proof {
                assert(kept_entries_view(kept@) =~= kept_entries_view(before).push(kept_entries_view(kept@).last()));
            }
        } else {
            skipped = skipped + 1;
        }
        i = i + 1;
    }
    proof {
        assert(es.take(entries@.len() as int) =~= es);
    }
    let stats = OntologyStats {
        entries_read: kept.len() as u64,
        surfaces_added: kept.len() as u64,
        aliases_added,
        skipped_invalid: skipped,
    };
    (kept, stats)
}

proof fn lemma_plan_monotone(es: Seq<(Seq<char>, Seq<char>, Seq<Seq<char>>)>, n: int)
    requires
        0 <= n <= es.len(),
    ensures
        json_entries_plan(es.take(n)).1 <= json_entries_plan(es).1,
    decreases es.len(),
{
    if n < es.len() {
        assert(es.drop_last().take(n) =~= es.take(n));
        lemma_plan_monotone(es.drop_last(), n);
    } else {
        assert(es.take(n) =~= es);
    }
}

} // verus!
