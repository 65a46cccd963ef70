//! Building a semantic dictionary: the configuration of a build, what it
//! reports, and the merge of the source dictionary's CSV rows with the
//! ranked entity URIs found for their surfaces.

use vstd::prelude::*;
use vstd::string::StringExecFns;
use crate::error::BuildError;
use crate::output_format::{decimal, decimal_string};
use crate::text::strings_view;
use crate::wikidata_entry::{allowed_entity_types, pos_to_allowed_entity_types};

verus! {

/// Configuration of a dictionary build. Paths are held as text.
#[derive(Debug, Clone)]
pub struct BuildConfig {
    /// Source dictionary CSV path
    pub source_csv: String,
    /// Wikidata JSON dump path
    pub wikidata_path: Option<String>,
    /// Wikipedia abstract dump path
    pub wikipedia_path: Option<String>,
    /// Output directory
    pub output_dir: String,
    /// Maximum semantic candidates per word
    pub max_candidates: u8,
    /// Number of parallel workers (0 = automatic)
    pub num_workers: usize,
    /// Verbose output
    pub verbose: bool,
    /// Wikidata entity types to keep (empty keeps all)
    pub entity_type_filter: Vec<String>,
    /// Apply the ambiguity penalty to confidences after indexing
    pub calibration_enabled: bool,
    /// Existing index to load before processing new data
    pub load_existing: Option<String>,
    /// Bounded-memory streaming of very large dumps
    pub streaming: bool,
    /// DBpedia N-Triples dump path
    pub dbpedia_path: Option<String>,
    /// Look surfaces without a URI up online
    pub online_resolution: bool,
    /// Custom ontology files, processed before every other source
    pub ontology_paths: Vec<String>,
}

impl Default for BuildConfig {
    fn default() -> (r: Self)
        ensures
            r.source_csv@ == Seq::<char>::empty(),
            r.wikidata_path is None,
            r.wikipedia_path is None,
            r.output_dir@ == "./output"@,
            r.max_candidates == 5,
            r.num_workers == 0,
            !r.verbose,
            r.entity_type_filter@.len() == 0,
            r.calibration_enabled,
            r.load_existing is None,
            !r.streaming,
            r.dbpedia_path is None,
            !r.online_resolution,
            r.ontology_paths@.len() == 0,
    {
        BuildConfig {
            source_csv: String::new(),
            wikidata_path: None,
            wikipedia_path: None,
            output_dir: String::from_str("./output"),
            max_candidates: 5,
            num_workers: 0,
            verbose: false,
            entity_type_filter: Vec::new(),
            calibration_enabled: true,
            load_existing: None,
            streaming: false,
            dbpedia_path: None,
            online_resolution: false,
            ontology_paths: Vec::new(),
        }
    }
}

/// Progress of a build phase.
#[derive(Debug, Clone)]
pub struct BuildProgress {
    /// Current phase
    pub phase: String,
    /// Items processed
    pub processed: u64,
    /// Total items (0 if unknown)
    pub total: u64,
}

/// Statistics of a finished build.
#[derive(Debug, Clone)]
pub struct BuildResult {
    /// Number of dictionary rows processed
    pub entries_processed: u64,
    /// Number of rows given at least one URI
    pub entries_with_semantics: u64,
    /// Total URIs added to rows
    pub total_candidates: u64,
    /// Output files created
    pub output_files: Vec<String>,
}

/// A build needs a Wikidata dump or a Wikipedia dump.
pub open spec fn has_entity_source(c: BuildConfig) -> bool {
    c.wikidata_path is Some || c.wikipedia_path is Some
}

/// The error of a build given neither a Wikidata nor a Wikipedia dump.
pub open spec fn missing_source_message() -> Seq<char> {
    "At least one of wikidata_path or wikipedia_path must be specified"@
}

/// Check that `config` names an entity source; the source CSV itself is
/// checked where the file system is.
pub fn check_build_sources(config: &BuildConfig) -> (r: Result<(), BuildError>)
    ensures
        match r {
            Ok(()) => has_entity_source(*config),
            Err(e) => !has_entity_source(*config) && (e matches BuildError::InvalidInput(m) && m@ == missing_source_message()),
        },
{
    if config.wikidata_path.is_none() && config.wikipedia_path.is_none() {
        return Err(BuildError::InvalidInput(String::from_str("At least one of wikidata_path or wikipedia_path must be specified")));
    }
    Ok(())
}

/// Texts joined with the separator `sep`.
pub open spec fn joined(us: Seq<Seq<char>>, sep: char) -> Seq<char>
    decreases us.len(),
{
    if us.len() == 0 {
        Seq::empty()
    } else if us.len() == 1 {
        us[0]
    } else {
        joined(us.drop_last(), sep) + seq![sep] + us.last()
    }
}

/// The part-of-speech feature of a dictionary row: its fields from the
/// fifth on, joined with commas (`名詞,固有名詞,地域,一般,…` for an IPADIC
/// proper noun); empty for a row of four fields or fewer.
pub open spec fn part_of_speech(fields: Seq<Seq<char>>) -> Seq<char> {
    if fields.len() > 4 {
        joined(fields.subrange(4, fields.len() as int), ',')
    } else {
        Seq::empty()
    }
}

/// The URIs that a dictionary row keeps of the candidates ranked for its
/// surface: none when nothing was found or when its part of speech allows
/// no entity at all (see [`allowed_entity_types`]: a proper noun allows
/// every type), else the first `max` of them.
pub open spec fn kept_uris(fields: Seq<Seq<char>>, ranked: Option<Seq<Seq<char>>>, max: nat) -> Seq<Seq<char>> {
    match ranked {
        None => Seq::empty(),
        Some(us) => if allowed_entity_types(part_of_speech(fields)) == Some(Seq::<Seq<char>>::empty()) {
            Seq::empty()
        } else if us.len() <= max {
            us
        } else {
            us.take(max as int)
        },
    }
}

/// A row extended by the number of URIs it keeps and the URIs joined with
/// `|` (`0` and an empty field when it keeps none).
pub open spec fn extended_row(fields: Seq<Seq<char>>, kept: Seq<Seq<char>>) -> Seq<Seq<char>> {
    fields.push(decimal(kept.len())).push(joined(kept, '|'))
}

/// The view of optional ranked candidates.
pub open spec fn ranked_view(r: Option<Vec<String>>) -> Option<Seq<Seq<char>>> {
    match r {
        Some(v) => Some(strings_view(v@)),
        None => None,
    }
}

/// `us[lo..hi]` joined with `sep` (see [`joined`]).
fn join_range(us: &Vec<String>, lo: usize, hi: usize, sep: char) -> (r: String)
    requires
        lo <= hi <= us@.len(),
    ensures
        r@ == joined(strings_view(us@).subrange(lo as int, hi as int), sep),
{
    let ghost v = strings_view(us@).subrange(lo as int, hi as int);
    let mut out = String::new();
    let mut i: usize = lo;
    proof {
        assert(v.take(0) =~= Seq::<Seq<char>>::empty());
    }
    while i < hi
        invariant
            lo <= i <= hi <= us@.len(),
            v == strings_view(us@).subrange(lo as int, hi as int),
            out@ == joined(v.take(i - lo), sep),
        decreases hi - i,
    {
        if i > lo {
            out.push(sep);
        }
        out.append(us[i].as_str());
        proof {
            let k = i - lo;
            assert(v.take(k + 1).drop_last() =~= v.take(k));
            assert(v.take(k + 1).last() == v[k]);
            assert(v[k] == us@[i as int]@);
            if k == 0 {
                assert(v.take(1) =~= seq![v[0]]);
            }
            assert(out@ =~= joined(v.take(k + 1), sep));
        }
        i += 1;
    }
    proof {
        assert(v.take(hi - lo) =~= v);
    }
    out
}

/// Extend one dictionary row with the URIs it keeps of those ranked for its
/// surface (see [`kept_uris`] and [`extended_row`]); also returns how many
/// it keeps.
pub fn extend_record(fields: &Vec<String>, ranked: &Option<Vec<String>>, max_candidates: u8) -> (r: (Vec<String>, usize))
    ensures
        strings_view(r.0@) == extended_row(strings_view(fields@), kept_uris(strings_view(fields@), ranked_view(*ranked), max_candidates as nat)),
        r.1 == kept_uris(strings_view(fields@), ranked_view(*ranked), max_candidates as nat).len(),
{
    let ghost fv = strings_view(fields@);
    let ghost kept = kept_uris(fv, ranked_view(*ranked), max_candidates as nat);
    let pos = if fields.len() > 4 { join_range(fields, 4, fields.len(), ',') } else { String::new() };
    proof {
        assert(pos@ == part_of_speech(fv));
    }
    let allowed = pos_to_allowed_entity_types(pos.as_str());
    let none_allowed = match &allowed {
        Some(ids) => ids.len() == 0,
        None => false,
    };
    proof {
        if none_allowed {
            assert(allowed_entity_types(pos@).unwrap() =~= Seq::<Seq<char>>::empty());
        } else if allowed_entity_types(pos@) is Some {
            assert(allowed_entity_types(pos@).unwrap().len() > 0);
        }
    }
    let n: usize = match ranked {
        None => 0,
        Some(us) => if none_allowed {
            0
        } else if us.len() <= max_candidates as usize {
            us.len()
        } else {
            max_candidates as usize
        },
    };
    let uri_list = match ranked {
        Some(us) => join_range(us, 0, n, '|'),
        None => String::new(),
    };
    proof {
        match ranked {
            Some(us) => {
                assert(kept =~= strings_view(us@).take(n as int));
                assert(strings_view(us@).subrange(0, n as int) =~= strings_view(us@).take(n as int));
            },
            None => {
                assert(kept =~= Seq::<Seq<char>>::empty());
                assert(uri_list@ =~= joined(kept, '|'));
            },
        }
    }
    let count = decimal_string(n as u64);
    let mut out: Vec<String> = Vec::new();
    let mut i: usize = 0;
    while i < fields.len()
        invariant
            i <= fields@.len(),
            fv == strings_view(fields@),
            strings_view(out@) == fv.take(i as int),
        decreases fields@.len() - i,
    {
        let ghost before = out@;
        out.push(fields[i].clone());
        proof {
            assert(strings_view(out@) =~= strings_view(before).push(fields@[i as int]@));
            assert(strings_view(out@) =~= fv.take(i + 1));
        }
        i += 1;
    }
    let ghost base = out@;
    out.push(count);
    out.push(uri_list);
    proof {
        assert(fv.take(fv.len() as int) =~= fv);
        assert(strings_view(out@) =~= strings_view(base).push(decimal(n as nat)).push(joined(kept, '|')));
    }
    (out, n)
}

/// The URIs row `i` keeps.
pub open spec fn kept_at(rows: Seq<Vec<String>>, ranked: Seq<Option<Vec<String>>>, max: nat, i: int) -> Seq<Seq<char>> {
    kept_uris(strings_view(rows[i]@), ranked_view(ranked[i]), max)
}

/// How many of the first `n` rows keep at least one URI.
pub open spec fn rows_with_uris(rows: Seq<Vec<String>>, ranked: Seq<Option<Vec<String>>>, max: nat, n: nat) -> nat
    decreases n,
{
    if n == 0 {
        0
    } else {
        rows_with_uris(rows, ranked, max, (n - 1) as nat) + if kept_at(rows, ranked, max, n - 1).len() > 0 { 1nat } else { 0nat }
    }
}

/// How many URIs the first `n` rows keep in all.
pub open spec fn uris_kept(rows: Seq<Vec<String>>, ranked: Seq<Option<Vec<String>>>, max: nat, n: nat) -> nat
    decreases n,
{
    if n == 0 {
        0
    } else {
        uris_kept(rows, ranked, max, (n - 1) as nat) + kept_at(rows, ranked, max, n - 1).len()
    }
}

/// A merge never counts more rows with URIs than rows, nor more URIs than
/// `max` per row; and a row keeps a URI only when it has candidates.
pub proof fn law_merge_counts_bounded(rows: Seq<Vec<String>>, ranked: Seq<Option<Vec<String>>>, max: nat, n: nat)
    requires
        n <= rows.len(),
        n <= ranked.len(),
    ensures
        rows_with_uris(rows, ranked, max, n) <= n,
        uris_kept(rows, ranked, max, n) <= max * n,
        rows_with_uris(rows, ranked, max, n) <= uris_kept(rows, ranked, max, n),
        forall|i: int| 0 <= i < n && ranked[i] is None ==> #[trigger] kept_at(rows, ranked, max, i).len() == 0,
    decreases n,
{
    if n > 0 {
        law_merge_counts_bounded(rows, ranked, max, (n - 1) as nat);
        let k = kept_at(rows, ranked, max, n - 1);
        assert(k.len() <= max);
        assert(max * n == max * (n - 1) + max) by (nonlinear_arith);
    }
}

/// Extend every dictionary row with the URIs ranked for its surface
/// (`ranked[i]` for row `i`, see [`extend_record`]). Returns the extended
/// rows with the number of rows processed, the number that keep a URI and
/// the number of URIs kept.
pub fn merge_dictionary_rows(rows: &Vec<Vec<String>>, ranked: &Vec<Option<Vec<String>>>, max_candidates: u8) -> (r: (Vec<Vec<String>>, u64, u64, u64))
    requires
        rows@.len() == ranked@.len(),
        rows@.len() <= u64::MAX / 256,
    ensures
        r.0@.len() == rows@.len(),
        forall|i: int| 0 <= i < rows@.len() ==> strings_view(#[trigger] r.0@[i]@)
            == extended_row(strings_view(rows@[i]@), kept_at(rows@, ranked@, max_candidates as nat, i)),
        r.1 == rows@.len(),
        r.2 == rows_with_uris(rows@, ranked@, max_candidates as nat, rows@.len() as nat),
        r.3 == uris_kept(rows@, ranked@, max_candidates as nat, rows@.len() as nat),
{
    let ghost max = max_candidates as nat;
    let mut out: Vec<Vec<String>> = Vec::new();
    let mut processed: u64 = 0;
    let mut with_uris: u64 = 0;
    let mut candidates: u64 = 0;
    let mut i: usize = 0;
    while i < rows.len()
        invariant
            i <= rows@.len(),
            rows@.len() == ranked@.len(),
            rows@.len() <= u64::MAX / 256,
            max == max_candidates as nat,
            out@.len() == i,
            forall|k: int| 0 <= k < i ==> strings_view(#[trigger] out@[k]@)
                == extended_row(strings_view(rows@[k]@), kept_at(rows@, ranked@, max, k)),
            processed == i,
            with_uris == rows_with_uris(rows@, ranked@, max, i as nat),
            candidates == uris_kept(rows@, ranked@, max, i as nat),
        decreases rows@.len() - i,
    {
        let (row, n) = extend_record(&rows[i], &ranked[i], max_candidates);
        proof {
            law_merge_counts_bounded(rows@, ranked@, max, i as nat);
            assert(max * i <= 255 * i) by (nonlinear_arith)
                requires
                    max <= 255;
            assert(n == kept_at(rows@, ranked@, max, i as int).len());
        }
        processed += 1;
        if n > 0 {
            with_uris += 1;
        }
        candidates += n as u64;
        out.push(row);
        i += 1;
    }
    (out, processed, with_uris, candidates)
}

} // verus!
