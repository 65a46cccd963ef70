//! Exporting a dictionary CSV enriched with entity URIs: the two columns
//! appended to each row, and the statistics of an export.
//!
//! Which rows get a URI depends on confidences compared with a threshold;
//! that decision is made by the caller, one flag per row.

use vstd::prelude::*;
use vstd::string::StringExecFns;
use crate::text::{strings_view, text_eq};

verus! {

/// Statistics of a CSV export.
#[derive(Debug)]
pub struct CsvExportStats {
    /// Total rows read from the source CSV
    pub total_rows: u64,
    /// Rows for which at least one URI was written
    pub rows_with_uri: u64,
    /// Rows written with empty URI columns
    pub rows_plain: u64,
    /// Distinct surfaces with at least one URI written
    pub unique_surfaces_with_uri: u64,
}

impl Default for CsvExportStats {
    fn default() -> (r: Self)
        ensures
            r.total_rows == 0,
            r.rows_with_uri == 0,
            r.rows_plain == 0,
            r.unique_surfaces_with_uri == 0,
    {
        CsvExportStats { total_rows: 0, rows_with_uri: 0, rows_plain: 0, unique_surfaces_with_uri: 0 }
    }
}

/// A source row followed by a URI column and a score column; a row without
/// a URI gets an empty URI and the score `0`.
pub fn export_row(fields: &Vec<String>, uri: &str, score: &str) -> (r: Vec<String>)
    ensures
        strings_view(r@) == strings_view(fields@).push(uri@).push(score@),
{
    let mut out: Vec<String> = Vec::new();
    let mut i: usize = 0;
    while i < fields.len()
        invariant
            i <= fields@.len(),
            strings_view(out@) == strings_view(fields@).take(i as int),
        decreases fields@.len() - i,
    {
        let ghost before = out@;
        out.push(fields[i].clone());
        proof {
            assert(strings_view(out@) =~= strings_view(before).push(fields@[i as int]@));
            assert(strings_view(out@) =~= strings_view(fields@).take(i + 1));
        }
        i += 1;
    }
    let ghost base = out@;
    out.push(String::from_str(uri));
    out.push(String::from_str(score));
    proof {
        assert(strings_view(fields@).take(fields@.len() as int) =~= strings_view(fields@));
        assert(strings_view(out@) =~= strings_view(base).push(uri@).push(score@));
    }
    out
}

/// How many of the first `n` flags are set.
pub open spec fn flags_set(wrote: Seq<bool>, n: nat) -> nat
    decreases n,
{
    if n == 0 {
        0
    } else {
        flags_set(wrote, (n - 1) as nat) + if wrote[n - 1] { 1nat } else { 0nat }
    }
}

/// The surfaces of the first `n` rows that got a URI.
pub open spec fn surfaces_with_uri(surfaces: Seq<Seq<char>>, wrote: Seq<bool>, n: nat) -> Set<Seq<char>>
    decreases n,
{
    if n == 0 {
        Set::empty()
    } else if wrote[n - 1] {
        surfaces_with_uri(surfaces, wrote, (n - 1) as nat).insert(surfaces[n - 1])
    } else {
        surfaces_with_uri(surfaces, wrote, (n - 1) as nat)
    }
}

/// Export statistics are consistent: no more rows with a URI than rows,
/// and no more distinct surfaces with a URI than rows with one.
pub proof fn law_export_counts_consistent(surfaces: Seq<Seq<char>>, wrote: Seq<bool>, n: nat)
    requires
        n <= surfaces.len(),
        n <= wrote.len(),
    ensures
        flags_set(wrote, n) <= n,
        surfaces_with_uri(surfaces, wrote, n).finite(),
        surfaces_with_uri(surfaces, wrote, n).len() <= flags_set(wrote, n),
    decreases n,
{
    if n > 0 {
        law_export_counts_consistent(surfaces, wrote, (n - 1) as nat);
        let prev = surfaces_with_uri(surfaces, wrote, (n - 1) as nat);
        if wrote[n - 1] {
            assert(prev.insert(surfaces[n - 1]).len() <= prev.len() + 1);
        }
    }
}

/// The statistics of an export whose row `i` has surface `surfaces[i]` and
/// got at least one URI row exactly when `wrote_uri[i]`: every row counts,
/// rows with a URI count, rows without one count as plain when plain rows
/// are written, and the distinct surfaces of rows with a URI count.
pub fn tally_export_rows(surfaces: &Vec<String>, wrote_uri: &Vec<bool>, include_plain: bool) -> (r: CsvExportStats)
    requires
        surfaces@.len() == wrote_uri@.len(),
    ensures
        r.total_rows == surfaces@.len(),
        r.rows_with_uri == flags_set(wrote_uri@, surfaces@.len() as nat),
        r.rows_plain == if include_plain { surfaces@.len() - flags_set(wrote_uri@, surfaces@.len() as nat) } else { 0 },
        r.unique_surfaces_with_uri == surfaces_with_uri(strings_view(surfaces@), wrote_uri@, surfaces@.len() as nat).len(),
{
    let ghost sv = strings_view(surfaces@);
    let mut stats = CsvExportStats::default();
    let mut seen: Vec<String> = Vec::new();
    let mut i: usize = 0;
    proof {
        assert(strings_view(seen@).to_set() =~= Set::<Seq<char>>::empty());
    }
    while i < surfaces.len()
        invariant
            i <= surfaces@.len(),
            surfaces@.len() == wrote_uri@.len(),
            sv == strings_view(surfaces@),
            stats.total_rows == i,
            stats.rows_with_uri == flags_set(wrote_uri@, i as nat),
            stats.rows_plain == if include_plain { i - flags_set(wrote_uri@, i as nat) } else { 0 },
            strings_view(seen@).no_duplicates(),
            strings_view(seen@).to_set() == surfaces_with_uri(sv, wrote_uri@, i as nat),
            stats.unique_surfaces_with_uri == seen@.len(),
            seen@.len() <= i,
        decreases surfaces@.len() - i,
    {
        proof {
            law_export_counts_consistent(sv, wrote_uri@, i as nat);
        }
        stats.total_rows += 1;
        if wrote_uri[i] {
            stats.rows_with_uri += 1;
            let mut found = false;
            let mut j: usize = 0;
            while j < seen.len()
                invariant
                    j <= seen@.len(),
                    i < surfaces@.len(),
                    found <==> exists|k: int| 0 <= k < j && seen@[k]@ == surfaces@[i as int]@,
                decreases seen@.len() - j,
            {
                if text_eq(seen[j].as_str(), surfaces[i].as_str()) {
                    found = true;
                }
                j += 1;
            }
            let ghost old_seen = strings_view(seen@);
            if !found {
                seen.push(surfaces[i].clone());
                stats.unique_surfaces_with_uri += 1;
                proof {
                    assert(strings_view(seen@) =~= old_seen.push(sv[i as int]));
                    assert(!old_seen.contains(sv[i as int])) by {
                        if old_seen.contains(sv[i as int]) {
                            let k = choose|k: int| 0 <= k < old_seen.len() && old_seen[k] == sv[i as int];
                            assert(seen@[k]@ == surfaces@[i as int]@);
                        }
                    }
                    let ns = strings_view(seen@);
                    assert forall|y: Seq<char>| ns.to_set().contains(y) <==> old_seen.to_set().insert(sv[i as int]).contains(y) by {
                        if ns.contains(y) {
                            let k = choose|k: int| 0 <= k < ns.len() && ns[k] == y;
                            if k < old_seen.len() {
                                assert(old_seen[k] == y);
                            }
                        }
                        if old_seen.contains(y) {
                            let k = choose|k: int| 0 <= k < old_seen.len() && old_seen[k] == y;
                            assert(ns[k] == y);
                        }
                        if y == sv[i as int] {
                            assert(ns[old_seen.len() as int] == y);
                        }
                    }
                    assert(ns.to_set() =~= old_seen.to_set().insert(sv[i as int]));
                }
            } else {
                proof {
                    let k = choose|k: int| 0 <= k < j && seen@[k]@ == surfaces@[i as int]@;
                    assert(old_seen[k] == sv[i as int]);
                    assert(old_seen.to_set().contains(sv[i as int]));
                    assert(old_seen.to_set().insert(sv[i as int]) =~= old_seen.to_set());
                }
            }
        } else if include_plain {
            stats.rows_plain += 1;
        }
        i += 1;
    }
    proof {
        strings_view(seen@).unique_seq_to_set();
    }
    stats
}

} // verus!
