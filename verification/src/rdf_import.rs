//! Lightweight RDF/XML ontology import: the Japanese labels of each
//! described resource, line by line. A `rdf:about` line starts a resource,
//! Japanese `rdfs:label` lines add labels to it, and the resource is
//! committed at the next subject, at `</rdf:Description>` or `</owl:Class>`,
//! and at the end of the file.

use vstd::prelude::*;
use crate::ontology::{extract_rdf_about, extract_rdfs_label_ja, rdf_about, rdfs_label_ja, OntologyStats};
use crate::scan::{trim, trim_bounds};
use crate::text::{chars_of, string_of_range, strings_view};

verus! {

/// The state of reading: the open resource and its labels, the (label,
/// uri) pairs committed so far, and the resources committed.
pub struct RdfState {
    pub uri: Option<Seq<char>>,
    pub labels: Seq<Seq<char>>,
    pub pairs: Seq<(Seq<char>, Seq<char>)>,
    pub entries: nat,
}

/// Commit the open resource: each of its labels pairs with its uri, when
/// it has both; then nothing is open.
pub open spec fn rdf_flush(st: RdfState) -> RdfState {
    let committed = match st.uri {
        Some(u) => st.labels.len() > 0,
        None => false,
    };
    RdfState {
        uri: None,
        labels: Seq::empty(),
        pairs: if committed {
            st.pairs + st.labels.map_values(|l: Seq<char>| (l, st.uri.unwrap()))
        } else {
            st.pairs
        },
        entries: if committed { st.entries + 1 } else { st.entries },
    }
}

/// What one line does to the state.
pub open spec fn rdf_step(st: RdfState, raw: Seq<char>) -> RdfState {
    let t = trim(raw);
    match rdf_about(t) {
        Some(u) => RdfState { uri: Some(u), ..rdf_flush(st) },
        None => match rdfs_label_ja(t) {
            Some(l) => RdfState { labels: st.labels.push(l), ..st },
            None => if t == "</rdf:Description>"@ || t == "</owl:Class>"@ {
                rdf_flush(st)
            } else {
                st
            },
        },
    }
}

/// The state after the lines `ls`.
pub open spec fn rdf_state(ls: Seq<Seq<char>>) -> RdfState
    decreases ls.len(),
{
    if ls.len() == 0 {
        RdfState { uri: None, labels: Seq::empty(), pairs: Seq::empty(), entries: 0 }
    } else {
        rdf_step(rdf_state(ls.drop_last()), ls.last())
    }
}

/// The (label, uri) pairs of a whole file, and the resources committed.
pub open spec fn rdf_labels(ls: Seq<Seq<char>>) -> RdfState {
    rdf_flush(rdf_state(ls))
}

/// The view of pairs.
pub open spec fn pairs_view(v: Seq<(String, String)>) -> Seq<(Seq<char>, Seq<char>)> {
    v.map_values(|p: (String, String)| (p.0@, p.1@))
}

/// Whether `cs[lo..hi]` is exactly `t`.
fn slice_is(cs: &[char], lo: usize, hi: usize, t: &str) -> (r: bool)
    requires
        lo <= hi <= cs@.len(),
    ensures
        r == (cs@.subrange(lo as int, hi as int) == t@),
{
    let tc = chars_of(t);
    if hi - lo != tc.len() {
        return false;
    }
    let mut i: usize = 0;
    while i < tc.len()
        invariant
            i <= tc@.len(),
            hi - lo == tc@.len(),
            hi <= cs@.len(),
            tc@ == t@,
            forall|j: int| 0 <= j < i ==> cs@[lo + j] == tc@[j],
        decreases tc@.len() - i,
    {
        if cs[lo + i] != tc[i] {
            assert(cs@.subrange(lo as int, hi as int)[i as int] != t@[i as int]);
            return false;
        }
        i += 1;
    }
    assert(cs@.subrange(lo as int, hi as int) =~= t@);
    true
}

/// Commit the open resource into `pairs` (see [`rdf_flush`]).
fn flush_labels(uri: &mut Option<String>, labels: &mut Vec<String>, pairs: &mut Vec<(String, String)>, entries: &mut u64, added: &mut u64)
    requires
        *old(entries) + 1 <= u64::MAX,
        *old(added) + old(labels)@.len() <= u64::MAX,
    ensures
        ({
            let st = RdfState {
                uri: match *old(uri) { Some(u) => Some(u@), None => None },
                labels: strings_view(old(labels)@),
                pairs: pairs_view(old(pairs)@),
                entries: *old(entries) as nat,
            };
            let f = rdf_flush(st);
            &&& *final(uri) is None
            &&& final(labels)@.len() == 0
            &&& pairs_view(final(pairs)@) == f.pairs
            &&& *final(entries) as nat == f.entries
            &&& *final(added) == *old(added) + (f.pairs.len() - st.pairs.len())
            &&& f.pairs.len() == st.pairs.len() + (if f.entries > st.entries { st.labels.len() } else { 0 })
            &&& f.entries <= st.entries + 1
        }),
{
    let ghost lv = strings_view(labels@);
    let ghost pv = pairs_view(pairs@);
    match uri {
        Some(u) => {
            if labels.len() > 0 {
                let mut k: usize = 0;
                while k < labels.len()
                    invariant
                        k <= labels@.len(),
                        lv == strings_view(labels@),
                        *added == *old(added) + k,
                        *old(added) + labels@.len() <= u64::MAX,
                        pairs_view(pairs@) == pv + lv.take(k as int).map_values(|l: Seq<char>| (l, u@)),
                    decreases labels@.len() - k,
                {
                    let ghost before = pairs@;
                    pairs.push((labels[k].clone(), u.clone()));
                    *added = *added + 1;
                    proof {
                        assert(pairs_view(pairs@) =~= pairs_view(before).push((lv[k as int], u@)));
                        assert(lv.take(k + 1).map_values(|l: Seq<char>| (l, u@))
                            =~= lv.take(k as int).map_values(|l: Seq<char>| (l, u@)).push((lv[k as int], u@)));
                    }
                    k += 1;
                }
                proof {
                    assert(lv.take(k as int) =~= lv);
                }
                *entries = *entries + 1;
            }
        },
        None => {},
    }
    *uri = None;
    *labels = Vec::new();
}

/// The Japanese labels of an RDF/XML ontology given as its lines, each
/// paired with the uri of its resource, and the statistics of the import
/// (see [`rdf_labels`]).
pub fn collect_rdf_labels(lines: &Vec<String>) -> (r: (Vec<(String, String)>, OntologyStats))
    ensures
        pairs_view(r.0@) == rdf_labels(strings_view(lines@)).pairs,
        r.1.entries_read as nat == rdf_labels(strings_view(lines@)).entries,
        r.1.surfaces_added as nat == rdf_labels(strings_view(lines@)).pairs.len(),
        r.1.aliases_added == 0,
        r.1.skipped_invalid == 0,
{
    let ghost ls = strings_view(lines@);
    let mut uri: Option<String> = None;
    let mut labels: Vec<String> = Vec::new();
    let mut pairs: Vec<(String, String)> = Vec::new();
    let mut entries: u64 = 0;
    let mut added: u64 = 0;
    let mut i: usize = 0;
    proof {
        assert(ls.take(0) =~= Seq::<Seq<char>>::empty());
        assert(pairs_view(pairs@) =~= Seq::<(Seq<char>, Seq<char>)>::empty());
        assert(strings_view(labels@) =~= Seq::<Seq<char>>::empty());
    }
    while i < lines.len()
        invariant
            i <= ls.len(),
            ls == strings_view(lines@),
            rdf_state(ls.take(i as int)) == (RdfState {
                uri: match uri { Some(u) => Some(u@), None => None },
                labels: strings_view(labels@),
                pairs: pairs_view(pairs@),
                entries: entries as nat,
            }),
            added as nat == pairs_view(pairs@).len(),
            entries + labels@.len() + pairs@.len() <= i,
            entries <= pairs@.len(),
        decreases ls.len() - i,
    {
        let cs = chars_of(lines[i].as_str());
        let (a, b) = trim_bounds(cs.as_slice(), 0, cs.len());
        let t = string_of_range(cs.as_slice(), a, b);
        let ghost before = rdf_state(ls.take(i as int));
        proof {
            assert(ls.take(i + 1).drop_last() =~= ls.take(i as int));
            assert(cs@.subrange(0, cs@.len() as int) =~= ls[i as int]);
            assert(t@ == trim(ls[i as int]));
        }
        match extract_rdf_about(t.as_str()) {
            Some(u) => {
                flush_labels(&mut uri, &mut labels, &mut pairs, &mut entries, &mut added);
                proof {
                    assert(strings_view(labels@) =~= Seq::<Seq<char>>::empty());
                }
                uri = Some(u);
            },
            None => match extract_rdfs_label_ja(t.as_str()) {
                Some(l) => {
                    let ghost old_labels = labels@;
                    labels.push(l);
                    proof {
                        assert(strings_view(labels@) =~= strings_view(old_labels).push(l@));
                    }
                },
                None => {
                    proof {
                        reveal_strlit("</rdf:Description>");
                        reveal_strlit("</owl:Class>");
                    }
                    if slice_is(cs.as_slice(), a, b, "</rdf:Description>") || slice_is(cs.as_slice(), a, b, "</owl:Class>") {
                        flush_labels(&mut uri, &mut labels, &mut pairs, &mut entries, &mut added);
                        proof {
                            assert(strings_view(labels@) =~= Seq::<Seq<char>>::empty());
                        }
                    }
                },
            },
        }
        proof {
            assert(rdf_state(ls.take(i + 1)) == rdf_step(before, ls[i as int]));
        }
        i += 1;
    }
    proof {
        assert(ls.take(i as int) =~= ls);
    }
    flush_labels(&mut uri, &mut labels, &mut pairs, &mut entries, &mut added);
    (pairs, OntologyStats { entries_read: entries, surfaces_added: added, aliases_added: 0, skipped_invalid: 0 })
}

} // verus!
