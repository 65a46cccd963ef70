//! Wikidata entities as the dictionary builder reads them: the Japanese
//! label and aliases become surfaces, and the ids of "instance of" (P31)
//! claims are the entity's types.
//!
//! Maps keyed by language or site are held as lists of (key, value)
//! pairs with distinct keys, in the order the dump gave them.

use vstd::prelude::*;
use vstd::string::StringExecFns;
use crate::ntriples::{contains, contains_sub};
use crate::scan::{trim, trim_bounds};
use crate::text::{chars_of, string_of_range, strings_view, text_eq};

verus! {

/// A label or alias in a given language.
#[derive(Debug, Clone)]
pub struct LabelValue {
    pub language: String,
    pub value: String,
}

/// A sitelink (a Wikipedia page of the entity).
#[derive(Debug, Clone)]
pub struct SitelinkValue {
    pub site: String,
    pub title: String,
}

/// A claim's data value: its type, and the `id` of the value object when
/// it carries a string one (`"Q5"` for "human").
#[derive(Debug, Clone)]
pub struct ClaimValue {
    pub value_type: Option<String>,
    pub value_id: Option<String>,
}

/// The main snak of a claim.
#[derive(Debug, Clone)]
pub struct Mainsnak {
    pub datavalue: Option<ClaimValue>,
}

/// A single claim.
#[derive(Debug, Clone)]
pub struct Claim {
    pub mainsnak: Mainsnak,
}

/// The claims read from an entity: only P31 ("instance of").
#[derive(Debug, Clone)]
pub struct Claims {
    pub instance_of: Vec<Claim>,
}

impl Claims {
    /// No claims.
    pub fn new() -> (r: Claims)
        ensures
            r.instance_of@.len() == 0,
    {
        Claims { instance_of: Vec::new() }
    }
}

/// A Wikidata entity.
#[derive(Debug, Clone)]
pub struct WikidataEntry {
    /// Wikidata ID (e.g. "Q1490").
    pub id: String,
    /// Labels by language.
    pub labels: Vec<(String, LabelValue)>,
    /// Aliases by language.
    pub aliases: Vec<(String, Vec<LabelValue>)>,
    /// Sitelinks by site.
    pub sitelinks: Vec<(String, SitelinkValue)>,
    /// Claims (P31 is used for entity-type filtering).
    pub claims: Claims,
}

/// The value under key `k`: the first pair with that key.
pub open spec fn value_for<V>(kv: Seq<(String, V)>, k: Seq<char>) -> Option<V>
    decreases kv.len(),
{
    if kv.len() == 0 {
        None
    } else if kv[0].0@ == k {
        Some(kv[0].1)
    } else {
        value_for(kv.drop_first(), k)
    }
}

/// `s` followed by the elements of `xs` that are new, each once.
pub open spec fn add_new(s: Seq<Seq<char>>, xs: Seq<Seq<char>>) -> Seq<Seq<char>>
    decreases xs.len(),
{
    if xs.len() == 0 {
        s
    } else {
        let p = add_new(s, xs.drop_last());
        if p.contains(xs.last()) {
            p
        } else {
            p.push(xs.last())
        }
    }
}

/// The values of a list of labels.
pub open spec fn label_values(v: Seq<LabelValue>) -> Seq<Seq<char>> {
    v.map_values(|l: LabelValue| l.value@)
}

/// The Japanese surfaces of an entity: its Japanese label, then each
/// Japanese alias not seen before.
pub open spec fn japanese_surfaces_spec(e: WikidataEntry) -> Seq<Seq<char>> {
    let base = match value_for(e.labels@, "ja"@) {
        Some(l) => seq![l.value@],
        None => Seq::empty(),
    };
    match value_for(e.aliases@, "ja"@) {
        Some(a) => add_new(base, label_values(a@)),
        None => base,
    }
}

/// The type ids of claims: each claim's value id, where it has one.
pub open spec fn claim_type_ids(cs: Seq<Claim>) -> Seq<Seq<char>>
    decreases cs.len(),
{
    if cs.len() == 0 {
        Seq::empty()
    } else {
        let rest = claim_type_ids(cs.drop_last());
        match cs.last().mainsnak.datavalue {
            Some(dv) => match dv.value_id {
                Some(id) => rest.push(id@),
                None => rest,
            },
            None => rest,
        }
    }
}

/// The index of the first pair with key `k`.
fn position_of<V>(kv: &Vec<(String, V)>, k: &str) -> (r: Option<usize>)
    ensures
        match value_for(kv@, k@) {
            Some(v) => r matches Some(i) && i < kv@.len() && kv@[i as int].1 == v,
            None => r is None,
        },
{
    let mut i: usize = 0;
    proof {
        assert(kv@.skip(0) =~= kv@);
    }
    while i < kv.len()
        invariant
            i <= kv@.len(),
            value_for(kv@, k@) == value_for(kv@.skip(i as int), k@),
        decreases kv@.len() - i,
    {
        proof {
            assert(kv@.skip(i as int)[0] == kv@[i as int]);
            assert(kv@.skip(i as int).drop_first() =~= kv@.skip(i + 1));
        }
        if text_eq(kv[i].0.as_str(), k) {
            return Some(i);
        }
        i += 1;
    }
    None
}

impl WikidataEntry {
    /// All Japanese surface forms of the entity (see [`japanese_surfaces_spec`]).
    pub fn japanese_surfaces(&self) -> (r: Vec<String>)
        ensures
            strings_view(r@) == japanese_surfaces_spec(*self),
    {
        let mut surfaces: Vec<String> = Vec::new();
        proof {
            assert(strings_view(surfaces@) =~= Seq::<Seq<char>>::empty());
        }
        match position_of(&self.labels, "ja") {
            Some(i) => {
                surfaces.push(self.labels[i].1.value.clone());
                proof {
                    assert(strings_view(surfaces@) =~= seq![self.labels@[i as int].1.value@]);
                }
            },
            None => {},
        }
        let ghost base = strings_view(surfaces@);
        match position_of(&self.aliases, "ja") {
            Some(i) => {
                let aliases = &self.aliases[i].1;
                let ghost xs = label_values(aliases@);
                let mut k: usize = 0;
                proof {
                    assert(xs.take(0) =~= Seq::<Seq<char>>::empty());
                }
                while k < aliases.len()
                    invariant
                        k <= xs.len(),
                        xs == label_values(aliases@),
                        strings_view(surfaces@) == add_new(base, xs.take(k as int)),
                    decreases xs.len() - k,
                {
                    let v = &aliases[k].value;
                    proof {
                        assert(xs.take(k + 1).drop_last() =~= xs.take(k as int));
                        assert(xs.take(k + 1).last() == v@);
                    }
                    let mut seen = false;
                    let mut j: usize = 0;
                    while j < surfaces.len()
                        invariant
                            j <= surfaces@.len(),
                            seen == exists|q: int| 0 <= q < j && surfaces@[q]@ == v@,
                        decreases surfaces@.len() - j,
                    {
                        if text_eq(surfaces[j].as_str(), v.as_str()) {
                            seen = true;
                        }
                        j += 1;
                    }
                    proof {
                        let sv = strings_view(surfaces@);
                        if seen {
                            let q = choose|q: int| 0 <= q < j && surfaces@[q]@ == v@;
                            assert(sv[q] == v@);
                        } else if sv.contains(v@) {
                            let q = choose|q: int| 0 <= q < sv.len() && sv[q] == v@;
                            assert(surfaces@[q]@ == v@);
                        }
                    }
                    if !seen {
                        let ghost before = surfaces@;
                        surfaces.push(v.clone());
                        proof {
                            assert(strings_view(surfaces@) =~= strings_view(before).push(v@));
                        }
                    }
                    k += 1;
                }
                proof {
                    assert(xs.take(k as int) =~= xs);
                }
            },
            None => {},
        }
        surfaces
    }

    /// The Q-ids of the entity's types: the value ids of its P31 claims.
    pub fn entity_type_ids(&self) -> (r: Vec<String>)
        ensures
            strings_view(r@) == claim_type_ids(self.claims.instance_of@),
    {
        let cs = &self.claims.instance_of;
        let mut ids: Vec<String> = Vec::new();
        let mut k: usize = 0;
        proof {
            assert(cs@.take(0) =~= Seq::<Claim>::empty());
            assert(strings_view(ids@) =~= Seq::<Seq<char>>::empty());
        }
        while k < cs.len()
            invariant
                k <= cs@.len(),
                strings_view(ids@) == claim_type_ids(cs@.take(k as int)),
            decreases cs@.len() - k,
        {
            proof {
                assert(cs@.take(k + 1).drop_last() =~= cs@.take(k as int));
                assert(cs@.take(k + 1).last() == cs@[k as int]);
            }
            match &cs[k].mainsnak.datavalue {
                Some(dv) => match &dv.value_id {
                    Some(id) => {
                        let ghost before = ids@;
                        ids.push(id.clone());
                        proof {
                            assert(strings_view(ids@) =~= strings_view(before).push(id@));
                        }
                    },
                    None => {},
                },
                None => {},
            }
            k += 1;
        }
        proof {
            assert(cs@.take(k as int) =~= cs@);
        }
        ids
    }

    /// Whether the entity passes the type filter: an empty filter allows
    /// every entity, any other one those with a type in it.
    pub fn matches_type_filter(&self, filter: &Vec<String>) -> (r: bool)
        ensures
            r == (filter@.len() == 0 || exists|t: Seq<char>| claim_type_ids(self.claims.instance_of@).contains(t)
                && strings_view(filter@).contains(t)),
    {
        if filter.len() == 0 {
            return true;
        }
        let types = self.entity_type_ids();
        let ghost tv = strings_view(types@);
        let ghost fv = strings_view(filter@);
        let mut i: usize = 0;
        while i < types.len()
            invariant
                i <= types@.len(),
                tv == strings_view(types@),
                tv == claim_type_ids(self.claims.instance_of@),
                fv == strings_view(filter@),
                forall|a: int| 0 <= a < i ==> !fv.contains(#[trigger] tv[a]),
            decreases types@.len() - i,
        {
            let mut j: usize = 0;
            while j < filter.len()
                invariant
                    j <= filter@.len(),
                    i < types@.len(),
                    tv == strings_view(types@),
                    tv == claim_type_ids(self.claims.instance_of@),
                    fv == strings_view(filter@),
                    forall|b: int| 0 <= b < j ==> fv[b] != tv[i as int],
                decreases filter@.len() - j,
            {
                if text_eq(types[i].as_str(), filter[j].as_str()) {
                    proof {
                        assert(tv.contains(tv[i as int]));
                        assert(fv[j as int] == tv[i as int]);
                        assert(fv.contains(tv[i as int]));
                        assert(claim_type_ids(self.claims.instance_of@).contains(tv[i as int]));
                    }
                    return true;
                }
                j += 1;
            }
            proof {
                if fv.contains(tv[i as int]) {
                    let b = choose|b: int| 0 <= b < fv.len() && fv[b] == tv[i as int];
                }
            }
            i += 1;
        }
        proof {
            assert forall|t: Seq<char>| !(tv.contains(t) && fv.contains(t)) by {
                if tv.contains(t) {
                    let a = choose|a: int| 0 <= a < tv.len() && tv[a] == t;
                }
            }
        }
        false
    }
}

/// The entity types a part of speech allows: persons for person names,
/// places for place names, organisations for organisation names, any for
/// other proper nouns (`None`), and none for everything else.
pub open spec fn allowed_entity_types(pos: Seq<char>) -> Option<Seq<Seq<char>>> {
    if contains_sub(pos, "人名"@) {
        Some(seq!["Q5"@, "Q215380"@])
    } else if contains_sub(pos, "地名"@) {
        Some(seq!["Q515"@, "Q6256"@, "Q82794"@, "Q35657"@])
    } else if contains_sub(pos, "組織"@) {
        Some(seq!["Q4830453"@, "Q43229"@, "Q7278"@])
    } else if contains_sub(pos, "固有名詞"@) {
        None
    } else {
        Some(Seq::empty())
    }
}

/// Map an IPADIC part-of-speech feature to the Wikidata entity types it
/// allows (see [`allowed_entity_types`]).
pub fn pos_to_allowed_entity_types(pos_feature: &str) -> (r: Option<Vec<&'static str>>)
    ensures
        match allowed_entity_types(pos_feature@) {
            Some(ids) => r matches Some(v) && v@.map_values(|s: &'static str| s@) == ids,
            None => r is None,
        },
{
    let cs = crate::text::chars_of(pos_feature);
    let r = if contains(cs.as_slice(), "人名") {
        Some(vec!["Q5", "Q215380"])
    } else if contains(cs.as_slice(), "地名") {
        Some(vec!["Q515", "Q6256", "Q82794", "Q35657"])
    } else if contains(cs.as_slice(), "組織") {
        Some(vec!["Q4830453", "Q43229", "Q7278"])
    } else if contains(cs.as_slice(), "固有名詞") {
        None
    } else {
        Some(Vec::new())
    };
    proof {
        if r is Some {
            assert(r->0@.map_values(|s: &'static str| s@) =~= allowed_entity_types(pos_feature@).unwrap());
        }
    }
    r
}

/// `str::trim_end_matches(',')`: the text without its trailing commas.
pub open spec fn without_trailing_commas(s: Seq<char>) -> Seq<char>
    decreases s.len(),
{
    if s.len() > 0 && s.last() == ',' {
        without_trailing_commas(s.drop_last())
    } else {
        s
    }
}

/// The JSON text of the entity on a line of a Wikidata dump: the trimmed
/// line without its trailing commas; none for a blank line and for the
/// lines holding the array's brackets.
pub open spec fn dump_line_entity_spec(line: Seq<char>) -> Option<Seq<char>> {
    let t = trim(line);
    if t.len() == 0 || t == seq!['['] || t == seq![']'] {
        None
    } else {
        Some(without_trailing_commas(t))
    }
}

/// The entity text on a line of a Wikidata dump (see [`dump_line_entity_spec`]).
pub fn dump_line_entity(line: &str) -> (r: Option<String>)
    ensures
        match r {
            Some(t) => dump_line_entity_spec(line@) == Some(t@),
            None => dump_line_entity_spec(line@) is None,
        },
{
    let cs = chars_of(line);
    let (a, b) = trim_bounds(cs.as_slice(), 0, cs.len());
    let ghost t = cs@.subrange(a as int, b as int);
    proof {
        assert(cs@.subrange(0, cs@.len() as int) =~= line@);
    }
    if a == b {
        return None;
    }
    if b - a == 1 && (cs[a] == '[' || cs[a] == ']') {
        proof {
            assert(t =~= seq![cs@[a as int]]);
        }
        return None;
    }
    proof {
        if t == seq!['['] || t == seq![']'] {
            assert(t.len() == 1 && t[0] == cs@[a as int]);
        }
    }
    let mut e: usize = b;
    while e > a && cs[e - 1] == ','
        invariant
            a <= e <= b <= cs@.len(),
            t == cs@.subrange(a as int, b as int),
            without_trailing_commas(t) == without_trailing_commas(cs@.subrange(a as int, e as int)),
        decreases e - a,
    {
        proof {
            let u = cs@.subrange(a as int, e as int);
            assert(u.drop_last() =~= cs@.subrange(a as int, e - 1));
        }
        e -= 1;
    }
    proof {
        let u = cs@.subrange(a as int, e as int);
        if e > a {
            assert(u.last() == cs@[e - 1]);
        }
    }
    Some(string_of_range(cs.as_slice(), a, e))
}

/// The URI of the Wikidata entity with id `id`.
pub open spec fn wikidata_uri(id: Seq<char>) -> Seq<char> {
    "http://www.wikidata.org/entity/"@ + id
}

/// The URI of the Wikidata entity with id `id` (see [`wikidata_uri`]).
pub fn wikidata_entity_uri(id: &str) -> (r: String)
    ensures
        r@ == wikidata_uri(id@),
{
    let mut r = String::from_str("http://www.wikidata.org/entity/");
    r.append(id);
    r
}

} // verus!
