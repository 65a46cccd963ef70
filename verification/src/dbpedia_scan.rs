//! Reading a DBpedia N-Triples dump: the Japanese labels of each subject,
//! in order of first appearance, whether the subject has a Japanese
//! abstract, and the counts of what was read. Blank lines and `#`
//! comments are not triples.

use vstd::prelude::*;
use vstd::hash_map::StringHashMap;
use crate::ntriples::{
    abstract_predicate, is_abstract_predicate, is_label_predicate, label_predicate, ntriple_spec, parse_ntriple,
    law_name_and_label_suffixes_are_labels,
    DBpediaStats,
};
use crate::scan::{trim, trim_bounds};
use crate::text::{chars_of, string_of_range, strings_view};

verus! {

/// What reading has gathered: each subject with its labels, the subjects
/// with an abstract, and the numbers of triples, labels and abstracts.
pub struct DbScan {
    pub groups: Seq<(Seq<char>, Seq<Seq<char>>)>,
    pub abstracts: Set<Seq<char>>,
    pub triples: nat,
    pub labels: nat,
    pub abstracts_found: nat,
}

/// The last group of subject `s`.
pub open spec fn find_group(groups: Seq<(Seq<char>, Seq<Seq<char>>)>, s: Seq<char>) -> Option<int>
    decreases groups.len(),
{
    if groups.len() == 0 {
        None
    } else if groups.last().0 == s {
        Some(groups.len() - 1)
    } else {
        find_group(groups.drop_last(), s)
    }
}

/// The groups after label `o` of subject `s`: appended to the subject's
/// group, or a new group at the end.
pub open spec fn add_label(groups: Seq<(Seq<char>, Seq<Seq<char>>)>, s: Seq<char>, o: Seq<char>) -> Seq<(Seq<char>, Seq<Seq<char>>)> {
    match find_group(groups, s) {
        Some(i) => groups.update(i, (s, groups[i].1.push(o))),
        None => groups.push((s, seq![o])),
    }
}

/// What one line does: a non-blank, non-comment line counts as a triple;
/// a Japanese label adds to its subject's labels and a Japanese abstract
/// marks its subject.
pub open spec fn db_step(st: DbScan, raw: Seq<char>) -> DbScan {
    let t = trim(raw);
    if t.len() == 0 || t[0] == '#' {
        st
    } else {
        let st1 = DbScan { triples: st.triples + 1, ..st };
        match ntriple_spec(t) {
            Some((s, p, o, lang)) => if lang == Some("ja"@) {
                if label_predicate(p) {
                    DbScan { groups: add_label(st1.groups, s, o), labels: st1.labels + 1, ..st1 }
                } else if abstract_predicate(p) {
                    DbScan { abstracts: st1.abstracts.insert(s), abstracts_found: st1.abstracts_found + 1, ..st1 }
                } else {
                    st1
                }
            } else {
                st1
            },
            None => st1,
        }
    }
}

/// What reading `ls` gathers.
pub open spec fn db_scan(ls: Seq<Seq<char>>) -> DbScan
    decreases ls.len(),
{
    if ls.len() == 0 {
        DbScan { groups: Seq::empty(), abstracts: Set::empty(), triples: 0, labels: 0, abstracts_found: 0 }
    } else {
        db_step(db_scan(ls.drop_last()), ls.last())
    }
}

/// The view of the result groups: subject, labels, and whether it has an
/// abstract.
pub open spec fn subjects_view(v: Seq<(String, Vec<String>, bool)>) -> Seq<(Seq<char>, Seq<Seq<char>>, bool)> {
    v.map_values(|g: (String, Vec<String>, bool)| (g.0@, strings_view(g.1@), g.2))
}

/// The subjects of a scan with their labels and abstract flags.
pub open spec fn scan_subjects(sc: DbScan) -> Seq<(Seq<char>, Seq<Seq<char>>, bool)> {
    sc.groups.map_values(|g: (Seq<char>, Seq<Seq<char>>)| (g.0, g.1, sc.abstracts.contains(g.0)))
}

/// Number of labels over all groups.
pub open spec fn label_total(groups: Seq<(Seq<char>, Seq<Seq<char>>)>) -> nat
    decreases groups.len(),
{
    if groups.len() == 0 {
        0
    } else {
        label_total(groups.drop_last()) + groups.last().1.len()
    }
}

proof fn lemma_find_group(groups: Seq<(Seq<char>, Seq<Seq<char>>)>, s: Seq<char>, i: int)
    requires
        0 <= i < groups.len(),
        groups[i].0 == s,
        forall|a: int, b: int| 0 <= a < b < groups.len() ==> groups[a].0 != groups[b].0,
    ensures
        find_group(groups, s) == Some(i),
    decreases groups.len(),
{
    if i < groups.len() - 1 {
        assert(groups.last().0 != s) by {
            assert(groups[groups.len() - 1].0 != groups[i].0);
        }
        lemma_find_group(groups.drop_last(), s, i);
    }
}

proof fn lemma_find_group_none(groups: Seq<(Seq<char>, Seq<Seq<char>>)>, s: Seq<char>)
    requires
        forall|a: int| 0 <= a < groups.len() ==> groups[a].0 != s,
    ensures
        find_group(groups, s) is None,
    decreases groups.len(),
{
    if groups.len() > 0 {
        lemma_find_group_none(groups.drop_last(), s);
    }
}

proof fn lemma_label_total_update(groups: Seq<(Seq<char>, Seq<Seq<char>>)>, i: int, g: (Seq<char>, Seq<Seq<char>>))
    requires
        0 <= i < groups.len(),
    ensures
        label_total(groups.update(i, g)) == label_total(groups) - groups[i].1.len() + g.1.len(),
    decreases groups.len(),
{
    if i < groups.len() - 1 {
        assert(groups.update(i, g).drop_last() =~= groups.drop_last().update(i, g));
        lemma_label_total_update(groups.drop_last(), i, g);
    } else {
        assert(groups.update(i, g).drop_last() =~= groups.drop_last());
    }
}

proof fn lemma_find_group_range(groups: Seq<(Seq<char>, Seq<Seq<char>>)>, s: Seq<char>)
    ensures
        find_group(groups, s) matches Some(i) ==> 0 <= i < groups.len(),
    decreases groups.len(),
{
    if groups.len() > 0 {
        lemma_find_group_range(groups.drop_last(), s);
    }
}

proof fn lemma_add_label_total(groups: Seq<(Seq<char>, Seq<Seq<char>>)>, s: Seq<char>, o: Seq<char>)
    ensures
        label_total(add_label(groups, s, o)) == label_total(groups) + 1,
{
    lemma_find_group_range(groups, s);
    match find_group(groups, s) {
        Some(i) => {
            lemma_label_total_update(groups, i, (s, groups[i].1.push(o)));
        },
        None => {
            assert(groups.push((s, seq![o])).drop_last() =~= groups);
        },
    }
}

/// Whether the string `s` is `"ja"`.
fn is_ja(s: &String) -> (r: bool)
    ensures
        r == (s@ == "ja"@),
{
    let cs = chars_of(s.as_str());
    proof {
        reveal_strlit("ja");
    }
    let r = cs.len() == 2 && cs[0] == 'j' && cs[1] == 'a';
    proof {
        if r {
            assert(cs@ =~= "ja"@);
        }
        if s@ == "ja"@ {
            assert(cs@.len() == 2 && cs@[0] == 'j' && cs@[1] == 'a');
        }
    }
    r
}

/// Read a DBpedia dump given as its lines (see [`db_scan`]): each subject
/// with a Japanese label, with its labels and whether it has a Japanese
/// abstract, and the statistics of the read, `surfaces_added` counting
/// every label.
pub fn scan_dbpedia(lines: &Vec<String>) -> (r: (Vec<(String, Vec<String>, bool)>, DBpediaStats))
    ensures
        subjects_view(r.0@) == scan_subjects(db_scan(strings_view(lines@))),
        r.1.triples_processed as nat == db_scan(strings_view(lines@)).triples,
        r.1.labels_found as nat == db_scan(strings_view(lines@)).labels,
        r.1.abstracts_found as nat == db_scan(strings_view(lines@)).abstracts_found,
        r.1.surfaces_added as nat == label_total(db_scan(strings_view(lines@)).groups),
{
    let ghost ls = strings_view(lines@);
    let mut subjects: Vec<String> = Vec::new();
    let mut labels: Vec<Vec<String>> = Vec::new();
    let mut index: StringHashMap<usize> = StringHashMap::new();
    let mut abstracts: StringHashMap<bool> = StringHashMap::new();
    let mut triples: u64 = 0;
    let mut labels_found: u64 = 0;
    let mut abstracts_found: u64 = 0;
    let mut i: usize = 0;
    proof {
        assert(ls.take(0) =~= Seq::<Seq<char>>::empty());
    }
    while i < lines.len()
        invariant
            i <= ls.len(),
            ls == strings_view(lines@),
            subjects@.len() == labels@.len(),
            ({
                let sc = db_scan(ls.take(i as int));
                &&& sc.groups.len() == subjects@.len()
                &&& forall|k: int| 0 <= k < subjects@.len() ==> (#[trigger] sc.groups[k]).0 == subjects@[k]@
                    && sc.groups[k].1 == strings_view(labels@[k]@)
                &&& forall|x: Seq<char>| #[trigger] abstracts@.contains_key(x) <==> sc.abstracts.contains(x)
                &&& sc.triples == triples as nat
                &&& sc.labels == labels_found as nat
                &&& sc.abstracts_found == abstracts_found as nat
                &&& label_total(sc.groups) == sc.labels
            }),
            forall|a: int, b: int| 0 <= a < b < subjects@.len() ==> subjects@[a]@ != subjects@[b]@,
            forall|x: Seq<char>| #[trigger] index@.contains_key(x) <==> exists|k: int| 0 <= k < subjects@.len() && subjects@[k]@ == x,
            forall|x: Seq<char>| #[trigger] index@.contains_key(x) ==> index@[x] < subjects@.len() && subjects@[index@[x] as int]@ == x,
            triples <= i,
            labels_found <= i,
            abstracts_found <= i,
        decreases ls.len() - i,
    {
        let cs = chars_of(lines[i].as_str());
        let (a, b) = trim_bounds(cs.as_slice(), 0, cs.len());
        let t = string_of_range(cs.as_slice(), a, b);
        let ghost before = db_scan(ls.take(i as int));
        proof {
            assert(ls.take(i + 1).drop_last() =~= ls.take(i as int));
            assert(cs@.subrange(0, cs@.len() as int) =~= ls[i as int]);
            assert(t@ == trim(ls[i as int]));
        }
        if a == b || cs[a] == '#' {
            proof {
                if a < b {
                    assert(t@[0] == cs@[a as int]);
                }
            }
        } else {
            proof {
                assert(t@[0] == cs@[a as int]);
            }
            triples = triples + 1;
            match parse_ntriple(t.as_str()) {
                Some(tr) => {
                    let ja = match &tr.lang {
                        Some(l) => is_ja(l),
                        None => false,
                    };
                    if ja {
                        if is_label_predicate(tr.predicate.as_str()) {
                            labels_found = labels_found + 1;
                            let ghost g0 = db_scan(ls.take(i as int)).groups;
                            match index.get(tr.subject.as_str()) {
                                Some(k) => {
                                    let k = *k;
                                    let ghost old_labels = labels@;
                                    labels[k].push(tr.object.clone());
                                    proof {
                                        lemma_find_group(g0, tr.subject@, k as int);
                                        assert forall|q: int| 0 <= q < subjects@.len() implies (#[trigger] add_label(g0, tr.subject@, tr.object@)[q]).0 == subjects@[q]@
                                            && add_label(g0, tr.subject@, tr.object@)[q].1 == strings_view(labels@[q]@) by {
                                            if q == k {
                                                assert(strings_view(labels@[q]@) =~= strings_view(old_labels[q]@).push(tr.object@));
                                            } else {
                                                assert(labels@[q] == old_labels[q]);
                                            }
                                        }
                                    }
                                },
                                None => {
                                    proof {
                                        assert forall|q: int| 0 <= q < g0.len() implies g0[q].0 != tr.subject@ by {
                                            if g0[q].0 == tr.subject@ {
                                                assert(subjects@[q]@ == tr.subject@);
                                            }
                                        }
                                        lemma_find_group_none(g0, tr.subject@);
                                    }
                                    let pos = subjects.len();
                                    let ghost old_index = index@;
                                    let ghost old_subjects = subjects@;
                                    let ghost old_labels = labels@;
                                    index.insert(tr.subject.clone(), pos);
                                    subjects.push(tr.subject.clone());
                                    let mut first: Vec<String> = Vec::new();
                                    first.push(tr.object.clone());
                                    labels.push(first);
                                    proof {
                                        assert(strings_view(labels@[pos as int]@) =~= seq![tr.object@]);
                                        assert forall|q: int| 0 <= q < subjects@.len() implies (#[trigger] add_label(g0, tr.subject@, tr.object@)[q]).0 == subjects@[q]@
                                            && add_label(g0, tr.subject@, tr.object@)[q].1 == strings_view(labels@[q]@) by {
                                            if q < pos {
                                                assert(labels@[q] == old_labels[q]);
                                                assert(subjects@[q] == old_subjects[q]);
                                            }
                                        }
                                        assert forall|x: Seq<char>| #[trigger] index@.contains_key(x) <==> exists|k: int| 0 <= k < subjects@.len() && subjects@[k]@ == x by {
                                            if x == tr.subject@ {
                                                assert(subjects@[pos as int]@ == x);
                                            } else {
                                                assert(index@.contains_key(x) == old_index.contains_key(x));
                                                if exists|k: int| 0 <= k < subjects@.len() && subjects@[k]@ == x {
                                                    let k = choose|k: int| 0 <= k < subjects@.len() && subjects@[k]@ == x;
                                                    assert(old_subjects[k]@ == x);
                                                }
                                                if exists|k: int| 0 <= k < old_subjects.len() && old_subjects[k]@ == x {
                                                    let k = choose|k: int| 0 <= k < old_subjects.len() && old_subjects[k]@ == x;
                                                    assert(subjects@[k]@ == x);
                                                }
                                            }
                                        }
                                        assert forall|p: int, q: int| 0 <= p < q < subjects@.len() implies subjects@[p]@ != subjects@[q]@ by {
                                            if q == pos {
                                                assert(g0[p].0 != tr.subject@);
                                            } else {
                                                assert(subjects@[p] == old_subjects[p]);
                                                assert(subjects@[q] == old_subjects[q]);
                                            }
                                        }
                                    }
                                },
                            }
                        } else if is_abstract_predicate(tr.predicate.as_str()) {
                            abstracts_found = abstracts_found + 1;
                            abstracts.insert(tr.subject.clone(), true);
                        }
                    }
                },
                None => {},
            }
        }
        proof {
            assert(db_scan(ls.take(i + 1)) == db_step(before, ls[i as int]));
            let t = trim(ls[i as int]);
            if !(t.len() == 0 || t[0] == '#') {
                if let Some((s, p, o, lang)) = ntriple_spec(t) {
                    lemma_add_label_total(before.groups, s, o);
                }
            }
        }
        i += 1;
    }
    proof {
        assert(ls.take(i as int) =~= ls);
    }
    let ghost sc = db_scan(ls);
    let mut out: Vec<(String, Vec<String>, bool)> = Vec::new();
    let mut surfaces: u64 = 0;
    let mut k: usize = 0;
    while k < subjects.len()
        invariant
            k <= subjects@.len(),
            subjects@.len() == labels@.len(),
            sc == db_scan(ls),
            sc.groups.len() == subjects@.len(),
            forall|q: int| 0 <= q < subjects@.len() ==> (#[trigger] sc.groups[q]).0 == subjects@[q]@
                && sc.groups[q].1 == strings_view(labels@[q]@),
            forall|x: Seq<char>| #[trigger] abstracts@.contains_key(x) <==> sc.abstracts.contains(x),
            subjects_view(out@) == scan_subjects(sc).take(k as int),
            surfaces as nat == label_total(sc.groups.take(k as int)),
            label_total(sc.groups) == sc.labels,
            sc.labels <= u64::MAX,
        decreases subjects@.len() - k,
    {
        let has = abstracts.contains_key(subjects[k].as_str());
        let ghost before = out@;
        proof {
            assert(sc.groups.take(k + 1).drop_last() =~= sc.groups.take(k as int));
            lemma_label_total_prefix(sc.groups, k + 1);
        }
        surfaces = surfaces + labels[k].len() as u64;
        out.push((subjects[k].clone(), labels[k].clone(), has));
        proof {
            assert(subjects_view(out@) =~= subjects_view(before).push((subjects@[k as int]@, strings_view(labels@[k as int]@), has)));
            assert(scan_subjects(sc).take(k + 1) =~= scan_subjects(sc).take(k as int).push(scan_subjects(sc)[k as int]));
        }
        k += 1;
    }
    proof {
        assert(scan_subjects(sc).take(k as int) =~= scan_subjects(sc));
        assert(sc.groups.take(k as int) =~= sc.groups);
    }
    (out, DBpediaStats { triples_processed: triples, labels_found, abstracts_found, surfaces_added: surfaces })
}

proof fn lemma_label_total_prefix(groups: Seq<(Seq<char>, Seq<Seq<char>>)>, n: int)
    requires
        0 <= n <= groups.len(),
    ensures
        label_total(groups.take(n)) <= label_total(groups),
    decreases groups.len(),
{
    if n < groups.len() {
        assert(groups.drop_last().take(n) =~= groups.take(n));
        lemma_label_total_prefix(groups.drop_last(), n);
    } else {
        assert(groups.take(n) =~= groups);
    }
}

proof fn lemma_found_group(groups: Seq<(Seq<char>, Seq<Seq<char>>)>, s: Seq<char>)
    ensures
        find_group(groups, s) matches Some(i) ==> 0 <= i < groups.len() && groups[i].0 == s,
    decreases groups.len(),
{
    if groups.len() > 0 {
        lemma_found_group(groups.drop_last(), s);
    }
}

/// A Japanese-language triple whose predicate ends in `name` or in `label`
/// counts as a triple and as a label, and its object becomes the latest
/// label of its subject.
pub proof fn law_japanese_name_or_label_triple(st: DbScan, raw: Seq<char>, s: Seq<char>, p: Seq<char>, o: Seq<char>)
    requires
        trim(raw).len() > 0,
        trim(raw)[0] != '#',
        ntriple_spec(trim(raw)) == Some((s, p, o, Some(seq!['j', 'a']))),
        (p.len() >= 4 && p.skip(p.len() - 4) == seq!['n', 'a', 'm', 'e'])
            || (p.len() >= 5 && p.skip(p.len() - 5) == seq!['l', 'a', 'b', 'e', 'l']),
    ensures
        db_step(st, raw).triples == st.triples + 1,
        db_step(st, raw).labels == st.labels + 1,
        exists|g: int| 0 <= g < db_step(st, raw).groups.len() && (#[trigger] db_step(st, raw).groups[g]).0 == s
            && db_step(st, raw).groups[g].1.last() == o,
{
    reveal_strlit("ja");
    assert(seq!['j', 'a'] =~= "ja"@);
    if p.len() >= 4 && p.skip(p.len() - 4) == seq!['n', 'a', 'm', 'e'] {
        assert(p.skip(p.len() - 4)[0] == p[p.len() - 4]);
        assert(p.skip(p.len() - 4)[1] == p[p.len() - 3]);
        assert(p.skip(p.len() - 4)[2] == p[p.len() - 2]);
        assert(p.skip(p.len() - 4)[3] == p[p.len() - 1]);
    } else {
        assert(p.skip(p.len() - 5)[0] == p[p.len() - 5]);
        assert(p.skip(p.len() - 5)[1] == p[p.len() - 4]);
        assert(p.skip(p.len() - 5)[2] == p[p.len() - 3]);
        assert(p.skip(p.len() - 5)[3] == p[p.len() - 2]);
        assert(p.skip(p.len() - 5)[4] == p[p.len() - 1]);
    }
    law_name_and_label_suffixes_are_labels(p);
    assert(label_predicate(p));
    lemma_found_group(st.groups, s);
    let gs = db_step(st, raw).groups;
    assert(gs == add_label(st.groups, s, o));
    match find_group(st.groups, s) {
        Some(i) => {
            assert(gs[i].0 == s && gs[i].1.last() == o);
        },
        None => {
            assert(gs[gs.len() - 1].0 == s && gs[gs.len() - 1].1.last() == o);
        },
    }
}

/// A triple whose object is not tagged `@ja` adds no label and no
/// abstract; it only counts as a triple.
pub proof fn law_other_languages_add_nothing(st: DbScan, raw: Seq<char>, s: Seq<char>, p: Seq<char>, o: Seq<char>, lang: Option<Seq<char>>)
    requires
        trim(raw).len() > 0,
        trim(raw)[0] != '#',
        ntriple_spec(trim(raw)) == Some((s, p, o, lang)),
        lang != Some(seq!['j', 'a']),
    ensures
        db_step(st, raw).triples == st.triples + 1,
        db_step(st, raw).labels == st.labels,
        db_step(st, raw).groups == st.groups,
        db_step(st, raw).abstracts == st.abstracts,
{
    reveal_strlit("ja");
    assert(seq!['j', 'a'] =~= "ja"@);
}

/// Blank lines and `#` comments change nothing.
pub proof fn law_blank_and_comment_lines(st: DbScan, raw: Seq<char>)
    requires
        trim(raw).len() == 0 || trim(raw)[0] == '#',
    ensures
        db_step(st, raw) == st,
{
}

} // verus!
