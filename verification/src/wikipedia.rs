//! Wikipedia abstract dumps: the line-based reading of `<doc>` blocks and
//! the decisions taken for each article (skipped as a disambiguation page,
//! skipped as a stub, or indexed under its title and its kana reading).

use vstd::prelude::*;
use crate::lsp_text::{has_prefix, starts_with};
use crate::ntriples::{contains, contains_sub};
use crate::ontology::{find_sub, find_text};
use crate::scan::{find_char, find_first, lemma_find_first, trim, trim_bounds};
use crate::text::{chars_of, string_of_range, strings_view};

verus! {

/// The title without a leading `"Wikipedia: "`, or else `"Wikipedia:"`.
pub open spec fn stripped_title(t: Seq<char>) -> Seq<char> {
    if has_prefix(t, "Wikipedia: "@) {
        t.skip(11)
    } else if has_prefix(t, "Wikipedia:"@) {
        t.skip(10)
    } else {
        t
    }
}

/// Strip the "Wikipedia: " prefix from a title (see [`stripped_title`]).
pub fn strip_wikipedia_prefix(title: &str) -> (r: String)
    ensures
        r@ == stripped_title(title@),
{
    let cs = chars_of(title);
    proof {
        reveal_strlit("Wikipedia: ");
        reveal_strlit("Wikipedia:");
    }
    if starts_with(cs.as_slice(), "Wikipedia: ") {
        string_of_range(cs.as_slice(), 11, cs.len())
    } else if starts_with(cs.as_slice(), "Wikipedia:") {
        string_of_range(cs.as_slice(), 10, cs.len())
    } else {
        proof {
            assert(cs@.subrange(0, cs@.len() as int) =~= title@);
        }
        string_of_range(cs.as_slice(), 0, cs.len())
    }
}

/// The text between the first `<tag>` of a line and the first `</tag>`
/// after it.
pub open spec fn xml_text(line: Seq<char>, tag: Seq<char>) -> Option<Seq<char>> {
    let open = seq!['<'] + tag + seq!['>'];
    let close = seq!['<', '/'] + tag + seq!['>'];
    match find_sub(line, open, 0) {
        None => None,
        Some(m) => match find_sub(line, close, m + open.len()) {
            None => None,
            Some(e) => Some(line.subrange(m + open.len(), e)),
        },
    }
}

/// Extract the text of a simple one-line XML element (see [`xml_text`]).
pub fn extract_xml_text(line: &str, tag: &str) -> (r: Option<String>)
    ensures
        match xml_text(line@, tag@) {
            Some(t) => r matches Some(s) && s@ == t,
            None => r is None,
        },
{
    let cs = chars_of(line);
    let tc = chars_of(tag);
    let mut open: Vec<char> = Vec::new();
    open.push('<');
    let mut close: Vec<char> = Vec::new();
    close.push('<');
    close.push('/');
    let mut i: usize = 0;
    while i < tc.len()
        invariant
            i <= tc@.len(),
            open@ == seq!['<'] + tc@.take(i as int),
            close@ == seq!['<', '/'] + tc@.take(i as int),
        decreases tc@.len() - i,
    {
        open.push(tc[i]);
        close.push(tc[i]);
        proof {
            assert(tc@.take(i + 1) =~= tc@.take(i as int).push(tc@[i as int]));
            assert(open@ =~= seq!['<'] + tc@.take(i + 1));
            assert(close@ =~= seq!['<', '/'] + tc@.take(i + 1));
        }
        i += 1;
    }
    open.push('>');
    close.push('>');
    proof {
        assert(tc@.take(i as int) =~= tag@);
        assert(open@ =~= seq!['<'] + tag@ + seq!['>']);
        assert(close@ =~= seq!['<', '/'] + tag@ + seq!['>']);
    }
    let m = match find_text(cs.as_slice(), open.as_slice(), 0) {
        Some(m) => m,
        None => return None,
    };
    assert(m + open@.len() <= cs@.len());
    assert(cs@.len() == cs.len());
    let start = m + open.len();
    let e = match find_text(cs.as_slice(), close.as_slice(), start) {
        Some(e) => e,
        None => return None,
    };
    proof {
        lemma_find_sub_from(cs@, close@, start as int);
    }
    Some(string_of_range(cs.as_slice(), start, e))
}

proof fn lemma_find_sub_from(s: Seq<char>, p: Seq<char>, i: int)
    ensures
        find_sub(s, p, i) matches Some(j) ==> i <= j && j + p.len() <= s.len(),
    decreases s.len() + 1 - i,
{
    if !(i < 0 || i + p.len() > s.len()) && s.subrange(i, i + p.len()) != p {
        lemma_find_sub_from(s, p, i + 1);
    }
}

/// The text inside the first full-width parentheses `（…）`.
pub open spec fn parenthetical(t: Seq<char>) -> Option<Seq<char>> {
    match find_first(t, '（') {
        None => None,
        Some(o) => {
            let rest = t.skip(o + 1);
            match find_first(rest, '）') {
                None => None,
                Some(c) => Some(rest.take(c)),
            }
        },
    }
}

/// Extract the first parenthetical reading of a text (see [`parenthetical`]).
pub fn extract_parenthetical_reading(text: &str) -> (r: Option<String>)
    ensures
        match parenthetical(text@) {
            Some(t) => r matches Some(s) && s@ == t,
            None => r is None,
        },
{
    let cs = chars_of(text);
    let n = cs.len();
    proof {
        assert(cs@.subrange(0, n as int) =~= text@);
        lemma_find_first(text@, '（');
    }
    let o = match find_char(cs.as_slice(), 0, n, '（') {
        Some(o) => o,
        None => return None,
    };
    let ghost rest = text@.skip(o + 1);
    proof {
        assert(rest =~= cs@.subrange(o + 1, n as int));
        lemma_find_first(rest, '）');
    }
    match find_char(cs.as_slice(), o + 1, n, '）') {
        Some(c) => {
            proof {
                assert(rest.take(c - (o + 1)) =~= cs@.subrange(o + 1, c as int));
            }
            Some(string_of_range(cs.as_slice(), o + 1, c))
        },
        None => None,
    }
}

/// Hiragana (U+3041–U+3096) or katakana (U+30A0–U+30FF).
pub open spec fn kana(c: char) -> bool {
    (0x3041 <= c as u32 <= 0x3096) || (0x30A0 <= c as u32 <= 0x30FF)
}

/// Whether `s` is non-empty and made of kana only.
pub fn is_kana(s: &str) -> (r: bool)
    ensures
        r == (s@.len() > 0 && forall|i: int| 0 <= i < s@.len() ==> kana(#[trigger] s@[i])),
{
    let cs = chars_of(s);
    if cs.len() == 0 {
        return false;
    }
    let mut i: usize = 0;
    while i < cs.len()
        invariant
            i <= cs@.len(),
            cs@ == s@,
            forall|j: int| 0 <= j < i ==> kana(#[trigger] cs@[j]),
        decreases cs@.len() - i,
    {
        let v = cs[i] as u32;
        if !((0x3041 <= v && v <= 0x3096) || (0x30A0 <= v && v <= 0x30FF)) {
            return false;
        }
        i += 1;
    }
    true
}

/// The state of reading a dump: the finished articles (title, url,
/// abstract), the fields of the current `<doc>`, and whether one is open.
pub struct DumpState {
    pub articles: Seq<(Seq<char>, Seq<char>, Seq<char>)>,
    pub title: Seq<char>,
    pub url: Seq<char>,
    pub abstract_text: Seq<char>,
    pub in_doc: bool,
}

/// What one line does to the state: `<doc>` opens a document with empty
/// fields, `</doc>` closes it and keeps it when it has a title and a url,
/// and inside a document a `title`, `url` or `abstract` element sets that
/// field (the first of them that the line holds).
pub open spec fn dump_step(st: DumpState, raw: Seq<char>) -> DumpState {
    let t = trim(raw);
    if t == "<doc>"@ {
        DumpState { articles: st.articles, title: Seq::empty(), url: Seq::empty(), abstract_text: Seq::empty(), in_doc: true }
    } else if t == "</doc>"@ {
        DumpState {
            articles: if st.in_doc && st.title.len() > 0 && st.url.len() > 0 {
                st.articles.push((st.title, st.url, st.abstract_text))
            } else {
                st.articles
            },
            in_doc: false,
            ..st
        }
    } else if st.in_doc {
        match xml_text(t, "title"@) {
            Some(c) => DumpState { title: c, ..st },
            None => match xml_text(t, "url"@) {
                Some(c) => DumpState { url: c, ..st },
                None => match xml_text(t, "abstract"@) {
                    Some(c) => DumpState { abstract_text: c, ..st },
                    None => st,
                },
            },
        }
    } else {
        st
    }
}

/// The state after reading `lines`.
pub open spec fn dump_state(lines: Seq<Seq<char>>) -> DumpState
    decreases lines.len(),
{
    if lines.len() == 0 {
        DumpState { articles: Seq::empty(), title: Seq::empty(), url: Seq::empty(), abstract_text: Seq::empty(), in_doc: false }
    } else {
        dump_step(dump_state(lines.drop_last()), lines.last())
    }
}

/// The view of a list of articles.
pub open spec fn articles_view(v: Seq<(String, String, String)>) -> Seq<(Seq<char>, Seq<char>, Seq<char>)> {
    v.map_values(|a: (String, String, String)| (a.0@, a.1@, a.2@))
}

/// Whether `s` holds exactly the characters `t`.
fn text_is(cs: &[char], lo: usize, hi: usize, t: &str) -> (r: bool)
    requires
        lo <= hi <= cs@.len(),
    ensures
        r == (cs@.subrange(lo as int, hi as int) == t@),
{
    let tc = chars_of(t);
    if hi - lo != tc.len() {
        return false;
    }
    let mut i: usize = 0;
    while i < tc.len()
        invariant
            i <= tc@.len(),
            hi - lo == tc@.len(),
            hi <= cs@.len(),
            tc@ == t@,
            forall|j: int| 0 <= j < i ==> cs@[lo + j] == tc@[j],
        decreases tc@.len() - i,
    {
        if cs[lo + i] != tc[i] {
            assert(cs@.subrange(lo as int, hi as int)[i as int] != t@[i as int]);
            return false;
        }
        i += 1;
    }
    assert(cs@.subrange(lo as int, hi as int) =~= t@);
    true
}

/// Read the articles of a dump given as its lines: each `<doc>` block with
/// a title and a url becomes (title, url, abstract) (see [`dump_step`]).
pub fn parse_articles(lines: &Vec<String>) -> (r: Vec<(String, String, String)>)
    ensures
        articles_view(r@) == dump_state(strings_view(lines@)).articles,
{
    let ghost ls = strings_view(lines@);
    let mut articles: Vec<(String, String, String)> = Vec::new();
    let mut title = String::new();
    let mut url = String::new();
    let mut abstract_text = String::new();
    let mut in_doc = false;
    let mut i: usize = 0;
    proof {
        assert(ls.take(0) =~= Seq::<Seq<char>>::empty());
        assert(articles_view(articles@) =~= Seq::<(Seq<char>, Seq<char>, Seq<char>)>::empty());
    }
    while i < lines.len()
        invariant
            i <= ls.len(),
            ls == strings_view(lines@),
            dump_state(ls.take(i as int)) == (DumpState {
                articles: articles_view(articles@),
                title: title@,
                url: url@,
                abstract_text: abstract_text@,
                in_doc,
            }),
        decreases ls.len() - i,
    {
        let cs = chars_of(lines[i].as_str());
        let (a, b) = trim_bounds(cs.as_slice(), 0, cs.len());
        let trimmed = string_of_range(cs.as_slice(), a, b);
        let ghost before = dump_state(ls.take(i as int));
        proof {
            assert(ls.take(i + 1).drop_last() =~= ls.take(i as int));
            assert(cs@.subrange(0, cs@.len() as int) =~= ls[i as int]);
            assert(trimmed@ == trim(ls[i as int]));
            reveal_strlit("<doc>");
            reveal_strlit("</doc>");
            reveal_strlit("title");
            reveal_strlit("url");
            reveal_strlit("abstract");
        }
        if text_is(cs.as_slice(), a, b, "<doc>") {
            in_doc = true;
            title = String::new();
            url = String::new();
            abstract_text = String::new();
        } else if text_is(cs.as_slice(), a, b, "</doc>") {
            if in_doc && title.as_str().unicode_len() > 0 && url.as_str().unicode_len() > 0 {
                let ghost old_articles = articles@;
                articles.push((title.clone(), url.clone(), abstract_text.clone()));
                proof {
                    assert(articles_view(articles@) =~= articles_view(old_articles).push((title@, url@, abstract_text@)));
                }
            }
            in_doc = false;
        } else if in_doc {
            match extract_xml_text(trimmed.as_str(), "title") {
                Some(c) => {
                    title = c;
                },
                None => match extract_xml_text(trimmed.as_str(), "url") {
                    Some(c) => {
                        url = c;
                    },
                    None => match extract_xml_text(trimmed.as_str(), "abstract") {
                        Some(c) => {
                            abstract_text = c;
                        },
                        None => {},
                    },
                },
            }
        }
        proof {
            assert(dump_state(ls.take(i + 1)) == dump_step(before, ls[i as int]));
        }
        i += 1;
    }
    proof {
        assert(ls.take(i as int) =~= ls);
    }
    articles
}

/// What a dump article contributes to the index.
#[derive(Debug, Clone, PartialEq, Eq)]
pub enum ArticleOutcome {
    /// A disambiguation page, skipped.
    Disambiguation,
    /// A stub (short abstract) or a title that strips to nothing, skipped.
    NoAbstract,
    /// Indexed under its stripped title, and under its kana reading when
    /// the abstract gives one in full-width parentheses.
    Surfaces { surface: String, reading: Option<String> },
}

/// The marker of disambiguation pages.
pub open spec fn disambiguation_mark() -> Seq<char> {
    "曖昧さ回避"@
}

/// What the article `(title, abstract)` contributes: disambiguation pages
/// are skipped unless included, abstracts shorter than `min_chars`
/// characters and titles that strip to nothing are skipped, and otherwise
/// the stripped title is a surface, with the parenthetical reading when it
/// is all kana.
pub open spec fn article_outcome(title: Seq<char>, abs: Seq<char>, min_chars: nat, include_disambiguation: bool) -> (
    bool,
    bool,
    Seq<char>,
    Option<Seq<char>>,
) {
    if !include_disambiguation && (contains_sub(title, disambiguation_mark()) || contains_sub(abs, disambiguation_mark())
        || contains_sub(abs, "disambiguation"@)) {
        (true, false, Seq::empty(), None)
    } else if abs.len() < min_chars || stripped_title(title).len() == 0 {
        (false, true, Seq::empty(), None)
    } else {
        (false, false, stripped_title(title), match parenthetical(abs) {
            Some(r) => if r.len() > 0 && forall|i: int| 0 <= i < r.len() ==> kana(#[trigger] r[i]) {
                Some(r)
            } else {
                None
            },
            None => None,
        })
    }
}

/// The view of an outcome: (disambiguation, no abstract, surface, reading).
pub open spec fn outcome_view(o: ArticleOutcome) -> (bool, bool, Seq<char>, Option<Seq<char>>) {
    match o {
        ArticleOutcome::Disambiguation => (true, false, Seq::empty(), None),
        ArticleOutcome::NoAbstract => (false, true, Seq::empty(), None),
        ArticleOutcome::Surfaces { surface, reading } => (false, false, surface@, match reading {
            Some(r) => Some(r@),
            None => None,
        }),
    }
}

/// Decide what an article contributes (see [`article_outcome`]).
pub fn classify_article(title: &str, abstract_text: &str, min_abstract_chars: usize, include_disambiguation: bool) -> (r: ArticleOutcome)
    ensures
        outcome_view(r) == article_outcome(title@, abstract_text@, min_abstract_chars as nat, include_disambiguation),
{
    let tc = chars_of(title);
    let ac = chars_of(abstract_text);
    proof {
        reveal_strlit("曖昧さ回避");
    }
    if !include_disambiguation && (contains(tc.as_slice(), "曖昧さ回避") || contains(ac.as_slice(), "曖昧さ回避")
        || contains(ac.as_slice(), "disambiguation")) {
        return ArticleOutcome::Disambiguation;
    }
    let surface = strip_wikipedia_prefix(title);
    if ac.len() < min_abstract_chars || surface.as_str().unicode_len() == 0 {
        return ArticleOutcome::NoAbstract;
    }
    let reading = match extract_parenthetical_reading(abstract_text) {
        Some(r) => if is_kana(r.as_str()) {
            Some(r)
        } else {
            None
        },
        None => None,
    };
    ArticleOutcome::Surfaces { surface, reading }
}

/// Counts of an abstract dump's articles.
#[derive(Debug, Clone)]
pub struct WikipediaStats {
    /// Articles read from the dump.
    pub articles_processed: u64,
    /// Surface entries produced (titles and readings).
    pub surfaces_added: u64,
    /// Disambiguation pages skipped.
    pub skipped_disambiguation: u64,
    /// Stubs and titles that strip to nothing, skipped.
    pub skipped_no_abstract: u64,
}

/// The entries the outcomes `outs` give, in order, each as (article index,
/// surface, whether it is a reading), with the numbers of disambiguation
/// pages and stubs skipped.
pub open spec fn article_entries(outs: Seq<(bool, bool, Seq<char>, Option<Seq<char>>)>) -> (Seq<(int, Seq<char>, bool)>, nat, nat)
    decreases outs.len(),
{
    if outs.len() == 0 {
        (Seq::empty(), 0, 0)
    } else {
        let (es, d, n) = article_entries(outs.drop_last());
        let o = outs.last();
        let k = outs.len() - 1;
        if o.0 {
            (es, d + 1, n)
        } else if o.1 {
            (es, d, n + 1)
        } else {
            (es.push((k, o.2, false)) + match o.3 {
                Some(r) => seq![(k, r, true)],
                None => Seq::empty(),
            }, d, n)
        }
    }
}

/// The outcomes of the articles `(title, url, abstract)`.
pub open spec fn article_outcomes(articles: Seq<(String, String, String)>, min_chars: nat, include_disambiguation: bool) -> Seq<(bool, bool, Seq<char>, Option<Seq<char>>)> {
    articles.map_values(|a: (String, String, String)| article_outcome(a.0@, a.2@, min_chars, include_disambiguation))
}

/// The view of produced entries.
pub open spec fn article_entries_view(v: Seq<(usize, String, bool)>) -> Seq<(int, Seq<char>, bool)> {
    v.map_values(|e: (usize, String, bool)| (e.0 as int, e.1@, e.2))
}

proof fn lemma_article_entries_bound(outs: Seq<(bool, bool, Seq<char>, Option<Seq<char>>)>)
    ensures
        article_entries(outs).1 + article_entries(outs).2 <= outs.len(),
        article_entries(outs).0.len() <= 2 * outs.len(),
    decreases outs.len(),
{
    if outs.len() > 0 {
        lemma_article_entries_bound(outs.drop_last());
    }
}

/// Classify every article of a dump (see [`classify_article`]): the
/// surfaces to index, each with the index of its article and whether it is
/// the kana reading, and the counts of articles, surfaces and skipped pages.
pub fn tally_articles(articles: &Vec<(String, String, String)>, min_abstract_chars: usize, include_disambiguation: bool) -> (r: (
    Vec<(usize, String, bool)>,
    WikipediaStats,
))
    ensures
        ({
            let (es, d, n) = article_entries(article_outcomes(articles@, min_abstract_chars as nat, include_disambiguation));
            &&& article_entries_view(r.0@) == es
            &&& r.1.articles_processed == articles@.len()
            &&& r.1.surfaces_added == es.len()
            &&& r.1.skipped_disambiguation == d
            &&& r.1.skipped_no_abstract == n
        }),
{
    let ghost outs = article_outcomes(articles@, min_abstract_chars as nat, include_disambiguation);
    let mut entries: Vec<(usize, String, bool)> = Vec::new();
    let mut disamb: u64 = 0;
    let mut stubs: u64 = 0;
    let mut i: usize = 0;
    while i < articles.len()
        invariant
            i <= articles@.len(),
            outs == article_outcomes(articles@, min_abstract_chars as nat, include_disambiguation),
            article_entries_view(entries@) == article_entries(outs.take(i as int)).0,
            disamb == article_entries(outs.take(i as int)).1,
            stubs == article_entries(outs.take(i as int)).2,
        decreases articles@.len() - i,
    {
        proof {
            assert(outs.take(i + 1).drop_last() =~= outs.take(i as int));
            lemma_article_entries_bound(outs.take(i as int));
        }
        let (title, _url, abstract_text) = &articles[i];
        let outcome = classify_article(title.as_str(), abstract_text.as_str(), min_abstract_chars, include_disambiguation);
        proof {
            assert(outs.take(i + 1).last() == outs[i as int]);
        }
        match outcome {
            ArticleOutcome::Disambiguation => {
                disamb = disamb + 1;
            },
            ArticleOutcome::NoAbstract => {
                stubs = stubs + 1;
            },
            ArticleOutcome::Surfaces { surface, reading } => {
                let ghost before = entries@;
                entries.push((i, surface, false));
                match reading {
                    Some(r) => {
                        entries.push((i, r, true));
                    },
                    None => {},
                }
                proof {
                    let k = i as int;
                    let tail = match outs[k].3 {
                        Some(r) => seq![(k, r, true)],
                        None => Seq::<(int, Seq<char>, bool)>::empty(),
                    };
                    assert(article_entries_view(entries@) =~= article_entries_view(before).push((k, outs[k].2, false)) + tail);
                }
            },
        }
        i = i + 1;
    }
    proof {
        assert(outs.take(articles@.len() as int) =~= outs);
        lemma_article_entries_bound(outs);
    }
    let stats = WikipediaStats {
        articles_processed: articles.len() as u64,
        surfaces_added: entries.len() as u64,
        skipped_disambiguation: disamb,
        skipped_no_abstract: stubs,
    };
    (entries, stats)
}

/// The kana are exactly the hiragana U+3041..=U+3096 and the whole
/// Katakana block U+30A0..=U+30FF, the middle dot ・ U+30FB, the
/// prolonged sound mark ー U+30FC and the iteration marks ヽヾヿ included.
pub proof fn law_kana_blocks(c: char)
    ensures
        kana(c) == ({
            let v = c as u32;
            (v >= 0x3041 && v <= 0x3096) || (v >= 0x30A0 && v <= 0x30FF)
        }),
        kana('ー') && kana('・') && kana('ヽ') && kana('ヿ') && kana('ぁ') && kana('ゖ') && kana('゠'),
        !kana('一') && !kana('a') && !kana('ｱ') && !kana('ゟ'),
{
}

/// An indexed article's reading is its parenthetical exactly when that is
/// non-empty and every character is hiragana (U+3041..=U+3096) or in the
/// Katakana block (U+30A0..=U+30FF); otherwise it has none.
pub proof fn law_reading_is_an_all_kana_parenthetical(
    title: Seq<char>,
    abs: Seq<char>,
    min_chars: nat,
    include_disambiguation: bool,
    r: Seq<char>,
)
    requires
        !article_outcome(title, abs, min_chars, include_disambiguation).0,
        !article_outcome(title, abs, min_chars, include_disambiguation).1,
        parenthetical(abs) == Some(r),
    ensures
        article_outcome(title, abs, min_chars, include_disambiguation).3 == (if r.len() > 0 && forall|i: int|
            0 <= i < r.len() ==> {
                let v = #[trigger] r[i] as u32;
                (v >= 0x3041 && v <= 0x3096) || (v >= 0x30A0 && v <= 0x30FF)
            } {
            Some(r)
        } else {
            None
        }),
{
    assert forall|i: int| 0 <= i < r.len() implies kana(#[trigger] r[i]) == ({
        let v = r[i] as u32;
        (v >= 0x3041 && v <= 0x3096) || (v >= 0x30A0 && v <= 0x30FF)
    }) by {
        law_kana_blocks(r[i]);
    }
}

/// Unless disambiguation pages are included, an article whose title holds
/// 曖昧さ回避 (at `i`) is a disambiguation page: it gives no surface and no
/// reading, whatever its abstract.
pub proof fn law_disambiguation_title_gives_nothing(title: Seq<char>, abs: Seq<char>, min_chars: nat, i: int)
    requires
        0 <= i && i + 5 <= title.len(),
        title[i] == '曖' && title[i + 1] == '昧' && title[i + 2] == 'さ' && title[i + 3] == '回' && title[i + 4] == '避',
    ensures
        article_outcome(title, abs, min_chars, false) == (true, false, Seq::<char>::empty(), None::<Seq<char>>),
{
    reveal_strlit("曖昧さ回避");
    assert(title.subrange(i, i + 5) =~= disambiguation_mark());
    assert(contains_sub(title, disambiguation_mark()));
}

/// Unless disambiguation pages are included, an article whose abstract
/// holds 曖昧さ回避 (at `i`) is a disambiguation page, whatever its title.
pub proof fn law_disambiguation_abstract_gives_nothing(title: Seq<char>, abs: Seq<char>, min_chars: nat, i: int)
    requires
        0 <= i && i + 5 <= abs.len(),
        abs[i] == '曖' && abs[i + 1] == '昧' && abs[i + 2] == 'さ' && abs[i + 3] == '回' && abs[i + 4] == '避',
    ensures
        article_outcome(title, abs, min_chars, false) == (true, false, Seq::<char>::empty(), None::<Seq<char>>),
{
    reveal_strlit("曖昧さ回避");
    assert(abs.subrange(i, i + 5) =~= disambiguation_mark());
    assert(contains_sub(abs, disambiguation_mark()));
}

/// Unless disambiguation pages are included, an article whose abstract
/// holds the word "disambiguation" (at `i`) is a disambiguation page.
pub proof fn law_disambiguation_word_gives_nothing(title: Seq<char>, abs: Seq<char>, min_chars: nat, i: int)
    requires
        0 <= i && i + 14 <= abs.len(),
        abs.subrange(i, i + 14) == seq!['d', 'i', 's', 'a', 'm', 'b', 'i', 'g', 'u', 'a', 't', 'i', 'o', 'n'],
    ensures
        article_outcome(title, abs, min_chars, false) == (true, false, Seq::<char>::empty(), None::<Seq<char>>),
{
    reveal_strlit("disambiguation");
    assert(abs.subrange(i, i + 14) =~= "disambiguation"@);
    assert(contains_sub(abs, "disambiguation"@));
}

/// With disambiguation pages included, no article is classified as one.
pub proof fn law_included_pages_are_not_skipped_as_disambiguation(title: Seq<char>, abs: Seq<char>, min_chars: nat)
    ensures
        !article_outcome(title, abs, min_chars, true).0,
{
}

/// The reading candidate of an abstract is the text between its first
/// full-width opening parenthesis （ and the first ）after it.
pub proof fn law_parenthetical_is_the_first_full_width_group(x: Seq<char>, r: Seq<char>, y: Seq<char>)
    requires
        forall|i: int| 0 <= i < x.len() ==> x[i] != '（',
        forall|i: int| 0 <= i < r.len() ==> r[i] != '）',
    ensures
        parenthetical(x + seq!['（'] + r + seq!['）'] + y) == Some(r),
{
    let s = x + seq!['（'] + r + seq!['）'] + y;
    lemma_find_first(s, '（');
    assert(s[x.len() as int] == '（');
    match find_first(s, '（') {
        Some(o) => {
            if o < x.len() {
                assert(s[o] == x[o]);
            }
            assert(o == x.len());
            let rest = s.skip(o + 1);
            assert(rest =~= r + seq!['）'] + y);
            lemma_find_first(rest, '）');
            assert(rest[r.len() as int] == '）');
            match find_first(rest, '）') {
                Some(c) => {
                    if c < r.len() {
                        assert(rest[c] == r[c]);
                    }
                    assert(c == r.len());
                    assert(rest.take(c) =~= r);
                },
                None => {},
            }
        },
        None => {},
    }
}

/// An abstract without a full-width （ gives no reading candidate.
pub proof fn law_no_parenthesis_no_reading(t: Seq<char>)
    requires
        forall|i: int| 0 <= i < t.len() ==> t[i] != '（',
    ensures
        parenthetical(t) is None,
{
    lemma_find_first(t, '（');
}

/// A title's surface drops a leading "Wikipedia: " (or "Wikipedia:"
/// without the space) and keeps everything else; other titles are kept
/// whole.
pub proof fn law_title_prefix_is_dropped(t: Seq<char>)
    ensures
        stripped_title(seq!['W', 'i', 'k', 'i', 'p', 'e', 'd', 'i', 'a', ':', ' '] + t) == t,
        !(t.len() > 0 && t[0] == ' ') ==> stripped_title(seq!['W', 'i', 'k', 'i', 'p', 'e', 'd', 'i', 'a', ':'] + t) == t,
        !(t.len() >= 10 && t.take(10) == seq!['W', 'i', 'k', 'i', 'p', 'e', 'd', 'i', 'a', ':']) ==> stripped_title(t) == t,
{
    reveal_strlit("Wikipedia: ");
    reveal_strlit("Wikipedia:");
    let a = seq!['W', 'i', 'k', 'i', 'p', 'e', 'd', 'i', 'a', ':', ' '] + t;
    assert(a.take(11) =~= "Wikipedia: "@);
    assert(a.skip(11) =~= t);
    let b = seq!['W', 'i', 'k', 'i', 'p', 'e', 'd', 'i', 'a', ':'] + t;
    assert(b.take(10) =~= "Wikipedia:"@);
    assert(b.skip(10) =~= t);
    if !(t.len() > 0 && t[0] == ' ') && b.len() >= 11 {
        assert(b[10] == t[0]);
        assert(b.take(11) != "Wikipedia: "@) by {
            assert("Wikipedia: "@[10] == ' ');
        }
    }
    if !(t.len() >= 10 && t.take(10) == seq!['W', 'i', 'k', 'i', 'p', 'e', 'd', 'i', 'a', ':']) {
        if t.len() >= 11 && t.take(11) == "Wikipedia: "@ {
            assert(t.take(10) =~= t.take(11).take(10));
            assert(t.take(10) =~= seq!['W', 'i', 'k', 'i', 'p', 'e', 'd', 'i', 'a', ':']);
        }
        if t.len() >= 10 && t.take(10) == "Wikipedia:"@ {
            assert(t.take(10) =~= seq!['W', 'i', 'k', 'i', 'p', 'e', 'd', 'i', 'a', ':']);
        }
    }
}

/// An article that is no disambiguation page is skipped as a stub exactly
/// when its abstract has fewer than `min_chars` characters or its title
/// strips to nothing; otherwise its surface is the stripped title.
pub proof fn law_stubs_and_surfaces(title: Seq<char>, abs: Seq<char>, min_chars: nat, include_disambiguation: bool)
    requires
        !article_outcome(title, abs, min_chars, include_disambiguation).0,
    ensures
        article_outcome(title, abs, min_chars, include_disambiguation).1 == (abs.len() < min_chars || stripped_title(title).len() == 0),
        !article_outcome(title, abs, min_chars, include_disambiguation).1
            ==> article_outcome(title, abs, min_chars, include_disambiguation).2 == stripped_title(title)
                && stripped_title(title).len() > 0,
{
}

} // verus!
