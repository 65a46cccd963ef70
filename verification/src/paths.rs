//! File-name tests on paths given as text (`/`-separated).

use vstd::prelude::*;
use crate::lsp_text::split_all;
use crate::ntriples::{contains_sub, has_suffix, contains, ends_with};
use crate::text::{chars_of, string_of_range};

verus! {

/// The parts that are neither empty nor `.`.
pub open spec fn normal_parts(parts: Seq<Seq<char>>) -> Seq<Seq<char>>
    decreases parts.len(),
{
    if parts.len() == 0 {
        Seq::empty()
    } else if parts.last().len() > 0 && parts.last() != seq!['.'] {
        normal_parts(parts.drop_last()).push(parts.last())
    } else {
        normal_parts(parts.drop_last())
    }
}

/// The normal components of a path: its `/`-separated parts without empty
/// parts and `.`.
#[verifier::opaque]
pub open spec fn path_parts(p: Seq<char>) -> Seq<Seq<char>> {
    normal_parts(split_all(p, '/'))
}

/// The last of the normal components, unless there is none or it is `..`.
pub open spec fn last_name(parts: Seq<Seq<char>>) -> Option<Seq<char>> {
    if parts.len() == 0 || parts.last() == seq!['.', '.'] {
        None
    } else {
        Some(parts.last())
    }
}

/// `Path::file_name`: the last component, unless there is none or it is `..`.
pub open spec fn file_name(p: Seq<char>) -> Option<Seq<char>> {
    last_name(path_parts(p))
}

/// Index of the last `.` in `s`, if any.
pub open spec fn last_dot(s: Seq<char>) -> Option<int>
    decreases s.len(),
{
    if s.len() == 0 {
        None
    } else if s.last() == '.' {
        Some(s.len() - 1)
    } else {
        last_dot(s.drop_last())
    }
}

/// `Path::extension`: the text after the last `.` of the file name, unless
/// that dot starts the name.
pub open spec fn extension(p: Seq<char>) -> Option<Seq<char>> {
    match file_name(p) {
        None => None,
        Some(n) => match last_dot(n) {
            Some(i) => if i == 0 { None } else { Some(n.skip(i + 1)) },
            None => None,
        },
    }
}

proof fn lemma_last_dot_at(s: Seq<char>, k: int)
    requires
        -1 <= k < s.len(),
        k >= 0 ==> s[k] == '.',
        forall|j: int| k < j < s.len() ==> s[j] != '.',
    ensures
        k >= 0 ==> last_dot(s) == Some(k),
        k < 0 ==> last_dot(s) is None,
    decreases s.len(),
{
    if s.len() > 0 && s.len() - 1 != k {
        lemma_last_dot_at(s.drop_last(), k);
    }
}

proof fn lemma_normal_parts_step(all: Seq<Seq<char>>, k: int)
    requires
        0 <= k < all.len(),
    ensures
        normal_parts(all.take(k + 1)) == (if all[k].len() > 0 && all[k] != seq!['.'] {
            normal_parts(all.take(k)).push(all[k])
        } else {
            normal_parts(all.take(k))
        }),
{
    assert(all.take(k + 1).drop_last() =~= all.take(k));
    assert(all.take(k + 1).last() == all[k]);
}

/// The file name of a path given as text (see [`file_name`]).
pub fn path_file_name(path: &str) -> (r: Option<String>)
    ensures
        match file_name(path@) {
            Some(n) => r matches Some(s) && s@ == n,
            None => r is None,
        },
{
    let cs = chars_of(path);
    let fields = crate::lsp_text::split_bounds_pub(cs.as_slice(), 0, cs.len(), '/');
    proof {
        assert(cs@.subrange(0, cs@.len() as int) =~= path@);
    }
    let ghost all = split_all(path@, '/');
    let ghost mut np: Seq<Seq<char>> = Seq::empty();
    let mut found: Option<(usize, usize)> = None;
    let mut k: usize = 0;
    proof {
        assert(all.take(0) =~= Seq::<Seq<char>>::empty());
    }
    while k < fields.len()
        invariant
            k <= fields@.len(),
            fields@.len() == all.len(),
            all == split_all(path@, '/'),
            cs@ == path@,
            forall|t: int| 0 <= t < fields@.len() ==> (#[trigger] fields@[t]).0 <= fields@[t].1 <= cs@.len()
                && cs@.subrange(fields@[t].0 as int, fields@[t].1 as int) == all[t],
            np == normal_parts(all.take(k as int)),
            found is None <==> np.len() == 0,
            found matches Some((a, b)) ==> a <= b <= cs@.len() && cs@.subrange(a as int, b as int) == np.last(),
        decreases fields@.len() - k,
    {
        let (a, b) = fields[k];
        let is_dot = b - a == 1 && cs[a] == '.';
        proof {
            lemma_normal_parts_step(all, k as int);
            assert(cs@.subrange(a as int, b as int) == all[k as int]);
            if b - a == 1 {
                assert(all[k as int] =~= seq![cs@[a as int]]);
            }
            if all[k as int] == seq!['.'] {
                assert(all[k as int][0] == cs@[a as int]);
            }
        }
        if b > a && !is_dot {
            found = Some((a, b));
            proof {
                np = np.push(all[k as int]);
            }
        }
        k += 1;
    }
    proof {
        assert(all.take(k as int) =~= all);
        assert(path_parts(path@) == np) by {
            reveal(path_parts);
        }
    }
    match found {
        Some((a, b)) => {
            if b - a == 2 && cs[a] == '.' && cs[a + 1] == '.' {
                assert(cs@.subrange(a as int, b as int) =~= seq!['.', '.']);
                None
            } else {
                proof {
                    if cs@.subrange(a as int, b as int) == seq!['.', '.'] {
                        assert(cs@.subrange(a as int, b as int)[0] == '.');
                        assert(cs@.subrange(a as int, b as int)[1] == '.');
                    }
                }
                Some(string_of_range(cs.as_slice(), a, b))
            }
        },
        None => None,
    }
}

/// The extension of a path given as text (see [`extension`]).
pub fn path_extension(path: &str) -> (r: Option<String>)
    ensures
        match extension(path@) {
            Some(e) => r matches Some(s) && s@ == e,
            None => r is None,
        },
{
    match path_file_name(path) {
        None => None,
        Some(name) => {
            let cs = chars_of(name.as_str());
            let mut i: usize = cs.len();
            while i > 0 && cs[i - 1] != '.'
                invariant
                    i <= cs@.len(),
                    forall|j: int| i <= j < cs@.len() ==> cs@[j] != '.',
                decreases i,
            {
                i -= 1;
            }
            proof {
                lemma_last_dot_at(cs@, i - 1);
            }
            if i <= 1 {
                None
            } else {
                proof {
                    assert(cs@.skip(i as int) =~= cs@.subrange(i as int, cs@.len() as int));
                }
                Some(string_of_range(cs.as_slice(), i, cs.len()))
            }
        },
    }
}

/// A Wikidata dump: a file name mentioning `wikidata`, ending in `.json.gz`
/// or `.json`.
pub open spec fn wikidata_dump(path: Seq<char>) -> bool {
    let name = match file_name(path) { Some(n) => n, None => Seq::empty() };
    contains_sub(name, "wikidata"@) && (has_suffix(name, ".json.gz"@) || has_suffix(name, ".json"@))
}

/// A Wikipedia dump: a file name mentioning `wikipedia` or `abstract`.
pub open spec fn wikipedia_dump(path: Seq<char>) -> bool {
    let name = match file_name(path) { Some(n) => n, None => Seq::empty() };
    contains_sub(name, "wikipedia"@) || contains_sub(name, "abstract"@)
}

/// The characters of the file name of `path`, empty without one.
fn name_chars(path: &str) -> (r: Vec<char>)
    ensures
        r@ == match file_name(path@) { Some(n) => n, None => Seq::empty() },
{
    match path_file_name(path) {
        Some(n) => chars_of(n.as_str()),
        None => Vec::new(),
    }
}

/// Check if a path looks like a Wikidata dump (see [`wikidata_dump`]).
pub fn is_wikidata_dump(path: &str) -> (r: bool)
    ensures
        r == wikidata_dump(path@),
{
    let n = name_chars(path);
    contains(n.as_slice(), "wikidata") && (ends_with(n.as_slice(), ".json.gz") || ends_with(n.as_slice(), ".json"))
}

/// Check if a path looks like a Wikipedia dump (see [`wikipedia_dump`]).
pub fn is_wikipedia_dump(path: &str) -> (r: bool)
    ensures
        r == wikipedia_dump(path@),
{
    let n = name_chars(path);
    contains(n.as_slice(), "wikipedia") || contains(n.as_slice(), "abstract")
}

} // verus!
