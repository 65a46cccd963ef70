//! Joining path components, and the directories searched for a
//! dictionary.

use vstd::prelude::*;
use vstd::string::StringExecFns;
use crate::text::chars_of;

verus! {

/// `Path::join` of a relative component: a `/` is put between unless the
/// base is empty or already ends with one.
pub open spec fn path_join(p: Seq<char>, c: Seq<char>) -> Seq<char> {
    if p.len() == 0 || p.last() == '/' {
        p + c
    } else {
        p + seq!['/'] + c
    }
}

/// Join a relative component `c` to `p` (see [`path_join`]).
pub fn join_path(p: &str, c: &str) -> (r: String)
    ensures
        r@ == path_join(p@, c@),
{
    let pc = chars_of(p);
    let mut r = String::from_str(p);
    if pc.len() > 0 && pc[pc.len() - 1] != '/' {
        r.append("/");
        proof {
            reveal_strlit("/");
        }
    }
    r.append(c);
    proof {
        if pc@.len() > 0 {
            assert(p@.last() == pc@[pc@.len() - 1]);
        }
    }
    r
}

/// The directories searched for an IPADIC dictionary: three under the
/// home directory when it is known, then five system-wide ones.
pub open spec fn standard_dict_paths_spec(home: Option<Seq<char>>) -> Seq<Seq<char>> {
    let system = seq![
        "/usr/local/lib/mecab/dic/ipadic-utf8"@,
        "/usr/local/lib/mecab/dic/ipadic"@,
        "/usr/lib/mecab/dic/ipadic-utf8"@,
        "/usr/lib/mecab/dic/ipadic"@,
        "/opt/homebrew/lib/mecab/dic/ipadic-utf8"@
    ];
    match home {
        Some(h) => seq![
            path_join(path_join(h, "dic"@), "ipadic"@),
            path_join(path_join(path_join(h, ".mecab"@), "dic"@), "ipadic"@),
            path_join(path_join(path_join(path_join(path_join(h, ".local"@), "share"@), "mecab"@), "dic"@), "ipadic-utf8"@)
        ] + system,
        None => system,
    }
}

/// The directories searched for an IPADIC dictionary, given the home
/// directory (see [`standard_dict_paths_spec`]).
pub fn standard_dict_paths(home: Option<&str>) -> (r: Vec<String>)
    ensures
        r@.map_values(|s: String| s@) == standard_dict_paths_spec(match home {
            Some(h) => Some(h@),
            None => None,
        }),
{
    let mut paths: Vec<String> = Vec::new();
    match home {
        Some(h) => {
            let a = join_path(h, "dic");
            paths.push(join_path(a.as_str(), "ipadic"));
            let b = join_path(h, ".mecab");
            let b2 = join_path(b.as_str(), "dic");
            paths.push(join_path(b2.as_str(), "ipadic"));
            let c = join_path(h, ".local");
            let c2 = join_path(c.as_str(), "share");
            let c3 = join_path(c2.as_str(), "mecab");
            let c4 = join_path(c3.as_str(), "dic");
            paths.push(join_path(c4.as_str(), "ipadic-utf8"));
        },
        None => {},
    }
    paths.push(String::from_str("/usr/local/lib/mecab/dic/ipadic-utf8"));
    paths.push(String::from_str("/usr/local/lib/mecab/dic/ipadic"));
    paths.push(String::from_str("/usr/lib/mecab/dic/ipadic-utf8"));
    paths.push(String::from_str("/usr/lib/mecab/dic/ipadic"));
    paths.push(String::from_str("/opt/homebrew/lib/mecab/dic/ipadic-utf8"));
    proof {
        let h2 = match home {
            Some(h) => Some(h@),
            None => None,
        };
        assert(paths@.map_values(|s: String| s@) =~= standard_dict_paths_spec(h2));
    }
    paths
}

} // verus!
