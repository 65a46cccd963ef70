use mecrab_builder::dict_paths::{join_path, standard_dict_paths};

#[test]
fn test_standard_dict_paths_min_count() {
    let paths = standard_dict_paths(Some("/home/user"));
    assert!(paths.len() >= 3, "expected at least 3 standard dict paths, got {}", paths.len());
}

#[test]
fn test_standard_dict_paths_look_reasonable() {
    let paths = standard_dict_paths(Some("/home/user"));
    for s in &paths {
        assert!(
            s.contains("mecab") || s.contains("dic") || s.contains("ipadic"),
            "unexpected dict path: {s}"
        );
    }
}

#[test]
fn test_standard_dict_paths_absolute_or_home() {
    let paths = standard_dict_paths(Some("/home/user"));
    for p in &paths {
        assert!(p.starts_with('/'), "expected absolute path, got: {}", p);
    }
}

#[test]
fn standard_dict_paths_home_first() {
    let paths = standard_dict_paths(Some("/home/user/"));
    assert_eq!(paths[0], "/home/user/dic/ipadic");
    assert_eq!(paths[1], "/home/user/.mecab/dic/ipadic");
    assert_eq!(paths[2], "/home/user/.local/share/mecab/dic/ipadic-utf8");
    assert_eq!(paths.len(), 8);
    let no_home = standard_dict_paths(None);
    assert_eq!(no_home.len(), 5);
    assert_eq!(no_home[0], "/usr/local/lib/mecab/dic/ipadic-utf8");
    assert_eq!(no_home[4], "/opt/homebrew/lib/mecab/dic/ipadic-utf8");
}

#[test]
fn join_paths_like_path_join() {
    assert_eq!(join_path("/a", "b"), "/a/b");
    assert_eq!(join_path("/a/", "b"), "/a/b");
    assert_eq!(join_path("", "b"), "b");
}
