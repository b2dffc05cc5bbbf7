use fzfpj::expand::{expand_path, replace_all};

#[test]
fn expands_home_token() {
    assert_eq!(expand_path("$home/projects", "/home/u"), "/home/u/projects");
}

#[test]
fn expands_tilde() {
    assert_eq!(expand_path("~/x", "/home/u"), "/home/u/x");
}

#[test]
fn expands_every_occurrence() {
    assert_eq!(expand_path("$home:~:$home", "/h"), "/h:/h:/h");
}

#[test]
fn leaves_plain_paths_alone() {
    assert_eq!(expand_path("C:/data/projects", "/home/u"), "C:/data/projects");
}

#[test]
fn empty_home_erases_placeholders() {
    assert_eq!(expand_path("~/x", ""), "/x");
}

#[test]
fn token_replacement_runs_before_tilde() {
    assert_eq!(expand_path("$homex", "~"), "~x");
}

#[test]
fn replace_all_is_non_overlapping_left_to_right() {
    assert_eq!(replace_all("aaa", "aa", "b"), "ba");
    assert_eq!(replace_all("abcabc", "bc", "x"), "axax");
    assert_eq!(replace_all("abc", "zz", "x"), "abc");
}
