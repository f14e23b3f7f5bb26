use fssearch::strutil::{
    chars_to_string, contains_chars, lower_char_exec, lower_vec, split_chars, starts_with_chars,
    str_chars,
};

fn chars(s: &str) -> Vec<char> {
    s.chars().collect()
}

#[test]
fn round_trip_between_string_and_chars() {
    let v = str_chars("héllo/wörld");
    assert_eq!(chars_to_string(&v), "héllo/wörld");
    let empty = str_chars("");
    assert_eq!(chars_to_string(&empty), "");
}

#[test]
fn ascii_lowercase_folds_only_ascii_letters() {
    assert_eq!(lower_char_exec('A'), 'a');
    assert_eq!(lower_char_exec('Z'), 'z');
    assert_eq!(lower_char_exec('a'), 'a');
    assert_eq!(lower_char_exec('0'), '0');
    assert_eq!(lower_char_exec('É'), 'É');
    assert_eq!(chars_to_string(&lower_vec(&chars("GiT-2"))), "git-2");
}

#[test]
fn prefix_test_compares_leading_characters() {
    assert!(starts_with_chars(&chars("gitignore"), &chars("git")));
    assert!(starts_with_chars(&chars("git"), &chars("")));
    assert!(!starts_with_chars(&chars("gi"), &chars("git")));
    assert!(!starts_with_chars(&chars("agit"), &chars("git")));
}

#[test]
fn substring_test_finds_runs_anywhere() {
    assert!(contains_chars(&chars("a/node_modules/b"), &chars("node_modules")));
    assert!(contains_chars(&chars("abc"), &chars("")));
    assert!(!contains_chars(&chars("node_module"), &chars("node_modules")));
}

#[test]
fn split_separates_on_every_separator() {
    let pieces: Vec<String> = split_chars(&chars("a/b//c"), '/')
        .iter()
        .map(|p| chars_to_string(p))
        .collect();
    assert_eq!(pieces, vec!["a", "b", "", "c"]);
    let single: Vec<String> = split_chars(&chars("abc"), '/')
        .iter()
        .map(|p| chars_to_string(p))
        .collect();
    assert_eq!(single, vec!["abc"]);
}
