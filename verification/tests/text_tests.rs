use cryptography_sandbox::text::{find_space, split_on_spaces, trim_on_spaces};

#[test]
fn test_find_space_positions() {
    assert_eq!(find_space("ab cd"), Some(2));
    assert_eq!(find_space(" ab"), Some(0));
    assert_eq!(find_space("abcd"), None);
    assert_eq!(find_space(""), None);
}

#[test]
fn test_split_on_spaces_tokens() {
    let toks = split_on_spaces("12 345 6");
    assert_eq!(toks, vec!["12", "345", "6"]);
    let single = split_on_spaces("1234");
    assert_eq!(single, vec!["1234"]);
    let with_empty = split_on_spaces("a  b");
    assert_eq!(with_empty, vec!["a", "", "b"]);
}

#[test]
fn test_trim_on_spaces_edges() {
    assert_eq!(trim_on_spaces("  abc  "), "abc");
    assert_eq!(trim_on_spaces("abc"), "abc");
    assert_eq!(trim_on_spaces("   "), "");
    assert_eq!(trim_on_spaces("a b "), "a b");
}
