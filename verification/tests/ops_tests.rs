use findme::ops::match_op;

#[test]
fn full_names_resolve_to_themselves() {
    assert_eq!(match_op("newest-modified"), Some("newest-modified"));
    assert_eq!(match_op("newest-created"), Some("newest-created"));
    assert_eq!(match_op("newest-accessed"), Some("newest-accessed"));
    assert_eq!(match_op("oldest-modified"), Some("oldest-modified"));
    assert_eq!(match_op("oldest-created"), Some("oldest-created"));
    assert_eq!(match_op("oldest-accessed"), Some("oldest-accessed"));
    assert_eq!(match_op("largest"), Some("largest"));
    assert_eq!(match_op("smallest"), Some("smallest"));
}

#[test]
fn unique_prefixes_resolve() {
    assert_eq!(match_op("la"), Some("largest"));
    assert_eq!(match_op("sm"), Some("smallest"));
    assert_eq!(match_op("newest-m"), Some("newest-modified"));
    assert_eq!(match_op("oldest-a"), Some("oldest-accessed"));
}

#[test]
fn matching_ignores_ascii_case() {
    assert_eq!(match_op("LA"), Some("largest"));
    assert_eq!(match_op("Newest-Mo"), Some("newest-modified"));
    assert_eq!(match_op("SMALLEST"), Some("smallest"));
}

#[test]
fn ambiguous_prefixes_resolve_to_nothing() {
    assert_eq!(match_op("ne"), None);
    assert_eq!(match_op("newest-"), None);
    assert_eq!(match_op("old"), None);
}

#[test]
fn single_characters_are_refused_for_user_safety() {
    assert_eq!(match_op("l"), None);
    assert_eq!(match_op("s"), None);
    assert_eq!(match_op(""), None);
}

#[test]
fn unknown_names_resolve_to_nothing() {
    assert_eq!(match_op("xx"), None);
    assert_eq!(match_op("largesty"), None);
    assert_eq!(match_op("largest-and-then-some"), None);
}
