use cosmic_ctl::exclude::{
    build_exclude_patterns, complete_exclude_pattern, expansions_or_item, invalid_pattern_message,
    is_excluded, is_expandable, item_patterns, unexpanded_pattern_message,
};

#[test]
fn completes_patterns_by_slash_count() {
    assert_eq!(complete_exclude_pattern("com.system76.CosmicComp"), "com.system76.CosmicComp/**");
    assert_eq!(complete_exclude_pattern("comp/v1"), "comp/v1/*");
    assert_eq!(complete_exclude_pattern("comp/v1/entry"), "comp/v1/entry");
    assert_eq!(complete_exclude_pattern("a/b/c/d"), "a/b/c/d");
}

#[test]
fn expands_braces_then_completes() {
    assert_eq!(
        item_patterns(&"com.{a,b}".to_string()),
        Some(vec!["com.a/**".to_string(), "com.b/**".to_string()])
    );
    assert_eq!(item_patterns(&"plain".to_string()), Some(vec!["plain/**".to_string()]));
    assert_eq!(
        item_patterns(&"x/v{1..2}".to_string()),
        Some(vec!["x/v1/*".to_string(), "x/v2/*".to_string()])
    );
}

#[test]
fn exclusion_matches_entry_paths() {
    let (patterns, errors) = build_exclude_patterns(Some("com.system76.CosmicComp,com.system76.CosmicTk/v1/is_*".to_string()));
    assert!(errors.is_empty());
    assert_eq!(patterns.len(), 2);
    assert!(is_excluded(&patterns, "com.system76.CosmicComp/v1/autotile"));
    assert!(is_excluded(&patterns, "com.system76.CosmicTk/v1/is_dark"));
    assert!(!is_excluded(&patterns, "com.system76.CosmicTk/v1/accent"));
    assert!(!is_excluded(&patterns, "com.system76.CosmicPanel/v1/size"));
}

#[test]
fn exclusion_with_braces_in_list() {
    let (patterns, errors) = build_exclude_patterns(Some("com.{a,b}/v1, c".to_string()));
    assert!(errors.is_empty());
    assert_eq!(patterns.len(), 3);
    assert!(is_excluded(&patterns, "com.a/v1/x"));
    assert!(is_excluded(&patterns, "com.b/v1/y"));
    assert!(!is_excluded(&patterns, "com.a/v2/x"));
    assert!(is_excluded(&patterns, "c/v9/z"));
}

#[test]
fn no_exclusions() {
    let (patterns, errors) = build_exclude_patterns(None);
    assert!(patterns.is_empty() && errors.is_empty());
    assert!(!is_excluded(&patterns, "a/v1/b"));
}

#[test]
fn invalid_patterns_are_reported() {
    let (patterns, errors) = build_exclude_patterns(Some("a/[,b".to_string()));
    assert_eq!(patterns.len(), 1);
    assert_eq!(errors.len(), 1);
    assert!(errors[0].starts_with("Invalid pattern 'a/[/*': Pattern syntax error near position "), "{}", errors[0]);
    assert!(is_excluded(&patterns, "b/v1/c"));
}

#[test]
fn expansion_falls_back_to_item() {
    let item = "a{b".to_string();
    assert_eq!(expansions_or_item(&item, None), vec!["a{b".to_string()]);
    assert_eq!(
        expansions_or_item(&item, Some(vec!["x".to_string(), "y".to_string()])),
        vec!["x".to_string(), "y".to_string()]
    );
    // where bracoxide reports an error the item is used as it stands
    assert_eq!(item_patterns(&"a{b".to_string()), Some(vec!["a{b/**".to_string()]));
    assert_eq!(item_patterns(&"}{".to_string()), Some(vec!["}{/**".to_string()]));
    assert_eq!(item_patterns(&"a\\{b,c}".to_string()), Some(vec!["a\\{b,c}/**".to_string()]));
}

#[test]
fn invalid_pattern_message_text() {
    assert_eq!(invalid_pattern_message("a/[", "oops"), "Invalid pattern 'a/[': oops");
    assert_eq!(unexpanded_pattern_message("é{a,b}"), "Braces in pattern 'é{a,b}' cannot be expanded");
}

#[test]
fn expansion_gate() {
    assert!(is_expandable("com.{a,b}/v{1..2}"));
    assert!(is_expandable("plain"));
    assert!(is_expandable("{é,b}"));
    assert!(is_expandable("com.{Café,Bar}"));
    assert!(is_expandable("\\x{b,c}"));
    assert!(is_expandable("a{b"));
    assert!(is_expandable("}{"));
    assert!(is_expandable("{a}}"));
    assert!(is_expandable("a\\{b,c}"));
    assert!(!is_expandable("é{a,b}"));
    assert!(!is_expandable("é}"));
    assert!(!is_expandable("{a}{"));
    assert!(!is_expandable("{a,}{"));
}

#[test]
fn multibyte_items_expand() {
    assert_eq!(
        item_patterns(&"{é,b}".to_string()),
        Some(vec!["é/**".to_string(), "b/**".to_string()])
    );
    assert_eq!(
        item_patterns(&"com.{Café,Bar}/v1".to_string()),
        Some(vec!["com.Café/v1/*".to_string(), "com.Bar/v1/*".to_string()])
    );
    assert_eq!(
        item_patterns(&"\\x{b,c}".to_string()),
        Some(vec!["xb/**".to_string(), "xc/**".to_string()])
    );
    let (patterns, errors) = build_exclude_patterns(Some("com.{Café,Bar}/v1".to_string()));
    assert!(errors.is_empty());
    assert!(is_excluded(&patterns, "com.Café/v1/a"));
    assert!(is_excluded(&patterns, "com.Bar/v1/b"));
    assert!(!is_excluded(&patterns, "com.Café/v2/a"));
}

#[test]
fn unexpandable_items_are_reported() {
    assert_eq!(item_patterns(&"é{a,b}".to_string()), None);
    assert_eq!(item_patterns(&"{a}{".to_string()), None);
    let (patterns, errors) = build_exclude_patterns(Some("é{a,b},x".to_string()));
    assert_eq!(patterns.len(), 1);
    assert!(is_excluded(&patterns, "x/v1/y"));
    assert_eq!(errors, vec!["Braces in pattern 'é{a,b}' cannot be expanded".to_string()]);
    let (patterns, errors) = build_exclude_patterns(Some("a/[,x,{a,}{".to_string()));
    assert_eq!(patterns.len(), 1);
    assert_eq!(errors.len(), 2);
    assert!(errors[0].starts_with("Invalid pattern 'a/[/*': "), "{}", errors[0]);
    assert_eq!(errors[1], "Braces in pattern '{a,}{' cannot be expanded");
}
