use cosmic_ctl::paths::{
    get_configuration_path, get_cosmic_configurations, has_json_extension,
    parse_configuration_path, relative_config_path,
};

fn parsed(c: &str, v: u64, e: &str) -> Option<(String, u64, String)> {
    Some((c.to_string(), v, e.to_string()))
}

#[test]
fn parse_absolute_entry_path() {
    assert_eq!(
        parse_configuration_path("/home/user/.config/cosmic/com.system76.CosmicComp/v1/autotile"),
        parsed("com.system76.CosmicComp", 1, "autotile")
    );
}

#[test]
fn parse_needs_four_components() {
    assert_eq!(parse_configuration_path("comp/v1/entry"), None);
    assert_eq!(parse_configuration_path("x/comp/v1/entry"), parsed("comp", 1, "entry"));
    assert_eq!(parse_configuration_path(""), None);
}

#[test]
fn parse_rejects_bad_versions() {
    assert_eq!(parse_configuration_path("/c/comp/x1/entry"), None);
    assert_eq!(parse_configuration_path("/c/comp/v/entry"), None);
    assert_eq!(parse_configuration_path("/c/comp/v-1/entry"), None);
    assert_eq!(parse_configuration_path("/c/comp/v1a/entry"), None);
    assert_eq!(parse_configuration_path("/c/comp/v18446744073709551616/entry"), None);
    assert_eq!(
        parse_configuration_path("/c/comp/v18446744073709551615/entry"),
        parsed("comp", u64::MAX, "entry")
    );
    assert_eq!(parse_configuration_path("/c/comp/v+7/entry"), parsed("comp", 7, "entry"));
    assert_eq!(parse_configuration_path("/c/comp/v007/entry"), parsed("comp", 7, "entry"));
}

#[test]
fn parse_follows_path_components() {
    // repeated and trailing separators and `.` pieces are not components
    assert_eq!(parse_configuration_path("/c//comp/./v2/entry/"), parsed("comp", 2, "entry"));
    // a leading `.` is a component of its own
    assert_eq!(parse_configuration_path("./comp/v3/entry"), parsed("comp", 3, "entry"));
    // `..` is a component
    assert_eq!(parse_configuration_path("/c/../v4/entry"), parsed("..", 4, "entry"));
    // the root counts as a component
    assert_eq!(parse_configuration_path("/comp/v5/entry"), parsed("comp", 5, "entry"));
}

#[test]
fn configuration_path_joins_components() {
    assert_eq!(
        get_configuration_path("/home/user/.config/cosmic", "com.system76.CosmicComp", &1, "autotile"),
        "/home/user/.config/cosmic/com.system76.CosmicComp/v1/autotile"
    );
    assert_eq!(get_configuration_path("/base/", "comp", &20, "e"), "/base/comp/v20/e");
    assert_eq!(get_configuration_path("", "comp", &0, "e"), "comp/v0/e");
    // an absolute component replaces the directory, as PathBuf::push does
    assert_eq!(get_configuration_path("/base", "/abs", &3, "e"), "/abs/v3/e");
    assert_eq!(get_configuration_path("/base", "comp", &3, ""), "/base/comp/v3/");
}

#[test]
fn configuration_path_roundtrip() {
    let base = "/home/user/.config/cosmic";
    for (c, v, e) in [("com.system76.CosmicTk", 1u64, "is_dark"), ("..", 0, "x.y"), ("a b", 12345, "z")] {
        let p = get_configuration_path(base, c, &v, e);
        assert_eq!(parse_configuration_path(&p), parsed(c, v, e));
    }
}

#[test]
fn cosmic_directory_from_environment() {
    assert_eq!(get_cosmic_configurations(Some("/xdg".to_string()), None), "/xdg/cosmic");
    assert_eq!(
        get_cosmic_configurations(Some("/xdg/".to_string()), Some("/home/u".to_string())),
        "/xdg/cosmic"
    );
    assert_eq!(
        get_cosmic_configurations(None, Some("/home/u".to_string())),
        "/home/u/.config/cosmic"
    );
    assert_eq!(get_cosmic_configurations(Some(String::new()), None), "cosmic");
}

#[test]
fn relative_entry_path() {
    assert_eq!(relative_config_path("com.system76.CosmicComp", &1, "autotile"), "com.system76.CosmicComp/v1/autotile");
    assert_eq!(relative_config_path("c", &42, "e"), "c/v42/e");
}

#[test]
fn json_extension() {
    assert!(has_json_extension("backup.json"));
    assert!(has_json_extension("/tmp/dir/backup.json"));
    assert!(has_json_extension("a.b.json"));
    assert!(has_json_extension("backup.json/"));
    assert!(!has_json_extension(".json"));
    assert!(!has_json_extension("/tmp/.json"));
    assert!(!has_json_extension("backup.JSON"));
    assert!(!has_json_extension("backup.jsonx"));
    assert!(!has_json_extension("backup"));
    assert!(!has_json_extension("backup.json/.."));
    assert!(!has_json_extension("/"));
    assert!(!has_json_extension(""));
}
