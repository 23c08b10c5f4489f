use cosmic_ctl::config::{
    confirms_reset, entry_does_not_exist_message, entry_not_found_message, needs_write,
    reset_summary, unescape_configuration_value, unescape_failure_message,
};

#[test]
fn unescape_resolves_escapes() {
    assert_eq!(unescape_configuration_value("a\\nb"), Ok("a\nb".to_string()));
    assert_eq!(unescape_configuration_value("true"), Ok("true".to_string()));
    assert_eq!(unescape_configuration_value("\\u{41}\\x42\\101"), Ok("ABA".to_string()));
    assert_eq!(unescape_configuration_value("say \\\"hi\\\""), Ok("say \"hi\"".to_string()));
}

#[test]
fn unescape_reports_bad_escapes() {
    let e = unescape_configuration_value("bad \\q").unwrap_err();
    assert!(e.starts_with("Failed to unescape value: "), "{}", e);
    let e = unescape_configuration_value("trailing\\").unwrap_err();
    assert!(e.starts_with("Failed to unescape value: "), "{}", e);
}

#[test]
fn write_only_when_value_differs() {
    let v = "true".to_string();
    assert!(!needs_write(&Some("true".to_string()), &v));
    assert!(needs_write(&Some("false".to_string()), &v));
    assert!(needs_write(&None, &v));
    assert!(needs_write(&Some("true\n".to_string()), &v));
}

#[test]
fn not_found_messages() {
    assert_eq!(
        entry_not_found_message("com.system76.CosmicComp", &1, "autotile"),
        "Configuration entry not found: com.system76.CosmicComp/v1/autotile"
    );
    assert_eq!(entry_does_not_exist_message(), "Configuration entry does not exist");
}

#[test]
fn reset_confirmation() {
    assert!(confirms_reset("y\n"));
    assert!(confirms_reset("  Y  "));
    assert!(!confirms_reset("yes\n"));
    assert!(!confirms_reset("\n"));
    assert!(!confirms_reset("n"));
    assert!(!confirms_reset("yy"));
}

#[test]
fn reset_summaries() {
    assert_eq!(reset_summary(3, 0), "Successfully deleted 3 configuration entries.");
    assert_eq!(reset_summary(0, 2), "Deleted 0 configuration entries with 2 errors:");
}

#[test]
fn unescape_failure_text() {
    assert_eq!(unescape_failure_message("bad"), "Failed to unescape value: bad");
}
