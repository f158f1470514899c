use better_spotlight::config::{
    parse_or_fallback, parse_shortcut, resolve_shortcut, shortcut_label, shortcut_value, ConfigFile,
    SHORTCUT_ENV,
};

#[test]
fn reads_key_value_and_plain_shortcut_formats() {
    assert_eq!(
        shortcut_value("shortcut = super+shift+Space").as_deref(),
        Some("super+shift+Space")
    );
    assert_eq!(shortcut_value("# comment\nalt+Space").as_deref(), Some("alt+Space"));
}

#[test]
fn requires_a_modifier_and_formats_mac_label() {
    assert!(parse_shortcut("Space").is_err());
    let hotkey = parse_shortcut("super+shift+KeyK").unwrap();
    assert_eq!(shortcut_label(&hotkey), "⇧⌘K");
}

#[test]
fn other_keys_and_blank_files_give_no_value() {
    assert_eq!(shortcut_value("theme = dark\n\n   \n"), None);
    assert_eq!(shortcut_value(""), None);
    assert_eq!(shortcut_value("theme = dark\r\nshortcut=ctrl+KeyA\r\n").as_deref(), Some("ctrl+KeyA"));
}

#[test]
fn labels_space_and_non_letter_keys() {
    assert_eq!(shortcut_label(&parse_shortcut("control+alt+Space").unwrap()), "⌃⌥Space");
    assert_eq!(shortcut_label(&parse_shortcut("super+Digit1").unwrap()), "⌘Key");
}

#[test]
fn refused_modifier_less_shortcut_says_why() {
    assert_eq!(parse_shortcut("Space").err().as_deref(), Some("include at least one modifier"));
}

#[test]
fn invalid_shortcut_falls_back_with_a_warning() {
    let config = parse_or_fallback("KeyK", "the file");
    assert_eq!(config.label, "⌘Space");
    assert_eq!(
        config.warning.as_deref(),
        Some("Invalid shortcut in the file (include at least one modifier). Using ⌘Space.")
    );
    let config = parse_or_fallback("alt+KeyK", "the file");
    assert_eq!(config.label, "⌥K");
    assert_eq!(config.warning, None);
}

#[test]
fn environment_value_wins_over_the_file() {
    let config = resolve_shortcut(
        Some("shift+KeyQ".to_string()),
        ConfigFile::Contents { path: "/c".to_string(), text: "alt+Space".to_string() },
    );
    assert_eq!(config.label, "⇧Q");
    let config = resolve_shortcut(Some("Q".to_string()), ConfigFile::Missing);
    assert_eq!(
        config.warning,
        Some(format!("Invalid shortcut in {SHORTCUT_ENV} (include at least one modifier). Using ⌘Space."))
    );
}

#[test]
fn file_outcomes_give_their_warnings() {
    let config = resolve_shortcut(None, ConfigFile::Missing);
    assert_eq!(config.label, "⌘Space");
    assert_eq!(config.warning, None);
    let config = resolve_shortcut(None, ConfigFile::NoPath);
    assert_eq!(config.warning.as_deref(), Some("Could not resolve the shortcut config path."));
    let config = resolve_shortcut(
        None,
        ConfigFile::Unreadable { path: "/c".to_string(), error: "denied".to_string() },
    );
    assert_eq!(config.warning.as_deref(), Some("Could not read /c (denied). Using ⌘Space."));
    let config = resolve_shortcut(
        None,
        ConfigFile::Contents { path: "/c".to_string(), text: "# nothing".to_string() },
    );
    assert_eq!(config.warning.as_deref(), Some("No shortcut entry in /c. Using ⌘Space."));
    let config = resolve_shortcut(
        None,
        ConfigFile::Contents { path: "/c".to_string(), text: "shortcut = alt+Space".to_string() },
    );
    assert_eq!(config.label, "⌥Space");
    assert_eq!(config.warning, None);
}

#[test]
fn resolved_hotkey_is_the_one_parsed() {
    let default = resolve_shortcut(None, ConfigFile::Missing);
    assert_eq!(default.shortcut.hotkey, "super+Space".parse::<global_hotkey::hotkey::HotKey>().unwrap());
    let from_env = resolve_shortcut(Some("alt+KeyJ".to_string()), ConfigFile::Missing);
    assert_eq!(from_env.shortcut.hotkey, "alt+KeyJ".parse::<global_hotkey::hotkey::HotKey>().unwrap());
    assert_eq!(from_env.label, "⌥J");
}
