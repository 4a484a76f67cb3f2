use corrosionwm::config::{CorrosionConfig, Defaults, Keybind, SpecialKey, keys_to_keycodes};

#[test]
fn test_keybind() {
    let keybind: Keybind = Keybind::from("M-x | kitty");
    assert_eq!(keybind.keys, vec!["x"]);
    assert_eq!(keybind.command, "kitty");
    assert_eq!(keybind.special_key, Some(SpecialKey::ModKey));
}

#[test]
fn test_multi_keybind() {
    let keybind: Keybind = Keybind::from("M-x-y | kitty");
    assert_eq!(keybind.keys, vec!["x", "y"]);
    assert_eq!(keybind.command, "kitty");
    assert_eq!(keybind.special_key, Some(SpecialKey::ModKey));
}

#[test]
fn test_special_key_detection() {
    let keybind: Keybind = Keybind::from("M-x | kitty");
    assert_eq!(keybind.special_key, Some(SpecialKey::ModKey));
    let keybind: Keybind = Keybind::from("S-x | kitty");
    assert_eq!(keybind.special_key, Some(SpecialKey::ShiftKey));
    let keybind: Keybind = Keybind::from("C-x | kitty");
    assert_eq!(keybind.special_key, Some(SpecialKey::ControlKey));
    let keybind: Keybind = Keybind::from("A-x | kitty");
    assert_eq!(keybind.special_key, Some(SpecialKey::AltKey));
}

#[test]
fn test_keycodes() {
    let keycodes = keys_to_keycodes(vec!["x".to_string()]);
    assert_eq!(keycodes, vec![88]);

    let keycodes = keys_to_keycodes(vec!["x".to_string(), "y".to_string()]);
    assert_eq!(keycodes, vec![88, 89]);

    let keybind: Keybind = Keybind::from("M-x | kitty");
    let keycodes = keys_to_keycodes(keybind.keys);
    assert_eq!(keycodes, vec![88]);
}

#[test]
fn test_unknown_special_key() {
    let keybind: Keybind = Keybind::from("Z-x | foot");
    assert_eq!(keybind.special_key, None);
    assert_eq!(keybind.keys, vec!["x"]);
    assert_eq!(keybind.command, "foot");
}

#[test]
fn test_command_keeps_later_separators() {
    // Only the first " | " splits; the command keeps the rest verbatim.
    let keybind: Keybind = Keybind::from("M-x | kitty | extra");
    assert_eq!(keybind.keys, vec!["x"]);
    assert_eq!(keybind.command, "kitty | extra");
}

#[test]
fn test_keybind_without_plain_keys() {
    let keybind: Keybind = Keybind::from("M | kitty");
    assert_eq!(keybind.special_key, Some(SpecialKey::ModKey));
    assert!(keybind.keys.is_empty());
    assert_eq!(keybind.command, "kitty");
}

#[test]
fn test_keycodes_trim_and_case() {
    // Keys are trimmed and ASCII-uppercased before their bytes are summed.
    let keycodes = keys_to_keycodes(vec![" x ".to_string(), "X".to_string()]);
    assert_eq!(keycodes, vec![88, 88]);
}

#[test]
fn test_keycodes_multibyte() {
    // A non-ASCII key sums every byte of its UTF-8 encoding: 0xC3 + 0xB1.
    let keycodes = keys_to_keycodes(vec!["\u{f1}".to_string()]);
    assert_eq!(keycodes, vec![0xC3 + 0xB1]);
}

#[test]
fn test_keycodes_whitespace_only_key() {
    let keycodes = keys_to_keycodes(vec!["   ".to_string()]);
    assert_eq!(keycodes, vec![0]);
}

#[test]
fn test_default_config() {
    let config = CorrosionConfig::default();
    let defaults = config.get_defaults();
    assert_eq!(defaults.terminal, "kitty");
    assert_eq!(defaults.launcher, "wofi --show drun");
}

#[test]
fn test_config_from_defaults() {
    let config = CorrosionConfig::from_defaults(Defaults {
        terminal: "foot".to_string(),
        launcher: "fuzzel".to_string(),
    });
    assert_eq!(config.get_defaults().terminal, "foot");
    assert_eq!(config.get_defaults().launcher, "fuzzel");
}
