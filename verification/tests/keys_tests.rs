use blaze_keys::keys::{
    emit_keybinds, get_key_name, get_key_zsh_representation, nu_key_parts, parse_combo,
    serialize_combo, KeyOrLeader, KeybindError,
};
use blaze_keys::yml::Keybind;

#[test]
fn test_parse_combo() {
    assert!(parse_combo("<c-s>glo = git log --oneline").is_err());
    assert!(parse_combo("<C-s>g<a-g>lo = git log --oneline").is_err());
    assert!(parse_combo("test test").is_err());

    parse_combo("<C-s>glo = git log --oneline").unwrap();
    parse_combo("<C-s>g<A-g>lo = git log --oneline").unwrap();
}

#[test]
fn comment_and_empty_lines_define_nothing() {
    assert_eq!(parse_combo("").ok(), Some(None));
    assert_eq!(parse_combo("-- a comment = with equals").ok(), Some(None));
    assert_eq!(parse_combo("   -- indented comment").ok(), Some(None));
    assert_eq!(parse_combo("\t--tabbed").ok(), Some(None));
}

#[test]
fn parse_splits_and_trims() {
    let (combo, command) = parse_combo("  <C-s>gl  =  git log  ").unwrap().unwrap();
    assert_eq!(combo, "<C-s>gl");
    assert_eq!(command, "git log");
}

#[test]
fn parse_round_trips() {
    let line = "  <C-s>g<A-g>lo =   git log --oneline";
    let (combo, command) = parse_combo(line).unwrap().unwrap();
    let line2 = serialize_combo(&combo, &command);
    let (combo2, command2) = parse_combo(&line2).unwrap().unwrap();
    assert_eq!(combo, combo2);
    assert_eq!(command, command2);
}

#[test]
fn parse_rejects_double_equals() {
    assert!(parse_combo("a = b = c").is_err());
}

#[test]
fn parse_accepts_long_modifier_names() {
    let (combo, _) = parse_combo("<Ctrl-s><alt-x>y = cmd").unwrap().unwrap();
    assert_eq!(combo, "<Ctrl-s><alt-x>y");
}

#[test]
fn function_key_names() {
    assert_eq!(get_key_name("F1"), Some("^[OP"));
    assert_eq!(get_key_name("F5"), Some("^[[15~"));
    assert_eq!(get_key_name("F12"), Some("^[[24~"));
    assert_eq!(get_key_name("F13"), None);
}

#[test]
fn zsh_representation() {
    match get_key_zsh_representation("Ctrl-x") {
        Some(KeyOrLeader::Key(k)) => assert_eq!(k, "^x"),
        _ => panic!("expected a key"),
    }
    match get_key_zsh_representation("Alt-p") {
        Some(KeyOrLeader::Key(k)) => assert_eq!(k, "\\ep"),
        _ => panic!("expected a key"),
    }
    match get_key_zsh_representation("A-p") {
        Some(KeyOrLeader::Key(k)) => assert_eq!(k, "\\ep"),
        _ => panic!("expected a key"),
    }
    match get_key_zsh_representation("F2") {
        Some(KeyOrLeader::Key(k)) => assert_eq!(k, "^[OQ"),
        _ => panic!("expected a key"),
    }
    assert!(get_key_zsh_representation("Meta-x").is_none());
}

fn kb(key: &str, command: Option<&str>, zle: Option<&str>, raw: Option<bool>) -> Keybind {
    Keybind {
        key: key.to_string(),
        command: command.map(|s| s.to_string()),
        zle: zle.map(|s| s.to_string()),
        raw,
    }
}

#[test]
fn emit_bindkey_lines() {
    let binds = vec![kb("Ctrl-g", Some("git status"), None, None)];
    let lines = emit_keybinds(&binds, false).unwrap();
    assert_eq!(lines.len(), 1);
    let expected = format!("{:<50}  # <--- {}", "bindkey -s '^g' \"git status^M\"", "Ctrl-g");
    assert_eq!(lines[0], expected);
}

#[test]
fn emit_human_lines() {
    let binds = vec![kb("Alt-p", None, Some("push-line"), None)];
    let lines = emit_keybinds(&binds, true).unwrap();
    assert_eq!(lines.len(), 1);
    let expected = format!("{:<7} ----->  {}", "Alt-p", "'push-line' (zle builtin)");
    assert_eq!(lines[0], expected);
}

#[test]
fn emit_raw_keeps_key() {
    let binds = vec![kb("^[x", Some("ls"), None, Some(true))];
    let lines = emit_keybinds(&binds, false).unwrap();
    let expected = format!("{:<50}  # <--- {}", "bindkey -s '^[x' \"ls^M\"", "^[x");
    assert_eq!(lines[0], expected);
}

#[test]
fn emit_unsupported_key_fails() {
    let binds = vec![kb("Meta-x", Some("ls"), None, None)];
    match emit_keybinds(&binds, false) {
        Err(KeybindError::Unsupported { key }) => assert_eq!(key, "Meta-x"),
        _ => panic!("expected an unsupported-key error"),
    }
}

#[test]
fn emit_missing_action_fails() {
    let binds = vec![kb("Ctrl-g", None, None, None)];
    match emit_keybinds(&binds, false) {
        Err(KeybindError::MissingAction { key_raw }) => assert_eq!(key_raw, "^g"),
        _ => panic!("expected a missing-action error"),
    }
}

#[test]
fn nu_key_parts_split_modifier_and_code() {
    assert_eq!(nu_key_parts("Ctrl-s"), Some(("control".to_string(), "s".to_string())));
    assert_eq!(nu_key_parts("C-s"), Some(("control".to_string(), "s".to_string())));
    assert_eq!(nu_key_parts("alt-x"), Some(("alt".to_string(), "x".to_string())));
    assert_eq!(nu_key_parts("A-x"), Some(("alt".to_string(), "x".to_string())));
    assert_eq!(nu_key_parts("F5"), None);
}
