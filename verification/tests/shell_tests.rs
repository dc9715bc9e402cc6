use blaze_keys::shell::nu_hook::{
    leader_state_line, needs_rewrite, nu_source_location, parse_leader_state,
};
use blaze_keys::shell::{check_leaders, leaders_to_state, LeaderStateError};
use blaze_keys::yml::LeaderKeys;
use blaze_keys::Shell;

#[test]
fn test_parse_leader_state_from_nu_source() {
    assert_eq!(
        Some("tenpins".to_string()),
        parse_leader_state("##### BLZ_LEADER_STATE: tenpins")
    );
}

#[test]
fn state_line_round_trips() {
    let line = leader_state_line("git_e^s_aAlt-s");
    assert_eq!(parse_leader_state(&line), Some("git_e^s_aAlt-s".to_string()));
    assert_eq!(parse_leader_state("# something else"), None);
}

fn leader(name: &str, exec_mode: &str, abbr_mode: &str) -> LeaderKeys {
    LeaderKeys::new(
        name.to_string(),
        exec_mode.to_string(),
        abbr_mode.to_string(),
        String::new(),
    )
}

#[test]
fn leader_state_entries_are_sorted_and_joined() {
    let ls = vec![leader("zz keys", "Ctrl-z", "Alt-z"), leader("aa", "Ctrl-a", "Alt-a")];
    let state = leaders_to_state(&Some(&ls));
    assert_eq!(state, "aa_eCtrl-a_aAlt-a|zz_keys_eCtrl-z_aAlt-z");
    assert_eq!(leaders_to_state(&None), "none");
}

#[test]
fn zsh_state_lists_each_field_separately() {
    let ls = vec![leader("git keys", "Ctrl-s", "Alt-s")];
    let state = blaze_keys::zsh_hook::leaders_to_state(&Some(&ls));
    assert_eq!(state, "Alt-s|Ctrl-s|git_keys");
    assert_eq!(blaze_keys::zsh_hook::leaders_to_state(&None), "none");
}

#[test]
fn check_leaders_accepts_a_matching_state() {
    let ls = vec![leader("aa", "Ctrl-a", "Alt-a")];
    let state = leaders_to_state(&Some(&ls));
    assert!(check_leaders(&Some(&ls), &Some(state), Shell::Zsh, &None).is_ok());
}

#[test]
fn check_leaders_rejects_missing_or_stale_state() {
    let ls = vec![leader("aa", "Ctrl-a", "Alt-a")];
    match check_leaders(&Some(&ls), &None, Shell::Zsh, &None) {
        Err(LeaderStateError::StateMissing { shell }) => assert!(shell == Shell::Zsh),
        _ => panic!("expected a missing-state error"),
    }
    match check_leaders(&Some(&ls), &Some("stale".to_string()), Shell::Zsh, &None) {
        Err(LeaderStateError::StateChanged { shell }) => assert!(shell == Shell::Zsh),
        _ => panic!("expected a changed-state error"),
    }
}

#[test]
fn nushell_quieting_overrides_a_stale_state() {
    let ls = vec![leader("aa", "Ctrl-a", "Alt-a")];
    let stale = Some("stale".to_string());
    assert!(check_leaders(&Some(&ls), &stale, Shell::Nu, &Some("1".to_string())).is_ok());
    assert!(check_leaders(&Some(&ls), &stale, Shell::Nu, &Some("false".to_string())).is_err());
    assert!(check_leaders(&Some(&ls), &stale, Shell::Zsh, &Some("1".to_string())).is_err());
}

#[test]
fn nu_source_path_is_under_the_config_directory() {
    assert_eq!(
        nu_source_location("/home/someone/.config/blaze-keys"),
        "/home/someone/.config/blaze-keys/.leader_keys.nu"
    );
}

#[test]
fn rewrite_only_when_the_state_differs() {
    assert!(!needs_rewrite(&Some("abc".to_string()), "abc"));
    assert!(needs_rewrite(&Some("abc".to_string()), "abd"));
    assert!(needs_rewrite(&None, "abc"));
}

#[test]
fn is_nushell_reads_the_shell() {
    assert!(blaze_keys::is_nushell(Shell::Nu));
    assert!(!blaze_keys::is_nushell(Shell::Zsh));
}
