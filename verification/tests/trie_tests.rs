use blaze_keys::keys::ComboError;
use blaze_keys::nodes::{build_leader_trie, CharWithModifiers, Trie};
use blaze_keys::yml::LeaderKeys;

/// Follows a chord from the root and returns the command at its end.
fn command_of(t: &Trie, path: &[CharWithModifiers]) -> Option<String> {
    let mut node = 0usize;
    for key in path {
        match t.find_child(node, *key) {
            Some(child) => node = child,
            None => return None,
        }
    }
    t.node_command_clone(node)
}

#[test]
fn duplicate_combos_collide_even_in_different_spellings() {
    let combos = "<C-s>x = first\n<Ctrl-s>x = second";
    match build_leader_trie(combos) {
        Err(ComboError::DuplicateCombo { combo }) => assert_eq!(combo, "<Ctrl-s>x"),
        _ => panic!("expected a duplicate-combo error"),
    }
}

#[test]
fn distinct_combos_are_both_reachable() {
    let combos = "<C-s>a = first\n<C-s>b = second";
    let t = build_leader_trie(combos).unwrap();
    assert_eq!(
        command_of(&t, &[CharWithModifiers::Ctrl('s'), CharWithModifiers::Unmodified('a')]),
        Some("first".to_string())
    );
    assert_eq!(
        command_of(&t, &[CharWithModifiers::Ctrl('s'), CharWithModifiers::Unmodified('b')]),
        Some("second".to_string())
    );
    assert_eq!(command_of(&t, &[CharWithModifiers::Ctrl('s')]), None);
}

#[test]
fn comments_and_blanks_are_skipped() {
    let combos = "-- heading\n\ngs = git status\n  -- another comment\n";
    let t = build_leader_trie(combos).unwrap();
    assert_eq!(
        command_of(
            &t,
            &[CharWithModifiers::Unmodified('g'), CharWithModifiers::Unmodified('s')]
        ),
        Some("git status".to_string())
    );
}

#[test]
fn empty_chord_is_rejected() {
    match build_leader_trie(" = echo hi") {
        Err(ComboError::EmptyChord { combo }) => assert_eq!(combo, ""),
        _ => panic!("expected an empty-chord error"),
    }
}

#[test]
fn bad_line_and_bad_group_are_rejected() {
    assert!(matches!(
        build_leader_trie("no equals sign"),
        Err(ComboError::BadLineFormat { .. })
    ));
    assert!(matches!(
        build_leader_trie("<c-s>x = y"),
        Err(ComboError::BadBracketGroup { .. })
    ));
}

#[test]
fn prefix_of_longer_chord_is_allowed() {
    let combos = "gs = git status\ngsl = git stash list";
    let t = build_leader_trie(combos).unwrap();
    let g = CharWithModifiers::Unmodified('g');
    let s = CharWithModifiers::Unmodified('s');
    let l = CharWithModifiers::Unmodified('l');
    assert_eq!(command_of(&t, &[g, s]), Some("git status".to_string()));
    assert_eq!(command_of(&t, &[g, s, l]), Some("git stash list".to_string()));
}

#[test]
fn root_picks_the_chosen_leader() {
    let leaders = vec![
        LeaderKeys::new(
            "git keys".to_string(),
            "Ctrl-s".to_string(),
            "Alt-s".to_string(),
            "gs = git status".to_string(),
        ),
        LeaderKeys::new(
            "docker".to_string(),
            "Ctrl-d".to_string(),
            "Alt-d".to_string(),
            "dp = docker ps".to_string(),
        ),
    ];
    let t = Trie::root_of_leaders(&leaders, "git_keys").unwrap();
    assert_eq!(
        command_of(
            &t,
            &[CharWithModifiers::Unmodified('g'), CharWithModifiers::Unmodified('s')]
        ),
        Some("git status".to_string())
    );
    // An unknown leader yields a bare tree: no command and no edges.
    let empty = Trie::root_of_leaders(&leaders, "unknown").unwrap();
    assert_eq!(command_of(&empty, &[CharWithModifiers::Unmodified('g')]), None);
    assert!(empty.nodes[0].children.is_empty());
    assert!(empty.nodes[0].command.is_none());
}

#[test]
fn bare_less_than_without_closing_bracket_is_plain() {
    let t = build_leader_trie("a<b = odd").unwrap();
    let path = [
        CharWithModifiers::Unmodified('a'),
        CharWithModifiers::Unmodified('<'),
        CharWithModifiers::Unmodified('b'),
    ];
    assert_eq!(command_of(&t, &path), Some("odd".to_string()));
}
