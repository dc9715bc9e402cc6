use blaze_keys::nodes::{build_leader_trie, CharWithModifiers};
use blaze_keys::tui::{KeyEvent, Outcome, Tui};

fn session(combos: &str) -> Tui {
    Tui::new(build_leader_trie(combos).unwrap(), false)
}

fn expect_pending(outcome: Outcome) {
    assert!(matches!(outcome, Outcome::Pending));
}

#[test]
fn chord_resolves_without_enter_on_a_leaf() {
    let mut s = session("<C-s>glo = git log --oneline");
    expect_pending(s.step(KeyEvent::Ctrl('s')));
    expect_pending(s.step(KeyEvent::Char('g')));
    expect_pending(s.step(KeyEvent::Char('l')));
    match s.step(KeyEvent::Char('o')) {
        Outcome::Resolved(cmd) => assert_eq!(cmd, "git log --oneline"),
        _ => panic!("expected the chord to resolve"),
    }
    assert!(s.finished);
}

#[test]
fn backspace_discards_invalid_input_and_keeps_position() {
    let mut s = session("<C-s>glo = git log --oneline");
    expect_pending(s.step(KeyEvent::Ctrl('s')));
    expect_pending(s.step(KeyEvent::Char('g')));
    let node_after_g = s.node;
    // A key with no edge is recorded as invalid; the cursor stays put.
    expect_pending(s.step(KeyEvent::Char('x')));
    assert_eq!(s.node, node_after_g);
    assert!(s.invalid);
    assert_eq!(s.invalid_count, 1);
    // Backspace drops the invalid key without moving the cursor.
    expect_pending(s.step(KeyEvent::Backspace));
    assert_eq!(s.node, node_after_g);
    assert_eq!(s.invalid_count, 0);
    // The rest of the chord still resolves.
    expect_pending(s.step(KeyEvent::Char('l')));
    match s.step(KeyEvent::Char('o')) {
        Outcome::Resolved(cmd) => assert_eq!(cmd, "git log --oneline"),
        _ => panic!("expected the chord to resolve"),
    }
}

#[test]
fn invalid_tail_is_stripped_by_the_next_valid_key() {
    // The first key matches, the second does not, the third matches from
    // the node the first key reached: only the first and third symbols
    // stay in the buffer, and the cursor never moved past the first node
    // until the third key.
    let mut s = session("abc = some command");
    expect_pending(s.step(KeyEvent::Char('a')));
    let node_after_a = s.node;
    expect_pending(s.step(KeyEvent::Char('x')));
    assert_eq!(s.node, node_after_a);
    assert_eq!(s.key_buffer.len(), 2);
    assert!(!s.key_buffer[1].valid);
    expect_pending(s.step(KeyEvent::Char('b')));
    assert_eq!(s.key_buffer.len(), 2);
    assert_eq!(s.key_buffer[0].char, CharWithModifiers::Unmodified('a'));
    assert!(s.key_buffer[0].valid);
    assert_eq!(s.key_buffer[1].char, CharWithModifiers::Unmodified('b'));
    assert!(s.key_buffer[1].valid);
    assert!(!s.invalid);
    assert_eq!(s.invalid_count, 0);
}

#[test]
fn escape_cancels_whatever_is_buffered() {
    let mut s = session("abc = some command");
    assert!(matches!(s.step(KeyEvent::Esc), Outcome::Cancelled));
    assert!(s.finished);

    let mut s2 = session("abc = some command");
    expect_pending(s2.step(KeyEvent::Char('a')));
    expect_pending(s2.step(KeyEvent::Char('x')));
    assert!(matches!(s2.step(KeyEvent::Esc), Outcome::Cancelled));
    assert!(s2.finished);

    let mut s3 = session("abc = some command");
    expect_pending(s3.step(KeyEvent::Char('a')));
    assert!(matches!(s3.step(KeyEvent::Ctrl('c')), Outcome::Cancelled));
}

#[test]
fn enter_selects_an_ambiguous_prefix_command() {
    let mut s = session("g = git status\ngl = git log");
    expect_pending(s.step(KeyEvent::Char('g')));
    match s.step(KeyEvent::Char('\n')) {
        Outcome::Resolved(cmd) => assert_eq!(cmd, "git status"),
        _ => panic!("expected enter to select the prefix command"),
    }
}

#[test]
fn space_selects_too_and_enter_without_command_is_ignored() {
    let mut s = session("gl = git log");
    expect_pending(s.step(KeyEvent::Char('\n')));
    expect_pending(s.step(KeyEvent::Char('g')));
    expect_pending(s.step(KeyEvent::Char(' ')));
    match s.step(KeyEvent::Char('l')) {
        Outcome::Resolved(cmd) => assert_eq!(cmd, "git log"),
        _ => panic!("expected the chord to resolve"),
    }
    assert!(s.finished);
}

#[test]
fn modified_key_falls_back_to_the_bare_edge() {
    // No Ctrl-g edge exists, but a bare g does: the event falls back.
    let mut s = session("gl = git log");
    expect_pending(s.step(KeyEvent::Ctrl('g')));
    assert_eq!(s.key_buffer.len(), 1);
    assert_eq!(s.key_buffer[0].char, CharWithModifiers::Unmodified('g'));
    match s.step(KeyEvent::Char('l')) {
        Outcome::Resolved(cmd) => assert_eq!(cmd, "git log"),
        _ => panic!("expected the chord to resolve"),
    }
}

#[test]
fn unrelated_keys_are_ignored() {
    let mut s = session("gl = git log");
    expect_pending(s.step(KeyEvent::Other));
    assert_eq!(s.key_buffer.len(), 0);
    expect_pending(s.step(KeyEvent::Backspace));
    assert_eq!(s.key_buffer.len(), 0);
}
