use blaze_keys::nodes::build_leader_trie;
use blaze_keys::render::{ellipsis, glyph_for, render, Glyph, PreviewItem};
use blaze_keys::tui::Tui;

#[test]
fn test_truncate_utf8() {
    let t = "𓀂𓀂𓅮𓀂𓅮𓀂𓅮𓀂𓀂𓅮𓀂𓅮𓀂𓅮𓀂𓅮𓅮𓅮𓀂𓅮𓀂𓅮𓀂𓅮";

    for i in 0..t.chars().count() + 4 {
        let e = ellipsis(t, 0, i as u16);
        println!("{e:?}\t{}", e.chars().count());
    }

    let t = "hello";
    assert_eq!("...", ellipsis(t, 0, 0));
    assert_eq!("...", ellipsis(t, 0, 1));
    assert_eq!("...", ellipsis(t, 0, 2));
    assert_eq!("...", ellipsis(t, 0, 3));
    assert_eq!("h...", ellipsis(t, 0, 4));
    assert_eq!("hello", ellipsis(t, 0, 5));

    assert_eq!("", ellipsis("", 0, 7));
    assert_eq!("t", ellipsis("t", 0, 7));
    assert_eq!("tr", ellipsis("tr", 0, 7));
    assert_eq!("tro", ellipsis("tro", 0, 7));
    assert_eq!("troy", ellipsis("troy", 0, 7));
}

#[test]
fn ellipsis_counts_characters_not_bytes() {
    // Four-byte characters still count as one cell each.
    assert_eq!(ellipsis("𓀂𓀂𓅮𓀂𓅮", 0, 4), "𓀂...");
    assert_eq!(ellipsis("𓀂𓀂𓅮𓀂𓅮", 0, 5), "𓀂𓀂𓅮𓀂𓅮");
    // The start column reduces the room.
    assert_eq!(ellipsis("hello", 2, 7), "hello");
    assert_eq!(ellipsis("hello", 3, 7), "h...");
}

fn session(combos: &str) -> Tui {
    Tui::new(build_leader_trie(combos).unwrap(), false)
}

#[test]
fn compact_mode_below_eighty_columns() {
    let s = session("gs = git status");
    let scr = render(&s, 79, 40);
    assert!(scr.compact);
    // Only the prompt line: no child rows and no previews.
    assert_eq!(scr.rows.len(), 0);
    assert_eq!(scr.blocks.len(), 0);
    let wide = render(&s, 80, 40);
    assert!(!wide.compact);
    assert_eq!(wide.rows.len(), 1);
}

#[test]
fn rows_are_sorted_case_insensitively_lowercase_first() {
    let s = session("B = two\nb = one\na = zero\nC = three");
    let scr = render(&s, 120, 40);
    let keys: Vec<String> = scr.rows.iter().map(|r| r.key.str_short()).collect();
    assert_eq!(keys, vec!["a", "b", "B", "C"]);
}

#[test]
fn prefix_rows_show_subcommand_counts() {
    let s = session("ga = git add\ngs = git status\nx = exit");
    let scr = render(&s, 120, 40);
    // Two rows: g (a prefix with two subcommands) and x (a command).
    assert_eq!(scr.rows.len(), 2);
    assert_eq!(scr.rows[0].label, "2 subcommands");
    assert!(!scr.rows[0].final_badge);
    assert_eq!(scr.rows[1].label, "exit");
    assert!(scr.rows[1].final_badge);
}

#[test]
fn singular_subcommand_label_pads_with_a_space() {
    let s = session("ga = git add");
    let scr = render(&s, 120, 40);
    assert_eq!(scr.rows[0].label, "1 subcommand ");
}

#[test]
fn synthetic_space_row_for_an_ambiguous_node() {
    let mut s = session("g = git status\ngl = git log");
    match s.step(blaze_keys::tui::KeyEvent::Char('g')) {
        blaze_keys::tui::Outcome::Pending => {},
        _ => panic!("expected the session to keep collecting"),
    }
    let scr = render(&s, 120, 40);
    assert!(scr.rows[0].space_row);
    assert!(scr.rows[0].final_badge);
    assert_eq!(scr.rows.len(), 2);
}

#[test]
fn prompt_splits_valid_and_invalid_input() {
    let mut s = session("abc = cmd");
    s.step(blaze_keys::tui::KeyEvent::Char('a'));
    s.step(blaze_keys::tui::KeyEvent::Char('x'));
    let scr = render(&s, 120, 40);
    assert_eq!(scr.prompt_valid, "a");
    assert_eq!(scr.prompt_invalid, "x");
    assert!(!scr.waiting);
    let fresh = session("abc = cmd");
    let empty = render(&fresh, 120, 40);
    assert!(empty.waiting);
    assert_eq!(empty.prompt_valid, "");
}

#[test]
fn previews_list_descendant_commands_sorted() {
    let s = session("ga = alpha\ngb = beta\ngc = charlie");
    let scr = render(&s, 120, 40);
    assert_eq!(scr.rows.len(), 1);
    assert_eq!(scr.blocks.len(), 1);
    let items = &scr.blocks[0].items;
    assert_eq!(items.len(), 3);
    let mut cmds: Vec<String> = Vec::new();
    for item in items.iter() {
        match item {
            PreviewItem::Node(n) => cmds.push(s.trie.node_command_clone(*n).unwrap()),
            PreviewItem::Placeholder => panic!("nothing should have been trimmed"),
        }
    }
    assert_eq!(cmds, vec!["alpha", "beta", "charlie"]);
}

#[test]
fn previews_are_trimmed_to_the_terminal_height() {
    let s = session("ga = alpha\ngb = beta\ngc = charlie\ngd = delta\nge = echo e");
    // One child row plus five preview entries against a height of three:
    // the excess of three is covered by one halving pass, which keeps the
    // first two entries and closes the list with the placeholder.
    let scr = render(&s, 120, 3);
    let items = &scr.blocks[0].items;
    assert_eq!(items.len(), 3);
    let mut cmds: Vec<String> = Vec::new();
    for item in items.iter().take(2) {
        match item {
            PreviewItem::Node(n) => cmds.push(s.trie.node_command_clone(*n).unwrap()),
            PreviewItem::Placeholder => panic!("the kept prefix holds real entries"),
        }
    }
    assert_eq!(cmds, vec!["alpha", "beta"]);
    assert!(matches!(items.last(), Some(PreviewItem::Placeholder)));
}

#[test]
fn connector_glyphs_by_position() {
    assert_eq!(glyph_for(0, 0), Glyph::VerticalLeft);
    assert_eq!(glyph_for(0, 3), Glyph::DownHorizontal);
    assert_eq!(glyph_for(1, 3), Glyph::Vertical);
    assert_eq!(glyph_for(3, 3), Glyph::UpRight);
}
