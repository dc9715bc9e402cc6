use blaze_keys::configs::{get_template_by_name, swap_plan, SwapStep, TemplateKind};
use blaze_keys::tutorial::{instruction_str, TutorialPhase};
use blaze_keys::yml::{is_within_dir, normalize_path, LeaderKeys};

#[test]
fn test_within_dir() {
    assert!(is_within_dir("/home/user/test", "/home/user"));
    assert!(!is_within_dir("/home/user/", "/home/user/test"));
    assert!(is_within_dir("/home/user/", "/home/user"));
    assert!(is_within_dir("/home/user", "/home/user/"));
    assert!(is_within_dir("/home/user/test/2", "/home/user/test"));

    assert!(!is_within_dir("/home/user/test2/2", "/home/user/test"));
    assert!(is_within_dir("/home/user/test2/2", "/"));

    assert!(is_within_dir("~/test2/2", "~"));
}

#[test]
fn tilde_expansion_reaches_an_absolute_home() {
    // The home directory is absolute, so the expanded path lies under
    // the root; an unexpanded `~/x` would be relative and would not.
    assert!(is_within_dir("~/x", "/"));
}

#[test]
fn normalize_resolves_dots() {
    let (abs, segs) = normalize_path("/a/./b/../c").unwrap();
    assert!(abs);
    assert_eq!(segs, vec!["a".to_string(), "c".to_string()]);

    let (abs2, segs2) = normalize_path("a//b/").unwrap();
    assert!(!abs2);
    assert_eq!(segs2, vec!["a".to_string(), "b".to_string()]);

    // Climbing past the start fails.
    assert!(normalize_path("/..").is_none());
    assert!(normalize_path("a/../..").is_none());
}

#[test]
fn component_prefixes_are_not_string_prefixes() {
    assert!(!is_within_dir("/home/user/test2", "/home/user/test"));
    assert!(!is_within_dir("relative/path", "/relative"));
}

#[test]
fn sanitized_names_replace_spaces() {
    let l = LeaderKeys::new(
        "my git keys".to_string(),
        "Ctrl-s".to_string(),
        "Alt-s".to_string(),
        String::new(),
    );
    assert_eq!(l.sanitized_name(), "my_git_keys");
}

#[test]
fn template_names_and_shorthands() {
    assert_eq!(get_template_by_name("all"), Some(TemplateKind::All));
    assert_eq!(get_template_by_name("a"), Some(TemplateKind::All));
    assert_eq!(get_template_by_name("small"), Some(TemplateKind::Small));
    assert_eq!(get_template_by_name("s"), Some(TemplateKind::Small));
    assert_eq!(get_template_by_name("minimal"), Some(TemplateKind::Minimal));
    assert_eq!(get_template_by_name("m"), Some(TemplateKind::Minimal));
    assert_eq!(get_template_by_name("huge"), None);
}

#[test]
fn instruction_layout() {
    assert_eq!(
        instruction_str("Welcome.", "Press the key."),
        "Welcome.\n> Tip: Press the key."
    );
    let phase = TutorialPhase::new("A", "B");
    assert_eq!(phase.instruction, "A\n> Tip: B");
}

#[test]
fn swap_plans() {
    assert_eq!(swap_plan(false, false, &vec![]), SwapStep::Nothing);
    assert_eq!(swap_plan(true, false, &vec![]), SwapStep::SwapOut);
    assert_eq!(swap_plan(false, true, &vec![]), SwapStep::SwapIn);
    assert_eq!(
        swap_plan(true, true, &vec![true, true, false]),
        SwapStep::BackupThenSwapIn { backup_index: 2 }
    );
    assert_eq!(swap_plan(true, true, &vec![false]), SwapStep::BackupThenSwapIn { backup_index: 0 });
}

#[test]
fn tutorial_phase_list() {
    let phases = blaze_keys::tutorial::tutorial_phases();
    assert_eq!(phases.len(), 4);
    assert!(phases[0].instruction.starts_with("Welcome to the tutorial."));
    assert!(phases[3].instruction.contains("> Tip: "));
}
