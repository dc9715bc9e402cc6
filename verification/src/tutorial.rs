//! The interactive tutorial's phases: composing one phase's instruction
//! text from its prompt and tip.  Progress persistence and colouring are
//! the caller's business.
use vstd::prelude::*;

verus! {

/// The instruction layout: the prompt, then a tip line.
pub open spec fn spec_instruction(prompt: Seq<char>, tip: Seq<char>) -> Seq<char> {
    prompt + "\n> Tip: "@ + tip
}

/// One phase's full instruction text.
pub fn instruction_str(prompt: &str, tip: &str) -> (r: String)
    ensures
        r@ == spec_instruction(prompt@, tip@),
{
    let mut r = prompt.to_owned();
    r.append("\n> Tip: ");
    r.append(tip);
    r
}

/// One tutorial phase, described by its instruction text.
pub struct TutorialPhase {
    pub instruction: String,
}

impl TutorialPhase {
    pub fn new(prompt: &str, tip: &str) -> (r: TutorialPhase)
        ensures
            r.instruction@ == spec_instruction(prompt@, tip@),
    {
        TutorialPhase { instruction: instruction_str(prompt, tip) }
    }
}

/// The prompt text of each tutorial phase.
pub open spec fn spec_phase_prompt(i: int) -> Seq<char> {
    if i == 0 {
        "Welcome to the tutorial. Try running 'git status' using the leader keys. Then run 'tut next' to progress."@
    } else if i == 1 {
        "Now try running a command which takes arguments; you'll want to use 'abbr' mode. Try 'git checkout -b test' using the leader keys, then run 'tut next'."@
    } else if i == 2 {
        "Some keybinds change as you 'cd', based on profiles. This sample config defines 'Alt+b' to build. Try it in this directory and then in 'python_sample', then run 'tut next'."@
    } else {
        "You can also bind to zsh builtins. Try 'push-line', which is useful when typing a command and needing to run another."@
    }
}

/// The tip text of each tutorial phase.
pub open spec fn spec_phase_tip(i: int) -> Seq<char> {
    if i == 0 {
        "Invoke 'exec' mode with 'Ctrl+s', then type 'gs'."@
    } else if i == 1 {
        "Invoke 'abbr' mode with 'Alt+s', then type 'gcb'. Then you can type your branch name and press enter."@
    } else if i == 2 {
        "Press 'Alt+b' to run a make build. Then run 'cd python_sample' and press 'Alt+b' again to run a 'uv' build."@
    } else {
        "Type 'touch foo/bar', but don't press enter; you forgot to create the dir. Use 'Alt+p' to push-line, run 'mkdir foo' and then 'touch foo/bar' is restored."@
    }
}

/// The four tutorial phases, in order.
pub fn tutorial_phases() -> (r: Vec<TutorialPhase>)
    ensures
        r@.len() == 4,
        forall|i: int|
            0 <= i < 4 ==> (#[trigger] r@[i]).instruction@ == spec_instruction(
                spec_phase_prompt(i),
                spec_phase_tip(i),
            ),
{
    let mut r: Vec<TutorialPhase> = Vec::new();
    r.push(
        TutorialPhase::new(
            "Welcome to the tutorial. Try running 'git status' using the leader keys. Then run 'tut next' to progress.",
            "Invoke 'exec' mode with 'Ctrl+s', then type 'gs'.",
        ),
    );
    r.push(
        TutorialPhase::new(
            "Now try running a command which takes arguments; you'll want to use 'abbr' mode. Try 'git checkout -b test' using the leader keys, then run 'tut next'.",
            "Invoke 'abbr' mode with 'Alt+s', then type 'gcb'. Then you can type your branch name and press enter.",
        ),
    );
    r.push(
        TutorialPhase::new(
            "Some keybinds change as you 'cd', based on profiles. This sample config defines 'Alt+b' to build. Try it in this directory and then in 'python_sample', then run 'tut next'.",
            "Press 'Alt+b' to run a make build. Then run 'cd python_sample' and press 'Alt+b' again to run a 'uv' build.",
        ),
    );
    r.push(
        TutorialPhase::new(
            "You can also bind to zsh builtins. Try 'push-line', which is useful when typing a command and needing to run another.",
            "Type 'touch foo/bar', but don't press enter; you forgot to create the dir. Use 'Alt+p' to push-line, run 'mkdir foo' and then 'touch foo/bar' is restored.",
        ),
    );
    r
}

} // verus!
