//! Selection of the built-in configuration templates by name.  The
//! template texts themselves, and every file operation around them, live
//! with the caller.
use vstd::prelude::*;

use crate::strutil::str_eq;

verus! {

/// The built-in configuration templates.
#[derive(Copy, Clone, Debug, Eq, PartialEq, Structural)]
pub enum TemplateKind {
    All,
    Small,
    Minimal,
}

/// Which template a name or its one-letter shorthand selects.
pub open spec fn spec_template_by_name(s: Seq<char>) -> Option<TemplateKind> {
    if s == "all"@ || s == "a"@ {
        Some(TemplateKind::All)
    } else if s == "small"@ || s == "s"@ {
        Some(TemplateKind::Small)
    } else if s == "minimal"@ || s == "m"@ {
        Some(TemplateKind::Minimal)
    } else {
        None
    }
}

/// What swapping a configuration file in or out amounts to, before any
/// file is touched.
#[derive(Copy, Clone, Debug, Eq, PartialEq, Structural)]
pub enum SwapStep {
    /// Neither a standard nor a swapped-out config exists.
    Nothing,
    /// Move the standard config aside under the swap name.
    SwapOut,
    /// Move the swapped-out config back into place.
    SwapIn,
    /// Back the standard config up under the given free index first,
    /// then move the swapped-out config into place.
    BackupThenSwapIn { backup_index: usize },
}

/// The first index whose backup slot is free; one past the end when all
/// listed slots are taken.
pub open spec fn spec_first_free(backups: Seq<bool>) -> int
    decreases backups.len(),
{
    if backups.len() == 0 {
        0int
    } else if !backups[0] {
        0int
    } else {
        1 + spec_first_free(backups.drop_first())
    }
}

/// Decides what a config swap does, given which files exist: `backups[i]`
/// says whether the backup slot `i` is already taken.
pub fn swap_plan(standard_exists: bool, swapped_exists: bool, backups: &Vec<bool>) -> (r: SwapStep)
    requires
        backups@.len() < usize::MAX,
    ensures
        r == (if !swapped_exists {
            if standard_exists {
                SwapStep::SwapOut
            } else {
                SwapStep::Nothing
            }
        } else {
            if standard_exists {
                SwapStep::BackupThenSwapIn { backup_index: spec_first_free(backups@) as usize }
            } else {
                SwapStep::SwapIn
            }
        }),
        spec_first_free(backups@) <= backups@.len(),
{
    proof {
        lemma_first_free_bounds(backups@);
    }
    if !swapped_exists {
        if standard_exists {
            SwapStep::SwapOut
        } else {
            SwapStep::Nothing
        }
    } else if standard_exists {
        let mut i: usize = 0;
        while i < backups.len() && backups[i]
            invariant
                i <= backups@.len(),
                forall|j: int| 0 <= j < i ==> backups@[j],
            decreases backups@.len() - i,
        {
            i = i + 1;
        }
        proof {
            lemma_first_free_at(backups@, i as int);
        }
        SwapStep::BackupThenSwapIn { backup_index: i }
    } else {
        SwapStep::SwapIn
    }
}

proof fn lemma_first_free_bounds(backups: Seq<bool>)
    ensures
        0 <= spec_first_free(backups) <= backups.len(),
    decreases backups.len(),
{
    if backups.len() > 0 && backups[0] {
        lemma_first_free_bounds(backups.drop_first());
    }
}

proof fn lemma_first_free_at(backups: Seq<bool>, i: int)
    requires
        0 <= i <= backups.len(),
        forall|j: int| 0 <= j < i ==> backups[j],
        i < backups.len() ==> !backups[i],
    ensures
        spec_first_free(backups) == i,
    decreases i,
{
    if i > 0 {
        assert(backups[0]);
        let rest = backups.drop_first();
        assert(forall|j: int| 0 <= j < i - 1 ==> #[trigger] rest[j] == backups[j + 1]);
        lemma_first_free_at(rest, i - 1);
    }
}

pub fn get_template_by_name(name: &str) -> (r: Option<TemplateKind>)
    ensures
        r == spec_template_by_name(name@),
{
    if str_eq(name, "all") || str_eq(name, "a") {
        Some(TemplateKind::All)
    } else if str_eq(name, "small") || str_eq(name, "s") {
        Some(TemplateKind::Small)
    } else if str_eq(name, "minimal") || str_eq(name, "m") {
        Some(TemplateKind::Minimal)
    } else {
        None
    }
}

} // verus!
