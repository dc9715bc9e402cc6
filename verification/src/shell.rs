//! Leader-key state strings shared between the shell integrations: the
//! fingerprint of the configured leaders that the shell exports, and the
//! check that the running shell still agrees with the configuration.
use vstd::prelude::*;

pub mod nu_hook;

use crate::strutil::{join_pipe, sort_lex, sort_strings, str_eq, str_views, join_pipe_exec};
use crate::yml::{spec_sanitize, LeaderKeys};
use crate::Shell;

verus! {

/// One leader's contribution to the state string.
pub open spec fn spec_state_entry(l: LeaderKeys) -> Seq<char> {
    spec_sanitize(l.spec_name()) + seq!['_', 'e'] + l.exec_mode@ + seq!['_', 'a'] + l.abbr_mode@
}

/// The entries of all leaders, in configuration order.
pub open spec fn spec_state_entries(ls: Seq<LeaderKeys>) -> Seq<Seq<char>> {
    ls.map_values(|x: LeaderKeys| spec_state_entry(x))
}

/// The state string of a leader list: each leader's entry, sorted, pipe
/// joined; `none` where no leaders are configured.
pub open spec fn spec_leaders_state(leaders: Option<Seq<LeaderKeys>>) -> Seq<char> {
    match leaders {
        None => seq!['n', 'o', 'n', 'e'],
        Some(l) => join_pipe(sort_lex(spec_state_entries(l))),
    }
}

/// The fingerprint of the configured leaders, as exported to the shell.
pub fn leaders_to_state(leaders: &Option<&Vec<LeaderKeys>>) -> (r: String)
    ensures
        r@ == spec_leaders_state(
            match leaders {
                Some(l) => Some(l@),
                None => None,
            },
        ),
{
    match leaders {
        None => {
            let r = "none".to_owned();
            proof {
                reveal_strlit("none");
                assert("none"@ =~= seq!['n', 'o', 'n', 'e']);
            }
            r
        },
        Some(l) => {
            let mut entries: Vec<String> = Vec::new();
            proof {
                assert(str_views(entries@) =~= spec_state_entries(l@).take(0));
            }
            let mut i: usize = 0;
            while i < l.len()
                invariant
                    i <= l@.len(),
                    str_views(entries@) =~= spec_state_entries(l@).take(i as int),
                decreases l@.len() - i,
            {
                let mut e = l[i].sanitized_name();
                e.append("_e");
                e.append(l[i].exec_mode.as_str());
                e.append("_a");
                e.append(l[i].abbr_mode.as_str());
                proof {
                    reveal_strlit("_e");
                    reveal_strlit("_a");
                    assert("_e"@ =~= seq!['_', 'e']);
                    assert("_a"@ =~= seq!['_', 'a']);
                    assert(e@ =~= spec_state_entry(l@[i as int]));
                }
                let ghost entries0 = entries@;
                let ghost ev = e@;
                entries.push(e);
                i = i + 1;
                proof {
                    let m = spec_state_entries(l@);
                    assert(m.len() == l@.len());
                    assert(m[i as int - 1] == spec_state_entry(l@[i as int - 1]));
                    let ma = str_views(entries@);
                    let mb = str_views(entries0);
                    assert forall|j: int|
                        0 <= j < ma.len() implies #[trigger] ma[j] == mb.push(ev)[j] by {
                        assert(ma[j] == entries@[j]@);
                        if j < entries0.len() {
                            assert(entries@[j] == entries0[j]);
                            assert(mb[j] == entries0[j]@);
                        }
                    }
                    assert(ma =~= mb.push(ev));
                    assert(m.take(i as int) =~= m.take(i as int - 1).push(m[i as int - 1]));
                    assert(ma =~= m.take(i as int));
                }
            }
            proof {
                let m = spec_state_entries(l@);
                assert(m.take(l@.len() as int) =~= m);
            }
            let sorted = sort_strings(&entries);
            join_pipe_exec(&sorted)
        },
    }
}

/// Why the exported leader state is unusable.
#[derive(Debug)]
pub enum LeaderStateError {
    /// The environment holds a state that differs from the configuration.
    StateChanged { shell: Shell },
    /// No state was exported at all.
    StateMissing { shell: Shell },
}

impl LeaderStateError {
    /// The advice shown to the user for this error.
    pub fn message(&self) -> String {
        match self {
            LeaderStateError::StateChanged { shell: Shell::Zsh } => (
            "The '.zshrc' needs to be sourced since the leader keys have changed since BLZ was last initialised. \nPlease run 'source ~/.zshrc'."
            ).to_owned(),
            LeaderStateError::StateChanged { shell: Shell::Nu } => (
            "The nu session needs to be updated since the BLZ leader keys have changed. This requires opening a new shell with a new environment; sourcing the config and 'exec nu' won't work, but you can open a new terminal tab. \nTip: Use '$env.BLZ_STFU = true' in the current session to quiet this message."
            ).to_owned(),
            LeaderStateError::StateMissing { shell: Shell::Zsh } => (
            "The 'BLZ_LEADER_STATE' should have been set in the .zshrc. Please open a new shell, or run 'source ~/.zshrc'."
            ).to_owned(),
            LeaderStateError::StateMissing { shell: Shell::Nu } => (
            "The 'BLZ_LEADER_STATE' should have been set in the nu config. Please open a new shell."
            ).to_owned(),
        }
    }
}

/// Checks whether the leader-key state exported by the shell is up to
/// date.
///
/// The state may be stale without complaint only under nushell with the
/// quieting variable set to anything but `false`.
pub fn check_leaders(
    leaders: &Option<&Vec<LeaderKeys>>,
    state_var: &Option<String>,
    shell: Shell,
    stfu: &Option<String>,
) -> (r: Result<(), LeaderStateError>)
    ensures
        ({
            let expected = spec_leaders_state(
                match leaders {
                    Some(l) => Some(l@),
                    None => None,
                },
            );
            match r {
                Ok(()) => match state_var {
                    Some(v) => v@ == expected || (shell is Nu && match stfu {
                        Some(q) => q@ != "false"@,
                        None => false,
                    }),
                    None => false,
                },
                Err(e) => match e {
                    LeaderStateError::StateMissing { shell: sh } => sh == shell
                        && state_var is None,
                    LeaderStateError::StateChanged { shell: sh } => sh == shell && match state_var {
                        Some(v) => v@ != expected && !(shell is Nu && match stfu {
                            Some(q) => q@ != "false"@,
                            None => false,
                        }),
                        None => false,
                    },
                },
            }
        }),
{
    let expected = leaders_to_state(leaders);
    match state_var {
        Some(v) => {
            if str_eq(v.as_str(), expected.as_str()) {
                Ok(())
            } else {
                let quiet = match stfu {
                    Some(q) => !str_eq(q.as_str(), "false"),
                    None => false,
                };
                if crate::is_nushell(shell) && quiet {
                    Ok(())
                } else {
                    Err(LeaderStateError::StateChanged { shell })
                }
            }
        },
        None => Err(LeaderStateError::StateMissing { shell }),
    }
}

} // verus!
