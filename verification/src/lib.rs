//! Leader-key sequences for the shell: a combo grammar parser, a chord
//! trie, the interactive key-input state machine that walks it, and the
//! pure layout model for the terminal overlay that displays it.
use vstd::prelude::*;

pub mod configs;
pub mod keys;
pub mod nodes;
pub mod render;
pub mod shell;
pub mod strutil;
pub mod tui;
pub mod tutorial;
pub mod yml;
pub mod zsh_hook;

verus! {

/// Name of the per-directory and global configuration file.
pub const CONFIG_FILE_NAME: &'static str = ".blz.yml";

/// Name of the generated nu source file holding the leader-key triggers.
pub const NU_SOURCE_NAME: &'static str = ".leader_keys.nu";

/// Which shell the program is integrating with; read-only after start-up
/// and threaded explicitly through the call chain.
#[derive(PartialEq, Eq, Structural, Copy, Clone, Debug)]
pub enum Shell {
    Zsh,
    Nu,
}

pub fn is_nushell(shell: Shell) -> (r: bool)
    ensures
        r == (shell is Nu),
{
    matches!(shell, Shell::Nu)
}

} // verus!
