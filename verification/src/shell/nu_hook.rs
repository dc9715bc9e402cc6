//! The nu integration's bookkeeping: where the generated source file
//! lives, and the state line inside it that says which leaders it was
//! generated for.
use vstd::prelude::*;

use crate::strutil::{starts_with, str_chars};
use crate::NU_SOURCE_NAME;

verus! {

/// The marker that opens the state line of the generated nu source.
pub open spec fn spec_state_prefix() -> Seq<char> {
    "##### BLZ_LEADER_STATE: "@
}

/// The path of the generated nu source file under the configuration
/// directory.
pub fn nu_source_location(config_dir: &str) -> (r: String)
    ensures
        r@ == config_dir@ + seq!['/'] + NU_SOURCE_NAME@,
{
    let mut r = config_dir.to_owned();
    r.append("/");
    r.append(NU_SOURCE_NAME);
    proof {
        reveal_strlit("/");
        assert("/"@ =~= seq!['/']);
        assert(r@ =~= config_dir@ + seq!['/'] + NU_SOURCE_NAME@);
    }
    r
}

/// The state line carrying a leader state.
pub fn leader_state_line(state: &str) -> (r: String)
    ensures
        r@ == spec_state_prefix() + state@,
{
    let mut r = "##### BLZ_LEADER_STATE: ".to_owned();
    r.append(state);
    r
}

/// Reads the leader state out of a state line; `None` where the line is
/// not one.
pub fn parse_leader_state(value: &str) -> (r: Option<String>)
    ensures
        match r {
            Some(s) => starts_with(value@, spec_state_prefix()) && value@ == spec_state_prefix()
                + s@,
            None => !starts_with(value@, spec_state_prefix()),
        },
{
    let prefix = "##### BLZ_LEADER_STATE: ";
    let np = prefix.unicode_len();
    let n = value.unicode_len();
    if n < np {
        proof {
            assert(!starts_with(value@, spec_state_prefix()));
        }
        return None;
    }
    let pc = str_chars(prefix);
    let vc = str_chars(value);
    let mut i: usize = 0;
    while i < np
        invariant
            i <= np,
            np == prefix@.len(),
            np <= n,
            n == value@.len(),
            pc@ == prefix@,
            vc@ == value@,
            prefix@ == spec_state_prefix(),
            forall|j: int| 0 <= j < i ==> value@[j] == prefix@[j],
        decreases np - i,
    {
        if vc[i] != pc[i] {
            proof {
                if starts_with(value@, spec_state_prefix()) {
                    assert(value@.take(np as int)[i as int] == value@[i as int]);
                    assert(false);
                }
            }
            return None;
        }
        i = i + 1;
    }
    let rest = value.substring_char(np, n).to_owned();
    proof {
        assert(value@.take(np as int) =~= prefix@);
        assert(starts_with(value@, spec_state_prefix()));
        assert(value@ =~= spec_state_prefix() + value@.subrange(np as int, n as int));
    }
    Some(rest)
}

/// Writing a state line and reading it back yields the state unchanged.
pub proof fn lemma_state_line_round_trip(state: Seq<char>, line: Seq<char>)
    requires
        line == spec_state_prefix() + state,
    ensures
        starts_with(line, spec_state_prefix()),
        line.skip(spec_state_prefix().len() as int) == state,
{
    assert(line.take(spec_state_prefix().len() as int) =~= spec_state_prefix());
    assert(line.skip(spec_state_prefix().len() as int) =~= state);
}

/// Whether the generated nu source needs rewriting: only when no state
/// line with exactly the current state is already in place.
pub fn needs_rewrite(extant: &Option<String>, state: &str) -> (r: bool)
    ensures
        r == match extant {
            Some(e) => e@ != state@,
            None => true,
        },
{
    match extant {
        Some(e) => !crate::strutil::str_eq(e.as_str(), state),
        None => true,
    }
}

} // verus!
