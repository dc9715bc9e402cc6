//! The zsh integration's state string: the same fingerprint idea as the
//! nu side, in the older format that lists each leader's name and both
//! trigger specs as separate sorted entries.
use vstd::prelude::*;

use crate::strutil::{join_pipe, join_pipe_exec, sort_lex, sort_strings, str_views};
use crate::yml::{spec_sanitize, LeaderKeys};

verus! {

/// The three entries one leader contributes.
pub open spec fn spec_leader_entries(l: LeaderKeys) -> Seq<Seq<char>> {
    seq![spec_sanitize(l.spec_name()), l.exec_mode@, l.abbr_mode@]
}

/// All entries of a leader list, in configuration order.
pub open spec fn spec_all_entries(ls: Seq<LeaderKeys>) -> Seq<Seq<char>>
    decreases ls.len(),
{
    if ls.len() == 0 {
        Seq::empty()
    } else {
        spec_all_entries(ls.drop_last()) + spec_leader_entries(ls.last())
    }
}

/// The zsh-side state string: every leader's name and trigger specs,
/// sorted and pipe joined; `none` where no leaders are configured.
pub open spec fn spec_zsh_leaders_state(leaders: Option<Seq<LeaderKeys>>) -> Seq<char> {
    match leaders {
        None => seq!['n', 'o', 'n', 'e'],
        Some(l) => join_pipe(sort_lex(spec_all_entries(l))),
    }
}

/// The fingerprint of the configured leaders, as the zsh hook exports
/// it.
pub fn leaders_to_state(leaders: &Option<&Vec<LeaderKeys>>) -> (r: String)
    ensures
        r@ == spec_zsh_leaders_state(
            match leaders {
                Some(l) => Some(l@),
                None => None,
            },
        ),
{
    match leaders {
        None => {
            let r = "none".to_owned();
            proof {
                reveal_strlit("none");
                assert("none"@ =~= seq!['n', 'o', 'n', 'e']);
            }
            r
        },
        Some(l) => {
            let mut entries: Vec<String> = Vec::new();
            proof {
                assert(l@.take(0) =~= Seq::<LeaderKeys>::empty());
                assert(str_views(entries@) =~= spec_all_entries(l@.take(0)));
            }
            let mut i: usize = 0;
            while i < l.len()
                invariant
                    i <= l@.len(),
                    str_views(entries@) =~= spec_all_entries(l@.take(i as int)),
                decreases l@.len() - i,
            {
                let ghost before = str_views(entries@);
                entries.push(l[i].sanitized_name());
                entries.push(l[i].exec_mode.clone());
                entries.push(l[i].abbr_mode.clone());
                i = i + 1;
                proof {
                    let pre = l@.take(i as int);
                    assert(pre.drop_last() =~= l@.take(i as int - 1));
                    assert(pre.last() == l@[i as int - 1]);
                    assert(str_views(entries@) =~= before + spec_leader_entries(l@[i as int - 1]));
                }
            }
            proof {
                assert(l@.take(l@.len() as int) =~= l@);
            }
            let sorted = sort_strings(&entries);
            join_pipe_exec(&sorted)
        },
    }
}

} // verus!
