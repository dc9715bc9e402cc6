//! The layout renderer: given the cursor node and the terminal size it
//! computes what the overlay shows — the prompt with its invalid tail,
//! the sorted list of next keys with their commands or subcommand
//! counts, and a space-budgeted preview of deeper descendants — as plain
//! data that the caller paints.
use vstd::prelude::*;

use crate::nodes::{CharWithModifiers, Trie};
use crate::tui::indices_of;
use crate::strutil::{lex_le, lex_le_exec, spec_digits, usize_to_string};
use vstd::multiset::Multiset;

verus! {

/// Column where the child list starts.
pub const WIDTH_FIRST: u16 = 30;

/// Horizontal offset from a child row to its preview entries.
pub const CHILD_OFFSET: u16 = 40;

/// The truncation marker.
pub open spec fn spec_marker() -> Seq<char> {
    seq!['.', '.', '.']
}

/// Truncate a string to the columns between `start` and `max`: if not
/// even the marker fits, the marker alone; if the text fits, the text
/// unchanged; otherwise the text cut to leave room for the marker,
/// counted in characters rather than bytes.
pub open spec fn spec_ellipsis(s: Seq<char>, start: u16, max: u16) -> Seq<char> {
    let avail = if max >= start {
        max - start
    } else {
        0
    };
    if avail <= 3 {
        spec_marker()
    } else if s.len() <= avail {
        s
    } else {
        s.take(avail - 3) + spec_marker()
    }
}

/// Truncate the string, adding an ellipsis at the end to make the
/// truncation clear.
///
/// `start_pos` is the position in the TUI at which the string starts and
/// `max_pos` the maximum position for it to reach.
pub fn ellipsis(s: &str, start_pos: u16, max_pos: u16) -> (r: String)
    ensures
        r@ == spec_ellipsis(s@, start_pos, max_pos),
{
    let avail: usize = if max_pos >= start_pos {
        (max_pos - start_pos) as usize
    } else {
        0
    };
    proof {
        reveal_strlit("...");
        assert("..."@ =~= spec_marker());
    }
    if avail <= 3 {
        return "...".to_owned();
    }
    let n = s.unicode_len();
    if n <= avail {
        return s.to_owned();
    }
    let mut r = s.substring_char(0, avail - 3).to_owned();
    r.append("...");
    proof {
        assert(s@.subrange(0, avail - 3) =~= s@.take(avail - 3));
        assert(r@ =~= s@.take(avail - 3) + spec_marker());
    }
    r
}

/// The code point used for ordering: ASCII uppercase letters compare as
/// their lowercase forms.
pub open spec fn lower_code(c: char) -> int {
    if 65 <= c as u32 <= 90 {
        (c as u32) as int + 32
    } else {
        (c as u32) as int
    }
}

pub open spec fn is_ascii_upper(c: char) -> bool {
    65 <= c as u32 <= 90
}

/// Display order of keys: case-insensitively by base character, with
/// lowercase sorting before uppercase on ties.
pub open spec fn key_le(a: CharWithModifiers, b: CharWithModifiers) -> bool {
    lower_code(a.spec_bare()) < lower_code(b.spec_bare()) || (lower_code(a.spec_bare())
        == lower_code(b.spec_bare()) && (!is_ascii_upper(a.spec_bare()) || is_ascii_upper(
        b.spec_bare(),
    )))
}

/// The display order is total: two keys always compare one way or the
/// other.
pub proof fn lemma_key_le_total(a: CharWithModifiers, b: CharWithModifiers)
    ensures
        key_le(a, b) || key_le(b, a),
{
}

pub fn key_le_exec(a: CharWithModifiers, b: CharWithModifiers) -> (r: bool)
    ensures
        r == key_le(a, b),
{
    let ca = *a.bare();
    let cb = *b.bare();
    let la: u32 = if 65 <= ca as u32 && ca as u32 <= 90 {
        ca as u32 + 32
    } else {
        ca as u32
    };
    let lb: u32 = if 65 <= cb as u32 && cb as u32 <= 90 {
        cb as u32 + 32
    } else {
        cb as u32
    };
    la < lb || (la == lb && (!(65 <= ca as u32 && ca as u32 <= 90) || (65 <= cb as u32 && cb as u32
        <= 90)))
}

/// The child edges of a node in display order: a stable selection sort
/// under [`key_le`], keeping the same edges.
pub fn sort_children(cs: &Vec<(CharWithModifiers, usize)>) -> (r: Vec<(CharWithModifiers, usize)>)
    ensures
        r@.to_multiset() == cs@.to_multiset(),
        r@.len() == cs@.len(),
        forall|x: int, y: int|
            0 <= x < y < r@.len() ==> key_le((#[trigger] r@[x]).0, (#[trigger] r@[y]).0),
{
    let mut src: Vec<(CharWithModifiers, usize)> = Vec::new();
    let mut ci: usize = 0;
    while ci < cs.len()
        invariant
            ci <= cs@.len(),
            src@ =~= cs@.take(ci as int),
        decreases cs@.len() - ci,
    {
        src.push(cs[ci]);
        ci = ci + 1;
        proof {
            assert(src@ =~= cs@.take(ci as int));
        }
    }
    proof {
        assert(src@ =~= cs@);
    }
    let mut out: Vec<(CharWithModifiers, usize)> = Vec::new();
    proof {
        broadcast use vstd::seq_lib::group_to_multiset_ensures;

        assert(out@.to_multiset() =~= Multiset::<(CharWithModifiers, usize)>::empty());
        assert(out@.to_multiset().add(src@.to_multiset()) =~= cs@.to_multiset());
    }
    while src.len() > 0
        invariant
            out@.to_multiset().add(src@.to_multiset()) =~= cs@.to_multiset(),
            out@.len() + src@.len() == cs@.len(),
            forall|x: int, y: int|
                0 <= x < y < out@.len() ==> key_le((#[trigger] out@[x]).0, (#[trigger] out@[y]).0),
            forall|x: int, y: int|
                0 <= x < out@.len() && 0 <= y < src@.len() ==> key_le(
                    (#[trigger] out@[x]).0,
                    (#[trigger] src@[y]).0,
                ),
        decreases src@.len(),
    {
        // Find the least remaining key.
        let mut mi: usize = 0;
        let mut k: usize = 1;
        while k < src.len()
            invariant
                mi < k <= src@.len() || (k <= src@.len() && mi == 0),
                mi < src@.len(),
                src@.len() > 0,
                forall|j: int| 0 <= j < k ==> key_le(src@[mi as int].0, (#[trigger] src@[j]).0),
            decreases src@.len() - k,
        {
            if !key_le_exec(src[mi].0, src[k].0) {
                proof {
                    lemma_key_le_total(src@[mi as int].0, src@[k as int].0);
                    assert forall|j: int|
                        0 <= j < k + 1 implies key_le(src@[k as int].0, (#[trigger] src@[j]).0) by {
                        if j < k {
                            assert(key_le(src@[mi as int].0, src@[j].0));
                        }
                    }
                }
                mi = k;
            }
            k = k + 1;
        }
        let ghost src0 = src@;
        let ghost out0 = out@;
        let e = src.remove(mi);
        out.push(e);
        proof {
            broadcast use vstd::seq_lib::group_to_multiset_ensures;

            assert(src@ =~= src0.remove(mi as int));
            assert(out@ =~= out0.push(e));
            assert(out@.to_multiset() =~= out0.to_multiset().insert(e));
            assert(src0.to_multiset() =~= src@.to_multiset().insert(e));
            assert(out@.to_multiset().add(src@.to_multiset()) =~= cs@.to_multiset());
            assert forall|x: int, y: int|
                0 <= x < out@.len() && 0 <= y < src@.len() implies key_le(
                (#[trigger] out@[x]).0,
                (#[trigger] src@[y]).0,
            ) by {
                let orig_y = if y < mi {
                    y
                } else {
                    y + 1
                };
                assert(src@[y] == src0[orig_y]);
                if x < out0.len() {
                    assert(out@[x] == out0[x]);
                    assert(key_le(out0[x].0, src0[orig_y].0));
                } else {
                    assert(out@[x] == e);
                    assert(key_le(src0[mi as int].0, src0[orig_y].0));
                }
            }
            assert forall|x: int, y: int|
                0 <= x < y < out@.len() implies key_le(
                (#[trigger] out@[x]).0,
                (#[trigger] out@[y]).0,
            ) by {
                if y < out0.len() {
                    assert(out@[x] == out0[x] && out@[y] == out0[y]);
                } else {
                    assert(out@[y] == e);
                    assert(out@[x] == out0[x]);
                    assert(key_le(out0[x].0, src0[mi as int].0));
                }
            }
        }
    }
    proof {
        broadcast use vstd::seq_lib::group_to_multiset_ensures;

        assert(src@.to_multiset() =~= Multiset::<(CharWithModifiers, usize)>::empty()) by {
            assert(src@ =~= Seq::<(CharWithModifiers, usize)>::empty());
        }
        assert(out@.to_multiset() =~= cs@.to_multiset());
        assert(out@.to_multiset().len() == cs@.to_multiset().len());
    }
    out
}

/// The label text of a child row, before truncation: the child's command
/// text, or `<n> subcommand(s)` for a pure prefix.
pub open spec fn spec_row_text(t: Trie, node: int) -> Seq<char> {
    match t.spec_node_command(node) {
        Some(c) => c,
        None => spec_digits(t.spec_children(node).len()) + seq![
            ' ',
            's',
            'u',
            'b',
            'c',
            'o',
            'm',
            'm',
            'a',
            'n',
            'd',
        ] + (if t.spec_children(node).len() == 1 {
            seq![' ']
        } else {
            seq!['s']
        }),
    }
}

/// The truncated label of one child row.
pub fn row_label(t: &Trie, node: usize) -> (r: String)
    requires
        (node as int) < t.nodes@.len(),
    ensures
        r@ == spec_ellipsis(
            spec_row_text(*t, node as int),
            WIDTH_FIRST,
            (WIDTH_FIRST + CHILD_OFFSET - 10) as u16,
        ),
{
    let text: String = match t.node_command_clone(node) {
        Some(c) => c,
        None => {
            let n = t.node_children_count(node);
            let mut s = usize_to_string(n);
            if n == 1 {
                s.append(" subcommand ");
            } else {
                s.append(" subcommands");
            }
            proof {
                reveal_strlit(" subcommand ");
                reveal_strlit(" subcommands");
                assert(" subcommand "@ =~= seq![
                    ' ',
                    's',
                    'u',
                    'b',
                    'c',
                    'o',
                    'm',
                    'm',
                    'a',
                    'n',
                    'd',
                    ' ',
                ]);
                assert(" subcommands"@ =~= seq![
                    ' ',
                    's',
                    'u',
                    'b',
                    'c',
                    'o',
                    'm',
                    'm',
                    'a',
                    'n',
                    'd',
                    's',
                ]);
                assert(s@ =~= spec_row_text(*t, node as int));
            }
            s
        },
    };
    ellipsis(text.as_str(), WIDTH_FIRST, WIDTH_FIRST + CHILD_OFFSET - 10)
}

/// The child indices an edge list points at.
pub open spec fn targets_of(cs: Seq<(CharWithModifiers, usize)>) -> Seq<int> {
    cs.map_values(|e: (CharWithModifiers, usize)| e.1 as int)
}

/// One further level under a prefix grandchild: the grandchild itself,
/// then (where it has children of its own) their targets.
pub open spec fn spec_flat_grand(t: Trie, cs: Seq<(CharWithModifiers, usize)>) -> Seq<int>
    decreases cs.len(),
{
    if cs.len() == 0 {
        Seq::empty()
    } else {
        let g = cs[0].1 as int;
        (if t.spec_children(g).len() == 0 {
            seq![g]
        } else {
            seq![g] + targets_of(t.spec_children(g))
        }) + spec_flat_grand(t, cs.drop_first())
    }
}

/// Up to two levels of descendants under a drawn child: leaf children
/// directly; for prefix children, their children expanded one further
/// level.
pub open spec fn spec_flat_children(t: Trie, cs: Seq<(CharWithModifiers, usize)>) -> Seq<int>
    decreases cs.len(),
{
    if cs.len() == 0 {
        Seq::empty()
    } else {
        let c = cs[0].1 as int;
        (if t.spec_children(c).len() == 0 {
            seq![c]
        } else {
            spec_flat_grand(t, t.spec_children(c))
        }) + spec_flat_children(t, cs.drop_first())
    }
}

/// Only the nodes that carry a command are previewed.
pub open spec fn spec_filter_commands(t: Trie, l: Seq<int>) -> Seq<int>
    decreases l.len(),
{
    if l.len() == 0 {
        Seq::empty()
    } else {
        (if t.spec_node_command(l[0]) is Some {
            seq![l[0]]
        } else {
            Seq::<int>::empty()
        }) + spec_filter_commands(t, l.drop_first())
    }
}

/// The unsorted preview list of one drawn child row.
pub open spec fn spec_preview_nodes(t: Trie, node: int) -> Seq<int> {
    spec_filter_commands(t, spec_flat_children(t, t.spec_children(node)))
}

/// Flattens up to two levels of descendants of `node` into the nodes to
/// preview, keeping only those that carry a command.
pub fn flatten_descendants(t: &Trie, node: usize) -> (r: Vec<usize>)
    requires
        t.wf(),
        (node as int) < t.nodes@.len(),
    ensures
        indices_of(r@) == spec_preview_nodes(*t, node as int),
        forall|k: int| 0 <= k < r@.len() ==> (#[trigger] r@[k] as int) < t.nodes@.len(),
{
    // First pass: the flattened candidate list.
    let mut flat: Vec<usize> = Vec::new();
    let cs = &t.nodes[node].children;
    proof {
        assert(cs@ == t.spec_children(node as int));
        assert(cs@.skip(0) =~= cs@);
        assert(flat@.map_values(|u: usize| u as int) =~= Seq::<int>::empty());
    }
    let mut i: usize = 0;
    while i < cs.len()
        invariant
            t.wf(),
            (node as int) < t.nodes@.len(),
            cs@ == t.spec_children(node as int),
            i <= cs@.len(),
            flat@.map_values(|u: usize| u as int) + spec_flat_children(*t, cs@.skip(i as int))
                =~= spec_flat_children(*t, cs@),
            forall|k: int| 0 <= k < flat@.len() ==> (#[trigger] flat@[k] as int) < t.nodes@.len(),
        decreases cs@.len() - i,
    {
        proof {
            assert(cs@.skip(i as int)[0] == cs@[i as int]);
            assert(cs@.skip(i as int).drop_first() =~= cs@.skip(i as int + 1));
            assert(t.wf_node(node as int));
            assert((node as int) < cs@[i as int].1 < t.nodes@.len());
        }
        let ghost flat0 = flat@;
        let c = cs[i].1;
        if t.node_children_count(c) == 0 {
            flat.push(c);
            proof {
                assert(flat@.map_values(|u: usize| u as int) =~= flat0.map_values(
                    |u: usize| u as int,
                ) + seq![c as int]);
            }
        } else {
            // The grandchild expansion of this prefix child.
            let gs = &t.nodes[c].children;
            proof {
                assert(gs@ == t.spec_children(c as int));
                assert(gs@.skip(0) =~= gs@);
                assert(flat@.map_values(|u: usize| u as int) + spec_flat_grand(*t, gs@.skip(0))
                    =~= flat0.map_values(|u: usize| u as int) + spec_flat_grand(*t, gs@));
            }
            let mut j: usize = 0;
            while j < gs.len()
                invariant
                    t.wf(),
                    (c as int) < t.nodes@.len(),
                    gs@ == t.spec_children(c as int),
                    j <= gs@.len(),
                    flat@.map_values(|u: usize| u as int) + spec_flat_grand(*t, gs@.skip(j as int))
                        =~= flat0.map_values(|u: usize| u as int) + spec_flat_grand(*t, gs@),
                    forall|k: int|
                        0 <= k < flat@.len() ==> (#[trigger] flat@[k] as int) < t.nodes@.len(),
                decreases gs@.len() - j,
            {
                proof {
                    assert(gs@.skip(j as int)[0] == gs@[j as int]);
                    assert(gs@.skip(j as int).drop_first() =~= gs@.skip(j as int + 1));
                    assert(t.wf_node(c as int));
                    assert((c as int) < gs@[j as int].1 < t.nodes@.len());
                }
                let ghost flat1 = flat@;
                let g = gs[j].1;
                flat.push(g);
                if t.node_children_count(g) > 0 {
                    let hs = &t.nodes[g].children;
                    proof {
                        assert(hs@ == t.spec_children(g as int));
                        assert(hs@.skip(0) =~= hs@);
                        assert(targets_of(hs@).skip(0) =~= targets_of(hs@));
                    }
                    let mut h: usize = 0;
                    while h < hs.len()
                        invariant
                            t.wf(),
                            (g as int) < t.nodes@.len(),
                            hs@ == t.spec_children(g as int),
                            h <= hs@.len(),
                            flat@.map_values(|u: usize| u as int) =~= flat1.map_values(
                                |u: usize| u as int,
                            ) + seq![g as int] + targets_of(hs@).take(h as int),
                            forall|k: int|
                                0 <= k < flat@.len() ==> (#[trigger] flat@[k] as int)
                                    < t.nodes@.len(),
                        decreases hs@.len() - h,
                    {
                        proof {
                            assert(t.wf_node(g as int));
                            assert((g as int) < hs@[h as int].1 < t.nodes@.len());
                        }
                        let ghost flat2 = flat@;
                        flat.push(hs[h].1);
                        h = h + 1;
                        proof {
                            assert(targets_of(hs@).len() == hs@.len());
                            assert(targets_of(hs@)[h as int - 1] == hs@[h as int - 1].1 as int);
                            assert(flat@ =~= flat2.push(hs@[h as int - 1].1));
                            let ma = flat@.map_values(|u: usize| u as int);
                            let mb = flat2.map_values(|u: usize| u as int);
                            assert forall|j: int|
                                0 <= j < ma.len() implies #[trigger] ma[j] == mb.push(
                                hs@[h as int - 1].1 as int,
                            )[j] by {
                                assert(ma[j] == flat@[j] as int);
                                if j < flat2.len() {
                                    assert(mb[j] == flat2[j] as int);
                                }
                            }
                            assert(ma =~= mb.push(hs@[h as int - 1].1 as int));
                            assert(targets_of(hs@).take(h as int) =~= targets_of(hs@).take(
                                h as int - 1,
                            ).push(hs@[h as int - 1].1 as int));
                            assert(flat@.map_values(|u: usize| u as int) =~= flat1.map_values(
                                |u: usize| u as int,
                            ) + seq![g as int] + targets_of(hs@).take(h as int));
                        }
                    }
                    proof {
                        assert(targets_of(hs@).take(hs@.len() as int) =~= targets_of(hs@));
                        assert(flat@.map_values(|u: usize| u as int) =~= flat1.map_values(
                            |u: usize| u as int,
                        ) + (seq![g as int] + targets_of(t.spec_children(g as int))));
                    }
                } else {
                    proof {
                        assert(flat@.map_values(|u: usize| u as int) =~= flat1.map_values(
                            |u: usize| u as int,
                        ) + seq![g as int]);
                    }
                }
                j = j + 1;
                proof {
                    assert(flat@.map_values(|u: usize| u as int) + spec_flat_grand(
                        *t,
                        gs@.skip(j as int),
                    ) =~= flat0.map_values(|u: usize| u as int) + spec_flat_grand(*t, gs@));
                }
            }
            proof {
                assert(gs@.skip(gs@.len() as int) =~= Seq::<(CharWithModifiers, usize)>::empty());
                assert(spec_flat_grand(*t, gs@.skip(gs@.len() as int)) =~= Seq::<int>::empty());
                assert(flat@.map_values(|u: usize| u as int) =~= flat0.map_values(
                    |u: usize| u as int,
                ) + spec_flat_grand(*t, t.spec_children(c as int)));
            }
        }
        i = i + 1;
        proof {
            assert(flat@.map_values(|u: usize| u as int) + spec_flat_children(
                *t,
                cs@.skip(i as int),
            ) =~= spec_flat_children(*t, cs@));
        }
    }
    proof {
        assert(cs@.skip(cs@.len() as int) =~= Seq::<(CharWithModifiers, usize)>::empty());
        assert(spec_flat_children(*t, cs@.skip(cs@.len() as int)) =~= Seq::<int>::empty());
        assert(flat@.map_values(|u: usize| u as int) =~= spec_flat_children(*t, cs@));
    }
    // Second pass: keep only nodes that carry a command.
    let mut r: Vec<usize> = Vec::new();
    proof {
        assert(flat@.map_values(|u: usize| u as int).skip(0) =~= flat@.map_values(
            |u: usize| u as int,
        ));
        assert(r@.map_values(|u: usize| u as int) =~= Seq::<int>::empty());
    }
    let mut k: usize = 0;
    while k < flat.len()
        invariant
            t.wf(),
            k <= flat@.len(),
            forall|x: int| 0 <= x < flat@.len() ==> (#[trigger] flat@[x] as int) < t.nodes@.len(),
            r@.map_values(|u: usize| u as int) + spec_filter_commands(
                *t,
                flat@.map_values(|u: usize| u as int).skip(k as int),
            ) =~= spec_filter_commands(*t, flat@.map_values(|u: usize| u as int)),
            forall|x: int| 0 <= x < r@.len() ==> (#[trigger] r@[x] as int) < t.nodes@.len(),
        decreases flat@.len() - k,
    {
        let ghost fl = flat@.map_values(|u: usize| u as int);
        proof {
            assert(fl.skip(k as int)[0] == fl[k as int]);
            assert(fl[k as int] == flat@[k as int] as int);
            assert(fl.skip(k as int).drop_first() =~= fl.skip(k as int + 1));
        }
        let ghost r0 = r@;
        let x = flat[k];
        if t.node_has_command(x) {
            r.push(x);
            proof {
                assert(r@.map_values(|u: usize| u as int) =~= r0.map_values(|u: usize| u as int)
                    + seq![x as int]);
            }
        }
        k = k + 1;
        proof {
            assert(r@.map_values(|u: usize| u as int) + spec_filter_commands(
                *t,
                fl.skip(k as int),
            ) =~= spec_filter_commands(*t, fl));
        }
    }
    proof {
        let fl = flat@.map_values(|u: usize| u as int);
        assert(fl.skip(fl.len() as int) =~= Seq::<int>::empty());
        assert(spec_filter_commands(*t, fl.skip(fl.len() as int)) =~= Seq::<int>::empty());
        assert(r@.map_values(|u: usize| u as int) =~= spec_preview_nodes(*t, node as int));
        assert(indices_of(r@) =~= r@.map_values(|u: usize| u as int));
    }
    r
}

/// Everything the command filter keeps carries a command.
pub proof fn lemma_filter_commands_props(t: Trie, l: Seq<int>)
    ensures
        forall|k: int|
            0 <= k < spec_filter_commands(t, l).len() ==> t.spec_node_command(
                #[trigger] spec_filter_commands(t, l)[k],
            ) is Some,
    decreases l.len(),
{
    if l.len() > 0 {
        lemma_filter_commands_props(t, l.drop_first());
        let rest = spec_filter_commands(t, l.drop_first());
        assert forall|k: int|
            0 <= k < spec_filter_commands(t, l).len() implies t.spec_node_command(
            #[trigger] spec_filter_commands(t, l)[k],
        ) is Some by {
            if t.spec_node_command(l[0]) is Some {
                if k > 0 {
                    assert(spec_filter_commands(t, l)[k] == rest[k - 1]);
                }
            } else {
                assert(spec_filter_commands(t, l)[k] == rest[k]);
            }
        }
    }
}

/// Preview order: by command text, lexicographically.
pub open spec fn cmd_le(t: Trie, a: int, b: int) -> bool {
    lex_le(t.spec_node_command(a)->0, t.spec_node_command(b)->0)
}

/// Lexicographic order is total.
pub proof fn lemma_lex_le_total(a: Seq<char>, b: Seq<char>)
    ensures
        lex_le(a, b) || lex_le(b, a),
    decreases a.len(),
{
    if a.len() > 0 && b.len() > 0 && (a[0] as u32) == (b[0] as u32) {
        lemma_lex_le_total(a.drop_first(), b.drop_first());
    }
}

/// Lexicographic order is transitive.
pub proof fn lemma_lex_le_trans(a: Seq<char>, b: Seq<char>, c: Seq<char>)
    requires
        lex_le(a, b),
        lex_le(b, c),
    ensures
        lex_le(a, c),
    decreases a.len(),
{
    if a.len() > 0 && b.len() > 0 && c.len() > 0 && (a[0] as u32) == (b[0] as u32) && (b[0] as u32)
        == (c[0] as u32) {
        lemma_lex_le_trans(a.drop_first(), b.drop_first(), c.drop_first());
    }
}

/// Sorts preview nodes by their command text; every node must carry one.
pub fn sort_preview(t: &Trie, v: &Vec<usize>) -> (r: Vec<usize>)
    requires
        t.wf(),
        forall|k: int| 0 <= k < v@.len() ==> (#[trigger] v@[k] as int) < t.nodes@.len(),
        forall|k: int|
            0 <= k < v@.len() ==> t.spec_node_command(#[trigger] v@[k] as int) is Some,
    ensures
        indices_of(r@).to_multiset() == indices_of(v@).to_multiset(),
        r@.len() == v@.len(),
        forall|k: int| 0 <= k < r@.len() ==> (#[trigger] r@[k] as int) < t.nodes@.len(),
        forall|k: int|
            0 <= k < r@.len() ==> t.spec_node_command(#[trigger] r@[k] as int) is Some,
        forall|x: int, y: int|
            0 <= x < y < r@.len() ==> cmd_le(*t, (#[trigger] r@[x]) as int, (#[trigger] r@[y]) as int),
{
    let mut src: Vec<usize> = Vec::new();
    let mut ci: usize = 0;
    while ci < v.len()
        invariant
            ci <= v@.len(),
            src@ =~= v@.take(ci as int),
        decreases v@.len() - ci,
    {
        src.push(v[ci]);
        ci = ci + 1;
        proof {
            assert(src@ =~= v@.take(ci as int));
        }
    }
    proof {
        assert(src@ =~= v@);
    }
    let mut out: Vec<usize> = Vec::new();
    proof {
        broadcast use vstd::seq_lib::group_to_multiset_ensures;

        assert(indices_of(out@) =~= Seq::<int>::empty());
        assert(indices_of(out@).to_multiset() =~= Multiset::<int>::empty());
        assert(indices_of(out@).to_multiset().add(indices_of(src@).to_multiset())
            =~= indices_of(v@).to_multiset());
    }
    while src.len() > 0
        invariant
            t.wf(),
            indices_of(out@).to_multiset().add(indices_of(src@).to_multiset()) =~= indices_of(
                v@,
            ).to_multiset(),
            out@.len() + src@.len() == v@.len(),
            forall|k: int| 0 <= k < src@.len() ==> (#[trigger] src@[k] as int) < t.nodes@.len(),
            forall|k: int|
                0 <= k < src@.len() ==> t.spec_node_command(#[trigger] src@[k] as int) is Some,
            forall|k: int| 0 <= k < out@.len() ==> (#[trigger] out@[k] as int) < t.nodes@.len(),
            forall|k: int|
                0 <= k < out@.len() ==> t.spec_node_command(#[trigger] out@[k] as int) is Some,
            forall|x: int, y: int|
                0 <= x < y < out@.len() ==> cmd_le(
                    *t,
                    (#[trigger] out@[x]) as int,
                    (#[trigger] out@[y]) as int,
                ),
            forall|x: int, y: int|
                0 <= x < out@.len() && 0 <= y < src@.len() ==> cmd_le(
                    *t,
                    (#[trigger] out@[x]) as int,
                    (#[trigger] src@[y]) as int,
                ),
        decreases src@.len(),
    {
        let mut mi: usize = 0;
        let mut k: usize = 1;
        proof {
            lemma_lex_le_total(
                t.spec_node_command(src@[0] as int)->0,
                t.spec_node_command(src@[0] as int)->0,
            );
        }
        while k < src.len()
            invariant
                t.wf(),
                mi < src@.len(),
                k <= src@.len(),
                src@.len() > 0,
                forall|j: int| 0 <= j < src@.len() ==> (#[trigger] src@[j] as int) < t.nodes@.len(),
                forall|j: int|
                    0 <= j < src@.len() ==> t.spec_node_command(#[trigger] src@[j] as int) is Some,
                forall|j: int|
                    0 <= j < k ==> cmd_le(*t, src@[mi as int] as int, (#[trigger] src@[j]) as int),
            decreases src@.len() - k,
        {
            let ca = match t.node_command_clone(src[mi]) {
                Some(c) => c,
                None => {
                    proof {
                        assert(false);
                    }
                    String::new()
                },
            };
            let cb = match t.node_command_clone(src[k]) {
                Some(c) => c,
                None => {
                    proof {
                        assert(false);
                    }
                    String::new()
                },
            };
            if !lex_le_exec(ca.as_str(), cb.as_str()) {
                proof {
                    lemma_lex_le_total(
                        t.spec_node_command(src@[mi as int] as int)->0,
                        t.spec_node_command(src@[k as int] as int)->0,
                    );
                    assert forall|j: int|
                        0 <= j < k + 1 implies cmd_le(
                        *t,
                        src@[k as int] as int,
                        (#[trigger] src@[j]) as int,
                    ) by {
                        if j < k {
                            assert(cmd_le(*t, src@[mi as int] as int, src@[j] as int));
                            lemma_lex_le_trans(
                                t.spec_node_command(src@[k as int] as int)->0,
                                t.spec_node_command(src@[mi as int] as int)->0,
                                t.spec_node_command(src@[j] as int)->0,
                            );
                        } else {
                            lemma_lex_le_total(
                                t.spec_node_command(src@[k as int] as int)->0,
                                t.spec_node_command(src@[k as int] as int)->0,
                            );
                        }
                    }
                }
                mi = k;
            }
            k = k + 1;
        }
        let ghost src0 = src@;
        let ghost out0 = out@;
        let e = src.remove(mi);
        out.push(e);
        proof {
            broadcast use vstd::seq_lib::group_to_multiset_ensures;

            assert(src@ =~= src0.remove(mi as int));
            assert(out@ =~= out0.push(e));
            assert forall|j: int|
                0 <= j < indices_of(out@).len() implies #[trigger] indices_of(out@)[j]
                == indices_of(out0).push(e as int)[j] by {
                assert(indices_of(out@)[j] == out@[j] as int);
                if j < out0.len() {
                    assert(indices_of(out0)[j] == out0[j] as int);
                }
            }
            assert(indices_of(out@) =~= indices_of(out0).push(e as int));
            assert forall|j: int|
                0 <= j < indices_of(src@).len() implies #[trigger] indices_of(src@)[j]
                == indices_of(src0).remove(mi as int)[j] by {
                assert(indices_of(src@)[j] == src@[j] as int);
                if j < mi {
                    assert(src@[j] == src0[j]);
                    assert(indices_of(src0)[j] == src0[j] as int);
                } else {
                    assert(src@[j] == src0[j + 1]);
                    assert(indices_of(src0)[j + 1] == src0[j + 1] as int);
                }
            }
            assert(indices_of(src@) =~= indices_of(src0).remove(mi as int));
            assert(indices_of(out@).to_multiset() =~= indices_of(out0).to_multiset().insert(
                e as int,
            ));
            assert(indices_of(src0)[mi as int] == e as int);
            assert(indices_of(src0).to_multiset() =~= indices_of(src@).to_multiset().insert(
                e as int,
            ));
            assert(indices_of(out@).to_multiset().add(indices_of(src@).to_multiset())
                =~= indices_of(v@).to_multiset());
            assert forall|x: int, y: int|
                0 <= x < out@.len() && 0 <= y < src@.len() implies cmd_le(
                *t,
                (#[trigger] out@[x]) as int,
                (#[trigger] src@[y]) as int,
            ) by {
                let orig_y = if y < mi {
                    y
                } else {
                    y + 1
                };
                assert(src@[y] == src0[orig_y]);
                if x < out0.len() {
                    assert(out@[x] == out0[x]);
                    assert(cmd_le(*t, out0[x] as int, src0[orig_y] as int));
                } else {
                    assert(out@[x] == e);
                    assert(cmd_le(*t, src0[mi as int] as int, src0[orig_y] as int));
                }
            }
            assert forall|x: int, y: int|
                0 <= x < y < out@.len() implies cmd_le(
                *t,
                (#[trigger] out@[x]) as int,
                (#[trigger] out@[y]) as int,
            ) by {
                if y < out0.len() {
                    assert(out@[x] == out0[x] && out@[y] == out0[y]);
                } else {
                    assert(out@[y] == e);
                    assert(out@[x] == out0[x]);
                    assert(cmd_le(*t, out0[x] as int, src0[mi as int] as int));
                }
            }
        }
    }
    proof {
        broadcast use vstd::seq_lib::group_to_multiset_ensures;

        assert(indices_of(src@).to_multiset() =~= Multiset::<int>::empty()) by {
            assert(indices_of(src@) =~= Seq::<int>::empty());
        }
        assert(indices_of(out@).to_multiset() =~= indices_of(v@).to_multiset());
        assert(indices_of(out@).to_multiset().len() == indices_of(v@).to_multiset().len());
        assert(indices_of(out@).len() == out@.len());
        assert(indices_of(v@).len() == v@.len());
    }
    out
}

/// Whether the parent node itself is shown above its preview: it has a
/// command, and some direct child's command does not already contain it
/// as a substring.
pub open spec fn spec_should_prepend(t: Trie, node: int) -> bool {
    match t.spec_node_command(node) {
        Some(b) => exists|k: int|
            0 <= k < t.spec_children(node).len() && match t.spec_node_command(
                (#[trigger] t.spec_children(node)[k]).1 as int,
            ) {
                Some(vc) => !crate::strutil::contains_seq(vc, b),
                None => false,
            },
        None => false,
    }
}

pub fn should_prepend(t: &Trie, node: usize) -> (r: bool)
    requires
        t.wf(),
        (node as int) < t.nodes@.len(),
    ensures
        r == spec_should_prepend(*t, node as int),
{
    let base = match t.node_command_clone(node) {
        Some(b) => b,
        None => {
            return false;
        },
    };
    let cs = &t.nodes[node].children;
    proof {
        assert(cs@ == t.spec_children(node as int));
    }
    let mut k: usize = 0;
    while k < cs.len()
        invariant
            t.wf(),
            (node as int) < t.nodes@.len(),
            cs@ == t.spec_children(node as int),
            k <= cs@.len(),
            t.spec_node_command(node as int) == Some(base@),
            forall|j: int|
                0 <= j < k ==> !match t.spec_node_command(
                    (#[trigger] cs@[j]).1 as int,
                ) {
                    Some(vc) => !crate::strutil::contains_seq(vc, base@),
                    None => false,
                },
        decreases cs@.len() - k,
    {
        proof {
            assert(t.wf_node(node as int));
            assert((node as int) < cs@[k as int].1 < t.nodes@.len());
        }
        let child = cs[k].1;
        match t.node_command_clone(child) {
            Some(vc) => {
                if !crate::strutil::contains_exec(vc.as_str(), base.as_str()) {
                    proof {
                        assert(0 <= k < t.spec_children(node as int).len() && match t.spec_node_command(
                            t.spec_children(node as int)[k as int].1 as int,
                        ) {
                            Some(vcs) => !crate::strutil::contains_seq(vcs, base@),
                            None => false,
                        });
                    }
                    return true;
                }
            },
            None => {},
        }
        k = k + 1;
    }
    false
}

/// One entry of a preview list: a trie node, or the marker left where a
/// tail was trimmed away.
#[derive(Copy, Clone, Debug, Eq, PartialEq, Structural)]
pub enum PreviewItem {
    Node(usize),
    Placeholder,
}

/// The preview entries of one drawn child row.
pub struct PreviewBlock {
    pub row: usize,
    pub items: Vec<PreviewItem>,
}

/// Whether `new` is what trimming leaves of `orig`: a prefix, possibly a
/// proper prefix closed by one placeholder entry.
pub open spec fn is_trim_of(new: Seq<PreviewItem>, orig: Seq<PreviewItem>) -> bool {
    exists|k: int|
        0 <= k <= orig.len() && (new == #[trigger] orig.take(k) || (k < orig.len() && new
            == orig.take(k).push(PreviewItem::Placeholder)))
}

proof fn lemma_trim_of_step(a: Seq<PreviewItem>, b: Seq<PreviewItem>, k: int)
    requires
        is_trim_of(b, a),
        0 <= k < b.len(),
    ensures
        is_trim_of(b.take(k).push(PreviewItem::Placeholder), a),
{
    let m = choose|m: int|
        0 <= m <= a.len() && (b == #[trigger] a.take(m) || (m < a.len() && b == a.take(m).push(
            PreviewItem::Placeholder,
        )));
    if b == a.take(m) {
        assert(b.take(k) =~= a.take(k));
    } else {
        assert(k < b.len());
        assert(b.len() == m + 1);
        assert(k <= m);
        assert(b.take(k) =~= a.take(m).take(k));
        assert(a.take(m).take(k) =~= a.take(k));
    }
}

/// A trim of a trim is a trim.
proof fn lemma_trim_of_trans(a: Seq<PreviewItem>, b: Seq<PreviewItem>, c: Seq<PreviewItem>)
    requires
        is_trim_of(a, b),
        is_trim_of(b, c),
    ensures
        is_trim_of(a, c),
{
    let k = choose|k: int|
        0 <= k <= b.len() && (a == #[trigger] b.take(k) || (k < b.len() && a == b.take(k).push(
            PreviewItem::Placeholder,
        )));
    let m = choose|m: int|
        0 <= m <= c.len() && (b == #[trigger] c.take(m) || (m < c.len() && b == c.take(m).push(
            PreviewItem::Placeholder,
        )));
    if b == c.take(m) {
        if a == b.take(k) {
            assert(a =~= c.take(k));
        } else {
            assert(b.take(k) =~= c.take(k));
            assert(k < m);
        }
    } else {
        // b itself ends in the placeholder, at position m.
        if a == b.take(k) {
            if k <= m {
                assert(a =~= c.take(k));
            } else {
                assert(k == m + 1);
                assert(b.take(k) =~= b);
                assert(a == c.take(m).push(PreviewItem::Placeholder));
            }
        } else {
            assert(k < b.len());
            assert(k <= m);
            assert(b.take(k) =~= c.take(k));
        }
    }
}

/// One list after one trimming pass: a list with more than one entry
/// keeps its first half and gains the placeholder.
pub open spec fn spec_trim_list(l: Seq<PreviewItem>) -> Seq<PreviewItem> {
    if l.len() > 1 {
        l.take((l.len() / 2) as int).push(PreviewItem::Placeholder)
    } else {
        l
    }
}

/// How many entries one pass removes from one list.
pub open spec fn spec_list_cut(l: Seq<PreviewItem>) -> int {
    if l.len() > 1 {
        l.len() - l.len() / 2
    } else {
        0
    }
}

/// One trimming pass over every list.
pub open spec fn spec_pass(ls: Seq<Seq<PreviewItem>>) -> Seq<Seq<PreviewItem>> {
    Seq::new(ls.len(), |i: int| spec_trim_list(ls[i]))
}

/// The entries one pass removes in total.
pub open spec fn spec_pass_cut(ls: Seq<Seq<PreviewItem>>) -> int
    decreases ls.len(),
{
    if ls.len() == 0 {
        0int
    } else {
        spec_pass_cut(ls.drop_last()) + spec_list_cut(ls.last())
    }
}

/// Whether any list still has more than one entry to trim.
pub open spec fn any_trimmable(ls: Seq<Seq<PreviewItem>>) -> bool {
    exists|i: int| 0 <= i < ls.len() && (#[trigger] ls[i]).len() > 1
}

/// A pass removes something whenever some list can still be trimmed.
proof fn lemma_pass_cut_pos(ls: Seq<Seq<PreviewItem>>)
    ensures
        spec_pass_cut(ls) >= 0,
        any_trimmable(ls) ==> spec_pass_cut(ls) >= 1,
    decreases ls.len(),
{
    if ls.len() > 0 {
        lemma_pass_cut_pos(ls.drop_last());
        if any_trimmable(ls) && ls.last().len() <= 1 {
            let i = choose|i: int| 0 <= i < ls.len() && (#[trigger] ls[i]).len() > 1;
            assert(i < ls.len() - 1);
            assert(ls.drop_last()[i] == ls[i]);
            assert(any_trimmable(ls.drop_last()));
        }
    }
}

/// What the halving passes leave of the preview lists: passes run until
/// the counted trimmed entries cover the excess, or no list has more
/// than one entry left.
pub open spec fn spec_reduce(ls: Seq<Seq<PreviewItem>>, excess: int) -> Seq<Seq<PreviewItem>>
    decreases excess
        via spec_reduce_decreases
{
    if excess <= 0 {
        ls
    } else if !any_trimmable(ls) {
        ls
    } else {
        spec_reduce(
            spec_pass(ls),
            if excess - spec_pass_cut(ls) >= 0 {
                excess - spec_pass_cut(ls)
            } else {
                0int
            },
        )
    }
}

#[via_fn]
proof fn spec_reduce_decreases(ls: Seq<Seq<PreviewItem>>, excess: int) {
    if excess > 0 && any_trimmable(ls) {
        lemma_pass_cut_pos(ls);
    }
}

/// The reduction keeps the number of lists and trims each one: every
/// survivor is an initial run of its original list, possibly closed by
/// the placeholder.
proof fn lemma_spec_reduce_trim(ls: Seq<Seq<PreviewItem>>, excess: int)
    ensures
        spec_reduce(ls, excess).len() == ls.len(),
        forall|i: int|
            0 <= i < ls.len() ==> is_trim_of(#[trigger] spec_reduce(ls, excess)[i], ls[i]),
    decreases (if excess > 0 {
        excess
    } else {
        0int
    }),
{
    if excess <= 0 || !any_trimmable(ls) {
        assert forall|i: int|
            0 <= i < ls.len() implies is_trim_of(#[trigger] spec_reduce(ls, excess)[i], ls[i]) by {
            assert(ls[i].take(ls[i].len() as int) =~= ls[i]);
        }
    } else {
        lemma_pass_cut_pos(ls);
        let next = if excess - spec_pass_cut(ls) >= 0 {
            excess - spec_pass_cut(ls)
        } else {
            0int
        };
        lemma_spec_reduce_trim(spec_pass(ls), next);
        assert forall|i: int|
            0 <= i < ls.len() implies is_trim_of(#[trigger] spec_reduce(ls, excess)[i], ls[i]) by {
            assert(spec_reduce(ls, excess)[i] == spec_reduce(spec_pass(ls), next)[i]);
            assert(is_trim_of(spec_reduce(spec_pass(ls), next)[i], spec_pass(ls)[i]));
            assert(spec_pass(ls)[i] == spec_trim_list(ls[i]));
            assert(is_trim_of(spec_trim_list(ls[i]), ls[i])) by {
                if ls[i].len() > 1 {
                    assert(spec_trim_list(ls[i]) == ls[i].take((ls[i].len() / 2) as int).push(
                        PreviewItem::Placeholder,
                    ));
                } else {
                    assert(ls[i].take(ls[i].len() as int) =~= ls[i]);
                }
            }
            lemma_trim_of_trans(spec_reduce(spec_pass(ls), next)[i], spec_trim_list(ls[i]), ls[i]);
        }
    }
}

/// The preview lists a block sequence holds.
pub open spec fn blocks_items(blocks: Seq<PreviewBlock>) -> Seq<Seq<PreviewItem>> {
    Seq::new(blocks.len(), |i: int| blocks[i].items@)
}

/// Saturating addition.
fn sat_add(a: usize, b: usize) -> (r: usize)
    ensures
        r as int == if a + b <= usize::MAX {
            a + b
        } else {
            usize::MAX as int
        },
{
    if a <= usize::MAX - b {
        a + b
    } else {
        usize::MAX
    }
}

/// Trims the preview lists to the height budget: passes run over the
/// lists, halving each list that still has more than one entry and
/// closing it with a placeholder, until the counted trimmed entries
/// cover the excess or nothing is left to trim.  The result is exactly
/// what the halving passes compute, each list an initial run of its
/// original.
pub fn reduce_previews(blocks: &mut Vec<PreviewBlock>, excess: usize)
    ensures
        final(blocks)@.len() == old(blocks)@.len(),
        forall|i: int|
            0 <= i < old(blocks)@.len() ==> (#[trigger] final(blocks)@[i]).row == old(
                blocks,
            )@[i].row,
        blocks_items(final(blocks)@) == spec_reduce(blocks_items(old(blocks)@), excess as int),
        forall|i: int|
            0 <= i < old(blocks)@.len() ==> is_trim_of(
                (#[trigger] final(blocks)@[i]).items@,
                old(blocks)@[i].items@,
            ),
{
    let ghost orig = blocks_items(old(blocks)@);
    proof {
        lemma_spec_reduce_trim(orig, excess as int);
    }
    let mut removed: usize = 0;
    while removed < excess
        invariant
            orig == blocks_items(old(blocks)@),
            removed <= excess,
            blocks@.len() == old(blocks)@.len(),
            forall|i: int|
                0 <= i < old(blocks)@.len() ==> (#[trigger] blocks@[i]).row == old(
                    blocks,
                )@[i].row,
            spec_reduce(orig, excess as int) == spec_reduce(
                blocks_items(blocks@),
                excess - removed,
            ),
        decreases excess - removed,
    {
        let ghost removed0 = removed;
        let ghost ls0 = blocks_items(blocks@);
        let mut any: bool = false;
        let mut i: usize = 0;
        while i < blocks.len()
            invariant
                orig == blocks_items(old(blocks)@),
                removed0 <= removed,
                removed <= excess,
                removed0 < excess,
                i <= blocks@.len(),
                blocks@.len() == old(blocks)@.len(),
                blocks@.len() == ls0.len(),
                forall|j: int|
                    0 <= j < old(blocks)@.len() ==> (#[trigger] blocks@[j]).row == old(
                        blocks,
                    )@[j].row,
                forall|j: int|
                    0 <= j < i ==> (#[trigger] blocks@[j]).items@ == spec_trim_list(ls0[j]),
                forall|j: int| i <= j < blocks@.len() ==> (#[trigger] blocks@[j]).items@ == ls0[j],
                removed as int == (if removed0 + spec_pass_cut(ls0.take(i as int)) <= excess {
                    removed0 + spec_pass_cut(ls0.take(i as int))
                } else {
                    excess as int
                }),
                any == any_trimmable(ls0.take(i as int)),
                spec_reduce(orig, excess as int) == spec_reduce(ls0, excess - removed0),
            decreases blocks@.len() - i,
        {
            proof {
                assert(ls0.take(i as int + 1).drop_last() =~= ls0.take(i as int));
                assert(ls0.take(i as int + 1).last() == ls0[i as int]);
            }
            let len = blocks[i].items.len();
            proof {
                assert(blocks@[i as int].items@ == ls0[i as int]);
            }
            if len > 1 {
                let cut = len - len / 2;
                let keep = len / 2;
                let ghost blocks0 = blocks@;
                let bl = &mut blocks[i];
                bl.items.truncate(keep);
                bl.items.push(PreviewItem::Placeholder);
                proof {
                    assert(blocks@[i as int].items@ =~= ls0[i as int].take(keep as int).push(
                        PreviewItem::Placeholder,
                    ));
                    assert(blocks@[i as int].items@ == spec_trim_list(ls0[i as int]));
                    assert forall|j: int|
                        0 <= j < blocks@.len() && j != i implies #[trigger] blocks@[j]
                        == blocks0[j] by {}
                    // This list was trimmable, so the pass makes progress.
                    assert(spec_list_cut(ls0[i as int]) == cut as int);
                    assert(any_trimmable(ls0.take(i as int + 1))) by {
                        assert(ls0.take(i as int + 1)[i as int] == ls0[i as int]);
                    }
                }
                if cut <= excess - removed {
                    removed = removed + cut;
                } else {
                    removed = excess;
                }
                any = true;
            } else {
                proof {
                    assert(spec_trim_list(ls0[i as int]) == ls0[i as int]);
                    assert(spec_list_cut(ls0[i as int]) == 0);
                    assert(any_trimmable(ls0.take(i as int + 1)) == any_trimmable(
                        ls0.take(i as int),
                    )) by {
                        if any_trimmable(ls0.take(i as int + 1)) {
                            let w = choose|w: int|
                                0 <= w < ls0.take(i as int + 1).len() && (#[trigger] ls0.take(
                                    i as int + 1,
                                )[w]).len() > 1;
                            if w == i {
                                assert(false);
                            } else {
                                assert(ls0.take(i as int)[w] == ls0.take(i as int + 1)[w]);
                            }
                        }
                        if any_trimmable(ls0.take(i as int)) {
                            let w = choose|w: int|
                                0 <= w < ls0.take(i as int).len() && (#[trigger] ls0.take(
                                    i as int,
                                )[w]).len() > 1;
                            assert(ls0.take(i as int + 1)[w] == ls0.take(i as int)[w]);
                        }
                    }
                }
            }
            i = i + 1;
        }
        proof {
            assert(ls0.take(blocks@.len() as int) =~= ls0);
            // One full exec pass is one spec pass.
            let cur = blocks_items(blocks@);
            assert forall|j: int| 0 <= j < cur.len() implies #[trigger] cur[j] == spec_pass(
                ls0,
            )[j] by {
                assert(cur[j] == blocks@[j].items@);
                assert(spec_pass(ls0)[j] == spec_trim_list(ls0[j]));
            }
            assert(cur =~= spec_pass(ls0));
            assert(any == any_trimmable(ls0));
        }
        if !any {
            proof {
                // Nothing was trimmable, so the pass changed nothing and
                // the reduction is already done.
                assert forall|j: int| 0 <= j < ls0.len() implies (#[trigger] ls0[j]).len() <= 1 by {
                    if ls0[j].len() > 1 {
                        assert(any_trimmable(ls0));
                    }
                }
                assert(blocks_items(blocks@) =~= ls0);
                assert(spec_reduce(ls0, excess - removed0) == ls0);
                assert(spec_reduce(blocks_items(blocks@), excess - removed0) == blocks_items(
                    blocks@,
                ));
                assert(spec_reduce(orig, excess as int) == blocks_items(blocks@));
                assert(spec_reduce(blocks_items(blocks@), excess - removed) == blocks_items(
                    blocks@,
                ));
                lemma_reduce_ensures_helper(orig, excess as int, blocks@, old(blocks)@);
            }
            return ;
        }
        proof {
            // The pass advanced the reduction by what it cut.
            let rem0 = excess - removed0;
            assert(rem0 > 0);
            lemma_pass_cut_pos(ls0);
            let cutp = spec_pass_cut(ls0);
            assert(spec_reduce(ls0, rem0) == spec_reduce(
                spec_pass(ls0),
                if rem0 - cutp >= 0 {
                    rem0 - cutp
                } else {
                    0int
                },
            ));
            assert(removed as int == (if removed0 + cutp <= excess {
                removed0 + cutp
            } else {
                excess as int
            }));
            assert(excess - removed == (if rem0 - cutp >= 0 {
                rem0 - cutp
            } else {
                0int
            }));
            assert(spec_reduce(orig, excess as int) == spec_reduce(
                blocks_items(blocks@),
                excess - removed,
            ));
            assert(removed > removed0 || removed == excess);
        }
    }
    proof {
        assert(spec_reduce(blocks_items(blocks@), 0) == blocks_items(blocks@));
        assert(spec_reduce(orig, excess as int) == blocks_items(blocks@));
        lemma_reduce_ensures_helper(orig, excess as int, blocks@, old(blocks)@);
    }
}

/// Transfers the per-list trim facts from the reduction spec to the
/// final block sequence.
proof fn lemma_reduce_ensures_helper(
    orig: Seq<Seq<PreviewItem>>,
    excess: int,
    cur: Seq<PreviewBlock>,
    before: Seq<PreviewBlock>,
)
    requires
        orig == blocks_items(before),
        cur.len() == before.len(),
        blocks_items(cur) == spec_reduce(orig, excess),
    ensures
        forall|i: int|
            0 <= i < before.len() ==> is_trim_of((#[trigger] cur[i]).items@, before[i].items@),
{
    lemma_spec_reduce_trim(orig, excess);
    assert forall|i: int|
        0 <= i < before.len() implies is_trim_of((#[trigger] cur[i]).items@, before[i].items@) by {
        assert(blocks_items(cur)[i] == cur[i].items@);
        assert(orig[i] == before[i].items@);
        assert(is_trim_of(spec_reduce(orig, excess)[i], orig[i]));
    }
}

/// Which box-drawing connector a preview row gets: distinct corners for
/// a single entry, the first, the middle ones and the last of a list.
#[derive(Copy, Clone, Debug, Eq, PartialEq, Structural)]
pub enum Glyph {
    DownHorizontal,
    Vertical,
    UpRight,
    VerticalLeft,
}

pub open spec fn spec_glyph(index: int, last: int) -> Glyph {
    if index == last {
        if index > 0 {
            Glyph::UpRight
        } else {
            Glyph::VerticalLeft
        }
    } else if index == 0 {
        Glyph::DownHorizontal
    } else {
        Glyph::Vertical
    }
}

/// The connector for entry `index` of a preview list whose last entry
/// sits at `last`.
pub fn glyph_for(index: usize, last: usize) -> (r: Glyph)
    ensures
        r == spec_glyph(index as int, last as int),
{
    if index == last {
        if index > 0 {
            Glyph::UpRight
        } else {
            Glyph::VerticalLeft
        }
    } else if index == 0 {
        Glyph::DownHorizontal
    } else {
        Glyph::Vertical
    }
}

/// A list of preview nodes as plain entries.
pub open spec fn preview_items_of(ps: Seq<usize>) -> Seq<PreviewItem> {
    ps.map_values(|u: usize| PreviewItem::Node(u))
}

/// Whether `ps` is the previewed descendants of `node`: the same nodes
/// the flattening finds, ordered by their command text.
pub open spec fn spec_sorted_preview(t: Trie, node: usize, ps: Seq<usize>) -> bool {
    &&& indices_of(ps).to_multiset() == spec_preview_nodes(t, node as int).to_multiset()
    &&& forall|x: int, y: int|
        0 <= x < y < ps.len() ==> cmd_le(t, (#[trigger] ps[x]) as int, (#[trigger] ps[y]) as int)
}

/// What a row's untrimmed preview list is: the row's own node first where
/// the prepend rule asks for it, then the sorted descendants.
pub open spec fn spec_preview_plan(t: Trie, node: usize, full: Seq<PreviewItem>) -> bool {
    exists|ps: Seq<usize>|
        #[trigger] spec_sorted_preview(t, node, ps) && full == (if spec_should_prepend(
            t,
            node as int,
        ) {
            seq![PreviewItem::Node(node)]
        } else {
            Seq::<PreviewItem>::empty()
        }) + preview_items_of(ps)
}

/// The total number of entries over all preview lists.
pub open spec fn total_items(fulls: Seq<Seq<PreviewItem>>) -> int
    decreases fulls.len(),
{
    if fulls.len() == 0 {
        0int
    } else {
        total_items(fulls.drop_last()) + fulls.last().len()
    }
}

/// One row of the child list.
pub struct ChildRow {
    pub key: CharWithModifiers,
    pub node: usize,
    pub space_row: bool,
    pub final_badge: bool,
    pub label: String,
}

/// Everything one keystroke's redraw shows, as plain data.
pub struct Screen {
    pub compact: bool,
    pub waiting: bool,
    pub prompt_valid: String,
    pub prompt_invalid: String,
    pub rows: Vec<ChildRow>,
    pub blocks: Vec<PreviewBlock>,
    pub abbr: bool,
}

/// The chord/child pairs shown by the non-synthetic rows.
pub open spec fn row_pairs(rows: Seq<ChildRow>, off: int) -> Seq<(CharWithModifiers, usize)> {
    rows.skip(off).map_values(|r: ChildRow| (r.key, r.node))
}

/// What the preview blocks of a screen are: one block per real child
/// row, in row order, each a trimming of its row's planned preview list;
/// untrimmed exactly when everything fit the terminal height.
pub open spec fn spec_blocks_plan(
    t: Trie,
    cursor: int,
    rows: Seq<ChildRow>,
    blocks: Seq<PreviewBlock>,
    height: int,
    fulls: Seq<Seq<PreviewItem>>,
) -> bool {
    let off: int = if t.spec_node_command(cursor) is Some {
        1int
    } else {
        0int
    };
    &&& fulls.len() == blocks.len()
    &&& blocks.len() == t.spec_children(cursor).len()
    &&& forall|b: int|
        0 <= b < blocks.len() ==> {
            let blk = #[trigger] blocks[b];
            &&& blk.row == b + off
            &&& spec_preview_plan(t, rows[b + off].node, fulls[b])
            &&& is_trim_of(blk.items@, fulls[b])
        }
    &&& ({
        // The shown lists are exactly what the halving passes leave of
        // the planned ones, run against the rows' overflow past the
        // terminal height (the row total saturates at the counter's
        // range); with no overflow nothing is trimmed.
        let sat_total = if rows.len() + total_items(fulls) <= usize::MAX as int {
            rows.len() + total_items(fulls)
        } else {
            usize::MAX as int
        };
        let excess0 = if sat_total > height {
            sat_total - height
        } else {
            0int
        };
        blocks_items(blocks) == spec_reduce(fulls, excess0)
    })
}

/// Computes the whole overlay for the session's current state.
///
/// Below 80 columns only the prompt line is rendered.  Otherwise the child list
/// of the cursor node is laid out in display order — prefixed by a
/// synthetic select row when the cursor node itself holds a command —
/// and each real row gets a preview of up to two levels of descendants,
/// sorted by command text, trimmed to the terminal height.
#[verifier::rlimit(60)]
#[verifier::spinoff_prover]
pub fn render(tui: &crate::tui::Tui, term_width: u16, term_height: u16) -> (scr: Screen)
    requires
        tui.inv(),
        tui.key_buffer@.len() < 100000000,
    ensures
        scr.compact == (term_width < 80),
        scr.abbr == tui.abbr,
        scr.waiting == (tui.key_buffer@.len() == 0),
        scr.prompt_valid@ == crate::tui::spec_buffer_display(
            tui.key_buffer@.take(crate::tui::valid_prefix_len(tui.key_buffer@)),
        ),
        scr.prompt_invalid@ == crate::tui::spec_buffer_display(
            tui.key_buffer@.skip(crate::tui::valid_prefix_len(tui.key_buffer@)),
        ),
        scr.compact ==> scr.rows@.len() == 0,
        !scr.compact ==> ({
            let t = tui.trie;
            let cur = tui.node as int;
            let has_cmd = t.spec_node_command(cur) is Some;
            let off: int = if has_cmd {
                1
            } else {
                0
            };
            &&& scr.rows@.len() == off + t.spec_children(cur).len()
            &&& (has_cmd ==> scr.rows@[0].space_row && scr.rows@[0].key
                == CharWithModifiers::Unmodified(' ') && scr.rows@[0].node == tui.node
                && scr.rows@[0].final_badge)
            &&& forall|i: int|
                off <= i < scr.rows@.len() ==> {
                    let row = #[trigger] scr.rows@[i];
                    &&& !row.space_row
                    &&& (row.node as int) < t.nodes@.len()
                    &&& row.label@ == spec_ellipsis(
                        spec_row_text(t, row.node as int),
                        WIDTH_FIRST,
                        (WIDTH_FIRST + CHILD_OFFSET - 10) as u16,
                    )
                    &&& row.final_badge == (t.spec_children(row.node as int).len() == 0
                        && t.spec_node_command(row.node as int) is Some)
                }
            &&& forall|i: int, j: int|
                off <= i < j < scr.rows@.len() ==> key_le(
                    (#[trigger] scr.rows@[i]).key,
                    (#[trigger] scr.rows@[j]).key,
                )
            &&& row_pairs(scr.rows@, off).to_multiset() == t.spec_children(cur).to_multiset()
        }),
        scr.compact ==> scr.blocks@.len() == 0,
        !scr.compact ==> exists|fulls: Seq<Seq<PreviewItem>>|
            spec_blocks_plan(
                tui.trie,
                tui.node as int,
                scr.rows@,
                scr.blocks@,
                term_height as int,
                fulls,
            ),
{
    let t = &tui.trie;
    let cur = tui.node;
    let compact = term_width < 80;
    // The prompt: valid prefix and invalid tail of the typed history.
    let vl = tui.parents.len();
    proof {
        crate::tui::lemma_vpl_char(tui.key_buffer@);
        assert(vl as int == crate::tui::valid_prefix_len(tui.key_buffer@));
    }
    let mut valid_part: Vec<crate::nodes::CharWithModifiersAndValidity> = Vec::new();
    let mut invalid_part: Vec<crate::nodes::CharWithModifiersAndValidity> = Vec::new();
    let mut bi: usize = 0;
    while bi < tui.key_buffer.len()
        invariant
            bi <= tui.key_buffer@.len(),
            vl as int == crate::tui::valid_prefix_len(tui.key_buffer@),
            vl <= tui.key_buffer@.len(),
            valid_part@ =~= tui.key_buffer@.take(vl as int).take(
                if bi <= vl {
                    bi as int
                } else {
                    vl as int
                },
            ),
            invalid_part@ =~= tui.key_buffer@.skip(vl as int).take(
                if bi <= vl {
                    0int
                } else {
                    bi - vl
                },
            ),
        decreases tui.key_buffer@.len() - bi,
    {
        let e = tui.key_buffer[bi];
        if bi < vl {
            valid_part.push(e);
        } else {
            invalid_part.push(e);
        }
        bi = bi + 1;
        proof {
            if bi <= vl {
                assert(valid_part@ =~= tui.key_buffer@.take(vl as int).take(bi as int));
                assert(invalid_part@ =~= tui.key_buffer@.skip(vl as int).take(0));
            } else {
                assert(valid_part@ =~= tui.key_buffer@.take(vl as int).take(vl as int));
                assert(invalid_part@ =~= tui.key_buffer@.skip(vl as int).take(bi - vl));
            }
        }
    }
    proof {
        let b = tui.key_buffer@;
        if b.len() <= vl {
            assert(valid_part@ =~= b.take(vl as int));
            assert(invalid_part@ =~= b.skip(vl as int));
        } else {
            assert(b.take(vl as int).take(vl as int) =~= b.take(vl as int));
            assert(valid_part@ =~= b.take(vl as int));
            assert(b.skip(vl as int).take(b.len() - vl) =~= b.skip(vl as int));
            assert(invalid_part@ =~= b.skip(vl as int));
        }
    }
    let prompt_valid = crate::tui::buffer_display(&valid_part);
    let prompt_invalid = crate::tui::buffer_display(&invalid_part);
    let waiting = tui.key_buffer.len() == 0;
    if compact {
        // Only the prompt line is shown below the width threshold.
        return Screen {
            compact,
            waiting,
            prompt_valid,
            prompt_invalid,
            rows: Vec::new(),
            blocks: Vec::new(),
            abbr: tui.abbr,
        };
    }
    // The child list, in display order.
    let sorted = sort_children(&t.nodes[cur].children);
    proof {
        broadcast use vstd::seq_lib::group_to_multiset_ensures;

        assert(t.wf_node(cur as int));
        assert forall|k: int|
            0 <= k < sorted@.len() implies cur < (#[trigger] sorted@[k]).1
            < t.nodes@.len() by {
            assert(sorted@.to_multiset().contains(sorted@[k]));
            assert(t.spec_children(cur as int).to_multiset().contains(sorted@[k]));
            assert(t.spec_children(cur as int).contains(sorted@[k]));
            let j = choose|j: int|
                0 <= j < t.spec_children(cur as int).len() && t.spec_children(cur as int)[j]
                    == sorted@[k];
            assert(cur < t.spec_children(cur as int)[j].1 < t.nodes@.len());
        }
    }
    let mut rows: Vec<ChildRow> = Vec::new();
    let has_cmd = t.node_has_command(cur);
    if has_cmd {
        rows.push(
            ChildRow {
                key: CharWithModifiers::Unmodified(' '),
                node: cur,
                space_row: true,
                final_badge: true,
                label: row_label(t, cur),
            },
        );
    }
    let ghost off: int = if has_cmd {
        1int
    } else {
        0int
    };
    let mut si: usize = 0;
    while si < sorted.len()
        invariant
            tui.inv(),
            t == tui.trie,
            cur == tui.node,
            cur < t.nodes@.len(),
            si <= sorted@.len(),
            off == (if t.spec_node_command(cur as int) is Some {
                1int
            } else {
                0int
            }),
            rows@.len() == off + si,
            off == 1 ==> rows@[0].space_row && rows@[0].key == CharWithModifiers::Unmodified(' ')
                && rows@[0].node == tui.node && rows@[0].final_badge,
            forall|k: int|
                0 <= k < sorted@.len() ==> cur < (#[trigger] sorted@[k]).1 < t.nodes@.len(),
            forall|x: int, y: int|
                0 <= x < y < sorted@.len() ==> key_le(
                    (#[trigger] sorted@[x]).0,
                    (#[trigger] sorted@[y]).0,
                ),
            forall|i: int|
                off <= i < rows@.len() ==> {
                    let row = #[trigger] rows@[i];
                    &&& !row.space_row
                    &&& (row.node as int) < t.nodes@.len()
                    &&& (row.key, row.node) == sorted@[i - off]
                    &&& row.label@ == spec_ellipsis(
                        spec_row_text(tui.trie, row.node as int),
                        WIDTH_FIRST,
                        (WIDTH_FIRST + CHILD_OFFSET - 10) as u16,
                    )
                    &&& row.final_badge == (t.spec_children(row.node as int).len() == 0
                        && t.spec_node_command(row.node as int) is Some)
                },
        decreases sorted@.len() - si,
    {
        let (key, child) = sorted[si];
        let fb = t.node_children_count(child) == 0 && t.node_has_command(child);
        rows.push(
            ChildRow {
                key,
                node: child,
                space_row: false,
                final_badge: fb,
                label: row_label(t, child),
            },
        );
        si = si + 1;
    }
    // The preview blocks for the real rows, trimmed to the height budget.
    let mut blocks: Vec<PreviewBlock> = Vec::new();
    let mut total: usize = rows.len();
    let ghost mut fulls: Seq<Seq<PreviewItem>> = Seq::empty();
    if !compact {
        let mut si2: usize = 0;
        while si2 < sorted.len()
            invariant
                tui.inv(),
                t == tui.trie,
                cur == tui.node,
                cur < t.nodes@.len(),
                si2 <= sorted@.len(),
                forall|k: int|
                    0 <= k < sorted@.len() ==> cur < (#[trigger] sorted@[k]).1 < t.nodes@.len(),
                has_cmd == (t.spec_node_command(cur as int) is Some),
                off == (if has_cmd {
                    1int
                } else {
                    0int
                }),
                rows@.len() == off + sorted@.len(),
                forall|i: int|
                    off <= i < rows@.len() ==> (#[trigger] rows@[i]).node == sorted@[i - off].1,
                blocks@.len() == si2,
                fulls.len() == si2,
                forall|b: int|
                    0 <= b < si2 ==> {
                        let blk = #[trigger] blocks@[b];
                        &&& blk.row == b + off
                        &&& spec_preview_plan(tui.trie, rows@[b + off].node, fulls[b])
                        &&& blk.items@ == fulls[b]
                    },
                total as int == (if rows@.len() + total_items(fulls) <= usize::MAX as int {
                    rows@.len() + total_items(fulls)
                } else {
                    usize::MAX as int
                }),
            decreases sorted@.len() - si2,
        {
            let child = sorted[si2].1;
            let pv = flatten_descendants(t, child);
            proof {
                lemma_filter_commands_props(
                    tui.trie,
                    spec_flat_children(tui.trie, tui.trie.spec_children(child as int)),
                );
                assert forall|k: int|
                    0 <= k < pv@.len() implies t.spec_node_command(
                    #[trigger] pv@[k] as int,
                ) is Some by {
                    assert(indices_of(pv@)[k] == pv@[k] as int);
                }
            }
            let pv_sorted = sort_preview(t, &pv);
            let ghost prep: Seq<PreviewItem> = if spec_should_prepend(tui.trie, child as int) {
                seq![PreviewItem::Node(child)]
            } else {
                Seq::empty()
            };
            let mut items: Vec<PreviewItem> = Vec::new();
            if should_prepend(t, child) {
                items.push(PreviewItem::Node(child));
            }
            proof {
                assert(preview_items_of(pv_sorted@.take(0)) =~= Seq::<PreviewItem>::empty());
                assert(items@ =~= prep + preview_items_of(pv_sorted@.take(0)));
            }
            let mut pi: usize = 0;
            while pi < pv_sorted.len()
                invariant
                    pi <= pv_sorted@.len(),
                    items@ =~= prep + preview_items_of(pv_sorted@.take(pi as int)),
                decreases pv_sorted@.len() - pi,
            {
                items.push(PreviewItem::Node(pv_sorted[pi]));
                pi = pi + 1;
                proof {
                    let ma = preview_items_of(pv_sorted@.take(pi as int));
                    let mb = preview_items_of(pv_sorted@.take(pi as int - 1));
                    assert forall|j: int|
                        0 <= j < ma.len() implies #[trigger] ma[j] == mb.push(
                        PreviewItem::Node(pv_sorted@[pi - 1]),
                    )[j] by {
                        assert(ma[j] == PreviewItem::Node(pv_sorted@.take(pi as int)[j]));
                        if j < pi - 1 {
                            assert(mb[j] == PreviewItem::Node(pv_sorted@.take(pi as int - 1)[j]));
                        }
                    }
                    assert(ma =~= mb.push(PreviewItem::Node(pv_sorted@[pi - 1])));
                    assert(items@ =~= prep + ma);
                }
            }
            let ghost full_b = items@;
            proof {
                assert(pv_sorted@.take(pv_sorted@.len() as int) =~= pv_sorted@);
                assert(full_b =~= prep + preview_items_of(pv_sorted@));
                // The built list is exactly this row's planned preview.
                assert(indices_of(pv_sorted@).to_multiset() == spec_preview_nodes(
                    tui.trie,
                    child as int,
                ).to_multiset());
                assert(spec_sorted_preview(tui.trie, child, pv_sorted@));
                assert(spec_preview_plan(tui.trie, child, full_b));
            }
            total = sat_add(total, items.len());
            let row_index = if has_cmd {
                si2 + 1
            } else {
                si2
            };
            let ghost blocks0 = blocks@;
            let ghost fulls0 = fulls;
            blocks.push(PreviewBlock { row: row_index, items });
            proof {
                fulls = fulls0.push(full_b);
                assert(fulls.drop_last() =~= fulls0);
                assert(fulls.last() == full_b);
                assert(total_items(fulls) == total_items(fulls0) + full_b.len());
                assert(rows@[si2 + off].node == sorted@[si2 as int].1);
                assert forall|b: int|
                    0 <= b < si2 + 1 implies {
                    let blk = #[trigger] blocks@[b];
                    &&& blk.row == b + off
                    &&& spec_preview_plan(tui.trie, rows@[b + off].node, fulls[b])
                    &&& blk.items@ == fulls[b]
                } by {
                    if b < si2 {
                        assert(blocks@[b] == blocks0[b]);
                        assert(fulls[b] == fulls0[b]);
                    } else {
                        assert(blocks@[b].items@ == full_b);
                        assert(fulls[b] == full_b);
                    }
                }
            }
            si2 = si2 + 1;
        }
        // Trim the previews when they overflow the terminal height.
        proof {
            assert(blocks_items(blocks@) =~= fulls);
        }
        if total > term_height as usize {
            let ghost pre = blocks@;
            let excess = total - term_height as usize;
            reduce_previews(&mut blocks, excess);
            proof {
                assert(blocks_items(blocks@) == spec_reduce(fulls, excess as int));
                assert forall|b: int|
                    0 <= b < blocks@.len() implies {
                    let blk = #[trigger] blocks@[b];
                    &&& blk.row == b + off
                    &&& spec_preview_plan(tui.trie, rows@[b + off].node, fulls[b])
                    &&& is_trim_of(blk.items@, fulls[b])
                } by {
                    assert(blocks@[b].row == pre[b].row);
                    assert(is_trim_of(blocks@[b].items@, pre[b].items@));
                    assert(pre[b].items@ == fulls[b]);
                }
            }
        } else {
            proof {
                assert forall|b: int|
                    0 <= b < blocks@.len() implies is_trim_of(
                    (#[trigger] blocks@[b]).items@,
                    fulls[b],
                ) by {
                    assert(blocks@[b].items@ == fulls[b]);
                    assert(fulls[b].take(fulls[b].len() as int) =~= fulls[b]);
                }
                // Within budget, nothing is trimmed.
                assert(spec_reduce(fulls, 0) == fulls);
            }
        }
        proof {
            assert(spec_blocks_plan(
                tui.trie,
                cur as int,
                rows@,
                blocks@,
                term_height as int,
                fulls,
            ));
        }
    }
    proof {
        let pairs = row_pairs(rows@, off);
        assert(pairs.len() == sorted@.len());
        assert forall|k: int| 0 <= k < pairs.len() implies #[trigger] pairs[k] == sorted@[k] by {
            assert(rows@.skip(off)[k] == rows@[k + off]);
            assert(pairs[k] == (rows@[k + off].key, rows@[k + off].node));
        }
        assert(pairs =~= sorted@);
        assert(row_pairs(rows@, off).to_multiset() == tui.trie.spec_children(
            tui.node as int,
        ).to_multiset());
    }
    let scr = Screen {
        compact,
        waiting,
        prompt_valid,
        prompt_invalid,
        rows,
        blocks,
        abbr: tui.abbr,
    };
    proof {
        if !scr.compact {
            assert(spec_blocks_plan(
                tui.trie,
                tui.node as int,
                scr.rows@,
                scr.blocks@,
                term_height as int,
                fulls,
            ));
        }
    }
    scr
}

} // verus!
