//! Modifier-aware characters and the chord trie.
//!
//! The trie is stored as an arena: a vector of nodes in which every child
//! is addressed by index, the root sits at index 0, and every edge points
//! forward (child index strictly above the parent's), so the structure is
//! acyclic by construction and a cursor into it is a plain index.
use vstd::prelude::*;

use crate::keys::{
    chord_symbols, chord_syms, has_split, is_comment, parse_combo, spec_combo_of, spec_command_of,
    ComboError, ComboErrorKind,
};
use crate::strutil::{spec_lines, split_lines, str_chars, str_eq, string_of_chars};
use crate::yml::{spec_sanitize, GlobalConfig, LeaderKeys};

verus! {

/// A key tagged with the modifier that was held when it was produced.
#[derive(Copy, Clone, Debug, Eq, PartialEq, Structural)]
pub enum CharWithModifiers {
    Ctrl(char),
    Alt(char),
    Unmodified(char),
}

/// One step of user-entered history: a key plus whether it matched a trie
/// edge at the time it was typed.
#[derive(Copy, Clone, Debug, Eq, PartialEq, Structural)]
pub struct CharWithModifiersAndValidity {
    pub char: CharWithModifiers,
    pub valid: bool,
}

impl CharWithModifiers {
    /// The base character, with the modifier tag stripped.
    pub open spec fn spec_bare(self) -> char {
        match self {
            CharWithModifiers::Ctrl(c) => c,
            CharWithModifiers::Alt(c) => c,
            CharWithModifiers::Unmodified(c) => c,
        }
    }

    /// How the key is written in the combo grammar and in the prompt:
    /// `<C-x>`, `<A-x>`, or the bare character.
    pub open spec fn spec_short(self) -> Seq<char> {
        match self {
            CharWithModifiers::Ctrl(c) => seq!['<', 'C', '-', c, '>'],
            CharWithModifiers::Alt(c) => seq!['<', 'A', '-', c, '>'],
            CharWithModifiers::Unmodified(c) => seq![c],
        }
    }

    /// The width of the key's short form in character cells.
    pub open spec fn spec_visual_length(self) -> nat {
        self.spec_short().len()
    }

    pub fn bare(&self) -> (r: &char)
        ensures
            *r == self.spec_bare(),
    {
        match self {
            CharWithModifiers::Ctrl(c) => c,
            CharWithModifiers::Alt(c) => c,
            CharWithModifiers::Unmodified(c) => c,
        }
    }

    pub fn str_short(&self) -> (r: String)
        ensures
            r@ == self.spec_short(),
    {
        let mut v: Vec<char> = Vec::new();
        match self {
            CharWithModifiers::Ctrl(c) => {
                v.push('<');
                v.push('C');
                v.push('-');
                v.push(*c);
                v.push('>');
            },
            CharWithModifiers::Alt(c) => {
                v.push('<');
                v.push('A');
                v.push('-');
                v.push(*c);
                v.push('>');
            },
            CharWithModifiers::Unmodified(c) => {
                v.push(*c);
            },
        }
        proof {
            assert(v@ =~= self.spec_short());
        }
        string_of_chars(&v)
    }

    /// The length of the key when represented in the TUI.
    pub fn visual_length(&self) -> (n: usize)
        ensures
            n == self.spec_visual_length(),
    {
        match self {
            CharWithModifiers::Ctrl(_) => 5,
            CharWithModifiers::Alt(_) => 5,
            CharWithModifiers::Unmodified(_) => 1,
        }
    }

    /// The same base character without any modifier.
    pub fn unmodified(&self) -> (r: CharWithModifiers)
        ensures
            r == CharWithModifiers::Unmodified(self.spec_bare()),
    {
        CharWithModifiers::Unmodified(*self.bare())
    }
}

/// One point in a leader's command tree: child edges keyed by modifier-aware
/// characters, and the command text of nodes that terminate a complete chord.
pub struct Node {
    pub children: Vec<(CharWithModifiers, usize)>,
    pub command: Option<String>,
}

/// A leader's whole command tree, as an arena of nodes rooted at index 0.
pub struct Trie {
    pub nodes: Vec<Node>,
}

/// The child index that `cs` associates with `key`: the target of the first
/// edge in the list whose key matches.
pub open spec fn spec_find_key(cs: Seq<(CharWithModifiers, usize)>, key: CharWithModifiers) -> Option<
    int,
>
    decreases cs.len(),
{
    if cs.len() == 0 {
        None
    } else if cs[0].0 == key {
        Some(cs[0].1 as int)
    } else {
        spec_find_key(cs.drop_first(), key)
    }
}

proof fn lemma_find_key_some(cs: Seq<(CharWithModifiers, usize)>, key: CharWithModifiers)
    requires
        spec_find_key(cs, key) is Some,
    ensures
        exists|k: int|
            0 <= k < cs.len() && (#[trigger] cs[k]).0 == key && Some(cs[k].1 as int)
                == spec_find_key(cs, key),
    decreases cs.len(),
{
    if cs.len() == 0 {
    } else if cs[0].0 == key {
        assert(cs[0].0 == key && Some(cs[0].1 as int) == spec_find_key(cs, key));
    } else {
        lemma_find_key_some(cs.drop_first(), key);
        let k = choose|k: int|
            0 <= k < cs.drop_first().len() && (#[trigger] cs.drop_first()[k]).0 == key && Some(
                cs.drop_first()[k].1 as int,
            ) == spec_find_key(cs.drop_first(), key);
        assert(cs[k + 1] == cs.drop_first()[k]);
    }
}

proof fn lemma_find_key_none(cs: Seq<(CharWithModifiers, usize)>, key: CharWithModifiers)
    requires
        spec_find_key(cs, key) is None,
    ensures
        forall|k: int| 0 <= k < cs.len() ==> (#[trigger] cs[k]).0 != key,
    decreases cs.len(),
{
    if cs.len() > 0 {
        lemma_find_key_none(cs.drop_first(), key);
        assert(forall|k: int| 0 <= k < cs.len() - 1 ==> cs.drop_first()[k] == #[trigger] cs[k + 1]);
        assert forall|k: int| 0 <= k < cs.len() implies (#[trigger] cs[k]).0 != key by {
            if k > 0 {
                assert(cs[k] == cs.drop_first()[k - 1]);
            }
        }
    }
}

/// Appending an edge leaves every existing association alone and adds one
/// for a key that had none.
proof fn lemma_find_key_push(
    cs: Seq<(CharWithModifiers, usize)>,
    key: CharWithModifiers,
    target: usize,
    probe: CharWithModifiers,
)
    ensures
        spec_find_key(cs.push((key, target)), probe) == (if spec_find_key(cs, probe) is Some {
            spec_find_key(cs, probe)
        } else if probe == key {
            Some(target as int)
        } else {
            None
        }),
    decreases cs.len(),
{
    if cs.len() == 0 {
        assert(cs.push((key, target))[0] == (key, target));
        assert(cs.push((key, target)).drop_first() =~= Seq::<(CharWithModifiers, usize)>::empty());
        assert(spec_find_key(Seq::<(CharWithModifiers, usize)>::empty(), probe) is None);
        assert(spec_find_key(cs, probe) is None);
    } else {
        assert(cs.push((key, target))[0] == cs[0]);
        assert(cs.push((key, target)).drop_first() =~= cs.drop_first().push((key, target)));
        lemma_find_key_push(cs.drop_first(), key, target, probe);
    }
}

impl Trie {
    /// The edges leaving node `i`.
    pub open spec fn spec_children(self, i: int) -> Seq<(CharWithModifiers, usize)> {
        self.nodes@[i].children@
    }

    /// The command text stored at node `i`, if any.
    pub open spec fn spec_node_command(self, i: int) -> Option<Seq<char>> {
        match self.nodes@[i].command {
            Some(c) => Some(c@),
            None => None,
        }
    }

    /// The child of node `i` along the edge labelled `key`.
    pub open spec fn spec_child(self, i: int, key: CharWithModifiers) -> Option<int> {
        spec_find_key(self.spec_children(i), key)
    }

    /// The node reached from node `i` by following `path`, edge by edge.
    pub open spec fn node_at(self, i: int, path: Seq<CharWithModifiers>) -> Option<int>
        decreases path.len(),
    {
        if path.len() == 0 {
            Some(i)
        } else {
            match self.spec_child(i, path[0]) {
                Some(j) => self.node_at(j, path.drop_first()),
                None => None,
            }
        }
    }

    /// The mathematical content of the trie: the command text reached from
    /// the root by a complete chord sequence.
    pub open spec fn spec_command_at(self, path: Seq<CharWithModifiers>) -> Option<Seq<char>> {
        match self.node_at(0, path) {
            Some(i) => self.spec_node_command(i),
            None => None,
        }
    }

    /// Every edge of node `i` points strictly forward in the arena and no
    /// two edges of `i` carry the same key.
    pub open spec fn wf_node(self, i: int) -> bool {
        &&& forall|k: int|
            0 <= k < self.spec_children(i).len() ==> i < (#[trigger] self.spec_children(i)[k]).1
                < self.nodes@.len()
        &&& forall|k1: int, k2: int|
            0 <= k1 < k2 < self.spec_children(i).len() ==> (#[trigger] self.spec_children(
                i,
            )[k1]).0 != (#[trigger] self.spec_children(i)[k2]).0
    }

    pub open spec fn is_edge(self, i: int, k: int) -> bool {
        0 <= i < self.nodes@.len() && 0 <= k < self.spec_children(i).len()
    }

    pub open spec fn edge_target(self, i: int, k: int) -> int {
        self.spec_children(i)[k].1 as int
    }

    /// No node is the target of two distinct edges, so each node is reached
    /// from the root by at most one path.
    pub open spec fn unique_incoming(self) -> bool {
        forall|i1: int, k1: int, i2: int, k2: int|
            self.is_edge(i1, k1) && self.is_edge(i2, k2) && (i1 != i2 || k1 != k2)
                ==> #[trigger] self.edge_target(i1, k1) != #[trigger] self.edge_target(i2, k2)
    }

    /// Well-formedness: a root exists, edges point forward and are
    /// deduplicated per node, and every node has at most one parent.
    pub open spec fn wf(self) -> bool {
        &&& self.nodes@.len() >= 1
        &&& forall|i: int| 0 <= i < self.nodes@.len() ==> #[trigger] self.wf_node(i)
        &&& self.unique_incoming()
    }

    /// Following a non-empty path strictly increases the node index.
    proof fn lemma_node_at_forward(self, i: int, path: Seq<CharWithModifiers>)
        requires
            self.wf(),
            0 <= i < self.nodes@.len(),
            self.node_at(i, path) is Some,
        ensures
            exists|j: int|
                Some(j) == self.node_at(i, path) && i <= j < self.nodes@.len() && (path.len() > 0
                    ==> i < j),
        decreases path.len(),
    {
        if path.len() == 0 {
        } else {
            let c = self.spec_child(i, path[0]);
            lemma_find_key_some(self.spec_children(i), path[0]);
            let j = c->0;
            let k = choose|k: int|
                0 <= k < self.spec_children(i).len() && (#[trigger] self.spec_children(i)[k]).0
                    == path[0] && Some(self.spec_children(i)[k].1 as int) == c;
            assert(self.wf_node(i));
            assert(i < (self.spec_children(i)[k]).1 < self.nodes@.len());
            assert(i < j < self.nodes@.len());
            self.lemma_node_at_forward(j, path.drop_first());
        }
    }

    /// Following `path` and then one more edge `x` is following
    /// `path.push(x)`.
    pub proof fn lemma_node_at_snoc(self, i: int, path: Seq<CharWithModifiers>, x: CharWithModifiers)
        ensures
            self.node_at(i, path.push(x)) == (match self.node_at(i, path) {
                Some(j) => self.spec_child(j, x),
                None => None,
            }),
        decreases path.len(),
    {
        if path.len() == 0 {
            assert(path.push(x)[0] == x);
            assert(path.push(x).drop_first() =~= Seq::<CharWithModifiers>::empty());
            match self.spec_child(i, x) {
                Some(j) => {
                    assert(self.node_at(j, Seq::<CharWithModifiers>::empty()) == Some(j));
                },
                None => {},
            }
        } else {
            assert(path.push(x)[0] == path[0]);
            assert(path.push(x).drop_first() =~= path.drop_first().push(x));
            match self.spec_child(i, path[0]) {
                Some(j) => {
                    self.lemma_node_at_snoc(j, path.drop_first(), x);
                    assert(self.node_at(i, path.push(x)) == self.node_at(
                        j,
                        path.drop_first().push(x),
                    ));
                    assert(self.node_at(i, path) == self.node_at(j, path.drop_first()));
                },
                None => {},
            }
        }
    }

    /// In a well-formed trie each node is reached from the root by at most
    /// one path: two paths that land on the same node are the same path.
    pub proof fn lemma_paths_unique(
        self,
        p: Seq<CharWithModifiers>,
        q: Seq<CharWithModifiers>,
        j: int,
    )
        requires
            self.wf(),
            self.node_at(0, p) == Some(j),
            self.node_at(0, q) == Some(j),
        ensures
            p == q,
        decreases p.len(),
    {
        if p.len() == 0 {
            if q.len() > 0 {
                self.lemma_node_at_forward(0, q);
                assert(false);
            }
        } else {
            self.lemma_node_at_forward(0, p);
            assert(j > 0);
            if q.len() == 0 {
                assert(false);
            }
            // Decompose both paths at their final edge.
            assert(p =~= p.drop_last().push(p.last()));
            assert(q =~= q.drop_last().push(q.last()));
            self.lemma_node_at_snoc(0, p.drop_last(), p.last());
            self.lemma_node_at_snoc(0, q.drop_last(), q.last());
            assert(self.node_at(0, p.drop_last().push(p.last())) == Some(j));
            assert(self.node_at(0, q.drop_last().push(q.last())) == Some(j));
            let a = self.node_at(0, p.drop_last())->0;
            let b = self.node_at(0, q.drop_last())->0;
            assert(self.spec_child(a, p.last()) == Some(j));
            assert(self.spec_child(b, q.last()) == Some(j));
            self.lemma_node_at_forward(0, p.drop_last());
            self.lemma_node_at_forward(0, q.drop_last());
            lemma_find_key_some(self.spec_children(a), p.last());
            lemma_find_key_some(self.spec_children(b), q.last());
            let ka = choose|k: int|
                0 <= k < self.spec_children(a).len() && (#[trigger] self.spec_children(a)[k]).0
                    == p.last() && Some(self.spec_children(a)[k].1 as int) == self.spec_child(
                    a,
                    p.last(),
                );
            let kb = choose|k: int|
                0 <= k < self.spec_children(b).len() && (#[trigger] self.spec_children(b)[k]).0
                    == q.last() && Some(self.spec_children(b)[k].1 as int) == self.spec_child(
                    b,
                    q.last(),
                );
            assert(self.is_edge(a, ka) && self.edge_target(a, ka) == j);
            assert(self.is_edge(b, kb) && self.edge_target(b, kb) == j);
            // By uniqueness of incoming edges the two final edges coincide.
            assert(a == b && ka == kb);
            assert(p.last() == q.last());
            self.lemma_paths_unique(p.drop_last(), q.drop_last(), a);
        }
    }

    /// The command reached from node `i` by `path`, if `path` leads anywhere.
    pub open spec fn spec_command_from(self, i: int, path: Seq<CharWithModifiers>) -> Option<
        Seq<char>,
    > {
        match self.node_at(i, path) {
            Some(j) => self.spec_node_command(j),
            None => None,
        }
    }

    /// Appending a node does not change where any path from an existing
    /// node leads.
    proof fn lemma_push_node_at(self, t2: Trie, i: int, path: Seq<CharWithModifiers>)
        requires
            self.wf(),
            t2.nodes@.len() == self.nodes@.len() + 1,
            forall|j: int| 0 <= j < self.nodes@.len() ==> t2.nodes@[j] == self.nodes@[j],
            0 <= i < self.nodes@.len(),
        ensures
            t2.node_at(i, path) == self.node_at(i, path),
        decreases path.len(),
    {
        if path.len() > 0 {
            assert(t2.spec_children(i) == self.spec_children(i));
            match self.spec_child(i, path[0]) {
                Some(j) => {
                    lemma_find_key_some(self.spec_children(i), path[0]);
                    let k = choose|k: int|
                        0 <= k < self.spec_children(i).len() && (#[trigger] self.spec_children(
                            i,
                        )[k]).0 == path[0] && Some(self.spec_children(i)[k].1 as int)
                            == self.spec_child(i, path[0]);
                    assert(self.wf_node(i));
                    assert(i < self.spec_children(i)[k].1 < self.nodes@.len());
                    self.lemma_push_node_at(t2, j, path.drop_first());
                },
                None => {},
            }
        }
    }

    /// Adding one edge, to a fresh node that is empty and commandless,
    /// neither redirects any existing path nor gives any path a command.
    proof fn lemma_add_edge_commands(
        self,
        t3: Trie,
        cur: int,
        key: CharWithModifiers,
        n: usize,
        i: int,
        path: Seq<CharWithModifiers>,
    )
        requires
            self.wf(),
            t3.nodes@.len() == self.nodes@.len(),
            0 <= cur < self.nodes@.len(),
            0 <= n < self.nodes@.len(),
            forall|j: int|
                0 <= j < self.nodes@.len() && j != cur ==> t3.nodes@[j] == self.nodes@[j],
            t3.spec_children(cur) == self.spec_children(cur).push((key, n)),
            t3.nodes@[cur].command == self.nodes@[cur].command,
            spec_find_key(self.spec_children(cur), key) is None,
            self.spec_children(n as int).len() == 0,
            self.nodes@[n as int].command is None,
            n != cur,
            0 <= i < self.nodes@.len(),
        ensures
            self.node_at(i, path) is Some ==> t3.node_at(i, path) == self.node_at(i, path),
            t3.spec_command_from(i, path) == self.spec_command_from(i, path),
        decreases path.len(),
    {
        if path.len() == 0 {
            assert(t3.spec_node_command(i) == self.spec_node_command(i));
        } else {
            lemma_find_key_push(self.spec_children(cur), key, n, path[0]);
            if i == cur && path[0] == key {
                // The new edge: it did not exist before, and behind it lies
                // only the fresh empty node.
                assert(self.spec_child(i, path[0]) is None);
                assert(self.node_at(i, path) is None);
                assert(t3.spec_child(i, path[0]) == Some(n as int));
                let rest = path.drop_first();
                if rest.len() == 0 {
                    assert(t3.node_at(n as int, rest) == Some(n as int));
                    assert(t3.spec_node_command(n as int) == self.spec_node_command(n as int));
                    assert(t3.spec_command_from(i, path) == None::<Seq<char>>);
                } else {
                    assert(t3.spec_children(n as int) == self.spec_children(n as int));
                    assert(t3.spec_child(n as int, rest[0]) is None);
                    assert(t3.node_at(n as int, rest) is None);
                }
            } else {
                assert(t3.spec_child(i, path[0]) == self.spec_child(i, path[0]));
                match self.spec_child(i, path[0]) {
                    Some(j) => {
                        lemma_find_key_some(self.spec_children(i), path[0]);
                        let k = choose|k: int|
                            0 <= k < self.spec_children(i).len() && (#[trigger] self.spec_children(
                                i,
                            )[k]).0 == path[0] && Some(self.spec_children(i)[k].1 as int)
                                == self.spec_child(i, path[0]);
                        assert(self.wf_node(i));
                        assert(i < self.spec_children(i)[k].1 < self.nodes@.len());
                        assert(0 <= j < self.nodes@.len());
                        self.lemma_add_edge_commands(t3, cur, key, n, j, path.drop_first());
                    },
                    None => {},
                }
            }
        }
    }

    /// Adding one edge to a fresh childless node admits exactly one new
    /// kind of path: those that end with the new edge, whose stem led to
    /// the edge's source before.
    proof fn lemma_add_edge_reach(
        self,
        t3: Trie,
        cur: int,
        key: CharWithModifiers,
        n: usize,
        i: int,
        path: Seq<CharWithModifiers>,
    )
        requires
            self.wf(),
            t3.nodes@.len() == self.nodes@.len(),
            0 <= cur < self.nodes@.len(),
            0 <= n < self.nodes@.len(),
            forall|j: int|
                0 <= j < self.nodes@.len() && j != cur ==> t3.nodes@[j] == self.nodes@[j],
            t3.spec_children(cur) == self.spec_children(cur).push((key, n)),
            t3.nodes@[cur].command == self.nodes@[cur].command,
            spec_find_key(self.spec_children(cur), key) is None,
            self.spec_children(n as int).len() == 0,
            self.nodes@[n as int].command is None,
            n != cur,
            0 <= i < self.nodes@.len(),
        ensures
            t3.node_at(i, path) is Some ==> self.node_at(i, path) is Some || (path.len() > 0
                && path.last() == key && self.node_at(i, path.drop_last()) == Some(cur)),
        decreases path.len(),
    {
        if path.len() == 0 {
        } else {
            lemma_find_key_push(self.spec_children(cur), key, n, path[0]);
            if i == cur && path[0] == key && self.spec_child(i, path[0]) is None {
                // The path takes the new edge; nothing leaves the fresh
                // node, so it ends right there.
                assert(t3.spec_child(i, path[0]) == Some(n as int));
                let rest = path.drop_first();
                if rest.len() == 0 {
                    assert(path =~= seq![key]);
                    assert(path.last() == key);
                    assert(path.drop_last() =~= Seq::<CharWithModifiers>::empty());
                    assert(self.node_at(i, path.drop_last()) == Some(i));
                } else {
                    assert(t3.spec_children(n as int) == self.spec_children(n as int));
                    assert(t3.spec_child(n as int, rest[0]) is None);
                    assert(t3.node_at(n as int, rest) is None);
                }
            } else {
                assert(t3.spec_child(i, path[0]) == self.spec_child(i, path[0]));
                match self.spec_child(i, path[0]) {
                    Some(j) => {
                        lemma_find_key_some(self.spec_children(i), path[0]);
                        let k = choose|k: int|
                            0 <= k < self.spec_children(i).len() && (#[trigger] self.spec_children(
                                i,
                            )[k]).0 == path[0] && Some(self.spec_children(i)[k].1 as int)
                                == self.spec_child(i, path[0]);
                        assert(self.wf_node(i));
                        assert(i < self.spec_children(i)[k].1 < self.nodes@.len());
                        self.lemma_add_edge_reach(t3, cur, key, n, j, path.drop_first());
                        if t3.node_at(i, path) is Some && !(self.node_at(i, path) is Some) {
                            let rest = path.drop_first();
                            assert(rest.len() > 0 && rest.last() == key && self.node_at(
                                j,
                                rest.drop_last(),
                            ) == Some(cur));
                            assert(path.last() == rest.last());
                            assert(path.drop_last()[0] == path[0]);
                            assert(path.drop_last().drop_first() =~= rest.drop_last());
                            assert(self.node_at(i, path.drop_last()) == self.node_at(
                                j,
                                path.drop_last().drop_first(),
                            ));
                        }
                    },
                    None => {},
                }
            }
        }
    }

    /// `node_at` depends on the edges alone, not on the stored commands.
    proof fn lemma_node_at_same_children(self, tb: Trie, i: int, path: Seq<CharWithModifiers>)
        requires
            self.wf(),
            tb.nodes@.len() == self.nodes@.len(),
            forall|j: int|
                0 <= j < self.nodes@.len() ==> #[trigger] tb.spec_children(j) == self.spec_children(
                    j,
                ),
            0 <= i < self.nodes@.len(),
        ensures
            tb.node_at(i, path) == self.node_at(i, path),
        decreases path.len(),
    {
        if path.len() > 0 {
            assert(tb.spec_child(i, path[0]) == self.spec_child(i, path[0]));
            match self.spec_child(i, path[0]) {
                Some(j) => {
                    lemma_find_key_some(self.spec_children(i), path[0]);
                    let k = choose|k: int|
                        0 <= k < self.spec_children(i).len() && (#[trigger] self.spec_children(
                            i,
                        )[k]).0 == path[0] && Some(self.spec_children(i)[k].1 as int)
                            == self.spec_child(i, path[0]);
                    assert(self.wf_node(i));
                    assert(i < self.spec_children(i)[k].1 < self.nodes@.len());
                    self.lemma_node_at_same_children(tb, j, path.drop_first());
                },
                None => {},
            }
        }
    }

    /// A fresh trie: a root with no children and no command, admitting no
    /// path but the empty one.
    pub fn new() -> (r: Trie)
        ensures
            r.wf(),
            r.nodes@.len() == 1,
            forall|p: Seq<CharWithModifiers>| #[trigger] r.spec_command_at(p) is None,
            forall|p: Seq<CharWithModifiers>|
                p.len() > 0 ==> (#[trigger] r.node_at(0, p)) is None,
    {
        let mut nodes: Vec<Node> = Vec::new();
        nodes.push(Node { children: Vec::new(), command: None });
        let r = Trie { nodes };
        proof {
            assert forall|p: Seq<CharWithModifiers>| #[trigger] r.spec_command_at(p) is None by {
                if p.len() > 0 {
                    assert(r.spec_child(0, p[0]) is None);
                }
            }
            assert forall|p: Seq<CharWithModifiers>|
                p.len() > 0 implies (#[trigger] r.node_at(0, p)) is None by {
                assert(r.spec_child(0, p[0]) is None);
            }
        }
        r
    }

    /// The child of node `i` along the edge labelled `key`, as an index.
    pub fn find_child(&self, i: usize, key: CharWithModifiers) -> (r: Option<usize>)
        requires
            self.wf(),
            i < self.nodes@.len(),
        ensures
            match r {
                Some(j) => self.spec_child(i as int, key) == Some(j as int) && i < j
                    < self.nodes@.len(),
                None => self.spec_child(i as int, key) is None,
            },
    {
        let cs = &self.nodes[i].children;
        proof {
            assert(cs@.skip(0) =~= cs@);
        }
        let mut k: usize = 0;
        while k < cs.len()
            invariant
                k <= cs@.len(),
                cs@ == self.spec_children(i as int),
                spec_find_key(cs@, key) == spec_find_key(cs@.skip(k as int), key),
                self.wf(),
                i < self.nodes@.len(),
            decreases cs@.len() - k,
        {
            proof {
                assert(cs@.skip(k as int)[0] == cs@[k as int]);
                assert(cs@.skip(k as int).drop_first() =~= cs@.skip(k as int + 1));
            }
            if cs[k].0 == key {
                let j = cs[k].1;
                proof {
                    assert(self.wf_node(i as int));
                    assert(i < cs@[k as int].1 < self.nodes@.len());
                }
                return Some(j);
            }
            k = k + 1;
        }
        proof {
            assert(cs@.skip(cs@.len() as int) =~= Seq::<(CharWithModifiers, usize)>::empty());
        }
        None
    }

    /// Whether node `i` terminates a complete chord.
    pub fn node_has_command(&self, i: usize) -> (r: bool)
        requires
            i < self.nodes@.len(),
        ensures
            r == (self.spec_node_command(i as int) is Some),
    {
        self.nodes[i].command.is_some()
    }

    /// A copy of the command stored at node `i`, if any.
    pub fn node_command_clone(&self, i: usize) -> (r: Option<String>)
        requires
            i < self.nodes@.len(),
        ensures
            match r {
                Some(c) => self.spec_node_command(i as int) == Some(c@),
                None => self.spec_node_command(i as int) is None,
            },
    {
        match &self.nodes[i].command {
            Some(c) => Some(c.clone()),
            None => None,
        }
    }

    /// How many child edges leave node `i`.
    pub fn node_children_count(&self, i: usize) -> (r: usize)
        requires
            i < self.nodes@.len(),
        ensures
            r == self.spec_children(i as int).len(),
    {
        self.nodes[i].children.len()
    }

    /// Inserts one chord: follows `path` from the root, creating edges and
    /// nodes as needed, and stores `command` at the final node.  Fails if
    /// and only if a command is already stored for exactly this sequence;
    /// every other chord's command is left untouched either way.
    pub fn insert(&mut self, path: &Vec<CharWithModifiers>, command: String) -> (r: Result<(), ()>)
        requires
            old(self).wf(),
            path@.len() > 0,
        ensures
            final(self).wf(),
            r is Ok <==> old(self).spec_command_at(path@) is None,
            r is Ok ==> final(self).spec_command_at(path@) == Some(command@),
            r is Ok ==> forall|p: Seq<CharWithModifiers>|
                p != path@ ==> #[trigger] final(self).spec_command_at(p) == old(
                    self,
                ).spec_command_at(p),
            r is Ok ==> forall|p: Seq<CharWithModifiers>|
                (#[trigger] final(self).node_at(0, p)) is Some ==> old(self).node_at(
                    0,
                    p,
                ) is Some || is_chord_prefix(p, path@),
            r is Err ==> *final(self) == *old(self),
    {
        let mut cur: usize = 0;
        let mut idx: usize = 0;
        let ghost mut created: bool = false;
        while idx < path.len()
            invariant
                self.wf(),
                idx <= path@.len(),
                cur < self.nodes@.len(),
                self.node_at(0, path@.take(idx as int)) == Some(cur as int),
                forall|p: Seq<CharWithModifiers>| #[trigger]
                    self.spec_command_at(p) == old(self).spec_command_at(p),
                !created ==> *self == *old(self),
                created ==> self.spec_children(cur as int).len() == 0 && self.spec_node_command(
                    cur as int,
                ) is None,
                forall|p: Seq<CharWithModifiers>|
                    (#[trigger] self.node_at(0, p)) is Some ==> old(self).node_at(
                        0,
                        p,
                    ) is Some || is_chord_prefix(p, path@),
            decreases path@.len() - idx,
        {
            let key = path[idx];
            let ghost prefix = path@.take(idx as int);
            match self.find_child(cur, key) {
                Some(j) => {
                    proof {
                        if created {
                            assert(spec_find_key(self.spec_children(cur as int), key) is None);
                            assert(false);
                        }
                        self.lemma_node_at_snoc(0, prefix, key);
                        assert(path@.take(idx as int + 1) =~= prefix.push(key));
                    }
                    cur = j;
                },
                None => {
                    let ghost t1 = *self;
                    let n = self.nodes.len();
                    self.nodes.push(Node { children: Vec::new(), command: None });
                    let ghost t2 = *self;
                    proof {
                        // Appending a node preserves well-formedness and
                        // every command.
                        assert forall|i: int| 0 <= i < t2.nodes@.len() implies #[trigger] t2.wf_node(
                            i,
                        ) by {
                            if i < t1.nodes@.len() {
                                assert(t1.wf_node(i));
                                assert(t2.spec_children(i) == t1.spec_children(i));
                            } else {
                                assert(t2.spec_children(i).len() == 0);
                            }
                        }
                        assert forall|i1: int, k1: int, i2: int, k2: int|
                            t2.is_edge(i1, k1) && t2.is_edge(i2, k2) && (i1 != i2 || k1
                                != k2) implies #[trigger] t2.edge_target(i1, k1)
                            != #[trigger] t2.edge_target(i2, k2) by {
                            assert(t1.is_edge(i1, k1) && t1.is_edge(i2, k2));
                            assert(t1.edge_target(i1, k1) == t2.edge_target(i1, k1));
                            assert(t1.edge_target(i2, k2) == t2.edge_target(i2, k2));
                        }
                        assert(t2.wf());
                        assert forall|p: Seq<CharWithModifiers>| #[trigger] t2.spec_command_at(p)
                            == t1.spec_command_at(p) by {
                            t1.lemma_push_node_at(t2, 0, p);
                            match t1.node_at(0, p) {
                                Some(m) => {
                                    t1.lemma_node_at_forward(0, p);
                                    assert(t2.spec_node_command(m) == t1.spec_node_command(m));
                                },
                                None => {},
                            }
                        }
                        t1.lemma_push_node_at(t2, 0, prefix);
                    }
                    let node = &mut self.nodes[cur];
                    node.children.push((key, n));
                    let ghost t3 = *self;
                    proof {
                        // The new edge leaves cur, carries a key cur did not
                        // have, and targets the fresh empty node n.
                        assert(t3.spec_children(cur as int) == t2.spec_children(cur as int).push(
                            (key, n),
                        ));
                        assert(t2.spec_child(cur as int, key) is None) by {
                            assert(t2.spec_children(cur as int) == t1.spec_children(cur as int));
                        }
                        assert forall|i: int| 0 <= i < t3.nodes@.len() implies #[trigger] t3.wf_node(
                            i,
                        ) by {
                            assert(t2.wf_node(i));
                            if i == cur {
                                let cs2 = t2.spec_children(cur as int);
                                let cs3 = t3.spec_children(cur as int);
                                assert forall|k: int|
                                    0 <= k < cs3.len() implies i < (#[trigger] cs3[k]).1
                                    < t3.nodes@.len() by {
                                    if k < cs2.len() {
                                        assert(cs3[k] == cs2[k]);
                                    } else {
                                        assert(cs3[k] == (key, n));
                                    }
                                }
                                lemma_find_key_none(cs2, key);
                                assert forall|k1: int, k2: int|
                                    0 <= k1 < k2 < cs3.len() implies (#[trigger] cs3[k1]).0
                                    != (#[trigger] cs3[k2]).0 by {
                                    if k2 < cs2.len() {
                                        assert(cs3[k1] == cs2[k1] && cs3[k2] == cs2[k2]);
                                    } else {
                                        assert(cs3[k1] == cs2[k1] && cs3[k2] == (key, n));
                                    }
                                }
                            } else {
                                assert(t3.spec_children(i) == t2.spec_children(i));
                            }
                        }
                        // Unique incoming edges: the one new edge targets n,
                        // which no old edge targets, old edges targeting
                        // only below n.
                        assert forall|i1: int, k1: int, i2: int, k2: int|
                            t3.is_edge(i1, k1) && t3.is_edge(i2, k2) && (i1 != i2 || k1
                                != k2) implies #[trigger] t3.edge_target(i1, k1)
                            != #[trigger] t3.edge_target(i2, k2) by {
                            let new_k = t2.spec_children(cur as int).len() as int;
                            if (i1 == cur && k1 == new_k) || (i2 == cur && k2 == new_k) {
                                if i1 == cur && k1 == new_k && i2 == cur && k2 == new_k {
                                } else if i1 == cur && k1 == new_k {
                                    assert(t3.edge_target(i1, k1) == n as int);
                                    assert(t2.is_edge(i2, k2));
                                    assert(t1.is_edge(i2, k2));
                                    assert(t1.wf_node(i2));
                                    assert(t3.edge_target(i2, k2) == t1.edge_target(i2, k2));
                                    assert(t1.edge_target(i2, k2) < n as int);
                                } else {
                                    assert(t3.edge_target(i2, k2) == n as int);
                                    assert(t2.is_edge(i1, k1));
                                    assert(t1.is_edge(i1, k1));
                                    assert(t1.wf_node(i1));
                                    assert(t3.edge_target(i1, k1) == t1.edge_target(i1, k1));
                                    assert(t1.edge_target(i1, k1) < n as int);
                                }
                            } else {
                                assert(t2.is_edge(i1, k1) && t2.is_edge(i2, k2));
                                assert(t3.edge_target(i1, k1) == t2.edge_target(i1, k1));
                                assert(t3.edge_target(i2, k2) == t2.edge_target(i2, k2));
                            }
                        }
                        assert(t3.wf());
                        assert forall|p: Seq<CharWithModifiers>| #[trigger] t3.spec_command_at(p)
                            == t2.spec_command_at(p) by {
                            t2.lemma_add_edge_commands(t3, cur as int, key, n, 0, p);
                        }
                        // The walked prefix is still in place, and now has
                        // the new edge to follow.
                        t2.lemma_add_edge_commands(t3, cur as int, key, n, 0, prefix);
                        assert(t3.node_at(0, prefix) == Some(cur as int));
                        t3.lemma_node_at_snoc(0, prefix, key);
                        lemma_find_key_push(t2.spec_children(cur as int), key, n, key);
                        assert(t3.spec_child(cur as int, key) == Some(n as int));
                        assert(path@.take(idx as int + 1) =~= prefix.push(key));
                        // New paths all end on the new edge, so they are
                        // prefixes of the chord being inserted.
                        assert(t2.node_at(0, prefix) == Some(cur as int));
                        assert forall|p: Seq<CharWithModifiers>|
                            (#[trigger] t3.node_at(0, p)) is Some implies old(self).node_at(
                            0,
                            p,
                        ) is Some || is_chord_prefix(p, path@) by {
                            t2.lemma_add_edge_reach(t3, cur as int, key, n, 0, p);
                            if t2.node_at(0, p) is Some {
                                t1.lemma_push_node_at(t2, 0, p);
                                assert(t1.node_at(0, p) is Some);
                            } else {
                                assert(p.len() > 0 && p.last() == key && t2.node_at(
                                    0,
                                    p.drop_last(),
                                ) == Some(cur as int));
                                t2.lemma_paths_unique(p.drop_last(), prefix, cur as int);
                                assert(p =~= prefix.push(key));
                                assert(p =~= path@.take(idx as int + 1));
                                assert(path@.take(p.len() as int) =~= p);
                                assert(is_chord_prefix(p, path@));
                            }
                        }
                        // The fresh node has no edges and no command yet.
                        assert(t3.spec_children(n as int) == t2.spec_children(n as int));
                        assert(t3.spec_node_command(n as int) is None);
                        created = true;
                    }
                    cur = n;
                },
            }
            idx = idx + 1;
        }
        proof {
            assert(path@.take(path@.len() as int) =~= path@);
        }
        if self.nodes[cur].command.is_some() {
            proof {
                // A command can only sit on a pre-existing node, so no node
                // or edge was created on this walk.
                assert(!created);
                assert(*self == *old(self));
            }
            return Err(());
        }
        let ghost t3 = *self;
        proof {
            assert(t3.node_at(0, path@) == Some(cur as int));
            assert(t3.spec_node_command(cur as int) is None);
            assert(t3.spec_command_at(path@) is None);
            assert(old(self).spec_command_at(path@) is None);
        }
        let node = &mut self.nodes[cur];
        node.command = Some(command);
        proof {
            let t4 = *self;
            assert forall|j: int|
                0 <= j < t3.nodes@.len() implies #[trigger] t4.spec_children(j)
                == t3.spec_children(j) by {
                if j != cur {
                    assert(t4.nodes@[j] == t3.nodes@[j]);
                }
            }
            assert forall|i: int| 0 <= i < t4.nodes@.len() implies #[trigger] t4.wf_node(i) by {
                assert(t3.wf_node(i));
            }
            assert forall|i1: int, k1: int, i2: int, k2: int|
                t4.is_edge(i1, k1) && t4.is_edge(i2, k2) && (i1 != i2 || k1 != k2) implies #[trigger] t4.edge_target(
                i1,
                k1,
            ) != #[trigger] t4.edge_target(i2, k2) by {
                assert(t3.is_edge(i1, k1) && t3.is_edge(i2, k2));
                assert(t4.edge_target(i1, k1) == t3.edge_target(i1, k1));
                assert(t4.edge_target(i2, k2) == t3.edge_target(i2, k2));
            }
            assert(t4.wf());
            t3.lemma_node_at_same_children(t4, 0, path@);
            assert(t4.spec_command_at(path@) == Some(command@));
            assert forall|p: Seq<CharWithModifiers>| #[trigger] t4.node_at(0, p) == t3.node_at(
                0,
                p,
            ) by {
                t3.lemma_node_at_same_children(t4, 0, p);
            }
            assert forall|p: Seq<CharWithModifiers>|
                (#[trigger] t4.node_at(0, p)) is Some implies old(self).node_at(0, p) is Some
                || is_chord_prefix(p, path@) by {
                assert(t3.node_at(0, p) is Some);
            }
            assert forall|p: Seq<CharWithModifiers>| p != path@ implies #[trigger] t4.spec_command_at(
                p,
            ) == t3.spec_command_at(p) by {
                t3.lemma_node_at_same_children(t4, 0, p);
                match t3.node_at(0, p) {
                    Some(m) => {
                        t3.lemma_node_at_forward(0, p);
                        if m == cur as int {
                            t3.lemma_paths_unique(p, path@, m);
                            assert(false);
                        } else {
                            assert(t4.nodes@[m] == t3.nodes@[m]);
                            assert(t4.spec_node_command(m) == t3.spec_node_command(m));
                        }
                    },
                    None => {},
                }
            }
        }
        Ok(())
    }
}

/// What one line of combo text does to the map of defined chords:
/// nothing for a comment or empty line, an error for a malformed or
/// colliding definition, and one more entry otherwise.
pub open spec fn spec_build_step(
    m: Map<Seq<CharWithModifiers>, Seq<char>>,
    line: Seq<char>,
) -> Result<Map<Seq<CharWithModifiers>, Seq<char>>, ComboErrorKind> {
    if line.len() == 0 || is_comment(line) {
        Ok(m)
    } else if !has_split(line) {
        Err(ComboErrorKind::BadLineFormat)
    } else {
        match chord_syms(spec_combo_of(line)) {
            None => Err(ComboErrorKind::BadBracketGroup),
            Some(syms) => if syms.len() == 0 {
                Err(ComboErrorKind::EmptyChord)
            } else if m.contains_key(syms) {
                Err(ComboErrorKind::DuplicateCombo)
            } else {
                Ok(m.insert(syms, spec_command_of(line)))
            },
        }
    }
}

/// The map of chords a sequence of combo lines defines, or the first
/// error among them.
pub open spec fn spec_build(
    m: Map<Seq<CharWithModifiers>, Seq<char>>,
    lines: Seq<Seq<char>>,
) -> Result<Map<Seq<CharWithModifiers>, Seq<char>>, ComboErrorKind>
    decreases lines.len(),
{
    if lines.len() == 0 {
        Ok(m)
    } else {
        match spec_build_step(m, lines[0]) {
            Ok(m2) => spec_build(m2, lines.drop_first()),
            Err(e) => Err(e),
        }
    }
}

/// The offending text of the first failing combo line: the whole line for
/// a line-format error, the chord spec for the other errors.
pub open spec fn spec_build_err_text(
    m: Map<Seq<CharWithModifiers>, Seq<char>>,
    lines: Seq<Seq<char>>,
) -> Seq<char>
    decreases lines.len(),
{
    if lines.len() == 0 {
        Seq::empty()
    } else {
        match spec_build_step(m, lines[0]) {
            Ok(m2) => spec_build_err_text(m2, lines.drop_first()),
            Err(k) => if k == ComboErrorKind::BadLineFormat {
                lines[0]
            } else {
                spec_combo_of(lines[0])
            },
        }
    }
}

/// Whether `p` is an initial run of `q`.
pub open spec fn is_chord_prefix(p: Seq<CharWithModifiers>, q: Seq<CharWithModifiers>) -> bool {
    p.len() <= q.len() && q.take(p.len() as int) == p
}

/// Whether `p` is a prefix of some chord that `m` defines.
pub open spec fn spec_prefix_of_chord(
    m: Map<Seq<CharWithModifiers>, Seq<char>>,
    p: Seq<CharWithModifiers>,
) -> bool {
    exists|q: Seq<CharWithModifiers>| #[trigger] m.contains_key(q) && is_chord_prefix(p, q)
}

/// Whether the trie holds exactly the chords of `m`: a path carries a
/// command if and only if the map holds it, and every non-empty path the
/// trie admits is a prefix of some defined chord (no spurious edges).
pub open spec fn trie_matches_map(t: Trie, m: Map<Seq<CharWithModifiers>, Seq<char>>) -> bool {
    &&& t.wf()
    &&& forall|p: Seq<CharWithModifiers>| #[trigger]
        t.spec_command_at(p) == (if m.contains_key(p) {
            Some(m[p])
        } else {
            None::<Seq<char>>
        })
    &&& forall|p: Seq<CharWithModifiers>|
        (#[trigger] t.node_at(0, p)) is Some && p.len() > 0 ==> spec_prefix_of_chord(m, p)
}

/// The position of the first leader whose sanitized name is `name`.
pub open spec fn spec_find_leader(ls: Seq<LeaderKeys>, name: Seq<char>) -> Option<int>
    decreases ls.len(),
{
    if ls.len() == 0 {
        None
    } else if spec_sanitize(ls[0].spec_name()) == name {
        Some(0int)
    } else {
        match spec_find_leader(ls.drop_first(), name) {
            Some(i) => Some(i + 1),
            None => None,
        }
    }
}

/// Builds one leader's trie from its combo text, line by line: comments
/// and empty lines are skipped, each definition inserts one chord, and
/// the first malformed or duplicated definition aborts the build.
pub fn build_leader_trie(combos: &str) -> (r: Result<Trie, ComboError>)
    ensures
        match spec_build(Map::empty(), spec_lines(combos@)) {
            Ok(m) => r is Ok && trie_matches_map(r->Ok_0, m),
            Err(k) => r is Err && r->Err_0.spec_kind() == k && r->Err_0.spec_payload()
                == spec_build_err_text(Map::empty(), spec_lines(combos@)),
        },
{
    let lines = split_lines(combos);
    let mut t = Trie::new();
    let ghost mut m: Map<Seq<CharWithModifiers>, Seq<char>> = Map::empty();
    proof {
        assert(spec_lines(combos@).skip(0) =~= spec_lines(combos@));
        assert forall|p: Seq<CharWithModifiers>| #[trigger] t.spec_command_at(p) == (if m.contains_key(
            p,
        ) {
            Some(m[p])
        } else {
            None::<Seq<char>>
        }) by {
            assert(t.spec_command_at(p) is None);
        }
    }
    let mut k: usize = 0;
    while k < lines.len()
        invariant
            k <= lines@.len(),
            lines@.len() == spec_lines(combos@).len(),
            forall|j: int| 0 <= j < lines@.len() ==> (#[trigger] lines@[j])@ == spec_lines(combos@)[j],
            trie_matches_map(t, m),
            spec_build(Map::empty(), spec_lines(combos@)) == spec_build(
                m,
                spec_lines(combos@).skip(k as int),
            ),
            spec_build_err_text(Map::empty(), spec_lines(combos@)) == spec_build_err_text(
                m,
                spec_lines(combos@).skip(k as int),
            ),
        decreases lines@.len() - k,
    {
        let ghost rest = spec_lines(combos@).skip(k as int);
        let ghost line_v = rest[0];
        proof {
            assert(rest[0] == spec_lines(combos@)[k as int]);
            assert(rest.drop_first() =~= spec_lines(combos@).skip(k as int + 1));
        }
        let line = &lines[k];
        match parse_combo(line.as_str()) {
            Ok(None) => {
                proof {
                    assert(spec_build_step(m, line_v) == Ok::<_, ComboErrorKind>(m));
                }
            },
            Ok(Some(pair)) => {
                let (combo, command) = pair;
                let ghost cmdv = command@;
                let cv = str_chars(combo.as_str());
                match chord_symbols(&cv) {
                    Some(syms) => {
                        proof {
                            assert(chord_syms(spec_combo_of(line_v)) == Some(syms@));
                        }
                        if syms.len() == 0 {
                            proof {
                                assert(spec_build_step(m, line_v) == Err::<
                                    Map<Seq<CharWithModifiers>, Seq<char>>,
                                    _,
                                >(ComboErrorKind::EmptyChord));
                                assert(spec_build_err_text(m, rest) == spec_combo_of(line_v));
                            }
                            return Err(ComboError::EmptyChord { combo });
                        }
                        let ghost t_before = t;
                        match t.insert(&syms, command) {
                            Ok(()) => {
                                proof {
                                    assert(!m.contains_key(syms@));
                                    let m0 = m;
                                    m = m.insert(syms@, cmdv);
                                    assert forall|p: Seq<CharWithModifiers>| #[trigger] t.spec_command_at(
                                        p,
                                    ) == (if m.contains_key(p) {
                                        Some(m[p])
                                    } else {
                                        None::<Seq<char>>
                                    }) by {}
                                    // No spurious paths: everything newly
                                    // reachable is a prefix of the new chord.
                                    assert forall|p: Seq<CharWithModifiers>|
                                        (#[trigger] t.node_at(0, p)) is Some && p.len()
                                            > 0 implies spec_prefix_of_chord(m, p) by {
                                        if t_before.node_at(0, p) is Some {
                                            assert(spec_prefix_of_chord(m0, p));
                                            let q = choose|q: Seq<CharWithModifiers>| #[trigger]
                                                m0.contains_key(q) && is_chord_prefix(p, q);
                                            assert(m.contains_key(q));
                                        } else {
                                            assert(is_chord_prefix(p, syms@));
                                            assert(m.contains_key(syms@));
                                        }
                                    }
                                }
                            },
                            Err(()) => {
                                proof {
                                    assert(m.contains_key(syms@));
                                    assert(spec_build_step(m, line_v) == Err::<
                                        Map<Seq<CharWithModifiers>, Seq<char>>,
                                        _,
                                    >(ComboErrorKind::DuplicateCombo));
                                    assert(spec_build_err_text(m, rest) == spec_combo_of(line_v));
                                }
                                return Err(ComboError::DuplicateCombo { combo });
                            },
                        }
                    },
                    None => {
                        proof {
                            assert(false);
                        }
                        return Err(ComboError::BadBracketGroup { combo });
                    },
                }
            },
            Err(e) => {
                proof {
                    assert(spec_build_step(m, line_v) == Err::<
                        Map<Seq<CharWithModifiers>, Seq<char>>,
                        _,
                    >(e.spec_kind()));
                    assert(spec_build_err_text(m, rest) == e.spec_payload());
                }
                return Err(e);
            },
        }
        k = k + 1;
    }
    proof {
        assert(spec_lines(combos@).skip(lines@.len() as int) =~= Seq::<Seq<char>>::empty());
    }
    Ok(t)
}

impl Trie {
    /// The command tree of the chosen leader, built from the global
    /// configuration; an unknown leader name yields an empty tree.
    pub fn root(global: &Option<GlobalConfig>, leader_chosen: String) -> (r: Result<
        Trie,
        ComboError,
    >)
        ensures
            match spec_global_leaders(global) {
                Some(ls) => match spec_find_leader(ls, leader_chosen@) {
                    Some(li) => match spec_build(Map::empty(), spec_lines(ls[li].combos@)) {
                        Ok(m) => r is Ok && trie_matches_map(r->Ok_0, m),
                        Err(k) => r is Err && r->Err_0.spec_kind() == k
                            && r->Err_0.spec_payload() == spec_build_err_text(
                            Map::empty(),
                            spec_lines(ls[li].combos@),
                        ),
                    },
                    None => r is Ok && trie_matches_map(r->Ok_0, Map::empty()),
                },
                None => r is Ok && trie_matches_map(r->Ok_0, Map::empty()),
            },
    {
        match global {
            Some(g) => match &g.global {
                Some(conf) => match &conf.leader_keys {
                    Some(leaderkeys) => {
                        return Trie::root_of_leaders(leaderkeys, leader_chosen.as_str());
                    },
                    None => {},
                },
                None => {},
            },
            None => {},
        }
        let t = Trie::new();
        proof {
            lemma_empty_trie_matches(t);
        }
        Ok(t)
    }

    /// The chosen leader's trie among an explicit list of leaders.
    pub fn root_of_leaders(leaders: &Vec<LeaderKeys>, leader_chosen: &str) -> (r: Result<
        Trie,
        ComboError,
    >)
        ensures
            match spec_find_leader(leaders@, leader_chosen@) {
                Some(li) => match spec_build(Map::empty(), spec_lines(leaders@[li].combos@)) {
                    Ok(m) => r is Ok && trie_matches_map(r->Ok_0, m),
                    Err(k) => r is Err && r->Err_0.spec_kind() == k
                        && r->Err_0.spec_payload() == spec_build_err_text(
                        Map::empty(),
                        spec_lines(leaders@[li].combos@),
                    ),
                },
                None => r is Ok && trie_matches_map(r->Ok_0, Map::empty()),
            },
    {
        let n = leaders.len();
        proof {
            assert(leaders@.skip(0) =~= leaders@);
        }
        let mut i: usize = 0;
        while i < n
            invariant
                i <= n,
                n == leaders@.len(),
                spec_find_leader(leaders@, leader_chosen@) == (match spec_find_leader(
                    leaders@.skip(i as int),
                    leader_chosen@,
                ) {
                    Some(j) => Some(j + i),
                    None => None::<int>,
                }),
            decreases n - i,
        {
            let ghost su = leaders@.skip(i as int);
            proof {
                assert(su[0] == leaders@[i as int]);
                assert(su.drop_first() =~= leaders@.skip(i as int + 1));
            }
            let sn = leaders[i].sanitized_name();
            if str_eq(sn.as_str(), leader_chosen) {
                proof {
                    assert(spec_find_leader(su, leader_chosen@) == Some(0int));
                    assert(spec_find_leader(leaders@, leader_chosen@) == Some(i as int));
                }
                return build_leader_trie(leaders[i].combos.as_str());
            }
            i = i + 1;
        }
        proof {
            assert(leaders@.skip(n as int) =~= Seq::<LeaderKeys>::empty());
        }
        let t = Trie::new();
        proof {
            lemma_empty_trie_matches(t);
        }
        Ok(t)
    }
}

/// The leaders held by an optional global configuration.
pub open spec fn spec_global_leaders(global: &Option<GlobalConfig>) -> Option<Seq<LeaderKeys>> {
    match global {
        Some(g) => match g.global {
            Some(conf) => match conf.leader_keys {
                Some(ls) => Some(ls@),
                None => None,
            },
            None => None,
        },
        None => None,
    }
}

/// Splitting a path: following `a + b` is following `a`, then `b`.
proof fn lemma_node_at_concat(t: Trie, i: int, a: Seq<CharWithModifiers>, b: Seq<CharWithModifiers>)
    ensures
        t.node_at(i, a + b) == (match t.node_at(i, a) {
            Some(x) => t.node_at(x, b),
            None => None,
        }),
    decreases a.len(),
{
    if a.len() == 0 {
        assert(a + b =~= b);
    } else {
        assert((a + b)[0] == a[0]);
        assert((a + b).drop_first() =~= a.drop_first() + b);
        match t.spec_child(i, a[0]) {
            Some(j) => {
                lemma_node_at_concat(t, j, a.drop_first(), b);
            },
            None => {},
        }
    }
}

/// A trie built from no chords at all is bare: its root has no children
/// and no command.
pub proof fn lemma_empty_config_trie_bare(t: Trie)
    requires
        trie_matches_map(t, Map::empty()),
    ensures
        t.spec_children(0).len() == 0,
        t.spec_node_command(0) is None,
{
    assert(t.node_at(0, Seq::<CharWithModifiers>::empty()) == Some(0int));
    assert(t.spec_command_at(Seq::<CharWithModifiers>::empty()) is None);
    if t.spec_children(0).len() > 0 {
        let k = t.spec_children(0)[0].0;
        assert(t.spec_child(0, k) == Some(t.spec_children(0)[0].1 as int));
        let p = seq![k];
        assert(p[0] == k);
        assert(p.drop_first() =~= Seq::<CharWithModifiers>::empty());
        let tgt = t.spec_children(0)[0].1 as int;
        assert(t.node_at(tgt, Seq::<CharWithModifiers>::empty()) == Some(tgt));
        assert(t.node_at(0, p) is Some);
        assert(spec_prefix_of_chord(Map::empty(), p));
        let q = choose|q: Seq<CharWithModifiers>| #[trigger] Map::<
            Seq<CharWithModifiers>,
            Seq<char>,
        >::empty().contains_key(q) && is_chord_prefix(p, q);
        assert(false);
    }
}

/// In a built trie, every reachable node without children terminates a
/// defined chord: a pure dead end cannot arise (the root aside, when no
/// chord was defined).
pub proof fn lemma_childless_has_command(
    t: Trie,
    m: Map<Seq<CharWithModifiers>, Seq<char>>,
    p: Seq<CharWithModifiers>,
)
    requires
        trie_matches_map(t, m),
        t.node_at(0, p) is Some,
        p.len() > 0,
        t.spec_children(t.node_at(0, p)->0).len() == 0,
    ensures
        m.contains_key(p),
        t.spec_node_command(t.node_at(0, p)->0) == Some(m[p]),
{
    let j = t.node_at(0, p)->0;
    assert(spec_prefix_of_chord(m, p));
    let q = choose|q: Seq<CharWithModifiers>| #[trigger] m.contains_key(q) && is_chord_prefix(p, q);
    assert(t.spec_command_at(q) == Some(m[q]));
    assert(t.node_at(0, q) is Some);
    if p.len() < q.len() {
        // The chord q runs on past p, so p's node has an edge to follow.
        let rest = q.skip(p.len() as int);
        assert(q =~= p + rest);
        lemma_node_at_concat(t, 0, p, rest);
        assert(t.node_at(j, rest) is Some);
        assert(rest.len() > 0);
        assert(t.spec_child(j, rest[0]) is Some);
        assert(spec_find_key(t.spec_children(j), rest[0]) is None);
        assert(false);
    }
    assert(p.len() == q.len());
    assert(q.take(p.len() as int) =~= q);
    assert(p == q);
    assert(t.spec_command_at(p) == Some(m[p]));
}

/// A defined chord that no other chord extends ends at a leaf: its node
/// has no children and carries exactly its command.  This is what lets
/// the key-input machine resolve such a chord without a confirming key.
pub proof fn lemma_chord_is_leaf(
    t: Trie,
    m: Map<Seq<CharWithModifiers>, Seq<char>>,
    q: Seq<CharWithModifiers>,
)
    requires
        trie_matches_map(t, m),
        m.contains_key(q),
        q.len() > 0,
        forall|q2: Seq<CharWithModifiers>| #[trigger]
            m.contains_key(q2) ==> !(q2.len() > q.len() && q2.take(q.len() as int) == q),
    ensures
        t.node_at(0, q) is Some,
        t.spec_children(t.node_at(0, q)->0).len() == 0,
        t.spec_node_command(t.node_at(0, q)->0) == Some(m[q]),
{
    assert(t.spec_command_at(q) == Some(m[q]));
    assert(t.node_at(0, q) is Some);
    let j = t.node_at(0, q)->0;
    if t.spec_children(j).len() > 0 {
        // An edge below q would make a longer path reachable, which must
        // be a prefix of some chord extending q.
        let k = t.spec_children(j)[0].0;
        assert(t.spec_child(j, k) == Some(t.spec_children(j)[0].1 as int));
        t.lemma_node_at_snoc(0, q, k);
        let p = q.push(k);
        assert(t.node_at(0, p) is Some);
        assert(spec_prefix_of_chord(m, p));
        let q2 = choose|q2: Seq<CharWithModifiers>| #[trigger] m.contains_key(q2)
            && is_chord_prefix(p, q2);
        assert(q2.len() >= q.len() + 1);
        assert(q2.take(q.len() as int) =~= q2.take(p.len() as int).take(q.len() as int));
        assert(p.take(q.len() as int) =~= q);
        assert(q2.take(q.len() as int) == q);
        assert(false);
    }
}

proof fn lemma_empty_trie_matches(t: Trie)
    requires
        t.wf(),
        forall|p: Seq<CharWithModifiers>| #[trigger] t.spec_command_at(p) is None,
        forall|p: Seq<CharWithModifiers>| p.len() > 0 ==> (#[trigger] t.node_at(0, p)) is None,
    ensures
        trie_matches_map(t, Map::empty()),
{
    assert forall|p: Seq<CharWithModifiers>| #[trigger] t.spec_command_at(p) == (if Map::<
        Seq<CharWithModifiers>,
        Seq<char>,
    >::empty().contains_key(p) {
        Some(Map::<Seq<CharWithModifiers>, Seq<char>>::empty()[p])
    } else {
        None::<Seq<char>>
    }) by {
        assert(!Map::<Seq<CharWithModifiers>, Seq<char>>::empty().contains_key(p));
    }
}

} // verus!
