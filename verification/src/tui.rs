//! The key-input state machine: it owns one leader's trie, consumes raw
//! key events one at a time, walks the trie, tracks invalid trailing
//! input for display, and resolves to a command or a cancellation.
use vstd::prelude::*;

use crate::nodes::{CharWithModifiers, CharWithModifiersAndValidity, Trie};

verus! {

/// One raw terminal key event, as the interactive session receives it.
#[derive(Copy, Clone, Debug, Eq, PartialEq, Structural)]
pub enum KeyEvent {
    Char(char),
    Ctrl(char),
    Alt(char),
    Backspace,
    Esc,
    Other,
}

/// What one step of the session produced.
pub enum Outcome {
    Pending,
    Resolved(String),
    Cancelled,
}

/// The mathematical state of a session, used by the transition relation.
#[verifier::ext_equal]
pub ghost struct SessionModel {
    pub cursor: int,
    pub parents: Seq<int>,
    pub buffer: Seq<CharWithModifiersAndValidity>,
    pub invalid_count: int,
    pub invalid: bool,
    pub done: bool,
}

/// The mathematical value of an [`Outcome`].
pub ghost enum OutcomeModel {
    Pending,
    Resolved(Seq<char>),
    Cancelled,
}

impl Outcome {
    pub open spec fn model(self) -> OutcomeModel {
        match self {
            Outcome::Pending => OutcomeModel::Pending,
            Outcome::Resolved(s) => OutcomeModel::Resolved(s@),
            Outcome::Cancelled => OutcomeModel::Cancelled,
        }
    }
}

/// A vector of node indices, as mathematical integers.
pub open spec fn indices_of(s: Seq<usize>) -> Seq<int> {
    s.map_values(|u: usize| u as int)
}

/// Whether the invalid entries of the buffer form a suffix: nothing valid
/// ever follows an invalid entry.
pub open spec fn invalid_suffix(b: Seq<CharWithModifiersAndValidity>) -> bool {
    forall|j1: int, j2: int|
        0 <= j1 <= j2 < b.len() && !(#[trigger] b[j1]).valid ==> !(#[trigger] b[j2]).valid
}

/// The length of the longest all-valid prefix of the buffer.
pub open spec fn valid_prefix_len(b: Seq<CharWithModifiersAndValidity>) -> int
    decreases b.len(),
{
    if b.len() > 0 && b[0].valid {
        1 + valid_prefix_len(b.drop_first())
    } else {
        0
    }
}

/// The total display width of the invalid entries.
pub open spec fn sum_invalid(b: Seq<CharWithModifiersAndValidity>) -> int
    decreases b.len(),
{
    if b.len() == 0 {
        0
    } else {
        sum_invalid(b.drop_last()) + (if b.last().valid {
            0int
        } else {
            b.last().char.spec_visual_length() as int
        })
    }
}

/// The chord symbols of the valid prefix, in order.
pub open spec fn valid_syms(b: Seq<CharWithModifiersAndValidity>) -> Seq<CharWithModifiers> {
    b.take(valid_prefix_len(b)).map_values(|e: CharWithModifiersAndValidity| e.char)
}

pub proof fn lemma_vpl_char(b: Seq<CharWithModifiersAndValidity>)
    ensures
        0 <= valid_prefix_len(b) <= b.len(),
        forall|j: int| 0 <= j < valid_prefix_len(b) ==> (#[trigger] b[j]).valid,
        valid_prefix_len(b) < b.len() ==> !b[valid_prefix_len(b)].valid,
    decreases b.len(),
{
    if b.len() > 0 && b[0].valid {
        lemma_vpl_char(b.drop_first());
        assert(forall|j: int| 0 <= j < b.len() - 1 ==> b.drop_first()[j] == #[trigger] b[j + 1]);
        assert forall|j: int| 0 <= j < valid_prefix_len(b) implies (#[trigger] b[j]).valid by {
            if j > 0 {
                assert(b[j] == b.drop_first()[j - 1]);
            }
        }
    }
}

pub proof fn lemma_vpl_unique(b: Seq<CharWithModifiersAndValidity>, k: int)
    requires
        0 <= k <= b.len(),
        forall|j: int| 0 <= j < k ==> (#[trigger] b[j]).valid,
        k < b.len() ==> !b[k].valid,
    ensures
        valid_prefix_len(b) == k,
{
    lemma_vpl_char(b);
    let v = valid_prefix_len(b);
    if k < v {
        assert(b[k].valid);
        assert(false);
    }
    if v < k {
        assert(b[v].valid);
        assert(false);
    }
}

/// Each invalid entry is at least one cell wide, so the invalid width is
/// zero exactly when everything is valid, and never exceeds five cells
/// per entry.
pub proof fn lemma_sum_invalid_bounds(b: Seq<CharWithModifiersAndValidity>)
    ensures
        0 <= sum_invalid(b) <= 5 * b.len(),
        (sum_invalid(b) == 0 <==> forall|j: int| 0 <= j < b.len() ==> (#[trigger] b[j]).valid),
    decreases b.len(),
{
    if b.len() > 0 {
        lemma_sum_invalid_bounds(b.drop_last());
        assert(forall|j: int| 0 <= j < b.len() - 1 ==> b.drop_last()[j] == #[trigger] b[j]);
        if sum_invalid(b) == 0 {
            assert forall|j: int| 0 <= j < b.len() implies (#[trigger] b[j]).valid by {
                if j < b.len() - 1 {
                    assert(b[j] == b.drop_last()[j]);
                }
            }
        }
    }
}

/// The key the session actually follows for a modified key event: the
/// modified key itself where the trie has an edge for it, else the bare
/// key where only that has an edge, else the modified key (which will
/// then count as invalid input).
pub open spec fn spec_fallback(t: Trie, node: int, key: CharWithModifiers) -> CharWithModifiers {
    if t.spec_child(node, key) is Some {
        key
    } else if t.spec_child(node, CharWithModifiers::Unmodified(key.spec_bare())) is Some {
        CharWithModifiers::Unmodified(key.spec_bare())
    } else {
        key
    }
}

/// Whether the event selects the current node's command.
pub open spec fn is_select_event(e: KeyEvent) -> bool {
    e == KeyEvent::Char('\n') || e == KeyEvent::Char(' ') || e == KeyEvent::Ctrl('M')
}

/// Whether the event cancels the session.
pub open spec fn is_cancel_event(e: KeyEvent) -> bool {
    e == KeyEvent::Esc || e == KeyEvent::Ctrl('c')
}

/// The modifier-aware key an event denotes, before the fallback; `None`
/// for events that carry no key.
pub open spec fn spec_event_key(e: KeyEvent) -> Option<CharWithModifiers> {
    match e {
        KeyEvent::Ctrl(c) => Some(CharWithModifiers::Ctrl(c)),
        KeyEvent::Alt(c) => Some(CharWithModifiers::Alt(c)),
        KeyEvent::Char(c) => Some(CharWithModifiers::Unmodified(c)),
        _ => None,
    }
}

/// The transition relation of the session: what one key event does to
/// the state, and what it yields.
pub open spec fn step_model(t: Trie, m: SessionModel, e: KeyEvent) -> (SessionModel, OutcomeModel) {
    if is_select_event(e) {
        match t.spec_node_command(m.cursor) {
            Some(c) => (SessionModel { done: true, ..m }, OutcomeModel::Resolved(c)),
            None => (m, OutcomeModel::Pending),
        }
    } else if is_cancel_event(e) {
        (SessionModel { done: true, ..m }, OutcomeModel::Cancelled)
    } else if e == KeyEvent::Backspace {
        if m.buffer.len() == 0 {
            (m, OutcomeModel::Pending)
        } else {
            let last = m.buffer.last();
            let w = last.char.spec_visual_length() as int;
            let stepped_back = m.invalid_count == 0;
            (
                SessionModel {
                    cursor: if stepped_back {
                        m.parents.last()
                    } else {
                        m.cursor
                    },
                    parents: if stepped_back {
                        m.parents.drop_last()
                    } else {
                        m.parents
                    },
                    buffer: m.buffer.drop_last(),
                    invalid_count: if m.invalid_count >= w {
                        m.invalid_count - w
                    } else {
                        0
                    },
                    invalid: m.invalid,
                    done: false,
                },
                OutcomeModel::Pending,
            )
        }
    } else {
        match spec_event_key(e) {
            None => (m, OutcomeModel::Pending),
            Some(k0) => apply_key_model(t, m, spec_fallback(t, m.cursor, k0)),
        }
    }
}

/// What following (or failing to follow) one resolved key does to the
/// session: a match drops the invalid tail and advances the cursor,
/// auto-resolving on an unambiguous leaf; a mismatch records the key as
/// invalid input.
pub open spec fn apply_key_model(t: Trie, m: SessionModel, key: CharWithModifiers) -> (
    SessionModel,
    OutcomeModel,
) {
    match t.spec_child(m.cursor, key) {
        Some(child) => {
            let kept = m.buffer.take(valid_prefix_len(m.buffer));
            let entry = CharWithModifiersAndValidity { char: key, valid: true };
            let m1 = SessionModel {
                cursor: child,
                parents: m.parents.push(m.cursor),
                buffer: kept.push(entry),
                invalid_count: 0,
                invalid: false,
                done: false,
            };
            if t.spec_children(child).len() == 0 && t.spec_node_command(child) is Some {
                (
                    SessionModel { done: true, ..m1 },
                    OutcomeModel::Resolved(t.spec_node_command(child)->0),
                )
            } else {
                (m1, OutcomeModel::Pending)
            }
        },
        None => {
            let entry = CharWithModifiersAndValidity { char: key, valid: false };
            (
                SessionModel {
                    buffer: m.buffer.push(entry),
                    invalid_count: m.invalid_count + key.spec_visual_length() as int,
                    invalid: true,
                    ..m
                },
                OutcomeModel::Pending,
            )
        },
    }
}

/// The interactive session state: the trie being navigated, the cursor
/// with its ancestor stack, and the typed key history.
pub struct Tui {
    pub trie: Trie,
    pub node: usize,
    pub parents: Vec<usize>,
    pub key_buffer: Vec<CharWithModifiersAndValidity>,
    pub invalid_count: usize,
    pub invalid: bool,
    pub abbr: bool,
    pub finished: bool,
}

impl Tui {
    /// The mathematical state this session is in.
    pub open spec fn model(self) -> SessionModel {
        SessionModel {
            cursor: self.node as int,
            parents: indices_of(self.parents@),
            buffer: self.key_buffer@,
            invalid_count: self.invalid_count as int,
            invalid: self.invalid,
            done: self.finished,
        }
    }

    /// The cursor chain: every ancestor, root first, then the cursor.
    pub open spec fn chain(self) -> Seq<int> {
        self.model().parents.push(self.model().cursor)
    }

    /// The session invariant: the trie is well formed, the invalid
    /// entries are a suffix of the buffer whose widths the counter sums,
    /// and the ancestor stack is exactly the trie walk of the valid
    /// prefix.
    pub open spec fn inv(self) -> bool {
        &&& self.trie.wf()
        &&& (self.node as int) < self.trie.nodes@.len()
        &&& forall|j: int|
            0 <= j < self.parents@.len() ==> (#[trigger] self.parents@[j] as int)
                < self.trie.nodes@.len()
        &&& invalid_suffix(self.key_buffer@)
        &&& self.invalid_count as int == sum_invalid(self.key_buffer@)
        &&& (self.invalid_count > 0 ==> self.invalid)
        &&& self.parents@.len() == valid_prefix_len(self.key_buffer@)
        &&& forall|j: int|
            0 <= j < self.chain().len() ==> self.trie.node_at(
                0,
                valid_syms(self.key_buffer@).take(j),
            ) == Some(#[trigger] self.chain()[j])
    }

    /// A fresh session over `trie`, cursor at the root, empty history.
    pub fn new(trie: Trie, abbr: bool) -> (r: Tui)
        requires
            trie.wf(),
        ensures
            r.inv(),
            r.trie == trie,
            r.abbr == abbr,
            !r.finished,
            r.model().cursor == 0,
            r.model().parents == Seq::<int>::empty(),
            r.model().buffer == Seq::<CharWithModifiersAndValidity>::empty(),
            r.model().invalid_count == 0,
            !r.model().invalid,
    {
        let r = Tui {
            trie,
            node: 0,
            parents: Vec::new(),
            key_buffer: Vec::new(),
            invalid_count: 0,
            invalid: false,
            abbr,
            finished: false,
        };
        proof {
            assert(r.key_buffer@.len() == 0);
            assert(valid_prefix_len(r.key_buffer@) == 0);
            assert(indices_of(r.parents@) =~= Seq::<int>::empty());
            assert(r.chain() =~= seq![0int]);
            assert(valid_syms(r.key_buffer@) =~= Seq::<CharWithModifiers>::empty());
            assert forall|j: int|
                0 <= j < r.chain().len() implies r.trie.node_at(
                0,
                valid_syms(r.key_buffer@).take(j),
            ) == Some(#[trigger] r.chain()[j]) by {
                assert(valid_syms(r.key_buffer@).take(j) =~= Seq::<CharWithModifiers>::empty());
            }
        }
        r
    }
}

impl Tui {
    /// Consumes one key event while collecting input.
    ///
    /// Enter, space or Ctrl-M select the current node's command if it has
    /// one; Escape or Ctrl-C cancel; Backspace steps the history and, if
    /// the removed key had advanced the cursor, the cursor itself back;
    /// any other key is resolved to a modifier-aware character (falling
    /// back to the bare key when only that has an edge) and either
    /// advances the cursor or is recorded as invalid input.  Reaching a
    /// leaf that holds a command resolves immediately.
    pub fn step(&mut self, event: KeyEvent) -> (r: Outcome)
        requires
            old(self).inv(),
            !old(self).finished,
            old(self).key_buffer@.len() < 100000000,
        ensures
            final(self).inv(),
            final(self).trie == old(self).trie,
            final(self).abbr == old(self).abbr,
            final(self).model() == step_model(old(self).trie, old(self).model(), event).0,
            r.model() == step_model(old(self).trie, old(self).model(), event).1,
            r is Pending <==> !final(self).finished,
    {
        let ghost m0 = self.model();
        let ghost t = self.trie;
        if event == KeyEvent::Char('\n') || event == KeyEvent::Char(' ') || event == KeyEvent::Ctrl(
            'M',
        ) {
            match self.trie.node_command_clone(self.node) {
                Some(cmd) => {
                    self.finished = true;
                    proof {
                        assert(self.model() =~= SessionModel { done: true, ..m0 });
                    }
                    Outcome::Resolved(cmd)
                },
                None => {
                    proof {
                        assert(self.model() =~= m0);
                    }
                    Outcome::Pending
                },
            }
        } else if event == KeyEvent::Esc || event == KeyEvent::Ctrl('c') {
            self.finished = true;
            proof {
                assert(self.model() =~= SessionModel { done: true, ..m0 });
            }
            Outcome::Cancelled
        } else if event == KeyEvent::Backspace {
            if self.key_buffer.len() == 0 {
                proof {
                    assert(self.model() =~= m0);
                }
                return Outcome::Pending;
            }
            let last = match self.key_buffer.pop() {
                Some(l) => l,
                None => {
                    proof {
                        assert(false);
                    }
                    CharWithModifiersAndValidity {
                        char: CharWithModifiers::Unmodified(' '),
                        valid: false,
                    }
                },
            };
            proof {
                lemma_vpl_char(m0.buffer);
                lemma_sum_invalid_bounds(m0.buffer);
            }
            if self.invalid_count == 0 {
                proof {
                    // No invalid width means every entry was valid, so the
                    // ancestor stack is as long as the old buffer.
                    assert(forall|j: int| 0 <= j < m0.buffer.len() ==> (#[trigger] m0.buffer[j]).valid);
                    lemma_vpl_unique(m0.buffer, m0.buffer.len() as int);
                    assert(self.parents@.len() == m0.buffer.len());
                }
                match self.parents.pop() {
                    Some(p) => {
                        self.node = p;
                    },
                    None => {
                        proof {
                            assert(false);
                        }
                    },
                }
            }
            let w = last.char.visual_length();
            if self.invalid_count >= w {
                self.invalid_count = self.invalid_count - w;
            } else {
                self.invalid_count = 0;
            }
            proof {
                assert forall|j: int|
                    0 <= j < m0.parents.len() + 1 implies t.node_at(
                    0,
                    valid_syms(m0.buffer).take(j),
                ) == Some(#[trigger] m0.parents.push(m0.cursor)[j]) by {
                    assert(old(self).chain() == m0.parents.push(m0.cursor));
                    assert(t.node_at(0, valid_syms(old(self).key_buffer@).take(j)) == Some(
                        old(self).chain()[j],
                    ));
                }
                assert(indices_of(self.parents@) =~= (
                if m0.invalid_count == 0 {
                    m0.parents.drop_last()
                } else {
                    m0.parents
                }));
                self.lemma_backspace_inv(t, m0, last);
            }
            Outcome::Pending
        } else {
            let key0 = match event {
                KeyEvent::Ctrl(c) => Some(CharWithModifiers::Ctrl(c)),
                KeyEvent::Alt(c) => Some(CharWithModifiers::Alt(c)),
                KeyEvent::Char(c) => Some(CharWithModifiers::Unmodified(c)),
                _ => None,
            };
            match key0 {
                None => {
                    proof {
                        assert(self.model() =~= m0);
                    }
                    Outcome::Pending
                },
                Some(k0) => {
                    let key = modifier_or_fallback(&self.trie, self.node, k0);
                    self.apply_key(key)
                },
            }
        }
    }

    /// Restores the invariant after a backspace and relates the new state
    /// to the transition relation.
    proof fn lemma_backspace_inv(
        self,
        t: Trie,
        m0: SessionModel,
        last: CharWithModifiersAndValidity,
    )
        requires
            t.wf(),
            self.trie == t,
            m0.buffer.len() > 0,
            last == m0.buffer.last(),
            m0.cursor < t.nodes@.len(),
            invalid_suffix(m0.buffer),
            m0.invalid_count == sum_invalid(m0.buffer),
            m0.invalid_count > 0 ==> m0.invalid,
            m0.parents.len() == valid_prefix_len(m0.buffer),
            forall|j: int|
                0 <= j < m0.parents.len() + 1 ==> t.node_at(0, valid_syms(m0.buffer).take(j))
                    == Some(#[trigger] m0.parents.push(m0.cursor)[j]),
            self.key_buffer@ == m0.buffer.drop_last(),
            self.invalid == m0.invalid,
            self.finished == m0.done,
            !m0.done,
            self.invalid_count as int == (if m0.invalid_count >= last.char.spec_visual_length()
                as int {
                m0.invalid_count - last.char.spec_visual_length() as int
            } else {
                0
            }),
            m0.invalid_count == 0 ==> indices_of(self.parents@)
                == m0.parents.drop_last() && self.node as int == m0.parents.last(),
            m0.invalid_count != 0 ==> indices_of(self.parents@) == m0.parents
                && self.node as int == m0.cursor,
            forall|j: int|
                0 <= j < m0.parents.len() ==> 0 <= #[trigger] m0.parents[j] < t.nodes@.len(),
        ensures
            self.inv(),
            self.model() == step_model(t, m0, KeyEvent::Backspace).0,
    {
        let b2 = m0.buffer.drop_last();
        lemma_vpl_char(m0.buffer);
        lemma_sum_invalid_bounds(m0.buffer);
        lemma_sum_invalid_bounds(b2);
        let v0 = valid_prefix_len(m0.buffer);
        assert(sum_invalid(m0.buffer) == sum_invalid(b2) + (if m0.buffer.last().valid {
            0int
        } else {
            m0.buffer.last().char.spec_visual_length() as int
        }));
        assert forall|j: int|
            0 <= j < self.parents@.len() implies (#[trigger] self.parents@[j] as int)
            < t.nodes@.len() by {
            let mp = indices_of(self.parents@);
            assert(mp[j] == self.parents@[j] as int);
            if m0.invalid_count == 0 {
                assert(mp == m0.parents.drop_last());
                assert(mp[j] == m0.parents.drop_last()[j]);
                assert(mp.len() == self.parents@.len());
                assert(j < m0.parents.drop_last().len());
                assert(m0.parents.drop_last()[j] == m0.parents.subrange(0, m0.parents.len() - 1)[j]);
                assert(m0.parents.drop_last()[j] == m0.parents[j]);
            } else {
                assert(mp[j] == m0.parents[j]);
            }
            assert(0 <= mp[j] < t.nodes@.len());
        }
        // The invalid entries of the shorter buffer still form a suffix.
        assert(invalid_suffix(b2)) by {
            assert(forall|j: int| 0 <= j < b2.len() ==> b2[j] == #[trigger] m0.buffer[j]);
        }
        if m0.invalid_count == 0 {
            // Everything was valid: the popped entry was too, and the
            // cursor steps back along the chain.
            assert(forall|j: int| 0 <= j < m0.buffer.len() ==> (#[trigger] m0.buffer[j]).valid);
            lemma_vpl_unique(m0.buffer, m0.buffer.len() as int);
            assert(v0 == m0.buffer.len());
            assert(forall|j: int| 0 <= j < b2.len() ==> b2[j] == #[trigger] m0.buffer[j]);
            lemma_vpl_unique(b2, b2.len() as int);
            assert(sum_invalid(b2) == 0) by {
                lemma_sum_invalid_bounds(b2);
            }
            assert(indices_of(self.parents@) =~= m0.parents.drop_last());
            // The chain of the new state is the old chain without its
            // last node.
            let ch2 = self.chain();
            let ch0 = m0.parents.push(m0.cursor);
            assert(ch2 =~= m0.parents);
            assert forall|j: int|
                0 <= j < ch2.len() implies t.node_at(0, valid_syms(self.key_buffer@).take(j))
                == Some(#[trigger] ch2[j]) by {
                assert(valid_syms(b2).take(j) =~= valid_syms(m0.buffer).take(j));
                assert(ch0[j] == ch2[j]);
            }
            assert(self.inv());
        } else {
            // The popped entry was invalid; the cursor stays put.
            assert(sum_invalid(m0.buffer) > 0);
            assert(!last.valid) by {
                if last.valid {
                    assert(forall|j: int|
                        0 <= j < m0.buffer.len() - 1 ==> b2[j] == #[trigger] m0.buffer[j]);
                    assert forall|j: int|
                        0 <= j < m0.buffer.len() implies (#[trigger] m0.buffer[j]).valid by {
                        if j < m0.buffer.len() - 1 {
                            if !m0.buffer[j].valid {
                                assert(!m0.buffer[m0.buffer.len() - 1].valid);
                            }
                        }
                    }
                    assert(sum_invalid(m0.buffer) == 0);
                }
            }
            assert(sum_invalid(m0.buffer) == sum_invalid(b2) + last.char.spec_visual_length());
            assert(self.invalid_count as int == sum_invalid(b2));
            assert(v0 < m0.buffer.len()) by {
                if v0 == m0.buffer.len() {
                    assert(m0.buffer[m0.buffer.len() - 1].valid);
                }
            }
            assert(forall|j: int| 0 <= j < b2.len() ==> b2[j] == #[trigger] m0.buffer[j]);
            lemma_vpl_unique(b2, v0);
            let ch2 = self.chain();
            let ch0 = m0.parents.push(m0.cursor);
            assert(ch2 =~= ch0);
            assert forall|j: int|
                0 <= j < ch2.len() implies t.node_at(0, valid_syms(self.key_buffer@).take(j))
                == Some(#[trigger] ch2[j]) by {
                assert(valid_syms(b2).take(j) =~= valid_syms(m0.buffer).take(j));
            }
            assert(self.inv());
        }
        assert(self.model() =~= step_model(t, m0, KeyEvent::Backspace).0);
    }

    /// Follows `key` from the cursor, or records it as invalid.
    fn apply_key(&mut self, key: CharWithModifiers) -> (r: Outcome)
        requires
            old(self).inv(),
            !old(self).finished,
            old(self).key_buffer@.len() < 100000000,
        ensures
            final(self).inv(),
            final(self).trie == old(self).trie,
            final(self).abbr == old(self).abbr,
            final(self).model() == apply_key_model(old(self).trie, old(self).model(), key).0,
            r.model() == apply_key_model(old(self).trie, old(self).model(), key).1,
            r is Pending <==> !final(self).finished,
    {
        let ghost m0 = self.model();
        let ghost t = self.trie;
        proof {
            lemma_vpl_char(m0.buffer);
            lemma_sum_invalid_bounds(m0.buffer);
        }
        match self.trie.find_child(self.node, key) {
            Some(child) => {
                let ghost v0 = valid_prefix_len(m0.buffer);
                if self.invalid {
                    self.invalid_count = 0;
                    self.invalid = false;
                    strip_invalid(&mut self.key_buffer);
                } else {
                    proof {
                        // Without the invalid flag nothing is invalid, so
                        // the buffer already is its own valid prefix.
                        assert(self.invalid_count == 0);
                        assert(forall|j: int|
                            0 <= j < m0.buffer.len() ==> (#[trigger] m0.buffer[j]).valid);
                        lemma_vpl_unique(m0.buffer, m0.buffer.len() as int);
                        assert(self.key_buffer@ =~= m0.buffer.take(v0));
                    }
                }
                proof {
                    assert(self.key_buffer@ == m0.buffer.take(v0));
                    assert(forall|j: int|
                        0 <= j < v0 ==> (#[trigger] m0.buffer.take(v0)[j]).valid);
                }
                let entry = CharWithModifiersAndValidity { char: key, valid: true };
                self.parents.push(self.node);
                self.node = child;
                self.key_buffer.push(entry);
                let is_leaf = self.trie.node_children_count(child) == 0
                    && self.trie.node_has_command(child);
                let mut cmd: Option<String> = None;
                if is_leaf {
                    cmd = self.trie.node_command_clone(child);
                    self.finished = true;
                }
                proof {
                    assert forall|j: int|
                        0 <= j < m0.parents.len() + 1 implies t.node_at(
                        0,
                        valid_syms(m0.buffer).take(j),
                    ) == Some(#[trigger] m0.parents.push(m0.cursor)[j]) by {
                        assert(old(self).chain() == m0.parents.push(m0.cursor));
                        assert(t.node_at(0, valid_syms(old(self).key_buffer@).take(j)) == Some(
                            old(self).chain()[j],
                        ));
                    }
                    assert(indices_of(self.parents@) =~= m0.parents.push(
                        m0.cursor,
                    ));
                    self.lemma_match_inv(t, m0, key, child as int);
                    assert(self.model() =~= apply_key_model(t, m0, key).0);
                }
                if is_leaf {
                    match cmd {
                        Some(c) => Outcome::Resolved(c),
                        None => {
                            proof {
                                assert(false);
                            }
                            Outcome::Pending
                        },
                    }
                } else {
                    Outcome::Pending
                }
            },
            None => {
                let w = key.visual_length();
                self.invalid_count = self.invalid_count + w;
                self.invalid = true;
                let entry = CharWithModifiersAndValidity { char: key, valid: false };
                self.key_buffer.push(entry);
                proof {
                    let b2 = m0.buffer.push(entry);
                    assert(self.key_buffer@ == b2);
                    let v0 = valid_prefix_len(m0.buffer);
                    assert(forall|j: int| 0 <= j < m0.buffer.len() ==> b2[j] == #[trigger] m0.buffer[j]);
                    assert(invalid_suffix(b2)) by {
                        assert forall|j1: int, j2: int|
                            0 <= j1 <= j2 < b2.len() && !(#[trigger] b2[j1]).valid implies !(
                            #[trigger] b2[j2]).valid by {
                            if j2 < b2.len() - 1 {
                                assert(b2[j1] == m0.buffer[j1] || j1 == b2.len() - 1);
                            }
                        }
                    }
                    assert(sum_invalid(b2) == sum_invalid(m0.buffer)
                        + key.spec_visual_length() as int) by {
                        assert(b2.drop_last() =~= m0.buffer);
                    }
                    lemma_vpl_unique(b2, v0);
                    // The valid prefix, and with it the chain, is untouched.
                    assert(valid_syms(b2) =~= valid_syms(m0.buffer));
                    let ch = self.chain();
                    assert(ch =~= m0.parents.push(m0.cursor));
                    assert forall|j: int|
                        0 <= j < ch.len() implies t.node_at(0, valid_syms(self.key_buffer@).take(j))
                        == Some(#[trigger] ch[j]) by {
                        assert(old(self).chain() == m0.parents.push(m0.cursor));
                        assert(t.node_at(0, valid_syms(old(self).key_buffer@).take(j)) == Some(
                            old(self).chain()[j],
                        ));
                        assert(ch[j] == m0.parents.push(m0.cursor)[j]);
                        assert(valid_syms(b2).take(j) == valid_syms(m0.buffer).take(j));
                    }
                    assert(self.inv());
                    assert(self.model() =~= apply_key_model(t, m0, key).0);
                }
                Outcome::Pending
            },
        }
    }

    /// Restores the invariant after a matched key advanced the cursor.
    proof fn lemma_match_inv(self, t: Trie, m0: SessionModel, key: CharWithModifiers, child: int)
        requires
            t.wf(),
            self.trie == t,
            m0.cursor < t.nodes@.len(),
            0 <= m0.cursor,
            invalid_suffix(m0.buffer),
            m0.parents.len() == valid_prefix_len(m0.buffer),
            forall|j: int|
                0 <= j < m0.parents.len() + 1 ==> t.node_at(0, valid_syms(m0.buffer).take(j))
                    == Some(#[trigger] m0.parents.push(m0.cursor)[j]),
            forall|j: int|
                0 <= j < m0.parents.len() ==> 0 <= #[trigger] m0.parents[j] < t.nodes@.len(),
            t.spec_child(m0.cursor, key) == Some(child),
            m0.cursor < child < t.nodes@.len(),
            self.node as int == child,
            indices_of(self.parents@) == m0.parents.push(m0.cursor),
            self.key_buffer@ == m0.buffer.take(valid_prefix_len(m0.buffer)).push(
                CharWithModifiersAndValidity { char: key, valid: true },
            ),
            self.invalid_count == 0,
            !self.invalid,
        ensures
            self.inv(),
            self.model() == (SessionModel {
                done: self.finished,
                ..apply_key_model(t, m0, key).0
            }),
    {
        let v0 = valid_prefix_len(m0.buffer);
        lemma_vpl_char(m0.buffer);
        let kept = m0.buffer.take(v0);
        let b2 = self.key_buffer@;
        assert(forall|j: int| 0 <= j < v0 ==> (#[trigger] kept[j]).valid);
        assert forall|j: int| 0 <= j < b2.len() implies (#[trigger] b2[j]).valid by {
            if j < v0 {
                assert(b2[j] == kept[j]);
            }
        }
        lemma_vpl_unique(b2, b2.len() as int);
        assert(sum_invalid(b2) == 0) by {
            lemma_sum_invalid_bounds(b2);
        }
        // The new valid symbols are the old ones followed by `key`.
        let vs0 = valid_syms(m0.buffer);
        let vs2 = valid_syms(b2);
        assert(vs2 =~= vs0.push(key));
        let ch0 = m0.parents.push(m0.cursor);
        let ch2 = self.chain();
        assert(ch2 =~= ch0.push(child));
        assert forall|j: int|
            0 <= j < ch2.len() implies t.node_at(0, vs2.take(j)) == Some(#[trigger] ch2[j]) by {
            if j < ch0.len() {
                assert(vs2.take(j) =~= vs0.take(j));
                assert(ch2[j] == ch0[j]);
            } else {
                // The final link: one more edge from the old cursor.
                assert(j == ch0.len());
                let j0 = m0.parents.len() as int;
                assert(m0.parents.push(m0.cursor)[j0] == m0.cursor);
                assert(t.node_at(0, valid_syms(m0.buffer).take(j0)) == Some(
                    m0.parents.push(m0.cursor)[j0],
                ));
                assert(vs0.take(j0) =~= vs0);
                assert(t.node_at(0, vs0) == Some(m0.cursor));
                t.lemma_node_at_snoc(0, vs0, key);
                assert(vs2.take(j) =~= vs0.push(key));
                assert(t.node_at(0, vs0.push(key)) == Some(child));
            }
        }
        assert forall|j: int|
            0 <= j < self.parents@.len() implies (#[trigger] self.parents@[j] as int)
            < t.nodes@.len() by {
            let mp = indices_of(self.parents@);
            assert(mp[j] == self.parents@[j] as int);
            assert(mp[j] == ch0[j]);
            if j < m0.parents.len() {
                assert(ch0[j] == m0.parents[j]);
            } else {
                assert(ch0[j] == m0.cursor);
            }
        }
        assert(self.inv());
        assert(self.model() =~= SessionModel { done: self.finished, ..apply_key_model(t, m0, key).0 });
    }
}

/// Escape (or Ctrl-C) cancels the session at any point, whatever input
/// is buffered: the step yields `Cancelled`, never a resolved command,
/// so nothing is ever written on that path.
pub proof fn lemma_escape_cancels(t: Trie, m: SessionModel, e: KeyEvent)
    requires
        is_cancel_event(e),
    ensures
        step_model(t, m, e).1 == OutcomeModel::Cancelled,
        step_model(t, m, e).0.done,
        !(step_model(t, m, e).1 is Resolved),
{
}

/// Typing the final key of a complete chord that no other chord extends
/// resolves the session immediately, without a confirming key: the built
/// trie's node for the chord is a childless command node, so one step of
/// the transition relation yields `Resolved` with the chord's command and
/// marks the session done.
pub proof fn lemma_final_key_auto_resolves(
    t: Trie,
    chords: Map<Seq<CharWithModifiers>, Seq<char>>,
    q: Seq<CharWithModifiers>,
    s: SessionModel,
)
    requires
        crate::nodes::trie_matches_map(t, chords),
        chords.contains_key(q),
        q.len() > 0,
        forall|q2: Seq<CharWithModifiers>| #[trigger]
            chords.contains_key(q2) ==> !(q2.len() > q.len() && q2.take(q.len() as int) == q),
        t.node_at(0, q.drop_last()) == Some(s.cursor),
    ensures
        spec_fallback(t, s.cursor, q.last()) == q.last(),
        apply_key_model(t, s, q.last()).1 == OutcomeModel::Resolved(chords[q]),
        apply_key_model(t, s, q.last()).0.done,
{
    crate::nodes::lemma_chord_is_leaf(t, chords, q);
    t.lemma_node_at_snoc(0, q.drop_last(), q.last());
    assert(q =~= q.drop_last().push(q.last()));
    let j = t.node_at(0, q)->0;
    assert(t.spec_child(s.cursor, q.last()) == Some(j));
    assert(t.spec_children(j).len() == 0);
    assert(t.spec_node_command(j) == Some(chords[q]));
}

/// Invalid input is stripped once a valid key follows: from a clean
/// state, typing a matching key, then a key with no edge, then a key
/// that matches from the node the first key reached, leaves exactly the
/// first and third symbols in the display buffer, and the cursor never
/// moves past the first reached node until the third key arrives.
pub proof fn lemma_invalid_stripping(
    t: Trie,
    m: SessionModel,
    k1: CharWithModifiers,
    k2: CharWithModifiers,
    k3: CharWithModifiers,
)
    requires
        !m.invalid,
        m.invalid_count == 0,
        valid_prefix_len(m.buffer) == m.buffer.len(),
        t.spec_child(m.cursor, k1) is Some,
        ({
            let n1 = t.spec_child(m.cursor, k1)->0;
            &&& !(t.spec_children(n1).len() == 0 && t.spec_node_command(n1) is Some)
            &&& t.spec_child(n1, k2) is None
            &&& t.spec_child(n1, k3) is Some
        }),
    ensures
        ({
            let n1 = t.spec_child(m.cursor, k1)->0;
            let m1 = apply_key_model(t, m, k1).0;
            let m2 = apply_key_model(t, m1, k2).0;
            let m3 = apply_key_model(t, m2, k3).0;
            &&& m1.cursor == n1
            &&& m2.cursor == n1
            &&& m2.buffer == m.buffer.push(CharWithModifiersAndValidity { char: k1, valid: true })
                .push(CharWithModifiersAndValidity { char: k2, valid: false })
            &&& m3.buffer == m.buffer.push(CharWithModifiersAndValidity { char: k1, valid: true })
                .push(CharWithModifiersAndValidity { char: k3, valid: true })
            &&& m3.cursor == t.spec_child(n1, k3)->0
        }),
{
    let n1 = t.spec_child(m.cursor, k1)->0;
    let e1 = CharWithModifiersAndValidity { char: k1, valid: true };
    let e2 = CharWithModifiersAndValidity { char: k2, valid: false };
    let e3 = CharWithModifiersAndValidity { char: k3, valid: true };
    lemma_vpl_char(m.buffer);
    let m1 = apply_key_model(t, m, k1).0;
    assert(m.buffer.take(m.buffer.len() as int) =~= m.buffer);
    assert(m1.buffer == m.buffer.push(e1));
    assert(m1.cursor == n1);
    assert forall|j: int| 0 <= j < m1.buffer.len() implies (#[trigger] m1.buffer[j]).valid by {
        if j < m.buffer.len() {
            assert(m1.buffer[j] == m.buffer[j]);
        }
    }
    lemma_vpl_unique(m1.buffer, m1.buffer.len() as int);
    let m2 = apply_key_model(t, m1, k2).0;
    assert(m2.buffer == m.buffer.push(e1).push(e2));
    assert(m2.cursor == n1);
    // The invalid push leaves the valid prefix where it was.
    assert forall|j: int| 0 <= j < m1.buffer.len() implies (#[trigger] m2.buffer[j]).valid by {
        assert(m2.buffer[j] == m1.buffer[j]);
    }
    lemma_vpl_unique(m2.buffer, m1.buffer.len() as int);
    let m3 = apply_key_model(t, m2, k3).0;
    assert(m2.buffer.take(m1.buffer.len() as int) =~= m1.buffer);
    assert(m3.buffer == m1.buffer.push(e3));
    assert(m3.buffer =~= m.buffer.push(e1).push(e3));
    assert(m3.cursor == t.spec_child(n1, k3)->0);
}

/// The display text of the whole key buffer: the short form of each key
/// in order.
pub open spec fn spec_buffer_display(b: Seq<CharWithModifiersAndValidity>) -> Seq<char>
    decreases b.len(),
{
    if b.len() == 0 {
        Seq::empty()
    } else {
        spec_buffer_display(b.drop_last()) + b.last().char.spec_short()
    }
}

/// The total width of the key buffer in character cells.
pub open spec fn spec_total_visual_length(b: Seq<CharWithModifiersAndValidity>) -> int
    decreases b.len(),
{
    if b.len() == 0 {
        0
    } else {
        spec_total_visual_length(b.drop_last()) + b.last().char.spec_visual_length() as int
    }
}

/// Display the key buffer in the prompt's format.
pub fn buffer_display(b: &Vec<CharWithModifiersAndValidity>) -> (r: String)
    ensures
        r@ == spec_buffer_display(b@),
{
    let mut out = String::new();
    let mut i: usize = 0;
    while i < b.len()
        invariant
            i <= b@.len(),
            out@ == spec_buffer_display(b@.take(i as int)),
        decreases b@.len() - i,
    {
        let piece = b[i].char.str_short();
        out.append(piece.as_str());
        i = i + 1;
        proof {
            assert(b@.take(i as int).drop_last() =~= b@.take(i as int - 1));
            assert(b@.take(i as int).last() == b@[i as int - 1]);
        }
    }
    proof {
        assert(b@.take(b@.len() as int) =~= b@);
    }
    out
}

/// Total length (in cells) of the buffer when displayed.
pub fn total_visual_length(b: &Vec<CharWithModifiersAndValidity>) -> (r: usize)
    requires
        b@.len() < 100000000,
    ensures
        r == spec_total_visual_length(b@),
{
    proof {
        lemma_total_visual_bounds(b@);
    }
    let mut sum: usize = 0;
    let mut i: usize = 0;
    while i < b.len()
        invariant
            i <= b@.len(),
            b@.len() < 100000000,
            sum == spec_total_visual_length(b@.take(i as int)),
            sum <= 5 * i,
        decreases b@.len() - i,
    {
        let w = b[i].char.visual_length();
        sum = sum + w;
        i = i + 1;
        proof {
            assert(b@.take(i as int).drop_last() =~= b@.take(i as int - 1));
            assert(b@.take(i as int).last() == b@[i as int - 1]);
        }
    }
    proof {
        assert(b@.take(b@.len() as int) =~= b@);
    }
    sum
}

/// The displayed width of a buffer is at most five cells per key.
pub proof fn lemma_total_visual_bounds(b: Seq<CharWithModifiersAndValidity>)
    ensures
        0 <= spec_total_visual_length(b) <= 5 * b.len(),
    decreases b.len(),
{
    if b.len() > 0 {
        lemma_total_visual_bounds(b.drop_last());
    }
}

/// Returns the modifier key if the modifier is present as a valid option,
/// but if not, and if the unmodified key is valid, returns the unmodified
/// key.
pub fn modifier_or_fallback(trie: &Trie, node: usize, key: CharWithModifiers) -> (r:
    CharWithModifiers)
    requires
        trie.wf(),
        (node as int) < trie.nodes@.len(),
    ensures
        r == spec_fallback(*trie, node as int, key),
{
    match trie.find_child(node, key) {
        Some(_) => key,
        None => {
            let bare = key.unmodified();
            match trie.find_child(node, bare) {
                Some(_) => bare,
                None => key,
            }
        },
    }
}

/// Remove all invalid entries; they form a suffix, so this truncates the
/// buffer to its valid prefix.
pub fn strip_invalid(b: &mut Vec<CharWithModifiersAndValidity>)
    requires
        invalid_suffix(old(b)@),
    ensures
        final(b)@ == old(b)@.take(valid_prefix_len(old(b)@)),
{
    proof {
        lemma_vpl_char(old(b)@);
    }
    while b.len() > 0 && !b[b.len() - 1].valid
        invariant
            invalid_suffix(old(b)@),
            b@.len() <= old(b)@.len(),
            b@ =~= old(b)@.take(b@.len() as int),
            valid_prefix_len(old(b)@) <= b@.len(),
        decreases b@.len(),
    {
        proof {
            lemma_vpl_char(old(b)@);
            if b@.len() as int == valid_prefix_len(old(b)@) {
                assert(old(b)@[b@.len() - 1].valid);
                assert(b@[b@.len() - 1].valid);
                assert(false);
            }
        }
        b.pop();
        proof {
            assert(b@ =~= old(b)@.take(b@.len() as int));
        }
    }
    proof {
        lemma_vpl_char(old(b)@);
        let k = b@.len() as int;
        let v = valid_prefix_len(old(b)@);
        if k > 0 {
            // The last remaining entry is valid, so everything at or past
            // the valid prefix boundary has been removed.
            assert(b@[k - 1].valid);
            assert(b@[k - 1] == old(b)@.take(k)[k - 1]);
            assert(old(b)@[k - 1].valid);
            if v < k {
                assert(v < old(b)@.len());
                assert(!old(b)@[v].valid);
                assert(0 <= v <= k - 1 < old(b)@.len());
                assert(invalid_suffix(old(b)@));
                assert(!old(b)@[k - 1].valid);
                assert(false);
            }
        }
        assert(k == v);
    }
}

} // verus!
