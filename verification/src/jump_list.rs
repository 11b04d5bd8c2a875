//! A label-resolving instruction sequence.
//!
//! Instructions are appended one at a time, in source order. An instruction
//! may define a label and may reference one as its jump target. A reference
//! to a label already defined is resolved at once; a reference to a label
//! not yet defined is held pending and back-patched the moment the defining
//! instruction arrives — the classic fix-up scheme of one-pass assemblers.
//! A reference to a label that is never defined stays pending forever; the
//! execution engine treats following such a jump as an error.
//!
//! The nodes live in an arena: a node is addressed by its position in the
//! vector, and the `next`, `prev` and `jump` links hold positions.

use crate::primitives::{Instruction, InstructionV, Label};
use crate::tables::LabelTable;
use vstd::pervasive::VecAdditionalExecFns;
use vstd::prelude::*;

verus! {

/// The jump link of one node: absent for instructions without jump
/// semantics, pending while the referenced label is still undefined,
/// resolved once it is known. A link moves from pending to resolved at most
/// once, and never back.
#[derive(Clone, PartialEq, Eq, Debug)]
pub enum Jump {
    /// The instruction has no jump semantics.
    Absent,
    /// The referenced label has not been defined yet.
    Unresolved(Label),
    /// The jump leads to the node at this position.
    Resolved(usize),
}

/// The mathematical shape of a [`Jump`]: the pending label as its text.
pub enum JumpV {
    /// The instruction has no jump semantics.
    Absent,
    /// The referenced label has not been defined yet.
    Unresolved(Seq<u8>),
    /// The jump leads to the node at this position.
    Resolved(usize),
}

impl View for Jump {
    type V = JumpV;

    open spec fn view(&self) -> JumpV {
        match self {
            Jump::Absent => JumpV::Absent,
            Jump::Unresolved(l) => JumpV::Unresolved(l@),
            Jump::Resolved(t) => JumpV::Resolved(*t),
        }
    }
}

/// One node of the sequence: an instruction and its three links.
#[derive(Clone, PartialEq, Eq, Debug)]
pub struct Node {
    /// The instruction the node carries.
    pub elem: Instruction,
    /// The position of the sequence successor, absent for the last node.
    pub next: Option<usize>,
    /// The position of the sequence predecessor, absent for the first node.
    pub prev: Option<usize>,
    /// The node's jump link.
    pub jump: Jump,
}

impl Node {
    /// A fresh node around one instruction, not yet linked into a sequence.
    pub fn new(elem: Instruction) -> (r: Self)
        ensures
            r.elem == elem,
            r.next is None,
            r.prev is None,
            r.jump is Absent,
    {
        Self { elem, next: None, prev: None, jump: Jump::Absent }
    }
}

/// The position of the current instruction: not yet set, at a node, or past
/// the last node.
#[derive(Clone, Copy, PartialEq, Eq, Structural, Debug)]
pub enum Cursor {
    /// No instruction has been current yet; the head node is read.
    Unset,
    /// The node at this position is current.
    At(usize),
    /// The cursor ran off the end of the sequence.
    PastEnd,
}

/// The mathematical shape of a [`JumpList`].
#[verifier::ext_equal]
pub ghost struct JumpListV {
    /// Each node's instruction and jump link, in sequence order.
    pub nodes: Seq<(InstructionV, JumpV)>,
    /// The position of the node that defines each defined label.
    pub table: Map<Seq<u8>, usize>,
    /// The positions of the nodes waiting on each not-yet-defined label.
    pub pending: Map<Seq<u8>, Seq<usize>>,
    /// The current position.
    pub cursor: Cursor,
}

/// True when `i` stands among the first `k` entries of `w`.
pub open spec fn listed(w: Seq<usize>, k: int, i: int) -> bool {
    exists|j: int| 0 <= j < k && w[j] as int == i
}

/// The text of an optional label.
pub open spec fn opt_label_view(o: Option<Label>) -> Option<Seq<u8>> {
    match o {
        Some(l) => Some(l@),
        None => None,
    }
}

/// What one append does to the sequence. The jump link of the new node is
/// decided from the label table as it stands; a pending reference is
/// recorded; a label definition is stored and back-patches every node that
/// was waiting on it.
pub open spec fn spec_append(
    v: JumpListV,
    elem: InstructionV,
    label: Option<Seq<u8>>,
    jump_label: Option<Seq<u8>>,
) -> JumpListV {
    let n = v.nodes.len() as usize;
    let jstate = match jump_label {
        None => JumpV::Absent,
        Some(j) => if v.table.contains_key(j) {
            JumpV::Resolved(v.table[j])
        } else {
            JumpV::Unresolved(j)
        },
    };
    let nodes1 = v.nodes.push((elem, jstate));
    let pending1 = match jump_label {
        None => v.pending,
        Some(j) => if v.table.contains_key(j) {
            v.pending
        } else {
            v.pending.insert(
                j,
                (if v.pending.contains_key(j) {
                    v.pending[j]
                } else {
                    Seq::empty()
                }).push(n),
            )
        },
    };
    match label {
        None => JumpListV { nodes: nodes1, table: v.table, pending: pending1, cursor: v.cursor },
        Some(l) => {
            let waiting = if pending1.contains_key(l) {
                pending1[l]
            } else {
                Seq::empty()
            };
            let nodes2 = Seq::new(
                nodes1.len(),
                |i: int|
                    if listed(waiting, waiting.len() as int, i) {
                        (nodes1[i].0, JumpV::Resolved(n))
                    } else {
                        nodes1[i]
                    },
            );
            JumpListV {
                nodes: nodes2,
                table: v.table.insert(l, n),
                pending: pending1.remove(l),
                cursor: v.cursor,
            }
        },
    }
}

/// An ordered, append-only sequence of instructions whose jump references
/// are resolved in a single left-to-right pass.
pub struct JumpList {
    /// The arena of nodes; a node's position is its address.
    pub nodes: Vec<Node>,
    /// The position of the first node, absent while the sequence is empty.
    pub head: Option<usize>,
    /// The position of the last node, absent while the sequence is empty.
    pub tail: Option<usize>,
    /// The current position.
    pub pointer: Cursor,
    /// The number of nodes in the sequence.
    pub size: usize,
    /// Maps each defined label to the node that defines it.
    pub jump_table: LabelTable<usize>,
    /// Maps each referenced, not-yet-defined label to the nodes waiting on
    /// it.
    pub unresolved_jumps: LabelTable<Vec<usize>>,
}

impl View for JumpList {
    type V = JumpListV;

    open spec fn view(&self) -> JumpListV {
        JumpListV {
            nodes: self.nodes@.map(|i: int, n: Node| (n.elem@, n.jump@)),
            table: self.jump_table@,
            pending: self.unresolved_jumps@,
            cursor: self.pointer,
        }
    }
}

impl JumpList {
    /// The chain bookkeeping is sound: the size counts the nodes, head and
    /// tail frame the arena, and each node's `next` and `prev` lead to its
    /// neighbours.
    pub open spec fn links_wf(&self) -> bool {
        &&& self.size == self.nodes@.len()
        &&& if self.nodes@.len() == 0 {
            self.head is None && self.tail is None
        } else {
            self.head == Some(0usize) && self.tail == Some((self.nodes@.len() - 1) as usize)
        }
        &&& forall|i: int|
            0 <= i < self.nodes@.len() ==> (#[trigger] self.nodes@[i]).next == (if i + 1
                < self.nodes@.len() {
                Some((i + 1) as usize)
            } else {
                None::<usize>
            })
        &&& forall|i: int|
            0 <= i < self.nodes@.len() ==> (#[trigger] self.nodes@[i]).prev == (if i > 0 {
                Some((i - 1) as usize)
            } else {
                None::<usize>
            })
    }

    /// The two label tables are sound and disjoint in keys, every resolved
    /// jump leads into the arena, and the pending table lists exactly the
    /// nodes whose jump waits on each undefined label.
    pub open spec fn tables_wf(&self) -> bool {
        let len = self.nodes@.len();
        &&& forall|k: Seq<u8>|
            #[trigger] self.jump_table@.contains_key(k) ==> self.jump_table@[k] < len
        &&& forall|k: Seq<u8>|
            !(#[trigger] self.jump_table@.contains_key(k) && self.unresolved_jumps@.contains_key(
                k,
            ))
        &&& forall|k: Seq<u8>, j: int|
            #![trigger self.unresolved_jumps@[k][j]]
            self.unresolved_jumps@.contains_key(k) && 0 <= j < self.unresolved_jumps@[k].len()
                ==> self.unresolved_jumps@[k][j] < len && self.nodes@[
                self.unresolved_jumps@[k][j] as int
            ].jump@ == JumpV::Unresolved(k)
        &&& forall|i: int|
            0 <= i < len ==> match (#[trigger] self.nodes@[i]).jump {
                Jump::Absent => true,
                Jump::Unresolved(l) => self.unresolved_jumps@.contains_key(l@) && listed(
                    self.unresolved_jumps@[l@],
                    self.unresolved_jumps@[l@].len() as int,
                    i,
                ),
                Jump::Resolved(t) => t < len,
            }
    }

    /// The cursor, when at a node, is inside the arena.
    pub open spec fn cursor_wf(&self) -> bool {
        match self.pointer {
            Cursor::At(i) => i < self.nodes@.len(),
            _ => true,
        }
    }

    /// The sequence is well formed.
    pub open spec fn wf(&self) -> bool {
        &&& self.links_wf()
        &&& self.jump_table.wf()
        &&& self.unresolved_jumps.wf()
        &&& self.tables_wf()
        &&& self.cursor_wf()
    }

    /// The position of the current node: the cursor's node, the head while
    /// the cursor is unset, nothing when the sequence is empty or the
    /// cursor ran off the end.
    pub open spec fn cur_index(&self) -> Option<int> {
        match self.pointer {
            Cursor::Unset => if self.nodes@.len() > 0 {
                Some(0int)
            } else {
                None
            },
            Cursor::At(i) => Some(i as int),
            Cursor::PastEnd => None,
        }
    }

    /// An empty sequence.
    pub fn new() -> (r: Self)
        ensures
            r.wf(),
            r@.nodes == Seq::<(InstructionV, JumpV)>::empty(),
            r@.table == Map::<Seq<u8>, usize>::empty(),
            r@.pending == Map::<Seq<u8>, Seq<usize>>::empty(),
            r@.cursor == Cursor::Unset,
    {
        let r = Self {
            nodes: Vec::new(),
            head: None,
            tail: None,
            pointer: Cursor::Unset,
            size: 0,
            jump_table: LabelTable::new(),
            unresolved_jumps: LabelTable::new(),
        };
        proof {
            assert(r@.nodes =~= Seq::<(InstructionV, JumpV)>::empty());
        }
        r
    }

    /// Appends one instruction at the tail, in a single left-to-right pass
    /// over the source. A jump reference to a label already defined is
    /// resolved at once; one to a label not yet defined is held pending. A
    /// label definition is stored and back-patches every node that was
    /// waiting on it — including the new node itself, when the same
    /// instruction references the label it defines.
    #[verifier::rlimit(50)]
    pub fn append(&mut self, elem: Instruction, label: Option<Label>, jump_label: Option<Label>)
        requires
            old(self).wf(),
            old(self).nodes@.len() < usize::MAX,
        ensures
            final(self).wf(),
            final(self)@ =~~= spec_append(
                old(self)@,
                elem@,
                opt_label_view(label),
                opt_label_view(jump_label),
            ),
    {
        let ghost orig = *old(self);
        let ghost v0 = self@;
        let ghost ge = elem@;
        let n = self.nodes.len();

        // Decide the jump state from the label table as it stands.
        let jump = match &jump_label {
            None => Jump::Absent,
            Some(j) => match self.jump_table.get(j) {
                Some(t) => Jump::Resolved(*t),
                None => Jump::Unresolved(j.duplicate()),
            },
        };
        let ghost gj = jump@;

        self.append_node(Node { elem, next: None, prev: None, jump });
        let ghost nodes1 = v0.nodes.push((ge, gj));
        proof {
            assert(self@.nodes =~= nodes1);
        }

        // If the reference is to a label not yet defined, remember the new
        // node so the definition can back-patch it.
        if let Some(j) = &jump_label {
            if !self.jump_table.contains(j) {
                match self.unresolved_jumps.remove(j) {
                    Some(mut w) => {
                        w.push(n);
                        self.unresolved_jumps.insert(j.duplicate(), w);
                    },
                    None => {
                        let mut w: Vec<usize> = Vec::new();
                        w.push(n);
                        self.unresolved_jumps.insert(j.duplicate(), w);
                    },
                }
                proof {
                    assert(self.unresolved_jumps@ =~~= v0.pending.insert(
                        j@,
                        (if v0.pending.contains_key(j@) {
                            v0.pending[j@]
                        } else {
                            Seq::empty()
                        }).push(n),
                    ));
                }
            }
        }
        let ghost pending1 = self.unresolved_jumps@;
        proof {
            lemma_record_step_wf(orig, *self, opt_label_view(jump_label), n);
        }
        let ghost s1 = *self;

        // If this node defines a label, store it and resolve every node
        // that was waiting on it.
        if let Some(l) = label {
            let ghost gl = l@;
            self.jump_table.insert(l.duplicate(), n);
            match self.unresolved_jumps.remove(&l) {
                Some(waiting) => {
                    let ghost ms = *self;
                    let mut k: usize = 0;
                    #[verifier::loop_isolation(false)]
                    while k < waiting.len()
                        invariant
                            k <= waiting.len(),
                            self.links_wf(),
                            self.nodes@.len() == ms.nodes@.len(),
                            self.jump_table == ms.jump_table,
                            self.unresolved_jumps == ms.unresolved_jumps,
                            self.pointer == ms.pointer,
                            forall|j: int| 0 <= j < waiting@.len() ==> waiting@[j] < self.nodes@.len(),
                            forall|i: int|
                                0 <= i < self.nodes@.len() && listed(waiting@, k as int, i)
                                    ==> (#[trigger] self.nodes@[i]).elem@ == ms.nodes@[i].elem@
                                    && self.nodes@[i].jump@ == JumpV::Resolved(n),
                            forall|i: int|
                                0 <= i < self.nodes@.len() && !listed(waiting@, k as int, i)
                                    ==> (#[trigger] self.nodes@[i]) == ms.nodes@[i],
                        decreases waiting.len() - k,
                    {
                        let w = waiting[k];
                        let target = &self.nodes[w];
                        let fixed = Node {
                            elem: target.elem.duplicate(),
                            next: target.next,
                            prev: target.prev,
                            jump: Jump::Resolved(n),
                        };
                        self.nodes.set(w, fixed);
                        proof {
                            assert(forall|i: int|
                                0 <= i < self.nodes@.len() && listed(waiting@, k + 1, i)
                                    && !listed(waiting@, k as int, i) ==> i == w as int);
                        }
                        k = k + 1;
                    }
                    proof {
                        lemma_label_step_wf(s1, *self, gl, n, waiting@);
                        assert(self@ =~~= spec_append(
                            v0,
                            ge,
                            opt_label_view(label),
                            opt_label_view(jump_label),
                        ));
                    }
                },
                None => {
                    proof {
                        assert(self.unresolved_jumps@ =~~= pending1.remove(gl));
                        lemma_label_step_wf(s1, *self, gl, n, Seq::empty());
                        assert(self@ =~~= spec_append(
                            v0,
                            ge,
                            opt_label_view(label),
                            opt_label_view(jump_label),
                        ));
                    }
                },
            }
        } else {
            proof {
                assert(self@ =~~= spec_append(
                    v0,
                    ge,
                    opt_label_view(label),
                    opt_label_view(jump_label),
                ));
            }
        }
    }

    /// Hangs a fresh node onto the tail: counts it, links the old tail and
    /// the new node to each other, and moves the tail.
    fn append_node(&mut self, new_tail: Node)
        requires
            old(self).links_wf(),
            old(self).nodes@.len() < usize::MAX,
            new_tail.next is None,
            new_tail.prev is None,
        ensures
            final(self).links_wf(),
            final(self).nodes@.len() == old(self).nodes@.len() + 1,
            final(self).nodes@.last().elem == new_tail.elem,
            final(self).nodes@.last().jump == new_tail.jump,
            forall|i: int|
                0 <= i < old(self).nodes@.len() ==> (#[trigger] final(self).nodes@[i]).elem
                    == old(self).nodes@[i].elem && final(self).nodes@[i].jump
                    == old(self).nodes@[i].jump,
            final(self).jump_table == old(self).jump_table,
            final(self).unresolved_jumps == old(self).unresolved_jumps,
            final(self).pointer == old(self).pointer,
    {
        self.size = self.size + 1;
        let n = self.nodes.len();
        let mut new_tail = new_tail;
        match self.tail {
            Some(old_tail) => {
                new_tail.prev = Some(old_tail);
                match self.nodes.pop() {
                    Some(mut last) => {
                        last.next = Some(n);
                        self.nodes.push(last);
                    },
                    None => {
                        proof {
                            assert(false);
                        }
                    },
                }
                self.nodes.push(new_tail);
                self.tail = Some(n);
            },
            None => {
                self.nodes.push(new_tail);
                self.head = Some(n);
                self.tail = Some(n);
            },
        }
    }
    /// A copy of the current instruction: the one at the cursor, or the one
    /// at the head while the cursor is unset. Nothing when the sequence is
    /// empty or the cursor ran off the end.
    pub fn get(&self) -> (r: Option<Instruction>)
        requires
            self.wf(),
        ensures
            match self.cur_index() {
                Some(i) => r matches Some(ins) && ins@ == self@.nodes[i].0,
                None => r is None,
            },
    {
        match self.pointer {
            Cursor::Unset => {
                if self.nodes.len() > 0 {
                    Some(self.nodes[0].elem.duplicate())
                } else {
                    None
                }
            },
            Cursor::At(i) => Some(self.nodes[i].elem.duplicate()),
            Cursor::PastEnd => None,
        }
    }

    /// Where the cursor stands after one step along the `next` links: at
    /// the successor, at the head while it was unset, past the end when
    /// there is no successor.
    pub open spec fn next_cursor(&self) -> Cursor {
        match self.pointer {
            Cursor::Unset => if self.nodes@.len() > 0 {
                Cursor::At(0usize)
            } else {
                Cursor::PastEnd
            },
            Cursor::At(i) => if i + 1 < self.nodes@.len() {
                Cursor::At((i + 1) as usize)
            } else {
                Cursor::PastEnd
            },
            Cursor::PastEnd => Cursor::PastEnd,
        }
    }

    /// Moves the cursor to the successor of the current node, or to the
    /// head while it was unset. Past the last node the cursor stays past
    /// the end, which `get` surfaces as absent.
    pub fn goto_next(&mut self)
        requires
            old(self).wf(),
        ensures
            final(self).wf(),
            final(self)@ =~~= (JumpListV { cursor: old(self).next_cursor(), ..old(self)@ }),
    {
        let next = match self.pointer {
            Cursor::Unset => {
                if self.nodes.len() > 0 {
                    Cursor::At(0)
                } else {
                    Cursor::PastEnd
                }
            },
            Cursor::At(i) => match self.nodes[i].next {
                Some(nx) => Cursor::At(nx),
                None => Cursor::PastEnd,
            },
            Cursor::PastEnd => Cursor::PastEnd,
        };
        self.pointer = next;
    }

    /// The position the current node's resolved jump link leads to.
    pub open spec fn cur_jump_target(&self) -> usize {
        match self.cur_index() {
            Some(i) => match self.nodes@[i].jump {
                Jump::Resolved(t) => t,
                _ => arbitrary(),
            },
            None => arbitrary(),
        }
    }

    /// Moves the cursor to the node the current node's jump link leads to.
    /// The caller only invokes this on a node whose jump is resolved: the
    /// execution engine guarantees that by only following jumps of
    /// conditional and goto instructions after resolution.
    pub fn goto_jump(&mut self)
        requires
            old(self).wf(),
            match old(self).cur_index() {
                Some(i) => old(self).nodes@[i].jump is Resolved,
                None => false,
            },
        ensures
            final(self).wf(),
            final(self)@ =~~= (JumpListV {
                cursor: Cursor::At(old(self).cur_jump_target()),
                ..old(self)@
            }),
    {
        let i: usize = match self.pointer {
            Cursor::Unset => 0,
            Cursor::At(i) => i,
            Cursor::PastEnd => {
                proof {
                    assert(false);
                }
                0
            },
        };
        match &self.nodes[i].jump {
            Jump::Resolved(t) => {
                self.pointer = Cursor::At(*t);
            },
            _ => {
                proof {
                    assert(false);
                }
            },
        }
    }
}

/// Law: the order of a label's definition and a jump reference to it does
/// not change the resolved target. Appending a jump reference to a label
/// not yet defined and then the defining instruction leaves the reference
/// node resolved to the node that carries the defining instruction — just
/// as appending the reference after the definition already existed does.
pub proof fn lemma_forward_reference_order(
    v: JumpListV,
    e1: InstructionV,
    e2: InstructionV,
    l: Seq<u8>,
)
    requires
        !v.table.contains_key(l),
        !v.pending.contains_key(l),
        v.nodes.len() + 1 < usize::MAX,
    ensures
        ({
            // Reference first, definition later: the reference is
            // back-patched to the defining node.
            let forward = spec_append(spec_append(v, e1, None, Some(l)), e2, Some(l), None);
            let n = v.nodes.len() as int;
            &&& forward.nodes.len() == v.nodes.len() + 2
            &&& forward.nodes[n].1 == JumpV::Resolved((n + 1) as usize)
            &&& forward.nodes[n + 1].0 == e2
            &&& forward.table[l] == (n + 1) as usize
            &&& !forward.pending.contains_key(l)
        }),
        ({
            // Definition first, reference later: the reference resolves at
            // once, to that same defining node.
            let backward = spec_append(spec_append(v, e2, Some(l), None), e1, None, Some(l));
            let n = v.nodes.len() as int;
            &&& backward.nodes.len() == v.nodes.len() + 2
            &&& backward.nodes[n + 1].1 == JumpV::Resolved(n as usize)
            &&& backward.nodes[n].0 == e2
            &&& backward.table[l] == n as usize
            &&& !backward.pending.contains_key(l)
        }),
{
    let n = v.nodes.len() as int;
    let s1 = spec_append(v, e1, None, Some(l));
    let pend1 = v.pending.insert(l, Seq::<usize>::empty().push(n as usize));
    assert(s1.pending == pend1);
    let forward = spec_append(s1, e2, Some(l), None);
    let waiting = pend1[l];
    assert(waiting == Seq::<usize>::empty().push(n as usize));
    assert(listed(waiting, waiting.len() as int, n)) by {
        assert(waiting[0] as int == n);
    }
    assert(!listed(waiting, waiting.len() as int, n + 1)) by {
        assert(waiting.len() == 1);
    }
    assert(forward.nodes[n + 1].0 == e2);

    let s2 = spec_append(v, e2, Some(l), None);
    assert(!v.pending.contains_key(l));
    assert(forall|i: int|
        0 <= i < s2.nodes.len() ==> !listed(
            Seq::<usize>::empty(),
            0,
            i,
        ));
    assert(s2.nodes[n].0 == e2);
    assert(s2.table == v.table.insert(l, n as usize));
    let backward = spec_append(s2, e1, None, Some(l));
    assert(backward.nodes[n + 1].1 == JumpV::Resolved(n as usize));
    assert(backward.nodes[n].0 == e2);
}

/// After one node is appended and a pending reference, if any, is recorded,
/// the sequence is well formed again.
proof fn lemma_record_step_wf(orig: JumpList, s1: JumpList, jref: Option<Seq<u8>>, n: usize)
    requires
        orig.wf(),
        n == orig.nodes@.len(),
        s1.links_wf(),
        s1.nodes@.len() == orig.nodes@.len() + 1,
        forall|i: int|
            0 <= i < orig.nodes@.len() ==> (#[trigger] s1.nodes@[i]).elem == orig.nodes@[i].elem
                && s1.nodes@[i].jump == orig.nodes@[i].jump,
        s1.jump_table == orig.jump_table,
        s1.unresolved_jumps.wf(),
        s1.pointer == orig.pointer,
        match jref {
            None => s1.nodes@.last().jump is Absent && s1.unresolved_jumps@
                == orig.unresolved_jumps@,
            Some(jj) => if orig.jump_table@.contains_key(jj) {
                s1.nodes@.last().jump@ == JumpV::Resolved(orig.jump_table@[jj])
                    && s1.unresolved_jumps@ == orig.unresolved_jumps@
            } else {
                s1.nodes@.last().jump@ == JumpV::Unresolved(jj) && s1.unresolved_jumps@
                    == orig.unresolved_jumps@.insert(
                    jj,
                    (if orig.unresolved_jumps@.contains_key(jj) {
                        orig.unresolved_jumps@[jj]
                    } else {
                        Seq::empty()
                    }).push(n),
                )
            },
        },
    ensures
        s1.wf(),
{
    let len = s1.nodes@.len();
    let pend = s1.unresolved_jumps@;
    let opend = orig.unresolved_jumps@;
    assert forall|k: Seq<u8>, j: int|
        pend.contains_key(k) && 0 <= j < pend[k].len() implies #[trigger] pend[k][j] < len
        && s1.nodes@[pend[k][j] as int].jump@ == JumpV::Unresolved(k) by {
        match jref {
            None => {},
            Some(jj) => {
                if !orig.jump_table@.contains_key(jj) && k == jj {
                    let base = if opend.contains_key(jj) {
                        opend[jj]
                    } else {
                        Seq::empty()
                    };
                    assert(pend[k] == base.push(n));
                    if j < base.len() {
                        assert(opend.contains_key(jj) && 0 <= j < opend[jj].len());
                    } else {
                        assert(pend[k][j] == n);
                    }
                }
            },
        }
    }
    assert forall|i: int| 0 <= i < len implies match (#[trigger] s1.nodes@[i]).jump {
        Jump::Absent => true,
        Jump::Unresolved(l) => pend.contains_key(l@) && listed(pend[l@], pend[l@].len() as int, i),
        Jump::Resolved(t) => t < len,
    } by {
        if i < n {
            match s1.nodes@[i].jump {
                Jump::Absent => {},
                Jump::Unresolved(l) => {
                    assert(orig.nodes@[i].jump == s1.nodes@[i].jump);
                    assert(opend.contains_key(l@) && listed(opend[l@], opend[l@].len() as int, i));
                    match jref {
                        None => {},
                        Some(jj) => {
                            if !orig.jump_table@.contains_key(jj) && l@ == jj {
                                let base = opend[jj];
                                let w = choose|j: int|
                                    0 <= j < base.len() && base[j] as int == i;
                                assert(pend[l@][w] as int == i);
                                assert(listed(pend[l@], pend[l@].len() as int, i));
                            }
                        },
                    }
                },
                Jump::Resolved(t) => {},
            }
        } else {
            assert(i == n);
            match jref {
                None => {},
                Some(jj) => {
                    if !orig.jump_table@.contains_key(jj) {
                        let base = if opend.contains_key(jj) {
                            opend[jj]
                        } else {
                            Seq::empty()
                        };
                        assert(pend[jj][base.len() as int] as int == n);
                        assert(listed(pend[jj], pend[jj].len() as int, i));
                        assert(s1.nodes@[i].jump@ == JumpV::Unresolved(jj));
                    }
                },
            }
        }
    }
}

/// After a label definition is stored and every node waiting on it is
/// resolved to the defining node, the sequence is well formed again.
proof fn lemma_label_step_wf(s1: JumpList, fin: JumpList, gl: Seq<u8>, n: usize, waiting: Seq<usize>)
    requires
        s1.wf(),
        n as int == s1.nodes@.len() - 1,
        fin.links_wf(),
        fin.nodes@.len() == s1.nodes@.len(),
        fin.jump_table.wf(),
        fin.unresolved_jumps.wf(),
        fin.jump_table@ == s1.jump_table@.insert(gl, n),
        fin.unresolved_jumps@ == s1.unresolved_jumps@.remove(gl),
        waiting == (if s1.unresolved_jumps@.contains_key(gl) {
            s1.unresolved_jumps@[gl]
        } else {
            Seq::<usize>::empty()
        }),
        forall|i: int|
            0 <= i < fin.nodes@.len() && listed(waiting, waiting.len() as int, i) ==> (
            #[trigger] fin.nodes@[i]).elem@ == s1.nodes@[i].elem@ && fin.nodes@[i].jump@
                == JumpV::Resolved(n),
        forall|i: int|
            0 <= i < fin.nodes@.len() && !listed(waiting, waiting.len() as int, i) ==> (
            #[trigger] fin.nodes@[i]) == s1.nodes@[i],
        fin.pointer == s1.pointer,
    ensures
        fin.wf(),
{
    let len = fin.nodes@.len();
    let pend = fin.unresolved_jumps@;
    let spend = s1.unresolved_jumps@;
    assert forall|k: Seq<u8>, j: int|
        pend.contains_key(k) && 0 <= j < pend[k].len() implies #[trigger] pend[k][j] < len
        && fin.nodes@[pend[k][j] as int].jump@ == JumpV::Unresolved(k) by {
        assert(k != gl);
        assert(spend.contains_key(k) && spend[k] == pend[k]);
        let idx = pend[k][j] as int;
        assert(spend[k][j] < len && s1.nodes@[idx].jump@ == JumpV::Unresolved(k));
        if listed(waiting, waiting.len() as int, idx) {
            assert(spend.contains_key(gl));
            let w = choose|j2: int| 0 <= j2 < waiting.len() && waiting[j2] as int == idx;
            assert(spend[gl][w] < len && s1.nodes@[idx].jump@ == JumpV::Unresolved(gl));
            assert(false);
        }
        assert(fin.nodes@[idx] == s1.nodes@[idx]);
    }
    assert forall|i: int| 0 <= i < len implies match (#[trigger] fin.nodes@[i]).jump {
        Jump::Absent => true,
        Jump::Unresolved(l) => pend.contains_key(l@) && listed(pend[l@], pend[l@].len() as int, i),
        Jump::Resolved(t) => t < len,
    } by {
        if listed(waiting, waiting.len() as int, i) {
            assert(fin.nodes@[i].jump@ == JumpV::Resolved(n));
            match fin.nodes@[i].jump {
                Jump::Resolved(t) => {
                    assert(t == n && n < len);
                },
                _ => {
                    assert(false);
                },
            }
        } else {
            assert(fin.nodes@[i] == s1.nodes@[i]);
            match s1.nodes@[i].jump {
                Jump::Absent => {},
                Jump::Unresolved(l) => {
                    assert(spend.contains_key(l@) && listed(
                        spend[l@],
                        spend[l@].len() as int,
                        i,
                    ));
                    if l@ == gl {
                        assert(waiting == spend[gl]);
                        assert(false);
                    }
                    assert(pend.contains_key(l@) && pend[l@] == spend[l@]);
                },
                Jump::Resolved(t) => {},
            }
        }
    }
}

} // verus!
