use register_machine::jump_list::{Cursor, Jump, JumpList, Node};
use register_machine::tables::LabelTable;
use register_machine::{Instruction, Label, Register, Unsigned};

fn lab(s: &str) -> Label {
    Label(s.as_bytes().to_vec())
}

#[test]
fn fresh_node_is_unlinked() {
    let n = Node::new(Instruction::Stop);
    assert_eq!(n.elem, Instruction::Stop);
    assert!(n.next.is_none());
    assert!(n.prev.is_none());
    assert_eq!(n.jump, Jump::Absent);
}

#[test]
fn append_links_nodes_in_order() {
    let mut jl = JumpList::new();
    jl.append(Instruction::Increment(Register::Y), None, None);
    jl.append(Instruction::Stop, None, None);
    assert_eq!(jl.size, 2);
    assert_eq!(jl.head, Some(0));
    assert_eq!(jl.tail, Some(1));
    assert_eq!(jl.nodes[0].next, Some(1));
    assert_eq!(jl.nodes[1].prev, Some(0));
    assert!(jl.nodes[1].next.is_none());
}

#[test]
fn forward_reference_is_back_patched() {
    // The jump arrives before the label: pending, then resolved.
    let mut jl = JumpList::new();
    jl.append(Instruction::Goto(lab("b")), None, Some(lab("b")));
    assert_eq!(jl.nodes[0].jump, Jump::Unresolved(lab("b")));
    jl.append(Instruction::Increment(Register::Y), Some(lab("b")), None);
    assert_eq!(jl.nodes[0].jump, Jump::Resolved(1));
}

#[test]
fn backward_reference_resolves_at_once() {
    // The label arrives before the jump: resolved on append.
    let mut jl = JumpList::new();
    jl.append(Instruction::Increment(Register::Y), Some(lab("b")), None);
    jl.append(Instruction::Goto(lab("b")), None, Some(lab("b")));
    assert_eq!(jl.nodes[1].jump, Jump::Resolved(0));
}

#[test]
fn reference_order_does_not_change_the_target() {
    // Either order leaves the referencing node resolved to the node that
    // carries the defining instruction.
    let mut forward = JumpList::new();
    forward.append(Instruction::Goto(lab("l")), None, Some(lab("l")));
    forward.append(Instruction::Stop, Some(lab("l")), None);
    let target_fwd = match forward.nodes[0].jump {
        Jump::Resolved(t) => t,
        _ => panic!("jump left unresolved"),
    };
    assert_eq!(forward.nodes[target_fwd].elem, Instruction::Stop);

    let mut backward = JumpList::new();
    backward.append(Instruction::Stop, Some(lab("l")), None);
    backward.append(Instruction::Goto(lab("l")), None, Some(lab("l")));
    let target_bwd = match backward.nodes[1].jump {
        Jump::Resolved(t) => t,
        _ => panic!("jump left unresolved"),
    };
    assert_eq!(backward.nodes[target_bwd].elem, Instruction::Stop);
}

#[test]
fn self_referencing_label_makes_a_degenerate_loop() {
    let mut jl = JumpList::new();
    jl.append(Instruction::Goto(lab("me")), Some(lab("me")), Some(lab("me")));
    assert_eq!(jl.nodes[0].jump, Jump::Resolved(0));
}

#[test]
fn several_nodes_wait_on_one_label() {
    let mut jl = JumpList::new();
    jl.append(Instruction::Goto(lab("x")), None, Some(lab("x")));
    jl.append(Instruction::Goto(lab("x")), None, Some(lab("x")));
    jl.append(Instruction::Stop, Some(lab("x")), None);
    assert_eq!(jl.nodes[0].jump, Jump::Resolved(2));
    assert_eq!(jl.nodes[1].jump, Jump::Resolved(2));
}

#[test]
fn never_defined_label_stays_pending() {
    let mut jl = JumpList::new();
    jl.append(Instruction::Goto(lab("ghostly")), None, Some(lab("ghostly")));
    jl.append(Instruction::Stop, None, None);
    assert_eq!(jl.nodes[0].jump, Jump::Unresolved(lab("ghostly")));
}

#[test]
fn get_reads_head_while_cursor_is_unset() {
    let mut jl = JumpList::new();
    assert!(jl.get().is_none());
    jl.append(Instruction::Increment(Register::Y), None, None);
    jl.append(Instruction::Stop, None, None);
    assert_eq!(jl.get(), Some(Instruction::Increment(Register::Y)));
    jl.goto_next();
    assert_eq!(jl.get(), Some(Instruction::Increment(Register::Y)));
    jl.goto_next();
    assert_eq!(jl.get(), Some(Instruction::Stop));
    jl.goto_next();
    assert_eq!(jl.pointer, Cursor::PastEnd);
    assert!(jl.get().is_none());
}

#[test]
fn goto_jump_follows_the_resolved_link() {
    let mut jl = JumpList::new();
    jl.append(Instruction::Goto(lab("end")), None, Some(lab("end")));
    jl.append(Instruction::Increment(Register::Y), None, None);
    jl.append(Instruction::Stop, Some(lab("end")), None);
    jl.goto_next(); // at the GOTO
    jl.goto_jump();
    assert_eq!(jl.pointer, Cursor::At(2));
    assert_eq!(jl.get(), Some(Instruction::Stop));
}

#[test]
fn label_table_stores_and_replaces() {
    let mut t: LabelTable<usize> = LabelTable::new();
    assert!(!t.contains(&lab("a")));
    t.insert(lab("a"), 3);
    t.insert(lab("b"), 5);
    assert_eq!(t.get(&lab("a")), Some(&3));
    t.insert(lab("a"), 7);
    assert_eq!(t.get(&lab("a")), Some(&7));
    assert_eq!(t.remove(&lab("b")), Some(5));
    assert_eq!(t.get(&lab("b")), None);
}

#[test]
fn counters_increment_and_saturate_downward() {
    let mut u = Unsigned(0);
    u.decrement();
    u.decrement();
    assert_eq!(u, Unsigned(0));
    u.increment();
    u.increment();
    assert_eq!(u, Unsigned(2));
    u.decrement();
    assert_eq!(u, Unsigned(1));
    assert_eq!(Unsigned::default(), Unsigned(0));
}
