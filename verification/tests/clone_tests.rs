use label_rewriter::fresh::clone_with_fresh_regular_labels;
use label_rewriter::instr::Instr;
use label_rewriter::label::{Label, LabelGen};

fn reg(id: usize) -> Label {
    Label::Regular(id)
}

fn named(s: &str) -> Label {
    Label::Named(s.to_string())
}

#[test]
fn generator_issues_consecutive_identities() {
    let mut gen = LabelGen::new(3);
    assert_eq!(gen.next_regular(), Label::Regular(3));
    assert_eq!(gen.next_regular(), Label::Regular(4));
    assert_eq!(gen.next, 5);
}

#[test]
fn clone_without_definitions_is_a_noop() {
    // No label definition anywhere in the block: content unchanged and no
    // fresh identity drawn.
    let mut gen = LabelGen::new(5);
    let mut block = vec![Instr::Plain(1), Instr::Jmp(reg(7))];
    clone_with_fresh_regular_labels(&mut gen, &mut block);
    assert_eq!(block, vec![Instr::Plain(1), Instr::Jmp(reg(7))]);
    assert_eq!(gen.next, 5);
}

#[test]
fn clone_renames_both_flavors_consistently() {
    // A Named label "a" and a Regular label 5, each referenced twice: all four
    // references follow their renamed definitions, every fresh identity is at
    // or above the generator's starting point, and Named definitions come out
    // Regular.
    let mut gen = LabelGen::new(10);
    let mut block = vec![
        Instr::LabelDef(named("a")),
        Instr::Jmp(named("a")),
        Instr::JmpZ(named("a")),
        Instr::LabelDef(reg(5)),
        Instr::Jmp(reg(5)),
        Instr::JmpNZ(reg(5)),
    ];
    clone_with_fresh_regular_labels(&mut gen, &mut block);
    assert_eq!(
        block,
        vec![
            Instr::LabelDef(reg(10)),
            Instr::Jmp(reg(10)),
            Instr::JmpZ(reg(10)),
            Instr::LabelDef(reg(11)),
            Instr::Jmp(reg(11)),
            Instr::JmpNZ(reg(11)),
        ]
    );
    assert_eq!(gen.next, 12);
    for i in &block {
        if let Instr::LabelDef(Label::Regular(id)) = i {
            assert!(*id >= 10, "fresh id {} collides with a previously issued one", id);
        }
    }
}

#[test]
fn clone_leaves_external_references_untouched() {
    // References to labels defined outside the block keep their identity,
    // whichever flavor they carry.
    let mut gen = LabelGen::new(100);
    let mut block = vec![
        Instr::LabelDef(reg(1)),
        Instr::Jmp(reg(1)),
        Instr::Jmp(reg(2)),
        Instr::Jmp(named("out")),
    ];
    clone_with_fresh_regular_labels(&mut gen, &mut block);
    assert_eq!(
        block,
        vec![
            Instr::LabelDef(reg(100)),
            Instr::Jmp(reg(100)),
            Instr::Jmp(reg(2)),
            Instr::Jmp(named("out")),
        ]
    );
    assert_eq!(gen.next, 101);
}

#[test]
fn clone_rewrites_dispatch_and_memo_operands() {
    let mut gen = LabelGen::new(40);
    let mut block = vec![
        Instr::LabelDef(reg(8)),
        Instr::LabelDef(named("b")),
        Instr::Switch(vec![reg(8), reg(9)]),
        Instr::SSwitch(vec![("x".to_string(), named("b"))]),
        Instr::MemoGetEager(reg(8), named("b")),
        Instr::Call(Some(reg(8))),
        Instr::IterNext(2, named("b")),
    ];
    clone_with_fresh_regular_labels(&mut gen, &mut block);
    assert_eq!(
        block,
        vec![
            Instr::LabelDef(reg(40)),
            Instr::LabelDef(reg(41)),
            Instr::Switch(vec![reg(40), reg(9)]),
            Instr::SSwitch(vec![("x".to_string(), reg(41))]),
            Instr::MemoGetEager(reg(40), reg(41)),
            Instr::Call(Some(reg(40))),
            Instr::IterNext(2, reg(41)),
        ]
    );
    assert_eq!(gen.next, 42);
}

#[test]
fn clone_duplicate_definition_takes_latest_fresh_identity() {
    // Two definitions of the same identity each draw a fresh id; the later
    // drawing wins in the mapping, so both definitions and the reference end
    // up on it.
    let mut gen = LabelGen::new(0);
    let mut block = vec![Instr::LabelDef(reg(1)), Instr::LabelDef(reg(1)), Instr::Jmp(reg(1))];
    clone_with_fresh_regular_labels(&mut gen, &mut block);
    assert_eq!(
        block,
        vec![Instr::LabelDef(reg(1)), Instr::LabelDef(reg(1)), Instr::Jmp(reg(1))]
    );
    assert_eq!(gen.next, 2);
}
