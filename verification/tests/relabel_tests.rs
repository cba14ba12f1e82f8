use std::collections::HashMap;

use label_rewriter::instr::{Instr, Param};
use label_rewriter::label::Label;
use label_rewriter::relabel::{
    create_label_ref_map, create_label_to_offset_map, relabel_function, rewrite_params_and_body,
    RelabelError,
};

fn reg(id: usize) -> Label {
    Label::Regular(id)
}

fn named(s: &str) -> Label {
    Label::Named(s.to_string())
}

#[test]
fn scenario_jumps_before_definitions() {
    // [Jmp(L0), Label(L0), Plain, Label(L1), Jmp(L1)] with original ids 10, 11:
    // traversal meets Jmp(L0) first, so L0's definition gets canonical id 0,
    // then Jmp(L1) gives L1's definition canonical id 1.
    let mut params: Vec<Param> = vec![];
    let mut body = vec![
        Instr::Jmp(reg(10)),
        Instr::LabelDef(reg(10)),
        Instr::Plain(1),
        Instr::LabelDef(reg(11)),
        Instr::Jmp(reg(11)),
    ];
    let r = relabel_function(&mut params, &mut body);
    assert_eq!(r, Ok(()));
    assert_eq!(
        body,
        vec![
            Instr::Jmp(reg(0)),
            Instr::LabelDef(reg(0)),
            Instr::Plain(1),
            Instr::LabelDef(reg(1)),
            Instr::Jmp(reg(1)),
        ]
    );
    assert!(params.is_empty());
}

#[test]
fn scenario_unreferenced_definition_dropped() {
    // [Plain, Label(L9)] where nothing references L9: the definition is
    // dropped and nothing else shifts.
    let mut params: Vec<Param> = vec![];
    let mut body = vec![Instr::Plain(7), Instr::LabelDef(reg(9))];
    let r = relabel_function(&mut params, &mut body);
    assert_eq!(r, Ok(()));
    assert_eq!(body, vec![Instr::Plain(7)]);
}

#[test]
fn scenario_parameter_default_keeps_label_alive() {
    // A parameter's default-value initializer jumps to L3, which the body
    // never references: the definition is retained under a canonical id, and
    // the parameter's target is rewritten to that same id.
    let mut params = vec![Param { name: "p".to_string(), default_value: Some(reg(3)) }];
    let mut body = vec![Instr::Plain(0), Instr::LabelDef(reg(3)), Instr::Plain(1)];
    let r = relabel_function(&mut params, &mut body);
    assert_eq!(r, Ok(()));
    assert_eq!(body, vec![Instr::Plain(0), Instr::LabelDef(reg(0)), Instr::Plain(1)]);
    assert_eq!(params, vec![Param { name: "p".to_string(), default_value: Some(reg(0)) }]);
}

#[test]
fn dense_ids_in_first_use_order() {
    // First use decides numbering: the Switch references L5 before L7, so
    // L5's definition gets 0 and L7's gets 1 although L7 is defined first.
    let mut params: Vec<Param> = vec![];
    let mut body = vec![
        Instr::Switch(vec![reg(5), reg(7)]),
        Instr::LabelDef(reg(7)),
        Instr::Plain(1),
        Instr::LabelDef(reg(5)),
        Instr::Plain(2),
        Instr::Jmp(reg(5)),
    ];
    let r = relabel_function(&mut params, &mut body);
    assert_eq!(r, Ok(()));
    assert_eq!(
        body,
        vec![
            Instr::Switch(vec![reg(0), reg(1)]),
            Instr::LabelDef(reg(1)),
            Instr::Plain(1),
            Instr::LabelDef(reg(0)),
            Instr::Plain(2),
            Instr::Jmp(reg(0)),
        ]
    );
}

#[test]
fn relabel_is_idempotent_on_canonical_input() {
    let make = || {
        let params = vec![Param { name: "q".to_string(), default_value: Some(reg(20)) }];
        let body = vec![
            Instr::Jmp(reg(10)),
            Instr::LabelDef(reg(10)),
            Instr::Plain(1),
            Instr::LabelDef(reg(20)),
            Instr::SSwitch(vec![("k".to_string(), reg(10))]),
        ];
        (params, body)
    };
    let (mut params, mut body) = make();
    assert_eq!(relabel_function(&mut params, &mut body), Ok(()));
    let canonical_params = params.clone();
    let canonical_body = body.clone();
    assert_eq!(relabel_function(&mut params, &mut body), Ok(()));
    assert_eq!(params, canonical_params);
    assert_eq!(body, canonical_body);
}

#[test]
fn dead_definition_at_shared_position() {
    // L1 and L2 denote the same position; only L1 is referenced, so L2's
    // definition disappears while L1's stays.
    let mut params: Vec<Param> = vec![];
    let mut body = vec![
        Instr::Jmp(reg(1)),
        Instr::LabelDef(reg(1)),
        Instr::LabelDef(reg(2)),
        Instr::Plain(3),
    ];
    let r = relabel_function(&mut params, &mut body);
    assert_eq!(r, Ok(()));
    assert_eq!(body, vec![Instr::Jmp(reg(0)), Instr::LabelDef(reg(0)), Instr::Plain(3)]);
}

#[test]
fn every_output_reference_has_a_definition() {
    let mut params: Vec<Param> = vec![];
    let mut body = vec![
        Instr::IterInit(0, reg(2)),
        Instr::LabelDef(reg(2)),
        Instr::Call(Some(reg(2))),
        Instr::MemoGetEager(reg(2), reg(4)),
        Instr::LabelDef(reg(4)),
        Instr::SSwitch(vec![("a".to_string(), reg(4))]),
    ];
    let r = relabel_function(&mut params, &mut body);
    assert_eq!(r, Ok(()));
    let mut defined: Vec<Label> = vec![];
    for i in &body {
        if let Instr::LabelDef(l) = i {
            defined.push(l.clone());
        }
    }
    for i in &body {
        let operands: Vec<&Label> = match i {
            Instr::IterInit(_, l) | Instr::Jmp(l) | Instr::MemoGet(l) => vec![l],
            Instr::Call(Some(l)) => vec![l],
            Instr::MemoGetEager(l1, l2) => vec![l1, l2],
            Instr::Switch(ls) => ls.iter().collect(),
            Instr::SSwitch(ps) => ps.iter().map(|p| &p.1).collect(),
            _ => vec![],
        };
        for l in operands {
            assert!(defined.contains(l), "operand {:?} lacks a definition", l);
        }
    }
}

#[test]
fn unresolved_definition_is_fatal() {
    let mut params: Vec<Param> = vec![];
    let mut body = vec![Instr::LabelDef(named("x")), Instr::Plain(1)];
    let r = relabel_function(&mut params, &mut body);
    assert_eq!(r, Err(RelabelError::UnresolvedLabel));
    assert_eq!(body, vec![Instr::LabelDef(named("x")), Instr::Plain(1)]);
}

#[test]
fn unresolved_reference_is_fatal() {
    let mut params: Vec<Param> = vec![];
    let mut body = vec![Instr::Jmp(named("x"))];
    let r = relabel_function(&mut params, &mut body);
    assert_eq!(r, Err(RelabelError::UnresolvedLabel));
    assert_eq!(body, vec![Instr::Jmp(named("x"))]);
}

#[test]
fn undefined_reference_is_fatal() {
    let mut params: Vec<Param> = vec![];
    let mut body = vec![Instr::Plain(1), Instr::Jmp(reg(3))];
    let r = relabel_function(&mut params, &mut body);
    assert_eq!(r, Err(RelabelError::UndefinedReference));
    assert_eq!(body, vec![Instr::Plain(1), Instr::Jmp(reg(3))]);
}

#[test]
fn undefined_parameter_default_is_fatal() {
    let mut params = vec![Param { name: "p".to_string(), default_value: Some(reg(8)) }];
    let mut body = vec![Instr::Plain(1)];
    let r = relabel_function(&mut params, &mut body);
    assert_eq!(r, Err(RelabelError::UndefinedReference));
    assert_eq!(params, vec![Param { name: "p".to_string(), default_value: Some(reg(8)) }]);
}

#[test]
fn offset_map_counts_real_instructions_only() {
    let body = vec![
        Instr::Plain(0),
        Instr::LabelDef(reg(4)),
        Instr::Plain(1),
        Instr::LabelDef(reg(6)),
    ];
    let m = create_label_to_offset_map(&body).unwrap();
    let expected: HashMap<usize, usize> = [(4, 1), (6, 2)].into_iter().collect();
    assert_eq!(m, expected);
}

#[test]
fn offset_map_later_definition_overwrites() {
    let body = vec![Instr::LabelDef(reg(4)), Instr::Plain(0), Instr::LabelDef(reg(4))];
    let m = create_label_to_offset_map(&body).unwrap();
    let expected: HashMap<usize, usize> = [(4, 1)].into_iter().collect();
    assert_eq!(m, expected);
}

#[test]
fn collector_and_rewriter_compose() {
    let mut params: Vec<Param> = vec![];
    let mut body = vec![Instr::Jmp(reg(10)), Instr::LabelDef(reg(10)), Instr::Plain(1)];
    let defs = create_label_to_offset_map(&body).unwrap();
    let (used, refs) = create_label_ref_map(&defs, &params, &body).unwrap();
    assert!(used.contains(&10));
    assert_eq!(refs.get(&1), Some(&0));
    rewrite_params_and_body(&defs, &used, &refs, &mut params, &mut body);
    assert_eq!(body, vec![Instr::Jmp(reg(0)), Instr::LabelDef(reg(0)), Instr::Plain(1)]);
}
