//! Instructions, parameters, and the label operands they carry.

use vstd::prelude::*;

use crate::label::{Label, LabelV};

verus! {

/// Mathematical view of an instruction.
#[verifier::ext_equal]
pub enum InstrV {
    Plain(u64),
    LabelDef(LabelV),
    Jmp(LabelV),
    JmpNS(LabelV),
    JmpZ(LabelV),
    JmpNZ(LabelV),
    IterInit(u64, LabelV),
    IterNext(u64, LabelV),
    MemoGet(LabelV),
    MemoGetEager(LabelV, LabelV),
    Call(Option<LabelV>),
    Switch(Seq<LabelV>),
    SSwitch(Seq<(Seq<char>, LabelV)>),
}

/// One node of an instruction sequence.  `Plain` stands for any instruction
/// that carries no label; its payload only distinguishes instructions from one
/// another.  `LabelDef` marks the position that its label denotes.  The other
/// variants carry label operands: unconditional and conditional jumps,
/// iterator init/next with a loop-continuation target, memoization checks
/// (one label, or two for the eager variant), calls with an optional
/// fall-through target, an n-way ordered dispatch, and a sparse value-keyed
/// dispatch.
#[derive(Debug, Clone, PartialEq, Eq)]
pub enum Instr {
    Plain(u64),
    LabelDef(Label),
    Jmp(Label),
    JmpNS(Label),
    JmpZ(Label),
    JmpNZ(Label),
    IterInit(u64, Label),
    IterNext(u64, Label),
    MemoGet(Label),
    MemoGetEager(Label, Label),
    Call(Option<Label>),
    Switch(Vec<Label>),
    SSwitch(Vec<(String, Label)>),
}

impl DeepView for Instr {
    type V = InstrV;

    open spec fn deep_view(&self) -> InstrV {
        match self {
            Instr::Plain(x) => InstrV::Plain(*x),
            Instr::LabelDef(l) => InstrV::LabelDef(l.deep_view()),
            Instr::Jmp(l) => InstrV::Jmp(l.deep_view()),
            Instr::JmpNS(l) => InstrV::JmpNS(l.deep_view()),
            Instr::JmpZ(l) => InstrV::JmpZ(l.deep_view()),
            Instr::JmpNZ(l) => InstrV::JmpNZ(l.deep_view()),
            Instr::IterInit(it, l) => InstrV::IterInit(*it, l.deep_view()),
            Instr::IterNext(it, l) => InstrV::IterNext(*it, l.deep_view()),
            Instr::MemoGet(l) => InstrV::MemoGet(l.deep_view()),
            Instr::MemoGetEager(l1, l2) => InstrV::MemoGetEager(l1.deep_view(), l2.deep_view()),
            Instr::Call(ol) => InstrV::Call(ol.deep_view()),
            Instr::Switch(ls) => InstrV::Switch(ls.deep_view()),
            Instr::SSwitch(ps) => InstrV::SSwitch(ps.deep_view()),
        }
    }
}

/// Mathematical view of a parameter.
#[verifier::ext_equal]
pub struct ParamV {
    pub name: Seq<char>,
    pub default_value: Option<LabelV>,
}

/// A function parameter.  Its optional default-value initializer may terminate
/// in a jump, recorded here as the jump's target label; parameters are not
/// instructions and are only ever rewritten, never deleted.
#[derive(Debug, Clone, PartialEq, Eq)]
pub struct Param {
    pub name: String,
    pub default_value: Option<Label>,
}

impl DeepView for Param {
    type V = ParamV;

    open spec fn deep_view(&self) -> ParamV {
        ParamV { name: self.name.view(), default_value: self.default_value.deep_view() }
    }
}

/// The label operands of an instruction, in enumeration order: list and table
/// order for the dispatch variants, check label before eager label for
/// `MemoGetEager`.  A `LabelDef`'s own label is a definition, not an operand.
pub open spec fn label_operands(i: InstrV) -> Seq<LabelV> {
    match i {
        InstrV::Plain(_) => seq![],
        InstrV::LabelDef(_) => seq![],
        InstrV::Jmp(l) => seq![l],
        InstrV::JmpNS(l) => seq![l],
        InstrV::JmpZ(l) => seq![l],
        InstrV::JmpNZ(l) => seq![l],
        InstrV::IterInit(_, l) => seq![l],
        InstrV::IterNext(_, l) => seq![l],
        InstrV::MemoGet(l) => seq![l],
        InstrV::MemoGetEager(l1, l2) => seq![l1, l2],
        InstrV::Call(ol) => match ol {
            Some(l) => seq![l],
            None => seq![],
        },
        InstrV::Switch(ls) => ls,
        InstrV::SSwitch(ps) => ps.map_values(|p: (Seq<char>, LabelV)| p.1),
    }
}

/// Every label operand of the body, in one left-to-right stream.
pub open spec fn body_ref_stream(body: Seq<InstrV>) -> Seq<LabelV> {
    body.map_values(|i: InstrV| label_operands(i)).flatten()
}

/// Every parameter default-value jump target, in declaration order.
pub open spec fn param_ref_stream(params: Seq<ParamV>) -> Seq<LabelV> {
    params.map_values(
        |p: ParamV|
            match p.default_value {
                Some(l) => seq![l],
                None => Seq::<LabelV>::empty(),
            },
    ).flatten()
}

/// The full reference stream of one function: the body's label operands in
/// traversal order, then the parameter default targets.  Body order dominates
/// canonical numbering priority.
pub open spec fn ref_stream(params: Seq<ParamV>, body: Seq<InstrV>) -> Seq<LabelV> {
    body_ref_stream(body) + param_ref_stream(params)
}

} // verus!
