//! The intermediate representation: instructions and labeled code items.

use vstd::prelude::*;

verus! {

/// A literal carried by a constant instruction.
#[derive(Clone, Copy, Debug, PartialEq, Eq)]
pub enum Literal {
    Int(i64),
    Bool(bool),
}

/// The type annotation of a value-producing instruction.
#[derive(Clone, Copy, Debug, PartialEq, Eq)]
pub enum Type {
    Int,
    Bool,
}

/// The operation of an effect instruction.  Jump, branch and return are the
/// control terminators; every other effect operation is carried by name.
#[derive(Debug, PartialEq, Eq)]
pub enum EffectOp {
    Jump,
    Branch,
    Return,
    Other(String),
}

/// An instruction: a constant assignment, a value operation, or an effect.
#[derive(Debug, PartialEq, Eq)]
pub enum Instruction {
    Constant { dest: String, const_type: Type, value: Literal },
    Value { op: String, dest: String, op_type: Type, args: Vec<String> },
    Effect { op: EffectOp, args: Vec<String>, labels: Vec<String> },
}

/// A labeled code item: either a label or an instruction.
#[derive(Debug, PartialEq, Eq)]
pub enum Code {
    Label { label: String },
    Instruction(Instruction),
}

/// A function: a name and its flat, ordered instruction stream.
#[derive(Debug, PartialEq, Eq)]
pub struct Function {
    pub name: String,
    pub instrs: Vec<Code>,
}

/// The mathematical value of an [`EffectOp`].
pub enum EffectOpView {
    Jump,
    Branch,
    Return,
    Other(Seq<char>),
}

/// The mathematical value of an [`Instruction`].
pub enum InstructionView {
    Constant { dest: Seq<char>, const_type: Type, value: Literal },
    Value { op: Seq<char>, dest: Seq<char>, op_type: Type, args: Seq<Seq<char>> },
    Effect { op: EffectOpView, args: Seq<Seq<char>>, labels: Seq<Seq<char>> },
}

/// The mathematical value of a [`Code`] item.
pub enum CodeView {
    Label { label: Seq<char> },
    Instruction(InstructionView),
}

/// The sequence of character sequences a list of names stands for.
pub open spec fn strings_view(s: Seq<String>) -> Seq<Seq<char>> {
    s.map_values(|x: String| x@)
}

impl View for EffectOp {
    type V = EffectOpView;

    open spec fn view(&self) -> EffectOpView {
        match self {
            EffectOp::Jump => EffectOpView::Jump,
            EffectOp::Branch => EffectOpView::Branch,
            EffectOp::Return => EffectOpView::Return,
            EffectOp::Other(name) => EffectOpView::Other(name@),
        }
    }
}

impl View for Instruction {
    type V = InstructionView;

    open spec fn view(&self) -> InstructionView {
        match self {
            Instruction::Constant { dest, const_type, value } => InstructionView::Constant {
                dest: dest@,
                const_type: *const_type,
                value: *value,
            },
            Instruction::Value { op, dest, op_type, args } => InstructionView::Value {
                op: op@,
                dest: dest@,
                op_type: *op_type,
                args: strings_view(args@),
            },
            Instruction::Effect { op, args, labels } => InstructionView::Effect {
                op: op@,
                args: strings_view(args@),
                labels: strings_view(labels@),
            },
        }
    }
}

impl View for Code {
    type V = CodeView;

    open spec fn view(&self) -> CodeView {
        match self {
            Code::Label { label } => CodeView::Label { label: label@ },
            Code::Instruction(instr) => CodeView::Instruction(instr@),
        }
    }
}

/// The sequence of item values a list of code items stands for.
pub open spec fn codes_view(s: Seq<Code>) -> Seq<CodeView> {
    s.map_values(|c: Code| c@)
}

/// True of the labels that open a basic block.
pub open spec fn is_label(c: CodeView) -> bool {
    c is Label
}

/// True of the control terminators that close a basic block.
pub open spec fn is_terminator(c: CodeView) -> bool {
    match c {
        CodeView::Instruction(InstructionView::Effect { op, .. }) => {
            op is Jump || op is Branch || op is Return
        },
        _ => false,
    }
}

/// The variable, if any, that a code item defines.
pub open spec fn defined_var(c: CodeView) -> Option<Seq<char>> {
    match c {
        CodeView::Instruction(InstructionView::Constant { dest, .. }) => Option::Some(dest),
        CodeView::Instruction(InstructionView::Value { dest, .. }) => Option::Some(dest),
        _ => Option::None,
    }
}

/// Runtime counterpart of [`is_label`].
pub fn code_is_label(c: &Code) -> (r: bool)
    ensures
        r == is_label(c@),
{
    matches!(c, Code::Label { .. })
}

/// Runtime counterpart of [`is_terminator`].
pub fn code_is_terminator(c: &Code) -> (r: bool)
    ensures
        r == is_terminator(c@),
{
    match c {
        Code::Instruction(Instruction::Effect { op, .. }) => {
            matches!(op, EffectOp::Jump | EffectOp::Branch | EffectOp::Return)
        },
        _ => false,
    }
}

/// Copies a list of names, keeping its value.
pub fn clone_strings(v: &Vec<String>) -> (r: Vec<String>)
    ensures
        strings_view(r@) == strings_view(v@),
{
    let mut r: Vec<String> = Vec::new();
    let mut i: usize = 0;
    while i < v.len()
        invariant
            i <= v.len(),
            r@.len() == i,
            forall|j: int| 0 <= j < i ==> r@[j]@ == v@[j]@,
        decreases v.len() - i,
    {
        r.push(v[i].clone());
        i = i + 1;
    }
    proof {
        assert(strings_view(r@) =~= strings_view(v@));
    }
    r
}

impl Clone for EffectOp {
    /// Copies the operation, keeping its value.
    fn clone(&self) -> (res: Self)
        ensures
            res@ == self@,
    {
        match self {
            EffectOp::Jump => EffectOp::Jump,
            EffectOp::Branch => EffectOp::Branch,
            EffectOp::Return => EffectOp::Return,
            EffectOp::Other(name) => EffectOp::Other(name.clone()),
        }
    }
}

impl Clone for Instruction {
    /// Copies the instruction, keeping its value.
    fn clone(&self) -> (res: Self)
        ensures
            res@ == self@,
    {
        match self {
            Instruction::Constant { dest, const_type, value } => Instruction::Constant {
                dest: dest.clone(),
                const_type: *const_type,
                value: *value,
            },
            Instruction::Value { op, dest, op_type, args } => Instruction::Value {
                op: op.clone(),
                dest: dest.clone(),
                op_type: *op_type,
                args: clone_strings(args),
            },
            Instruction::Effect { op, args, labels } => Instruction::Effect {
                op: op.clone(),
                args: clone_strings(args),
                labels: clone_strings(labels),
            },
        }
    }
}

impl Clone for Code {
    /// Copies the code item, keeping its value.
    fn clone(&self) -> (res: Self)
        ensures
            res@ == self@,
    {
        match self {
            Code::Label { label } => Code::Label { label: label.clone() },
            Code::Instruction(instr) => Code::Instruction(instr.clone()),
        }
    }
}

} // verus!
