use vstd::prelude::*;
use crate::sources::CodeArea;
use crate::value::{BinOp, StoredValue, UnOp};

verus! {

/// One bytecode instruction. A `usize` operand is an index into one of the
/// pools of `Code`, or a variable id.
#[derive(Clone, Copy, Debug, PartialEq, Eq, Structural)]
pub enum Instruction {
    Plus,
    Minus,
    Mult,
    Div,
    Mod,
    Pow,
    Eq,
    NotEq,
    Greater,
    GreaterEq,
    Lesser,
    LesserEq,
    Negate,
    Not,
    LoadConst(usize),
    LoadVar(usize),
    SetVar(usize),
    LoadType(usize),
    BuildArray(usize),
    BuildDict(usize),
    PushEmpty,
    PopTop,
    Jump(usize),
    JumpIfFalse(usize),
    MakeMacro(usize),
    PushAnyPattern,
    Call(usize),
    Print,
    EnterScope,
    ExitScope,
    MergeContexts,
    ToIter,
    IterNext(usize),
    Return,
    Continue,
    Break,
    MakeMacroPattern(usize),
    Index,
    TriggerFuncCall,
    SaveContexts,
    ReviseContexts,
    PushNone,
    WrapMaybe,
    PushContextGroup,
    PopContextGroup,
    PushTriggerFnValue,
    TypeDef(usize),
    Impl(usize),
    Instance(usize),
}

/// What a parameter of a macro carries: its name, whether a type pattern and
/// whether a default value were given.
pub type ArgInfo = (String, bool, bool);

/// Compiled code: the instructions of each function with their areas, and
/// the pools that instructions index.
pub struct Code {
    pub instructions: Vec<Vec<(Instruction, CodeArea)>>,
    pub constants: Vec<StoredValue>,
    pub names: Vec<String>,
    pub name_sets: Vec<Vec<String>>,
    pub destinations: Vec<usize>,
    pub macro_build_info: Vec<(usize, Vec<ArgInfo>)>,
}

impl Code {
    pub open spec fn instr(&self, func: int, i: int) -> Instruction {
        self.instructions@[func]@[i].0
    }

    pub open spec fn area_of(&self, func: int, i: int) -> CodeArea {
        self.instructions@[func]@[i].1
    }

    /// The area of instruction `i` of function `func`.
    pub fn get_bytecode_area(&self, func: usize, i: usize) -> (r: CodeArea)
        requires
            func < self.instructions@.len(),
            i < self.instructions@[func as int]@.len(),
        ensures
            r == self.area_of(func as int, i as int),
    {
        self.instructions[func][i].1
    }
}

/// The value operation that an arithmetic or comparison instruction performs.
pub open spec fn spec_binop_of(instr: Instruction) -> Option<BinOp> {
    match instr {
        Instruction::Plus => Some(BinOp::Plus),
        Instruction::Minus => Some(BinOp::Minus),
        Instruction::Mult => Some(BinOp::Mult),
        Instruction::Div => Some(BinOp::Div),
        Instruction::Mod => Some(BinOp::Mod),
        Instruction::Pow => Some(BinOp::Pow),
        Instruction::Eq => Some(BinOp::Eq),
        Instruction::NotEq => Some(BinOp::NotEq),
        Instruction::Greater => Some(BinOp::Greater),
        Instruction::GreaterEq => Some(BinOp::GreaterEq),
        Instruction::Lesser => Some(BinOp::Lesser),
        Instruction::LesserEq => Some(BinOp::LesserEq),
        _ => None,
    }
}

pub fn binop_of(instr: Instruction) -> (r: Option<BinOp>)
    ensures
        r == spec_binop_of(instr),
{
    match instr {
        Instruction::Plus => Some(BinOp::Plus),
        Instruction::Minus => Some(BinOp::Minus),
        Instruction::Mult => Some(BinOp::Mult),
        Instruction::Div => Some(BinOp::Div),
        Instruction::Mod => Some(BinOp::Mod),
        Instruction::Pow => Some(BinOp::Pow),
        Instruction::Eq => Some(BinOp::Eq),
        Instruction::NotEq => Some(BinOp::NotEq),
        Instruction::Greater => Some(BinOp::Greater),
        Instruction::GreaterEq => Some(BinOp::GreaterEq),
        Instruction::Lesser => Some(BinOp::Lesser),
        Instruction::LesserEq => Some(BinOp::LesserEq),
        _ => None,
    }
}

/// The value operation that `Negate` and `Not` perform.
pub open spec fn spec_unop_of(instr: Instruction) -> Option<UnOp> {
    match instr {
        Instruction::Negate => Some(UnOp::Negate),
        Instruction::Not => Some(UnOp::Not),
        _ => None,
    }
}

/// The instructions that the interpreter recognises but does not run.
pub open spec fn is_reserved(instr: Instruction) -> bool {
    match instr {
        Instruction::ToIter | Instruction::IterNext(_) | Instruction::Return | Instruction::Continue
        | Instruction::Break | Instruction::MakeMacroPattern(_) | Instruction::Index
        | Instruction::TriggerFuncCall | Instruction::SaveContexts | Instruction::ReviseContexts
        | Instruction::PushNone | Instruction::WrapMaybe | Instruction::PushContextGroup
        | Instruction::PopContextGroup | Instruction::PushTriggerFnValue | Instruction::TypeDef(_)
        | Instruction::Impl(_) | Instruction::Instance(_) => true,
        _ => false,
    }
}

} // verus!
