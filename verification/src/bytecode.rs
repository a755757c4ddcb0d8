//! The instruction set of the virtual machine.
use vstd::prelude::*;
use crate::ast::names_view;

verus! {

/// One instruction. Jump targets are absolute offsets into the instruction
/// sequence.
#[derive(Debug, PartialEq)]
pub enum Instruction {
    /// Push a numeric literal, given as its decimal text.
    PushNumber(String),
    PushString(String),
    PushBoolean(bool),
    PushNil,
    /// Drop the top of the stack.
    Pop,
    /// Push a variable that the compiler found in a local scope.
    LoadLocal(String),
    /// Push a variable that the compiler found in no local scope.
    LoadGlobal(String),
    /// Pop into the nearest binding of a local name.
    StoreLocal(String),
    /// Pop into a global.
    StoreGlobal(String),
    /// Pop into a new binding in the innermost scope.
    DeclareLocal(String),
    Add,
    Sub,
    Mul,
    Div,
    Mod,
    Concat,
    Equal,
    NotEqual,
    Less,
    Greater,
    LessEqual,
    GreaterEqual,
    And,
    Or,
    Negate,
    Not,
    Jump(usize),
    /// Pop, and jump if the value is falsy.
    JumpIfFalse(usize),
    /// Call with this many arguments; the callee lies under them.
    Call(usize),
    Return,
    EnterScope,
    ExitScope,
    /// Push a closure: parameters, entry offset, names to capture.
    MakeClosure(Vec<String>, usize, Vec<String>),
    /// Pop this many elements into a table.
    MakeTable(usize),
    /// Pop this many key and value pairs into a dictionary.
    MakeDictionary(usize),
    LoadIndex,
    /// Pop value, key and container; push the container with the key set.
    StoreIndex,
    LoadMember(String),
    /// Pop value and container; push the container with the member set.
    StoreMember(String),
    /// Mark the start of a try region whose handler is at the offset.
    PushHandler(usize),
    PopHandler,
    Throw,
    /// Call a native function: module, function, argument count.
    NativeCall(String, String, usize),
    Import(String),
    Print,
    /// A `break` whose loop is not yet laid out. None is left in compiled code.
    Break,
    /// A `continue` whose loop is not yet laid out. None is left in compiled code.
    Continue,
    Nop,
}

/// The mathematical value of an [`Instruction`].
pub enum Instr {
    PushNumber(Seq<char>),
    PushString(Seq<char>),
    PushBoolean(bool),
    PushNil,
    Pop,
    LoadLocal(Seq<char>),
    LoadGlobal(Seq<char>),
    StoreLocal(Seq<char>),
    StoreGlobal(Seq<char>),
    DeclareLocal(Seq<char>),
    Add,
    Sub,
    Mul,
    Div,
    Mod,
    Concat,
    Equal,
    NotEqual,
    Less,
    Greater,
    LessEqual,
    GreaterEqual,
    And,
    Or,
    Negate,
    Not,
    Jump(int),
    JumpIfFalse(int),
    Call(int),
    Return,
    EnterScope,
    ExitScope,
    MakeClosure(Seq<Seq<char>>, int, Seq<Seq<char>>),
    MakeTable(int),
    MakeDictionary(int),
    LoadIndex,
    StoreIndex,
    LoadMember(Seq<char>),
    StoreMember(Seq<char>),
    PushHandler(int),
    PopHandler,
    Throw,
    NativeCall(Seq<char>, Seq<char>, int),
    Import(Seq<char>),
    Print,
    Break,
    Continue,
    Nop,
}

impl View for Instruction {
    type V = Instr;

    open spec fn view(&self) -> Instr {
        match self {
            Instruction::PushNumber(t) => Instr::PushNumber(t@),
            Instruction::PushString(t) => Instr::PushString(t@),
            Instruction::PushBoolean(b) => Instr::PushBoolean(*b),
            Instruction::PushNil => Instr::PushNil,
            Instruction::Pop => Instr::Pop,
            Instruction::LoadLocal(n) => Instr::LoadLocal(n@),
            Instruction::LoadGlobal(n) => Instr::LoadGlobal(n@),
            Instruction::StoreLocal(n) => Instr::StoreLocal(n@),
            Instruction::StoreGlobal(n) => Instr::StoreGlobal(n@),
            Instruction::DeclareLocal(n) => Instr::DeclareLocal(n@),
            Instruction::Add => Instr::Add,
            Instruction::Sub => Instr::Sub,
            Instruction::Mul => Instr::Mul,
            Instruction::Div => Instr::Div,
            Instruction::Mod => Instr::Mod,
            Instruction::Concat => Instr::Concat,
            Instruction::Equal => Instr::Equal,
            Instruction::NotEqual => Instr::NotEqual,
            Instruction::Less => Instr::Less,
            Instruction::Greater => Instr::Greater,
            Instruction::LessEqual => Instr::LessEqual,
            Instruction::GreaterEqual => Instr::GreaterEqual,
            Instruction::And => Instr::And,
            Instruction::Or => Instr::Or,
            Instruction::Negate => Instr::Negate,
            Instruction::Not => Instr::Not,
            Instruction::Jump(t) => Instr::Jump(*t as int),
            Instruction::JumpIfFalse(t) => Instr::JumpIfFalse(*t as int),
            Instruction::Call(n) => Instr::Call(*n as int),
            Instruction::Return => Instr::Return,
            Instruction::EnterScope => Instr::EnterScope,
            Instruction::ExitScope => Instr::ExitScope,
            Instruction::MakeClosure(params, entry, captures) => Instr::MakeClosure(
                names_view(params@),
                *entry as int,
                names_view(captures@),
            ),
            Instruction::MakeTable(n) => Instr::MakeTable(*n as int),
            Instruction::MakeDictionary(n) => Instr::MakeDictionary(*n as int),
            Instruction::LoadIndex => Instr::LoadIndex,
            Instruction::StoreIndex => Instr::StoreIndex,
            Instruction::LoadMember(n) => Instr::LoadMember(n@),
            Instruction::StoreMember(n) => Instr::StoreMember(n@),
            Instruction::PushHandler(t) => Instr::PushHandler(*t as int),
            Instruction::PopHandler => Instr::PopHandler,
            Instruction::Throw => Instr::Throw,
            Instruction::NativeCall(m, f, n) => Instr::NativeCall(m@, f@, *n as int),
            Instruction::Import(m) => Instr::Import(m@),
            Instruction::Print => Instr::Print,
            Instruction::Break => Instr::Break,
            Instruction::Continue => Instr::Continue,
            Instruction::Nop => Instr::Nop,
        }
    }
}

/// The instructions that a sequence of instructions stands for.
pub open spec fn code_view(code: Seq<Instruction>) -> Seq<Instr> {
    Seq::new(code.len(), |i: int| code[i]@)
}

} // verus!
