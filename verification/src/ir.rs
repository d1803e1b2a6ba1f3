use vstd::prelude::*;

verus! {

/// A literal operand of a constant instruction. A floating literal is carried
/// as its raw bit pattern: the passes never do arithmetic on literals, they
/// only compare them for identity.
#[derive(Clone, Copy, Debug, PartialEq, Eq, Structural)]
pub enum Lit {
    Int(i64),
    Bool(bool),
    FloatBits(u64),
    Char(char),
}

/// The type annotation an instruction carries. The passes never inspect it;
/// it is carried through so the output program is well formed.
#[derive(Debug, PartialEq, Eq)]
pub enum Type {
    Int,
    Bool,
    Float,
    Char,
    Pointer(Box<Type>),
}

/// Operation tag of an effect instruction.
#[derive(Clone, Copy, Debug, PartialEq, Eq, Structural)]
pub enum EffectOp {
    Jump,
    Branch,
    Call,
    Return,
    Print,
    Nop,
    Store,
    Free,
    Speculate,
    Commit,
    Guard,
}

/// Operation tag of a value-producing instruction.
#[derive(Clone, Copy, Debug, PartialEq, Eq, Structural)]
pub enum ValueOp {
    Add,
    Sub,
    Mul,
    Div,
    Eq,
    Lt,
    Gt,
    Le,
    Ge,
    Not,
    And,
    Or,
    Call,
    Id,
    Phi,
    Fadd,
    Fsub,
    Fmul,
    Fdiv,
    Feq,
    Flt,
    Fgt,
    Fle,
    Fge,
    Alloc,
    Load,
    PtrAdd,
    Ceq,
    Clt,
    Cgt,
    Cle,
    Cge,
    CharToInt,
    IntToChar,
}

/// One instruction: constant-producing, value-producing, or effect.
#[derive(Debug, PartialEq, Eq)]
#[allow(inconsistent_fields)]
pub enum Instr {
    Constant { dest: String, const_type: Type, value: Lit },
    Value {
        op: ValueOp,
        dest: String,
        val_type: Type,
        args: Vec<String>,
        funcs: Vec<String>,
        labels: Vec<String>,
    },
    Effect { op: EffectOp, args: Vec<String>, funcs: Vec<String>, labels: Vec<String> },
}

/// One code item of a function body: a bare label marker or an instruction.
#[derive(Debug, PartialEq, Eq)]
pub enum Code {
    Label { label: String },
    Instruction(Instr),
}

/// A formal argument of a function.
#[derive(Debug, PartialEq, Eq)]
pub struct FnArg {
    pub name: String,
    pub arg_type: Type,
}

/// One function of the input program: metadata plus a flat code-item sequence.
#[derive(Debug, PartialEq, Eq)]
pub struct IrFunction {
    pub name: String,
    pub args: Vec<FnArg>,
    pub return_type: Option<Type>,
    pub instrs: Vec<Code>,
}

/// A whole program: an ordered sequence of functions.
#[derive(Debug, PartialEq, Eq)]
pub struct Program {
    pub functions: Vec<IrFunction>,
}

/// True of the effect operations after which control cannot fall through to
/// the next instruction in sequence: an unconditional or conditional transfer.
pub open spec fn spec_is_transfer(op: EffectOp) -> bool {
    op == EffectOp::Jump || op == EffectOp::Branch
}

/// True of a code item that ends a basic block: a branch or jump effect.
pub open spec fn spec_is_terminator(c: Code) -> bool {
    match c {
        Code::Instruction(Instr::Effect { op, .. }) => spec_is_transfer(op),
        _ => false,
    }
}

/// True of the inert no-op effect used as a tombstone for a deleted
/// instruction.
pub open spec fn spec_is_tombstone(c: Code) -> bool {
    match c {
        Code::Instruction(Instr::Effect { op, args, funcs, labels }) =>
            op == EffectOp::Nop && args@.len() == 0 && funcs@.len() == 0 && labels@.len() == 0,
        _ => false,
    }
}

/// The tombstone put in the place of a dead instruction.
pub fn make_tombstone() -> (r: Code)
    ensures
        spec_is_tombstone(r),
{
    Code::Instruction(Instr::Effect {
        op: EffectOp::Nop,
        args: Vec::new(),
        funcs: Vec::new(),
        labels: Vec::new(),
    })
}

/// The views of a sequence of names.
pub open spec fn name_views(v: Seq<String>) -> Seq<Seq<char>> {
    v.map_values(|s: String| s@)
}

} // verus!
