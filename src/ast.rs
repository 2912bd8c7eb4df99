//! The parsed form of a program: expressions, statements and data declarations.
use vstd::prelude::*;

verus! {

/// A sequence of statements.
pub type Block = Vec<LineData>;

/// A sequence of static data declarations.
pub type DataBlock = Vec<DataDef>;

/// An expression tree. Every value is an unsigned 32-bit word.
#[derive(Debug, PartialEq, Eq)]
pub enum Expr {
    Literal(u32),
    /// Reads the 32-bit word at the address the inner expression gives.
    Deref(Box<Expr>),
    /// Reads the byte at the address the inner expression gives.
    DerefByte(Box<Expr>),
    Var(String),
    /// The memory offset of a variable's slot.
    VarAddress(String),
    /// Bitwise complement.
    Invert(Box<Expr>),
    Add(Box<Expr>, Box<Expr>),
    Sub(Box<Expr>, Box<Expr>),
    Mul(Box<Expr>, Box<Expr>),
    Div(Box<Expr>, Box<Expr>),
    Mod(Box<Expr>, Box<Expr>),
    Lt(Box<Expr>, Box<Expr>),
    Gt(Box<Expr>, Box<Expr>),
    Leq(Box<Expr>, Box<Expr>),
    Geq(Box<Expr>, Box<Expr>),
    Eq(Box<Expr>, Box<Expr>),
    Neq(Box<Expr>, Box<Expr>),
    BitAnd(Box<Expr>, Box<Expr>),
    BitOr(Box<Expr>, Box<Expr>),
    BitXor(Box<Expr>, Box<Expr>),
    Shl(Box<Expr>, Box<Expr>),
    Shr(Box<Expr>, Box<Expr>),
    /// A call of an intrinsic or of a declared function, with its arguments.
    FunCall(String, Vec<Expr>),
}

/// A statement together with the character index of the source where it starts.
#[derive(Debug, PartialEq, Eq)]
pub struct LineData {
    /// The character index into the input string that this line starts on
    pub start_index: usize,
    pub line: Line,
}

impl LineData {
    pub fn new(start_index: usize, line: Line) -> (r: LineData)
        ensures
            r.start_index == start_index,
            r.line == line,
    {
        LineData { start_index, line }
    }
}

impl From<(usize, Line)> for LineData {
    fn from(p: (usize, Line)) -> (r: LineData) {
        LineData { start_index: p.0, line: p.1 }
    }
}

impl vstd::std_specs::convert::FromSpecImpl<(usize, Line)> for LineData {
    open spec fn obeys_from_spec() -> bool {
        true
    }

    open spec fn from_spec(p: (usize, Line)) -> LineData {
        LineData { start_index: p.0, line: p.1 }
    }
}

/// A statement.
#[derive(Debug, PartialEq, Eq)]
pub enum Line {
    Assign(AssignTarget, Expr),
    /// Counter variable, start value, exclusive end value, body.
    For(String, Expr, Expr, Block),
    While(Expr, Block),
    If(Expr, Block, Option<Block>),
    Goto(String),
    Label(String),
    /// Name, parameter names, body, and whether argument values are saved for the caller.
    FunDeclaration(String, Vec<String>, Block, bool),
    /// A bare expression; the parser only produces function calls here.
    Expr(Expr),
}

/// The target of an assignment expression (ie. storing to a variable or an address)
#[derive(Debug, PartialEq, Eq)]
pub enum AssignTarget {
    Var(String),
    /// A 32-bit word at the address the expression gives.
    Addr(Expr),
    /// A byte at the address the expression gives.
    ByteAddr(Expr),
}

/// A static data declaration.
#[derive(Debug, PartialEq, Eq)]
pub enum DataDef {
    /// Names the offset at which the next bytes will be placed.
    Label(String),
    Bytes(Vec<u8>),
}

} // verus!
