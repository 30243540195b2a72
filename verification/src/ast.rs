//! The syntax tree that the compiler, the lowering and the editor read.
//!
//! Names have already been turned into frame slots wherever a pass needs
//! slots: a `Binding` says which register a local lives in and whether a
//! closure shares it.
use vstd::prelude::*;

verus! {

/// A half open range of bytes of the source text.
#[derive(Clone, Copy, Debug, PartialEq, Eq, Structural)]
pub struct Span {
    pub lo: u32,
    pub hi: u32,
}

/// Where a local lives: its frame slot, and whether a closure captures it.
#[derive(Clone, Copy, Debug, PartialEq, Eq, Structural)]
pub struct Binding {
    pub slot: u16,
    pub cell: bool,
}

/// Where a closure finds one of its captured variables when it is made.
#[derive(Clone, Copy, Debug, PartialEq, Eq, Structural)]
pub enum UpvalSrc {
    /// A local of the function that makes the closure.
    ParentLocal(u16),
    /// A variable that function captured itself.
    ParentUpval(u16),
}

#[derive(Clone, Copy, Debug, PartialEq, Eq, Structural)]
pub enum BinOp {
    Add,
    Sub,
    Mul,
    Div,
    Rem,
    Eq,
    Ne,
    Lt,
    Le,
    Gt,
    Ge,
    And,
    Or,
}

#[derive(Clone, Copy, Debug, PartialEq, Eq, Structural)]
pub enum UnOp {
    Neg,
    Not,
}

/// A type as it was written beside a name.
pub enum Type {
    /// `Handler<Body, Reply>`
    Named(String, Vec<Type>, Span),
    Array(Box<Type>, Span),
    /// `#{ x: number, y: number }`
    Record(Vec<(Name, Type)>, Span),
    /// `fn(route: string) -> boolean`
    Fn(Vec<(Name, Type)>, Option<Box<Type>>, Span),
}

/// A name being declared, and the type written beside it if there is one.
pub struct Name {
    pub text: String,
    pub span: Span,
    pub ty: Option<Box<Type>>,
}

/// One function: what it takes, where its locals live and what it runs.
pub struct FuncDef {
    pub id: usize,
    pub name: String,
    pub params: Vec<Name>,
    pub ret: Option<Type>,
    pub body: Block,
    pub line: u32,
    /// How many frame slots the locals of this function take.
    pub n_slots: usize,
    /// One per parameter, in order.
    pub param_bindings: Vec<Binding>,
    pub upvals: Vec<UpvalSrc>,
}

/// Statements, and possibly a last expression that is the block's value.
pub struct Block {
    pub stats: Vec<Stat>,
    /// The line each statement starts on.
    pub lines: Vec<u32>,
    pub tail: Option<Box<Expr>>,
    pub tail_line: u32,
}

pub enum Expr {
    Nil,
    Bool(bool),
    /// A number, as the bits of its IEEE double.
    Num(u64),
    Str(String),
    Local(Binding, String),
    Upval(u16, String),
    Global(String, Span),
    /// A name nothing has resolved yet.
    Var(String),
    Index(Box<Expr>, Box<Expr>),
    Call(Box<Expr>, Vec<Expr>),
    Method(Box<Expr>, String, Vec<Expr>),
    Func(Box<FuncDef>),
    Array(Vec<Expr>),
    /// `#{ key: value }`
    Entries(Vec<(Expr, Expr)>),
    /// `a..b`, or `a..=b` when the flag says so.
    Range(Box<Expr>, Box<Expr>, bool),
    Un(UnOp, Box<Expr>),
    Bin(BinOp, Box<Expr>, Box<Expr>),
    Do(Block),
    If(Vec<(Expr, Block)>, Option<Block>),
    Match(Box<Expr>, Vec<Arm>),
}

pub struct Arm {
    pub patterns: Vec<Pattern>,
    pub guard: Option<Expr>,
    pub body: Block,
}

pub enum Pattern {
    Wild,
    /// A name that takes the subject's value, with its slot once resolved.
    Bind(String, Option<Binding>),
    Lit(Expr),
}

pub enum Stat {
    Let(Vec<Name>, Vec<Expr>),
    LetSlots(Vec<Binding>, Vec<Expr>),
    FnDecl(Name, Expr),
    FnSlot(Binding, Expr),
    TypeAlias(Name, Vec<Name>, Type),
    Assign(Vec<Expr>, Vec<Expr>),
    OpAssign(Expr, BinOp, Expr),
    Expr(Expr),
    While(u32, Expr, Block),
    Loop(u32, Block),
    ForRange {
        id: u32,
        var: Name,
        binding: Option<Binding>,
        start: Expr,
        end: Expr,
        inclusive: bool,
        body: Block,
    },
    ForIn { id: u32, vars: Vec<Name>, bindings: Vec<Binding>, iter: Expr, body: Block },
    Return(Vec<Expr>),
    Break,
    Continue,
}

/// Is this a call, which may produce any number of values?
pub open spec fn is_call_spec(e: Expr) -> bool {
    e is Call || e is Method
}

pub fn is_call(e: &Expr) -> (r: bool)
    ensures
        r == is_call_spec(*e),
{
    match e {
        Expr::Call(..) | Expr::Method(..) => true,
        _ => false,
    }
}

} // verus!
