//! What compiled code does, before it is written down as text.
//!
//! Everything is a number but what says otherwise. Slots name locals; a table
//! slot stands for the view of its numbers that was fetched on the way in.
use crate::ast::BinOp;
use vstd::prelude::*;

verus! {

/// The functions of one and two numbers that compile to instructions.
#[derive(Clone, Copy, Debug, PartialEq, Eq, Structural)]
pub enum MathFn {
    Floor,
    Ceil,
    Abs,
    Sqrt,
    Sin,
    Cos,
    Tan,
    Exp,
    Ln,
    Round,
    Max,
    Min,
    Powf,
}

/// How long something has to be: compared once, on the way in.
#[derive(Clone, Copy, Debug, PartialEq, Eq, Structural)]
pub enum Bound {
    /// This number.
    Num(u64),
    /// What this parameter holds.
    Local(u16),
    /// The length of this table.
    Len(u16),
}

/// How an element is written.
#[derive(Clone, Copy, Debug, PartialEq, Eq, Structural)]
pub enum Store {
    /// Straight through the view: the index is known to be in range.
    Proven,
    /// Through the view after a test.
    Tested,
    /// By asking the runtime.
    Asked,
}

/// A number.
pub enum Ir {
    Num(u64),
    Local(u16),
    Neg(Box<Ir>),
    Bin(BinOp, Box<Ir>, Box<Ir>),
    Math(MathFn, Box<Ir>, Box<IrList>),
    Block(Box<IrBlock>),
    If(Box<IrIf>),
    Match(Box<IrMatch>),
    /// `t[i]`, tested unless it is proven.
    Read { slot: u16, key: Box<Ir>, proven: bool },
    /// `t[k][j]`; the outer index is tested unless it is proven, the inner
    /// one always.
    Element { slot: u16, key: Box<Ir>, proven: bool, inner: Box<Ir> },
    /// The length of a view.
    Len(u16),
    /// A length the runtime is asked for.
    AskLen(u16),
    /// Append a number, or a table.
    Push(u16, Box<Ir>),
    PushTable(u16, u16),
    /// Call this very function, one compiled beside it, or one the runtime
    /// keeps at that place.
    CallSelf(Box<IrArgs>),
    CallBeside(usize, Box<IrArgs>),
    CallThrough(usize, Box<IrArgs>),
}

/// A condition.
pub enum Cond {
    Lit(bool),
    Compare(BinOp, Box<Ir>, Box<Ir>),
    And(Box<Cond>, Box<Cond>),
    Or(Box<Cond>, Box<Cond>),
    Not(Box<Cond>),
    /// A flag is set.
    Flag(u16),
    /// The subject of the surrounding match equals this.
    Subject(Box<Ir>),
}

pub enum IrList {
    End,
    Item(Box<Ir>, Box<IrList>),
}

/// An argument: a number, or a table that is held here.
pub enum IrArgs {
    End,
    Num(Box<Ir>, Box<IrArgs>),
    Table(u16, Box<IrArgs>),
}

/// Values in order: numbers, and conditions held as zero or one.
pub enum IrValues {
    End,
    Num(Box<Ir>, Box<IrValues>),
    Flag(Box<Cond>, Box<IrValues>),
}

pub enum IrSlots {
    End,
    Slot(u16, Box<IrSlots>),
}

pub enum IrStats {
    End,
    Then(Box<IrStat>, Box<IrStats>),
}

/// What a block ends in.
pub enum IrTail {
    Nothing,
    Value(Box<Ir>),
    Unit(Box<IrStat>),
    /// The table in this slot is the function's result.
    Table(u16),
}

pub struct IrBlock {
    pub stats: IrStats,
    pub tail: IrTail,
}

pub struct IrIf {
    pub cond: Cond,
    pub body: IrBlock,
    pub rest: IrElse,
}

pub enum IrElse {
    Nothing,
    Block(Box<IrBlock>),
    If(Box<IrIf>),
}

pub struct IrMatch {
    pub subject: Ir,
    pub arms: IrArms,
}

/// The arms of a match, up to the first that always applies.
pub enum IrArms {
    End,
    Always { bind: Option<u16>, body: Box<IrBlock> },
    Test { bind: Option<u16>, cond: Box<Cond>, body: Box<IrBlock>, rest: Box<IrArms> },
}

pub enum IrStat {
    /// Nothing at all.
    Skip,
    /// Bind the view of an element of an array of arrays, which must be at
    /// least `min` long.
    LetElement { slot: u16, outer: u16, key: Ir, min: u32 },
    /// Make a table and fill it.
    LetTable { slot: u16, items: IrList },
    Let { values: IrValues, slots: IrSlots },
    Assign { values: IrValues, slots: IrSlots },
    Write { slot: u16, key: Ir, value: Ir, how: Store },
    Update(BinOp, u16, Ir),
    Return(Option<Ir>),
    ReturnTable(u16),
    Break,
    Continue,
    /// Leave the body of a counted loop, so that it still steps.
    Leave(u32),
    While(Cond, IrBlock),
    Loop(IrBlock),
    For { slot: u16, start: Ir, end: Ir, inclusive: bool, label: u32, body: IrBlock },
    Discard(Ir),
    Block(IrBlock),
    If(IrIf),
    Match(IrMatch),
}

} // verus!
