//! The machine's instructions.

use crate::value::Value;
use vstd::prelude::*;

verus! {

/// The arithmetic that takes two numbers and gives one.
#[derive(Clone, Copy, Debug, PartialEq, Eq, Structural)]
pub enum ArithOp {
    Add,
    Sub,
    Mul,
    Div,
    Mod,
}

/// The sign an operator is written with.
pub open spec fn symbol_of(op: ArithOp) -> Seq<char> {
    match op {
        ArithOp::Add => "+"@,
        ArithOp::Sub => "-"@,
        ArithOp::Mul => "*"@,
        ArithOp::Div => "/"@,
        ArithOp::Mod => "%"@,
    }
}

impl ArithOp {
    pub fn symbol(&self) -> (r: &'static str)
        ensures
            r@ == symbol_of(*self),
    {
        match self {
            ArithOp::Add => "+",
            ArithOp::Sub => "-",
            ArithOp::Mul => "*",
            ArithOp::Div => "/",
            ArithOp::Mod => "%",
        }
    }
}

/// An instruction of the machine. `Push` holds the value to push; its number
/// is of type `N`.
#[derive(Clone, Copy, Debug, PartialEq)]
pub enum Instr<N> {
    True,
    False,
    Push(Value<N>),
    Pop,
    Add,
    Sub,
    Mul,
    Div,
    Mod,
    PrintLn,
}

impl<N: View> View for Instr<N> {
    type V = Instr<N::V>;

    open spec fn view(&self) -> Instr<N::V> {
        match self {
            Instr::True => Instr::True,
            Instr::False => Instr::False,
            Instr::Push(v) => Instr::Push(v@),
            Instr::Pop => Instr::Pop,
            Instr::Add => Instr::Add,
            Instr::Sub => Instr::Sub,
            Instr::Mul => Instr::Mul,
            Instr::Div => Instr::Div,
            Instr::Mod => Instr::Mod,
            Instr::PrintLn => Instr::PrintLn,
        }
    }
}

/// The operator that an instruction applies, where it is arithmetic.
pub open spec fn arith_of<N>(instr: Instr<N>) -> Option<ArithOp> {
    match instr {
        Instr::Add => Some(ArithOp::Add),
        Instr::Sub => Some(ArithOp::Sub),
        Instr::Mul => Some(ArithOp::Mul),
        Instr::Div => Some(ArithOp::Div),
        Instr::Mod => Some(ArithOp::Mod),
        _ => None,
    }
}

impl<N> Instr<N> {
    pub fn arith(&self) -> (r: Option<ArithOp>)
        ensures
            r == arith_of(*self),
    {
        match self {
            Instr::Add => Some(ArithOp::Add),
            Instr::Sub => Some(ArithOp::Sub),
            Instr::Mul => Some(ArithOp::Mul),
            Instr::Div => Some(ArithOp::Div),
            Instr::Mod => Some(ArithOp::Mod),
            _ => None,
        }
    }
}

} // verus!
