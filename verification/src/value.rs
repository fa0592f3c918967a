//! The values that the machine holds.

use vstd::prelude::*;

verus! {

/// A scalar: a number or a truth value.
///
/// The machine never looks inside a number; `N` is whatever its host
/// computes with. The assembler fills it with the numeral as it was written.
#[derive(Clone, Copy, Debug, PartialEq)]
pub enum Value<N> {
    Number(N),
    Bool(bool),
}

impl<N: View> View for Value<N> {
    type V = Value<N::V>;

    open spec fn view(&self) -> Value<N::V> {
        match self {
            Value::Number(n) => Value::Number(n@),
            Value::Bool(b) => Value::Bool(*b),
        }
    }
}

/// The label of a value's variant, as messages name it.
pub open spec fn kind_name<N>(value: Value<N>) -> Seq<char> {
    match value {
        Value::Number(_) => "number"@,
        Value::Bool(_) => "bool"@,
    }
}

impl<N> Value<N> {
    pub fn kind(&self) -> (r: &'static str)
        ensures
            r@ == kind_name(*self),
    {
        match self {
            Value::Number(_) => "number",
            Value::Bool(_) => "bool",
        }
    }
}

/// A truth value as a value.
impl<N> From<bool> for Value<N> {
    fn from(value: bool) -> (r: Self) {
        Value::Bool(value)
    }
}

impl<N> vstd::std_specs::convert::FromSpecImpl<bool> for Value<N> {
    open spec fn obeys_from_spec() -> bool {
        true
    }

    open spec fn from_spec(value: bool) -> Self {
        Value::Bool(value)
    }
}

} // verus!
