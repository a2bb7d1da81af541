//! Field values a metric point can carry.

use vstd::prelude::*;

verus! {

/// One field value of a metric point: text, a signed integer, or a boolean.
#[derive(Debug)]
pub enum Value {
    Text(String),
    Int(i64),
    Bool(bool),
}

/// The mathematical shape of a [`Value`]: text as a sequence of characters,
/// integers as unbounded integers.
pub enum ValueView {
    Text(Seq<char>),
    Int(int),
    Bool(bool),
}

impl View for Value {
    type V = ValueView;

    open spec fn view(&self) -> ValueView {
        match self {
            Value::Text(s) => ValueView::Text(s@),
            Value::Int(i) => ValueView::Int(*i as int),
            Value::Bool(b) => ValueView::Bool(*b),
        }
    }
}

impl Value {
    /// An exact copy; unlike a derived `Clone`, its effect is stated.
    pub fn duplicate(&self) -> (r: Value)
        ensures
            r@ == self@,
    {
        match self {
            Value::Text(s) => Value::Text(s.clone()),
            Value::Int(i) => Value::Int(*i),
            Value::Bool(b) => Value::Bool(*b),
        }
    }
}

} // verus!
