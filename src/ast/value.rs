use vstd::prelude::*;

verus! {

/// The value an identifier carries: an open tagged union, of which only
/// the string variant exists so far.
#[derive(Debug, Clone)]
pub enum Value {
    String(String),
}

impl Value {
    /// The text of the value.
    pub open spec fn text(&self) -> Seq<char> {
        match self {
            Value::String(s) => s@,
        }
    }

    pub fn from_str(val: &str) -> (r: Value)
        ensures
            r.text() == val@,
    {
        Value::String(val.to_string())
    }
}

} // verus!
