//! The layer that an item lies on, by its name: `(layer "F.Cu")`.

use vstd::prelude::*;

verus! {

/// The name of a layer of the board.
#[derive(Clone, Debug, PartialEq, Eq)]
pub struct Layer(pub String);

impl Layer {
    /// The layer of the given name.
    pub fn new(name: String) -> (l: Layer)
        ensures
            l.0@ == name@,
    {
        Layer(name)
    }

    /// The name of this layer.
    pub fn name(&self) -> (s: &str)
        ensures
            s@ == self.0@,
    {
        self.0.as_str()
    }
}

} // verus!
