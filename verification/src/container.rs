//! What a cell of the grid can hold.

use vstd::prelude::*;

verus! {

/// What occupies one cell of the grid.
#[derive(Copy, Clone)]
pub enum FieldContent {
    /// A placed digit, `1..=9` on a well-formed grid.
    Digit(u8),
    /// The candidates of an empty cell: entry `d - 1` tells whether digit `d`
    /// is still feasible.
    Hints([bool; 9]),
    /// No digit and no candidate information.
    Empty,
}

impl FieldContent {
    /// The digit that the content holds, if it holds one.
    pub open spec fn digit(self) -> Option<u8> {
        match self {
            FieldContent::Digit(d) => Some(d),
            _ => None,
        }
    }

    /// Whether the content is a placed digit.
    pub fn is_some(&self) -> (b: bool)
        ensures
            b == (*self is Digit),
            b == self.digit().is_some(),
    {
        match *self {
            FieldContent::Digit(_) => true,
            _ => false,
        }
    }

    /// Whether the content is anything but a placed digit.
    pub fn is_none(&self) -> (b: bool)
        ensures
            b == !(*self is Digit),
            b == self.digit().is_none(),
    {
        !self.is_some()
    }

    /// The placed digit.
    pub fn unwrap(&self) -> (d: u8)
        requires
            *self is Digit,
        ensures
            *self == FieldContent::Digit(d),
            self.digit() == Some(d),
    {
        let wrapper: Option<u8> = match *self {
            FieldContent::Digit(d) => Some(d),
            _ => None,
        };
        wrapper.unwrap()
    }
}

} // verus!
