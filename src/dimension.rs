use vstd::prelude::*;

verus! {

/// One of the three coordinate axes; a tree node splits its bodies along one of them.
#[derive(Clone, Copy, Debug, PartialEq, Eq, Structural)]
pub enum Dimension {
    X,
    Y,
    Z,
}

impl Dimension {
    /// The axis's name as a one-letter string.
    pub fn as_string(&self) -> (r: &'static str)
        ensures
            r@ == seq![match *self {
                Dimension::X => 'X',
                Dimension::Y => 'Y',
                Dimension::Z => 'Z',
            }],
    {
        match *self {
            Dimension::X => {
                proof { reveal_strlit("X"); }
                "X"
            },
            Dimension::Y => {
                proof { reveal_strlit("Y"); }
                "Y"
            },
            Dimension::Z => {
                proof { reveal_strlit("Z"); }
                "Z"
            },
        }
    }
}

} // verus!
