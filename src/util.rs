use vstd::prelude::*;

verus! {

/// One of the three coordinate axes.
#[derive(Debug, Clone, Copy, PartialEq, Eq, Structural)]
pub enum Axis {
    X,
    Y,
    Z,
}

/// Relies on `rand::random::<u8>`: any byte, drawn from the thread's generator.
#[verifier::external_body]
fn random_byte() -> (r: u8) {
    rand::random::<u8>()
}

impl Axis {
    /// Position of the axis in the order X, Y, Z.
    pub open spec fn spec_index(self) -> nat {
        match self {
            Axis::X => 0,
            Axis::Y => 1,
            Axis::Z => 2,
        }
    }

    /// The three axes, in the order X, Y, Z.
    pub fn iterator() -> (r: Vec<Axis>)
        ensures
            r@ == seq![Axis::X, Axis::Y, Axis::Z],
    {
        let r = vec![Axis::X, Axis::Y, Axis::Z];
        assert(r@ =~= seq![Axis::X, Axis::Y, Axis::Z]);
        r
    }

    /// Position of the axis in the order X, Y, Z.
    pub fn index(&self) -> (r: usize)
        ensures
            r == self.spec_index(),
    {
        match self {
            Axis::X => 0,
            Axis::Y => 1,
            Axis::Z => 2,
        }
    }

    /// The axis at position `i` of the order X, Y, Z.
    pub fn from_index(i: usize) -> (r: Axis)
        requires
            i < 3,
        ensures
            r.spec_index() == i,
    {
        if i == 0 {
            Axis::X
        } else if i == 1 {
            Axis::Y
        } else {
            Axis::Z
        }
    }

    /// The axis chosen by a random byte: its residue modulo three.
    pub fn from_byte(b: u8) -> (r: Axis)
        ensures
            r.spec_index() == b % 3,
    {
        Axis::from_index((b % 3) as usize)
    }

    /// An axis drawn at random from the thread's generator.
    pub fn random() -> (r: Axis)
        ensures
            r.spec_index() < 3,
    {
        Axis::from_byte(random_byte())
    }
}

} // verus!
