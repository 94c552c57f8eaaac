//! The order of multi-point openings: what is squeezed and what is written.

use crate::poly::gwc::ProverGWC;
use crate::poly::shplonk::ProverSHPLONK;
use vstd::prelude::*;

verus! {

/// A challenge of a multi-point opening.
#[derive(Clone, Copy, Debug, PartialEq, Eq, Structural)]
pub enum OpeningChallenge {
    /// The challenge that keeps the polynomials of a set linearly independent.
    Y,
    /// The challenge that keeps the sets, or the polynomials that are opened at
    /// one point, linearly independent.
    V,
    /// The point at which the linearisation vanishes.
    U,
}

/// A commitment of a multi-point opening.
#[derive(Clone, Copy, Debug, PartialEq, Eq, Structural)]
pub enum OpeningPoint {
    /// The folded quotients of all sets.
    Quotient,
    /// The witness of a point, or the only witness.
    Witness(usize),
}

/// A step of a multi-point opening.
#[derive(Clone, Copy, Debug, PartialEq, Eq, Structural)]
pub enum OpeningStep {
    /// Squeeze a challenge.
    Squeeze(OpeningChallenge),
    /// Write a commitment.
    WritePoint(OpeningPoint),
}

/// The order of a SHPLONK opening: the quotient follows the challenges that it is
/// folded by, and the witness the point that it is divided by.
pub open spec fn shplonk_order() -> Seq<OpeningStep> {
    seq![
        OpeningStep::Squeeze(OpeningChallenge::Y),
        OpeningStep::Squeeze(OpeningChallenge::V),
        OpeningStep::WritePoint(OpeningPoint::Quotient),
        OpeningStep::Squeeze(OpeningChallenge::U),
        OpeningStep::WritePoint(OpeningPoint::Witness(0)),
    ]
}

/// The order of a GWC opening at a number of points: one witness for each.
pub open spec fn gwc_order(num_points: nat) -> Seq<OpeningStep> {
    seq![OpeningStep::Squeeze(OpeningChallenge::V)] + Seq::new(
        num_points,
        |i: int| OpeningStep::WritePoint(OpeningPoint::Witness(i as usize)),
    )
}

impl ProverSHPLONK {
    /// What an opening squeezes and writes, one after another.
    pub fn opening_steps() -> (r: Vec<OpeningStep>)
        ensures
            r@ == shplonk_order(),
    {
        let mut out: Vec<OpeningStep> = Vec::new();
        out.push(OpeningStep::Squeeze(OpeningChallenge::Y));
        out.push(OpeningStep::Squeeze(OpeningChallenge::V));
        out.push(OpeningStep::WritePoint(OpeningPoint::Quotient));
        out.push(OpeningStep::Squeeze(OpeningChallenge::U));
        out.push(OpeningStep::WritePoint(OpeningPoint::Witness(0)));
        assert(out@ =~= shplonk_order());
        out
    }
}

impl ProverGWC {
    /// What an opening at `num_points` points squeezes and writes, one after
    /// another.
    pub fn opening_steps(num_points: usize) -> (r: Vec<OpeningStep>)
        ensures
            r@ == gwc_order(num_points as nat),
    {
        let mut out: Vec<OpeningStep> = Vec::new();
        out.push(OpeningStep::Squeeze(OpeningChallenge::V));
        let mut i: usize = 0;
        while i < num_points
            invariant
                i <= num_points,
                out@ =~= gwc_order(i as nat),
            decreases num_points - i,
        {
            out.push(OpeningStep::WritePoint(OpeningPoint::Witness(i)));
            i += 1;
        }
        out
    }
}

} // verus!
