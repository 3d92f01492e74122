//! Track segments: their shapes, ends, and dits.
use vstd::prelude::*;

verus! {

/// The shapes that track segments may take.
#[derive(Copy, Clone, Debug, PartialEq, Eq, Structural)]
pub enum TrackCurve {
    Straight,
    GentleL,
    HardL,
    GentleR,
    HardR,
}

impl Default for TrackCurve {
    fn default() -> (c: Self)
        ensures
            c == TrackCurve::Straight,
    {
        Self::Straight
    }
}

/// Each track segment has two ends.
#[derive(Clone, Copy, Debug, PartialEq, Eq, Structural, Ord, PartialOrd, Hash)]
pub enum TrackEnd {
    Start,
    End,
}

impl TrackEnd {
    /// Returns the other end of the track segment.
    pub fn other_end(&self) -> (e: Self)
        ensures
            e != *self,
            e.other_end_spec() == *self,
    {
        match self {
            TrackEnd::Start => TrackEnd::End,
            TrackEnd::End => TrackEnd::Start,
        }
    }

    /// The other end of the track segment.
    pub open spec fn other_end_spec(self) -> Self {
        match self {
            TrackEnd::Start => TrackEnd::End,
            TrackEnd::End => TrackEnd::Start,
        }
    }
}

/// A dit may have one of several shapes.
#[derive(Clone, Copy, Debug, PartialEq, Eq, Structural, Hash)]
pub enum DitShape {
    Bar,
    Circle,
}

} // verus!
