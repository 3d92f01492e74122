//! Connections between the elements of a tile: track segments, dits,
//! cities, and hex faces.
use vstd::prelude::*;
use crate::hex::HexFace;
use crate::track::TrackEnd;

verus! {

/// An element of a tile that a path may pass through.
#[derive(Clone, Copy, Debug, PartialEq, Eq, Structural, PartialOrd, Ord, Hash)]
pub enum Connection {
    Track { ix: usize, end: TrackEnd },
    Dit { ix: usize },
    City { ix: usize },
    Face { face: HexFace },
}

impl From<HexFace> for Connection {
    fn from(face: HexFace) -> (c: Self) {
        Connection::Face { face }
    }
}

impl vstd::std_specs::convert::FromSpecImpl<HexFace> for Connection {
    open spec fn obeys_from_spec() -> bool {
        true
    }

    open spec fn from_spec(face: HexFace) -> Self {
        Connection::Face { face }
    }
}

/// Whether two connections are the same element, where both ends of a
/// track segment count as the same element.
pub open spec fn equivalent(a: Connection, b: Connection) -> bool {
    match (a, b) {
        (Connection::Track { ix: x, .. }, Connection::Track { ix: y, .. }) => x == y,
        (Connection::Dit { ix: x }, Connection::Dit { ix: y }) => x == y,
        (Connection::City { ix: x }, Connection::City { ix: y }) => x == y,
        (Connection::Face { face: x }, Connection::Face { face: y }) => x == y,
        _ => false,
    }
}

/// The connection at the other end of a track segment, if this is one.
pub open spec fn other_end_of(c: Connection) -> Option<Connection> {
    match c {
        Connection::Track { ix, end } => Some(Connection::Track { ix, end: end.other_end_spec() }),
        _ => None,
    }
}

impl Connection {
    /// Returns whether this connection is equivalent to another connection.
    ///
    /// This is less restrictive than equality, because connections to either
    /// end of the same track segment are considered equivalent but are not
    /// equal to each other.
    pub fn equivalent_to(&self, other: &Self) -> (r: bool)
        ensures
            r == equivalent(*self, *other),
    {
        match (self, other) {
            (Connection::Track { ix: a, .. }, Connection::Track { ix: b, .. }) => *a == *b,
            (Connection::Dit { ix: a }, Connection::Dit { ix: b }) => *a == *b,
            (Connection::City { ix: a }, Connection::City { ix: b }) => *a == *b,
            (Connection::Face { face: a }, Connection::Face { face: b }) => *a == *b,
            _ => false,
        }
    }

    /// Returns the connection at the other end of a track segment, or `None`
    /// if this connection is not a track segment.
    pub fn other_end(&self) -> (r: Option<Self>)
        ensures
            r == other_end_of(*self),
    {
        match self {
            Connection::Track { ix, end } => Some(Connection::Track { ix: *ix, end: end.other_end() }),
            _ => None,
        }
    }
}

/// Equivalence of connections is reflexive and symmetric, and the other end
/// of a track segment is an equivalent connection whose other end is the
/// connection itself.
pub proof fn lemma_equivalence(a: Connection, b: Connection)
    ensures
        equivalent(a, a),
        equivalent(a, b) == equivalent(b, a),
        other_end_of(a) matches Some(o) ==> equivalent(a, o) && o != a && other_end_of(o)
            == Some(a),
{
}

/// A dit: a stop at one end of a track segment.
#[derive(Clone, Copy, Debug, PartialEq, Eq, Structural, PartialOrd, Ord)]
pub struct Dit {
    pub track_ix: usize,
    end: TrackEnd,
    pub revenue: usize,
}

impl Dit {
    /// The end of its track segment at which the dit lies.
    pub closed spec fn end_spec(self) -> TrackEnd {
        self.end
    }

    /// The track segment that the dit belongs to.
    pub closed spec fn track_spec(self) -> usize {
        self.track_ix
    }

    /// The revenue earned by stopping at the dit.
    pub closed spec fn revenue_spec(self) -> usize {
        self.revenue
    }

    /// Returns a dit at the given end of a track segment.
    pub fn new(track_ix: usize, end: TrackEnd, revenue: usize) -> (d: Self)
        ensures
            d.track_spec() == track_ix,
            d.end_spec() == end,
            d.revenue_spec() == revenue,
    {
        Dit { track_ix, end, revenue }
    }

    /// Returns the end of its track segment at which the dit lies.
    pub fn end(&self) -> (e: TrackEnd)
        ensures
            e == self.end_spec(),
    {
        self.end
    }
}

} // verus!
