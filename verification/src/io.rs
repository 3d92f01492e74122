//! The plain descriptions in which tiles, cities and tokens are written to
//! and read from files, and how they turn into the values that the rest of
//! the library works with.
use vstd::prelude::*;
use crate::hex::{HexCorner, HexFace, RotateCW};
use crate::token::Colour;

verus! {

/// Where a single-token city may stand on a tile.
#[derive(Debug, Clone, Copy, PartialEq, Eq, Structural)]
pub enum Location {
    Centre,
    TopLeftCorner,
    TopRightCorner,
    LeftCorner,
    RightCorner,
    BottomLeftCorner,
    BottomRightCorner,
    TopFace,
    UpperRightFace,
    LowerRightFace,
    BottomFace,
    LowerLeftFace,
    UpperLeftFace,
}

/// Where a double-token city may stand on a tile.
#[derive(Debug, Clone, Copy, PartialEq, Eq, Structural)]
pub enum CornerLocation {
    Centre,
    TopLeftCorner,
    TopRightCorner,
    LeftCorner,
    RightCorner,
    BottomLeftCorner,
    BottomRightCorner,
}

/// The only place for a city with three or four token spaces.
#[derive(Debug, Clone, Copy, PartialEq, Eq, Structural)]
pub enum CentreLocation {
    Centre,
}

/// A city as it is written in a tile description: its number of token
/// spaces, and where it stands.
#[derive(Debug, Clone, Copy, PartialEq, Eq, Structural)]
pub enum CityType {
    Single(Location),
    Double(CornerLocation),
    Triple(CentreLocation),
    Quad(CentreLocation),
}

/// The number of token spaces in a city.
#[derive(Debug, Clone, Copy, PartialEq, Eq, Structural)]
pub enum CityTokens {
    Single,
    Double,
    Triple,
    Quadruple,
}

/// Where a city stands on a tile.
#[derive(Debug, Clone, Copy, PartialEq, Eq, Structural)]
pub enum CityPosition {
    Centre,
    Corner(HexCorner),
    Face(HexFace),
}

/// A city on a tile: its revenue, its token spaces and its position.
#[derive(Debug, Clone, Copy, PartialEq, Eq, Structural)]
pub struct CitySite {
    pub revenue: usize,
    pub tokens: CityTokens,
    pub position: CityPosition,
}

/// The tile position that a single-token city location names.
pub open spec fn location_position(loc: Location) -> CityPosition {
    match loc {
        Location::Centre => CityPosition::Centre,
        Location::TopLeftCorner => CityPosition::Corner(HexCorner::TopLeft),
        Location::TopRightCorner => CityPosition::Corner(HexCorner::TopRight),
        Location::LeftCorner => CityPosition::Corner(HexCorner::Left),
        Location::RightCorner => CityPosition::Corner(HexCorner::Right),
        Location::BottomLeftCorner => CityPosition::Corner(HexCorner::BottomLeft),
        Location::BottomRightCorner => CityPosition::Corner(HexCorner::BottomRight),
        Location::TopFace => CityPosition::Face(HexFace::Top),
        Location::UpperRightFace => CityPosition::Face(HexFace::UpperRight),
        Location::LowerRightFace => CityPosition::Face(HexFace::LowerRight),
        Location::BottomFace => CityPosition::Face(HexFace::Bottom),
        Location::LowerLeftFace => CityPosition::Face(HexFace::LowerLeft),
        Location::UpperLeftFace => CityPosition::Face(HexFace::UpperLeft),
    }
}

/// The tile position that a double-token city location names.
pub open spec fn corner_position(loc: CornerLocation) -> CityPosition {
    match loc {
        CornerLocation::Centre => CityPosition::Centre,
        CornerLocation::TopLeftCorner => CityPosition::Corner(HexCorner::TopLeft),
        CornerLocation::TopRightCorner => CityPosition::Corner(HexCorner::TopRight),
        CornerLocation::LeftCorner => CityPosition::Corner(HexCorner::Left),
        CornerLocation::RightCorner => CityPosition::Corner(HexCorner::Right),
        CornerLocation::BottomLeftCorner => CityPosition::Corner(HexCorner::BottomLeft),
        CornerLocation::BottomRightCorner => CityPosition::Corner(HexCorner::BottomRight),
    }
}

/// The number of token spaces and the position that a city type describes.
pub open spec fn city_type_site(ct: CityType) -> (CityTokens, CityPosition) {
    match ct {
        CityType::Single(loc) => (CityTokens::Single, location_position(loc)),
        CityType::Double(loc) => (CityTokens::Double, corner_position(loc)),
        CityType::Triple(_) => (CityTokens::Triple, CityPosition::Centre),
        CityType::Quad(_) => (CityTokens::Quadruple, CityPosition::Centre),
    }
}

fn corner_site(loc: &CornerLocation) -> (p: CityPosition)
    ensures
        p == corner_position(*loc),
{
    match loc {
        CornerLocation::Centre => CityPosition::Centre,
        CornerLocation::TopLeftCorner => CityPosition::Corner(HexCorner::TopLeft),
        CornerLocation::TopRightCorner => CityPosition::Corner(HexCorner::TopRight),
        CornerLocation::LeftCorner => CityPosition::Corner(HexCorner::Left),
        CornerLocation::RightCorner => CityPosition::Corner(HexCorner::Right),
        CornerLocation::BottomLeftCorner => CityPosition::Corner(HexCorner::BottomLeft),
        CornerLocation::BottomRightCorner => CityPosition::Corner(HexCorner::BottomRight),
    }
}

impl CityType {
    /// Returns the city that this description defines, with the given
    /// revenue.
    pub fn build(&self, revenue: usize) -> (c: CitySite)
        ensures
            c.revenue == revenue,
            (c.tokens, c.position) == city_type_site(*self),
    {
        match self {
            CityType::Single(loc) => {
                let position = match loc {
                    Location::Centre => CityPosition::Centre,
                    Location::TopLeftCorner => CityPosition::Corner(HexCorner::TopLeft),
                    Location::TopRightCorner => CityPosition::Corner(HexCorner::TopRight),
                    Location::LeftCorner => CityPosition::Corner(HexCorner::Left),
                    Location::RightCorner => CityPosition::Corner(HexCorner::Right),
                    Location::BottomLeftCorner => CityPosition::Corner(HexCorner::BottomLeft),
                    Location::BottomRightCorner => CityPosition::Corner(HexCorner::BottomRight),
                    Location::TopFace => CityPosition::Face(HexFace::Top),
                    Location::UpperRightFace => CityPosition::Face(HexFace::UpperRight),
                    Location::LowerRightFace => CityPosition::Face(HexFace::LowerRight),
                    Location::BottomFace => CityPosition::Face(HexFace::Bottom),
                    Location::LowerLeftFace => CityPosition::Face(HexFace::LowerLeft),
                    Location::UpperLeftFace => CityPosition::Face(HexFace::UpperLeft),
                };
                CitySite { revenue, tokens: CityTokens::Single, position }
            },
            CityType::Double(loc) => {
                CitySite { revenue, tokens: CityTokens::Double, position: corner_site(loc) }
            },
            CityType::Triple(_) => {
                CitySite { revenue, tokens: CityTokens::Triple, position: CityPosition::Centre }
            },
            CityType::Quad(_) => {
                CitySite { revenue, tokens: CityTokens::Quadruple, position: CityPosition::Centre }
            },
        }
    }
}

/// How far a city is rotated on its tile.
#[derive(Debug, Clone, Copy, PartialEq, Eq, Structural)]
pub enum Rotation {
    Zero,
    Cw90,
    Acw90,
    HalfTurn,
}

/// A city's rotation as it is written in a tile description, where no
/// rotation is written at all.
#[derive(Debug, Clone, Copy, PartialEq, Eq, Structural)]
pub enum CityRotation {
    Zero,
    Cw90,
    Acw90,
    HalfTurn,
}

impl CityRotation {
    /// Returns the description of a rotation; no rotation is not written.
    pub fn from_rot(src: Rotation) -> (r: Option<Self>)
        ensures
            r == match src {
                Rotation::Zero => None,
                Rotation::Cw90 => Some(CityRotation::Cw90),
                Rotation::Acw90 => Some(CityRotation::Acw90),
                Rotation::HalfTurn => Some(CityRotation::HalfTurn),
            },
    {
        match src {
            Rotation::Zero => None,
            Rotation::Cw90 => Some(CityRotation::Cw90),
            Rotation::Acw90 => Some(CityRotation::Acw90),
            Rotation::HalfTurn => Some(CityRotation::HalfTurn),
        }
    }

    /// Returns the rotation that this description names.
    pub fn into_rot(&self) -> (r: Rotation)
        ensures
            r == match *self {
                CityRotation::Zero => Rotation::Zero,
                CityRotation::Cw90 => Rotation::Cw90,
                CityRotation::Acw90 => Rotation::Acw90,
                CityRotation::HalfTurn => Rotation::HalfTurn,
            },
    {
        match self {
            CityRotation::Zero => Rotation::Zero,
            CityRotation::Cw90 => Rotation::Cw90,
            CityRotation::Acw90 => Rotation::Acw90,
            CityRotation::HalfTurn => Rotation::HalfTurn,
        }
    }
}

/// A tile's rotation as it is written in a map description.
#[derive(Debug, Clone, Copy, PartialEq, Eq, Structural)]
pub enum TileRotation {
    Zero,
    Cw1,
    Cw2,
    Half,
    Acw2,
    Acw1,
}

impl TileRotation {
    /// Returns whether this is the default rotation, which a map
    /// description leaves unwritten.
    pub fn is_default(&self) -> (b: bool)
        ensures
            b == (*self == TileRotation::Zero),
    {
        *self == TileRotation::default()
    }
}

impl Default for TileRotation {
    fn default() -> (r: Self)
        ensures
            r == TileRotation::Zero,
    {
        TileRotation::Zero
    }
}

impl From<&RotateCW> for TileRotation {
    fn from(src: &RotateCW) -> (r: Self) {
        match src {
            RotateCW::Zero => TileRotation::Zero,
            RotateCW::One => TileRotation::Cw1,
            RotateCW::Two => TileRotation::Cw2,
            RotateCW::Three => TileRotation::Half,
            RotateCW::Four => TileRotation::Acw2,
            RotateCW::Five => TileRotation::Acw1,
        }
    }
}

impl vstd::std_specs::convert::FromSpecImpl<&RotateCW> for TileRotation {
    open spec fn obeys_from_spec() -> bool {
        true
    }

    open spec fn from_spec(src: &RotateCW) -> Self {
        rotation_description(*src)
    }
}

impl From<&TileRotation> for RotateCW {
    fn from(src: &TileRotation) -> (r: Self) {
        match src {
            TileRotation::Zero => RotateCW::Zero,
            TileRotation::Cw1 => RotateCW::One,
            TileRotation::Cw2 => RotateCW::Two,
            TileRotation::Half => RotateCW::Three,
            TileRotation::Acw2 => RotateCW::Four,
            TileRotation::Acw1 => RotateCW::Five,
        }
    }
}

impl vstd::std_specs::convert::FromSpecImpl<&TileRotation> for RotateCW {
    open spec fn obeys_from_spec() -> bool {
        true
    }

    open spec fn from_spec(src: &TileRotation) -> Self {
        described_rotation(*src)
    }
}

/// How a map description writes a tile's rotation.
pub open spec fn rotation_description(r: RotateCW) -> TileRotation {
    match r {
        RotateCW::Zero => TileRotation::Zero,
        RotateCW::One => TileRotation::Cw1,
        RotateCW::Two => TileRotation::Cw2,
        RotateCW::Three => TileRotation::Half,
        RotateCW::Four => TileRotation::Acw2,
        RotateCW::Five => TileRotation::Acw1,
    }
}

/// The tile rotation that a map description names.
pub open spec fn described_rotation(t: TileRotation) -> RotateCW {
    match t {
        TileRotation::Zero => RotateCW::Zero,
        TileRotation::Cw1 => RotateCW::One,
        TileRotation::Cw2 => RotateCW::Two,
        TileRotation::Half => RotateCW::Three,
        TileRotation::Acw2 => RotateCW::Four,
        TileRotation::Acw1 => RotateCW::Five,
    }
}

/// A rotation written in a map description and read back is the rotation
/// that was written, and a description read and written again is the
/// description that was read.
pub proof fn lemma_rotation_round_trip(r: RotateCW, t: TileRotation)
    ensures
        described_rotation(rotation_description(r)) == r,
        rotation_description(described_rotation(t)) == t,
{
}

/// A token colour as it is written in a game description.
#[derive(Debug, Clone, Copy, PartialEq, Eq, Structural)]
pub struct TokenColour {
    pub red: usize,
    pub green: usize,
    pub blue: usize,
    pub alpha: Option<usize>,
}

impl From<&Colour> for TokenColour {
    fn from(src: &Colour) -> (c: Self) {
        TokenColour { red: src.red, green: src.green, blue: src.blue, alpha: src.alpha }
    }
}

impl vstd::std_specs::convert::FromSpecImpl<&Colour> for TokenColour {
    open spec fn obeys_from_spec() -> bool {
        true
    }

    open spec fn from_spec(src: &Colour) -> Self {
        TokenColour { red: src.red, green: src.green, blue: src.blue, alpha: src.alpha }
    }
}

impl From<&TokenColour> for Colour {
    fn from(src: &TokenColour) -> (c: Self) {
        Colour { red: src.red, green: src.green, blue: src.blue, alpha: src.alpha }
    }
}

impl vstd::std_specs::convert::FromSpecImpl<&TokenColour> for Colour {
    open spec fn obeys_from_spec() -> bool {
        true
    }

    open spec fn from_spec(src: &TokenColour) -> Self {
        Colour { red: src.red, green: src.green, blue: src.blue, alpha: src.alpha }
    }
}

} // verus!
