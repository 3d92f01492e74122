//! Hexagonal map coordinates and hex faces, as far as route finding reads
//! them.
use vstd::prelude::*;

verus! {

/// The faces of a hexagon, clockwise from the top.
#[derive(Clone, Copy, Debug, PartialEq, Eq, Structural, PartialOrd, Ord, Hash)]
pub enum HexFace {
    Top,
    UpperRight,
    LowerRight,
    Bottom,
    LowerLeft,
    UpperLeft,
}

/// The corners of a hexagon.
#[derive(Clone, Copy, Debug, PartialEq, Eq, Structural, Hash)]
pub enum HexCorner {
    TopLeft,
    TopRight,
    Right,
    BottomRight,
    BottomLeft,
    Left,
}

/// The position of each face, clockwise from the top.
pub open spec fn face_index(face: HexFace) -> int {
    match face {
        HexFace::Top => 0,
        HexFace::UpperRight => 1,
        HexFace::LowerRight => 2,
        HexFace::Bottom => 3,
        HexFace::LowerLeft => 4,
        HexFace::UpperLeft => 5,
    }
}

impl HexFace {
    /// Returns the position of this face, clockwise from the top.
    pub fn index(&self) -> (i: usize)
        ensures
            i == face_index(*self),
    {
        match self {
            HexFace::Top => 0,
            HexFace::UpperRight => 1,
            HexFace::LowerRight => 2,
            HexFace::Bottom => 3,
            HexFace::LowerLeft => 4,
            HexFace::UpperLeft => 5,
        }
    }

    /// Returns the face that became this face when the hexagon was rotated
    /// clockwise by `rotn`: the rotation undone, one anti-clockwise turn for
    /// each clockwise turn.
    pub fn unrotate(&self, rotn: &RotateCW) -> (f: HexFace)
        ensures
            f == unrotated_face(*self, *rotn),
    {
        let ix = (self.index() + 6 - rotn.steps()) % 6;
        if ix == 0 {
            HexFace::Top
        } else if ix == 1 {
            HexFace::UpperRight
        } else if ix == 2 {
            HexFace::LowerRight
        } else if ix == 3 {
            HexFace::Bottom
        } else if ix == 4 {
            HexFace::LowerLeft
        } else {
            HexFace::UpperLeft
        }
    }

    /// Returns the face that this face becomes when the hexagon is rotated
    /// clockwise by `rotn`.
    pub fn rotate(&self, rotn: &RotateCW) -> (f: HexFace)
        ensures
            f == rotated_face(*self, *rotn),
    {
        let ix = (self.index() + rotn.steps()) % 6;
        let f = if ix == 0 {
            HexFace::Top
        } else if ix == 1 {
            HexFace::UpperRight
        } else if ix == 2 {
            HexFace::LowerRight
        } else if ix == 3 {
            HexFace::Bottom
        } else if ix == 4 {
            HexFace::LowerLeft
        } else {
            HexFace::UpperLeft
        };
        f
    }
}

/// A clockwise rotation of a hexagon, in steps of one face.
#[derive(Clone, Copy, Debug, PartialEq, Eq, Structural, Hash)]
pub enum RotateCW {
    Zero,
    One,
    Two,
    Three,
    Four,
    Five,
}

/// The number of faces by which a rotation turns a hexagon clockwise.
pub open spec fn rotation_steps(r: RotateCW) -> int {
    match r {
        RotateCW::Zero => 0,
        RotateCW::One => 1,
        RotateCW::Two => 2,
        RotateCW::Three => 3,
        RotateCW::Four => 4,
        RotateCW::Five => 5,
    }
}

/// The face that a hexagon rotated clockwise by `r` turns `face` into.
pub open spec fn rotated_face(face: HexFace, r: RotateCW) -> HexFace {
    let ix = (face_index(face) + rotation_steps(r)) % 6;
    if ix == 0 {
        HexFace::Top
    } else if ix == 1 {
        HexFace::UpperRight
    } else if ix == 2 {
        HexFace::LowerRight
    } else if ix == 3 {
        HexFace::Bottom
    } else if ix == 4 {
        HexFace::LowerLeft
    } else {
        HexFace::UpperLeft
    }
}

/// The face at the given position, clockwise from the top.
pub open spec fn face_at(ix: int) -> HexFace {
    if ix == 0 {
        HexFace::Top
    } else if ix == 1 {
        HexFace::UpperRight
    } else if ix == 2 {
        HexFace::LowerRight
    } else if ix == 3 {
        HexFace::Bottom
    } else if ix == 4 {
        HexFace::LowerLeft
    } else {
        HexFace::UpperLeft
    }
}

/// The face that a hexagon rotated clockwise by `r` turned into `face`:
/// the rotation undone.
pub open spec fn unrotated_face(face: HexFace, r: RotateCW) -> HexFace {
    face_at((face_index(face) + 6 - rotation_steps(r)) % 6)
}

/// Undoing a rotation, then rotating, gives back the face; and so does
/// rotating, then undoing the rotation.
pub proof fn lemma_rotation_inverse(face: HexFace, r: RotateCW)
    ensures
        rotated_face(unrotated_face(face, r), r) == face,
        unrotated_face(rotated_face(face, r), r) == face,
{
}

/// The rotation by `n` faces clockwise, whole turns removed.
pub open spec fn rotation_of(n: int) -> RotateCW {
    let k = n % 6;
    if k == 0 {
        RotateCW::Zero
    } else if k == 1 {
        RotateCW::One
    } else if k == 2 {
        RotateCW::Two
    } else if k == 3 {
        RotateCW::Three
    } else if k == 4 {
        RotateCW::Four
    } else {
        RotateCW::Five
    }
}

/// Turning clockwise by one face, then anti-clockwise by one face, gives back
/// the rotation; and so does turning anti-clockwise, then clockwise.
pub proof fn lemma_rotate_inverse(r: RotateCW)
    ensures
        rotation_of(rotation_steps(rotation_of(rotation_steps(r) + 1)) + 5) == r,
        rotation_of(rotation_steps(rotation_of(rotation_steps(r) + 5)) + 1) == r,
{
}

impl RotateCW {
    /// Returns the rotation by `n` faces clockwise, whole turns removed.
    pub fn from_steps(n: usize) -> (r: RotateCW)
        ensures
            r == rotation_of(n as int),
    {
        let k = n % 6;
        if k == 0 {
            RotateCW::Zero
        } else if k == 1 {
            RotateCW::One
        } else if k == 2 {
            RotateCW::Two
        } else if k == 3 {
            RotateCW::Three
        } else if k == 4 {
            RotateCW::Four
        } else {
            RotateCW::Five
        }
    }

    /// Returns this rotation followed by `other`.
    pub fn plus(&self, other: &RotateCW) -> (r: RotateCW)
        ensures
            r == rotation_of(rotation_steps(*self) + rotation_steps(*other)),
    {
        RotateCW::from_steps(self.steps() + other.steps())
    }

    /// Returns this rotation, turned one more face clockwise.
    pub fn rotate_cw(&self) -> (r: RotateCW)
        ensures
            r == rotation_of(rotation_steps(*self) + 1),
    {
        RotateCW::from_steps(self.steps() + 1)
    }

    /// Returns this rotation, turned one face anti-clockwise.
    pub fn rotate_anti_cw(&self) -> (r: RotateCW)
        ensures
            r == rotation_of(rotation_steps(*self) + 5),
    {
        RotateCW::from_steps(self.steps() + 5)
    }

    /// Returns the number of faces by which this rotation turns a hexagon.
    pub fn steps(&self) -> (n: usize)
        ensures
            n == rotation_steps(*self),
    {
        match self {
            RotateCW::Zero => 0,
            RotateCW::One => 1,
            RotateCW::Two => 2,
            RotateCW::Three => 3,
            RotateCW::Four => 4,
            RotateCW::Five => 5,
        }
    }
}

/// The address of a hex on a map: its row and column.
#[derive(Clone, Copy, Debug, PartialEq, Eq, Structural, PartialOrd, Ord, Hash)]
pub struct HexAddress {
    row: isize,
    col: isize,
}

impl HexAddress {
    /// The row of this hex.
    pub closed spec fn row_of(self) -> int {
        self.row as int
    }

    /// The column of this hex.
    pub closed spec fn col_of(self) -> int {
        self.col as int
    }

    /// Two addresses are equal exactly when their rows and columns are.
    pub proof fn lemma_eq(self, other: Self)
        ensures
            (self == other) <==> (self.row_of() == other.row_of() && self.col_of()
                == other.col_of()),
    {
    }

    /// Returns the address of the hex at the given row and column.
    pub fn new(row: isize, col: isize) -> (a: Self)
        ensures
            a.row_of() == row,
            a.col_of() == col,
    {
        HexAddress { row, col }
    }

    /// Returns the row of this hex.
    pub fn row(&self) -> (r: isize)
        ensures
            r == self.row_of(),
    {
        self.row
    }

    /// Returns the column of this hex.
    pub fn col(&self) -> (c: isize)
        ensures
            c == self.col_of(),
    {
        self.col
    }
}

} // verus!
