//! Board primitives: squares, colors, piece types, pieces and moves.
//!
//! A square index is `file * 9 + rank`, file 0 being the rightmost column and
//! rank 0 the top row, so consecutive squares of one file are numerically
//! adjacent.

use vstd::prelude::*;

verus! {

/// The other player of `c`.
pub open spec fn opp(c: Color) -> Color {
    if c == Color::Black {
        Color::White
    } else {
        Color::Black
    }
}

/// The two players; Black moves first.
#[derive(Clone, Copy, PartialEq, Eq, Structural, Debug)]
pub enum Color {
    Black,
    White,
}

impl Color {
    /// 0 for Black, 1 for White.
    pub open spec fn idx_spec(self) -> int {
        if self == Color::Black {
            0
        } else {
            1
        }
    }

    pub fn index(self) -> (r: usize)
        ensures
            r == self.idx_spec(),
    {
        match self {
            Color::Black => 0,
            Color::White => 1,
        }
    }

    /// The other player.
    pub fn opponent(self) -> (r: Color)
        ensures
            r == opp(self),
            r.idx_spec() == 1 - self.idx_spec(),
            r != self,
    {
        match self {
            Color::Black => Color::White,
            Color::White => Color::Black,
        }
    }
}

/// Base piece types, their promotions, and the pseudo-type used to index the
/// all-pieces occupancy.
#[derive(Clone, Copy, PartialEq, Eq, Structural, Debug)]
pub enum PieceType {
    FU,
    KY,
    KE,
    GI,
    KI,
    KA,
    HI,
    OU,
    TO,
    NY,
    NK,
    NG,
    UM,
    RY,
    OCCUPIED,
}

impl PieceType {
    /// Position of this type in per-type tables.
    pub open spec fn idx_spec(self) -> int {
        match self {
            PieceType::FU => 0,
            PieceType::KY => 1,
            PieceType::KE => 2,
            PieceType::GI => 3,
            PieceType::KI => 4,
            PieceType::KA => 5,
            PieceType::HI => 6,
            PieceType::OU => 7,
            PieceType::TO => 8,
            PieceType::NY => 9,
            PieceType::NK => 10,
            PieceType::NG => 11,
            PieceType::UM => 12,
            PieceType::RY => 13,
            PieceType::OCCUPIED => 14,
        }
    }

    pub fn index(self) -> (r: usize)
        ensures
            r == self.idx_spec(),
    {
        match self {
            PieceType::FU => 0,
            PieceType::KY => 1,
            PieceType::KE => 2,
            PieceType::GI => 3,
            PieceType::KI => 4,
            PieceType::KA => 5,
            PieceType::HI => 6,
            PieceType::OU => 7,
            PieceType::TO => 8,
            PieceType::NY => 9,
            PieceType::NK => 10,
            PieceType::NG => 11,
            PieceType::UM => 12,
            PieceType::RY => 13,
            PieceType::OCCUPIED => 14,
        }
    }

    /// The gold, and the promoted pieces that move as the gold does.
    pub open spec fn is_gold_like(self) -> bool {
        self == PieceType::KI || self == PieceType::TO || self == PieceType::NY
            || self == PieceType::NK || self == PieceType::NG
    }
}

/// File (column) of a square index.
pub open spec fn file_of(s: int) -> int {
    s / 9
}

/// Rank (row) of a square index.
pub open spec fn rank_of(s: int) -> int {
    s % 9
}

/// The promotion zone: the three ranks nearest the opponent.
pub open spec fn promo_zone(c: Color, r: int) -> bool {
    if c == Color::Black {
        r <= 2
    } else {
        r >= 6
    }
}

/// A board square, numbered `0 .. 81`.
#[derive(Clone, Copy, PartialEq, Eq, Structural, Debug)]
pub struct Square(pub u8);

impl Square {
    pub open spec fn wf(self) -> bool {
        self.0 < 81
    }

    pub open spec fn idx(self) -> int {
        self.0 as int
    }

    pub fn index(self) -> (r: usize)
        ensures
            r == self.idx(),
    {
        self.0 as usize
    }

    pub fn file(self) -> (r: u8)
        requires
            self.wf(),
        ensures
            r == file_of(self.idx()),
    {
        self.0 / 9
    }

    pub fn rank(self) -> (r: u8)
        requires
            self.wf(),
        ensures
            r == rank_of(self.idx()),
    {
        self.0 % 9
    }

    /// Whether this square's rank lies in `c`'s promotion zone.
    pub fn is_opponent_field(self, c: Color) -> (r: bool)
        requires
            self.wf(),
        ensures
            r == promo_zone(c, rank_of(self.idx())),
    {
        match c {
            Color::Black => self.0 % 9 <= 2,
            Color::White => self.0 % 9 >= 6,
        }
    }
}

/// A colored piece standing on the board.
#[derive(Clone, Copy, PartialEq, Eq, Structural, Debug)]
pub struct Piece {
    pub color: Color,
    pub piece_type: PieceType,
}

/// A board move: drops are outside this core, so `from` is always present.
#[derive(Clone, Copy, PartialEq, Eq, Structural, Debug)]
pub struct Move {
    pub from: Square,
    pub to: Square,
    pub promotion: bool,
    pub piece: Piece,
}

} // verus!
