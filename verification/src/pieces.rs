use vstd::prelude::*;

verus! {

#[derive(Clone, Copy, PartialEq, Eq, Structural, Debug, Hash)]
pub enum PieceColor {
    White,
    Black,
}

impl PieceColor {
    /// The side the given side plays against.
    pub open spec fn opposite_spec(self) -> PieceColor {
        match self {
            PieceColor::White => PieceColor::Black,
            PieceColor::Black => PieceColor::White,
        }
    }

    pub fn opposite(&self) -> (r: PieceColor)
        ensures
            r == self.opposite_spec(),
    {
        match *self {
            PieceColor::White => PieceColor::Black,
            PieceColor::Black => PieceColor::White,
        }
    }

    /// Taking the opposite side twice gives the side back.
    pub proof fn lemma_opposite_involution(self)
        ensures
            self.opposite_spec().opposite_spec() == self,
    {
    }
}

#[derive(Clone, Copy, PartialEq, Eq, Structural, Debug, Hash)]
pub enum PieceType {
    Pawn,
    Rook,
    Knight,
    Bishop,
    Queen,
    King,
}

#[derive(Clone, Copy, PartialEq, Eq, Structural, Debug)]
pub struct Piece {
    pub piece_type: PieceType,
    pub color: PieceColor,
    /// Set the first time the piece is relocated; governs pawn
    /// double-steps and castling eligibility.
    pub has_moved: bool,
}

impl Piece {
    pub fn new(piece_type: PieceType, color: PieceColor) -> (r: Piece)
        ensures
            r.piece_type == piece_type,
            r.color == color,
            !r.has_moved,
    {
        Piece { piece_type, color, has_moved: false }
    }
}

} // verus!
