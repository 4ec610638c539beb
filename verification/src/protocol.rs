//! The value shapes a move-relay transport exchanges between two
//! instances: a side-assignment handshake and a move. The transport
//! itself is an external collaborator; it only needs these shapes.
use vstd::prelude::*;
use crate::pieces::PieceColor;

verus! {

#[derive(Clone, Copy, PartialEq, Eq, Debug)]
pub enum NetworkMessage {
    Handshake { color: PieceColor },
    Move { from: (usize, usize), to: (usize, usize) },
}

} // verus!
