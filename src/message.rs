//! The kinds of peer messages that follow the handshake.
use vstd::prelude::*;

verus! {

/// The kind of a peer message.
#[derive(Clone, Copy, Debug, PartialEq, Eq, Structural)]
pub enum MessageKind {
    Choke,
    Unchoke,
    Interested,
    NotInterested,
    Have,
    Bitfield,
    Request,
    Piece,
    Cancel,
}

/// A peer message: its kind and its payload.
pub struct Message {
    pub kind: MessageKind,
    pub payload: Vec<u8>,
}

} // verus!
