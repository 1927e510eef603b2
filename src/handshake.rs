//! The peer wire handshake: the first message that two peers exchange.
use crate::bencode::copy_range;
use crate::text::{hex_text, to_hex, utf8_text};
use crate::tracker::InfoHash;
use vstd::prelude::*;
use vstd::utf8::{decode_utf8, encode_utf8, valid_utf8};

verus! {

/// A handshake message: the protocol name, the torrent's info hash and the
/// sender's peer id.
pub struct Handshake {
    pub name: String,
    pub info_hash: InfoHash,
    pub peer_id: [u8; 20],
}

/// Why a handshake failed.
#[derive(Clone, Copy, Debug, PartialEq, Eq, Structural)]
pub enum HandshakeError {
    /// The length prefix does not agree with the message length.
    MalformedHandshake,
    /// The protocol name is not UTF-8.
    InvalidProtocolName,
    /// The peer answered for another torrent.
    PeerInfoHashMismatch,
    /// The connection failed or closed early.
    ConnectionFailed,
}

/// The wire form: the name's length in one byte, the name, 8 zero bytes,
/// the info hash, the peer id.
pub open spec fn handshake_wire(name: Seq<u8>, info_hash: Seq<u8>, peer_id: Seq<u8>) -> Seq<u8> {
    seq![name.len() as u8] + name + Seq::new(8, |i: int| 0u8) + info_hash + peer_id
}

/// The fields that a handshake message holds: name, info hash, peer id.
pub open spec fn handshake_fields(m: Seq<u8>) -> Result<(Seq<char>, Seq<u8>, Seq<u8>), HandshakeError> {
    if m.len() == 0 || m.len() != m[0] + 49 {
        Err(HandshakeError::MalformedHandshake)
    } else {
        let n = m[0] as int;
        if !valid_utf8(m.subrange(1, 1 + n)) {
            Err(HandshakeError::InvalidProtocolName)
        } else {
            Ok(
                (
                    decode_utf8(m.subrange(1, 1 + n)),
                    m.subrange(9 + n, 29 + n),
                    m.subrange(29 + n, 49 + n),
                ),
            )
        }
    }
}

/// Copies 20 bytes of `b` from `at`.
fn array20(b: &[u8], at: usize) -> (r: [u8; 20])
    requires
        at + 20 <= b.len(),
    ensures
        r@ == b@.subrange(at as int, at + 20),
{
    let mut r = [0u8; 20];
    let mut j: usize = 0;
    while j < 20
        invariant
            j <= 20,
            at + 20 <= b.len(),
            forall|i: int| 0 <= i < j ==> r@[i] == b@[at + i],
        decreases 20 - j,
    {
        r[j] = b[at + j];
        j = j + 1;
    }
    assert(r@ =~= b@.subrange(at as int, at + 20));
    r
}

impl Handshake {
    /// The peer id as lowercase hex.
    pub fn peer_id_string(&self) -> (r: String)
        ensures
            r@ == hex_text(self.peer_id@),
    {
        to_hex(self.peer_id.as_slice())
    }

    /// The wire form of this message. The name's UTF-8 bytes must fit the
    /// one-byte length prefix.
    pub fn to_bytes(&self) -> (r: Vec<u8>)
        requires
            encode_utf8(self.name@).len() <= 255,
        ensures
            r@ == handshake_wire(encode_utf8(self.name@), self.info_hash.0@, self.peer_id@),
            r@.len() == 49 + encode_utf8(self.name@).len(),
    {
        let name = self.name.as_str().as_bytes();
        let mut buf: Vec<u8> = Vec::new();
        buf.push(name.len() as u8);
        let mut k: usize = 0;
        while k < name.len()
            invariant
                k <= name.len(),
                name.len() <= 255,
                buf@ == seq![name.len() as u8] + name@.subrange(0, k as int),
            decreases name.len() - k,
        {
            buf.push(name[k]);
            k = k + 1;
            assert(buf@ =~= seq![name.len() as u8] + name@.subrange(0, k as int));
        }
        assert(name@.subrange(0, k as int) =~= name@);
        let mut j: usize = 0;
        let ghost start = buf@;
        while j < 8
            invariant
                j <= 8,
                buf@ == start + Seq::new(j as nat, |i: int| 0u8),
            decreases 8 - j,
        {
            buf.push(0u8);
            j = j + 1;
            assert(buf@ =~= start + Seq::new(j as nat, |i: int| 0u8));
        }
        let mut j: usize = 0;
        let ghost start = buf@;
        while j < 20
            invariant
                j <= 20,
                buf@ == start + self.info_hash.0@.subrange(0, j as int),
            decreases 20 - j,
        {
            buf.push(self.info_hash.0[j]);
            j = j + 1;
            assert(buf@ =~= start + self.info_hash.0@.subrange(0, j as int));
        }
        let mut j: usize = 0;
        let ghost start = buf@;
        while j < 20
            invariant
                j <= 20,
                buf@ == start + self.peer_id@.subrange(0, j as int),
            decreases 20 - j,
        {
            buf.push(self.peer_id[j]);
            j = j + 1;
            assert(buf@ =~= start + self.peer_id@.subrange(0, j as int));
        }
        assert(self.info_hash.0@.subrange(0, 20) =~= self.info_hash.0@);
        assert(self.peer_id@.subrange(0, 20) =~= self.peer_id@);
        assert(buf@ =~= handshake_wire(encode_utf8(self.name@), self.info_hash.0@, self.peer_id@));
        buf
    }

    /// Reads a handshake message from its wire form.
    pub fn from_bytes(buf: &[u8]) -> (r: Result<Handshake, HandshakeError>)
        ensures
            match r {
                Ok(h) => handshake_fields(buf@) == Ok::<(Seq<char>, Seq<u8>, Seq<u8>), HandshakeError>(
                    (h.name@, h.info_hash.0@, h.peer_id@),
                ),
                Err(x) => handshake_fields(buf@) == Err::<(Seq<char>, Seq<u8>, Seq<u8>), HandshakeError>(x),
            },
    {
        if buf.len() == 0 || buf.len() != buf[0] as usize + 49 {
            return Err(HandshakeError::MalformedHandshake);
        }
        let n: usize = buf[0] as usize;
        let name_bytes = copy_range(buf, 1, 1 + n);
        let name = match utf8_text(name_bytes.as_slice()) {
            Some(t) => t,
            None => {
                return Err(HandshakeError::InvalidProtocolName);
            },
        };
        let info_hash = InfoHash(array20(buf, 9 + n));
        let peer_id = array20(buf, 29 + n);
        Ok(Handshake { name, info_hash, peer_id })
    }
}

/// Reads a peer's handshake reply and checks that it names the torrent
/// that was asked for.
pub fn check_reply(expected: &InfoHash, reply: &[u8]) -> (r: Result<Handshake, HandshakeError>)
    ensures
        match handshake_fields(reply@) {
            Err(x) => r == Err::<Handshake, HandshakeError>(x),
            Ok((name, ih, pid)) => if ih == expected.0@ {
                match r {
                    Ok(h) => h.name@ == name && h.info_hash.0@ == ih && h.peer_id@ == pid,
                    Err(_) => false,
                }
            } else {
                r == Err::<Handshake, HandshakeError>(HandshakeError::PeerInfoHashMismatch)
            },
        },
{
    let h = match Handshake::from_bytes(reply) {
        Ok(h) => h,
        Err(x) => {
            return Err(x);
        },
    };
    let mut k: usize = 0;
    while k < 20
        invariant
            k <= 20,
            forall|i: int| 0 <= i < k ==> h.info_hash.0@[i] == expected.0@[i],
            handshake_fields(reply@) == Ok::<(Seq<char>, Seq<u8>, Seq<u8>), HandshakeError>(
                (h.name@, h.info_hash.0@, h.peer_id@),
            ),
        decreases 20 - k,
    {
        if h.info_hash.0[k] != expected.0[k] {
            assert(h.info_hash.0@[k as int] != expected.0@[k as int]);
            assert(h.info_hash.0@ != expected.0@);
            return Err(HandshakeError::PeerInfoHashMismatch);
        }
        k = k + 1;
    }
    assert(h.info_hash.0@ =~= expected.0@);
    Ok(h)
}

/// Decoding the wire form of a handshake gives back its fields: the name,
/// the info hash and the peer id, for every name whose UTF-8 form fits the
/// length prefix.
pub proof fn lemma_handshake_round_trip(name: Seq<char>, info_hash: Seq<u8>, peer_id: Seq<u8>)
    requires
        encode_utf8(name).len() <= 255,
        info_hash.len() == 20,
        peer_id.len() == 20,
    ensures
        handshake_wire(encode_utf8(name), info_hash, peer_id).len() == 49 + encode_utf8(name).len(),
        handshake_fields(handshake_wire(encode_utf8(name), info_hash, peer_id)) == Ok::<
            (Seq<char>, Seq<u8>, Seq<u8>),
            HandshakeError,
        >((name, info_hash, peer_id)),
{
    broadcast use vstd::utf8::encode_utf8_valid_utf8, vstd::utf8::encode_utf8_decode_utf8;

    let b = encode_utf8(name);
    let m = handshake_wire(b, info_hash, peer_id);
    let n = b.len() as int;
    assert(m.subrange(1, 1 + n) =~= b);
    assert(m.subrange(9 + n, 29 + n) =~= info_hash);
    assert(m.subrange(29 + n, 49 + n) =~= peer_id);
}

} // verus!
