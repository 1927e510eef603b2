//! The tracker protocol: the announce query, and the compact peer list of
//! the tracker's reply.
use crate::bencode::{decode, lemma_dict_view, nat_text, parse_value, push_nat, Bencode, BencodeValue, MAX_DEPTH};
use crate::torrent_file::{find_entry, lookup};
use vstd::prelude::*;
use vstd::utf8::encode_utf8;

verus! {

/// The 20 raw bytes that name a torrent.
pub struct InfoHash(pub [u8; 20]);

impl InfoHash {
    /// The number of bytes: always 20.
    pub fn len(&self) -> (r: usize)
        ensures
            r == 20,
    {
        20
    }

    /// The raw bytes.
    pub fn as_bytes(&self) -> (r: &[u8])
        ensures
            r@ == self.0@,
    {
        self.0.as_slice()
    }
}

impl From<[u8; 20]> for InfoHash {
    fn from(value: [u8; 20]) -> (r: Self)
        ensures
            r.0 == value,
    {
        InfoHash(value)
    }
}

impl vstd::std_specs::convert::FromSpecImpl<[u8; 20]> for InfoHash {
    open spec fn obeys_from_spec() -> bool {
        true
    }

    open spec fn from_spec(v: [u8; 20]) -> InfoHash {
        InfoHash(v)
    }
}

/// An announce request to a tracker.
pub struct Tracker {
    pub info_hash: InfoHash,
    pub peer_id: String,
    pub port: u16,
    pub uploaded: usize,
    pub downloaded: usize,
    pub left: usize,
    pub compact: usize,
}

/// Why an announce failed.
#[derive(Clone, Copy, Debug, PartialEq, Eq, Structural)]
pub enum TrackerError {
    /// The tracker could not be reached, or answered with a failure status.
    TrackerUnreachable,
    /// The reply is not a bencode dictionary with a `peers` byte string.
    TrackerProtocolError,
    /// The compact peer list is not a whole number of 6-byte entries.
    InvalidPeerTable,
    /// The tracker sent a list of peer dictionaries instead of the compact form.
    UnsupportedTrackerMode,
}

/// The uppercase hex digit of a value below 16, as an ASCII byte.
pub open spec fn upper_hex(n: u8) -> u8 {
    if n < 10 {
        (48 + n) as u8
    } else {
        (55 + n) as u8
    }
}

/// Every byte percent-encoded: `%` and two uppercase hex digits.
pub open spec fn percent_encode(b: Seq<u8>) -> Seq<u8>
    decreases b.len(),
{
    if b.len() == 0 {
        Seq::empty()
    } else {
        percent_encode(b.drop_last()) + seq![37u8, upper_hex(b.last() / 16), upper_hex(b.last() % 16)]
    }
}

/// `info_hash=`
pub open spec fn info_hash_param() -> Seq<u8> {
    seq![105u8, 110, 102, 111, 95, 104, 97, 115, 104, 61]
}

/// `&peer_id=`
pub open spec fn peer_id_param() -> Seq<u8> {
    seq![38u8, 112, 101, 101, 114, 95, 105, 100, 61]
}

/// `&port=`
pub open spec fn port_param() -> Seq<u8> {
    seq![38u8, 112, 111, 114, 116, 61]
}

/// `&uploaded=`
pub open spec fn uploaded_param() -> Seq<u8> {
    seq![38u8, 117, 112, 108, 111, 97, 100, 101, 100, 61]
}

/// `&downloaded=`
pub open spec fn downloaded_param() -> Seq<u8> {
    seq![38u8, 100, 111, 119, 110, 108, 111, 97, 100, 101, 100, 61]
}

/// `&left=`
pub open spec fn left_param() -> Seq<u8> {
    seq![38u8, 108, 101, 102, 116, 61]
}

/// `&compact=`
pub open spec fn compact_param() -> Seq<u8> {
    seq![38u8, 99, 111, 109, 112, 97, 99, 116, 61]
}

impl Tracker {
    /// The query string of the announce request.
    pub open spec fn query_spec(&self) -> Seq<u8> {
        info_hash_param() + percent_encode(self.info_hash.0@) + peer_id_param() + percent_encode(
            encode_utf8(self.peer_id@),
        ) + port_param() + nat_text(self.port as nat) + uploaded_param() + nat_text(
            self.uploaded as nat,
        ) + downloaded_param() + nat_text(self.downloaded as nat) + left_param() + nat_text(
            self.left as nat,
        ) + compact_param() + nat_text(self.compact as nat)
    }
}

/// Appends bytes.
fn push_all(out: &mut Vec<u8>, b: &[u8])
    ensures
        final(out)@ == old(out)@ + b@,
{
    let mut k: usize = 0;
    let ghost start = out@;
    while k < b.len()
        invariant
            k <= b.len(),
            out@ == start + b@.subrange(0, k as int),
        decreases b.len() - k,
    {
        out.push(b[k]);
        k = k + 1;
        assert(out@ =~= start + b@.subrange(0, k as int));
    }
    assert(b@.subrange(0, k as int) =~= b@);
}

/// Appends every byte percent-encoded.
fn push_percent_encoded(out: &mut Vec<u8>, b: &[u8])
    ensures
        final(out)@ == old(out)@ + percent_encode(b@),
{
    let mut k: usize = 0;
    let ghost start = out@;
    assert(b@.subrange(0, 0) =~= Seq::<u8>::empty());
    while k < b.len()
        invariant
            k <= b.len(),
            out@ == start + percent_encode(b@.subrange(0, k as int)),
        decreases b.len() - k,
    {
        let x = b[k];
        let hi = x / 16;
        let lo = x % 16;
        out.push(37u8);
        out.push(if hi < 10 { 48 + hi } else { 55 + hi });
        out.push(if lo < 10 { 48 + lo } else { 55 + lo });
        assert(b@.subrange(0, k + 1).drop_last() =~= b@.subrange(0, k as int));
        k = k + 1;
        assert(out@ =~= start + percent_encode(b@.subrange(0, k as int)));
    }
    assert(b@.subrange(0, k as int) =~= b@);
}

impl Tracker {
    /// The query string of the announce request, as ASCII bytes: the info
    /// hash and the peer id percent-encoded byte by byte, the counts in
    /// decimal.
    pub fn query(&self) -> (r: Vec<u8>)
        ensures
            r@ == self.query_spec(),
    {
        let mut out: Vec<u8> = Vec::new();
        let p0: [u8; 10] = [105, 110, 102, 111, 95, 104, 97, 115, 104, 61];
        let p1: [u8; 9] = [38, 112, 101, 101, 114, 95, 105, 100, 61];
        let p2: [u8; 6] = [38, 112, 111, 114, 116, 61];
        let p3: [u8; 10] = [38, 117, 112, 108, 111, 97, 100, 101, 100, 61];
        let p4: [u8; 12] = [38, 100, 111, 119, 110, 108, 111, 97, 100, 101, 100, 61];
        let p5: [u8; 6] = [38, 108, 101, 102, 116, 61];
        let p6: [u8; 9] = [38, 99, 111, 109, 112, 97, 99, 116, 61];
        assert(p0@ =~= info_hash_param());
        assert(p1@ =~= peer_id_param());
        assert(p2@ =~= port_param());
        assert(p3@ =~= uploaded_param());
        assert(p4@ =~= downloaded_param());
        assert(p5@ =~= left_param());
        assert(p6@ =~= compact_param());
        push_all(&mut out, p0.as_slice());
        push_percent_encoded(&mut out, self.info_hash.as_bytes());
        push_all(&mut out, p1.as_slice());
        push_percent_encoded(&mut out, self.peer_id.as_str().as_bytes());
        push_all(&mut out, p2.as_slice());
        push_nat(self.port as u64, &mut out);
        push_all(&mut out, p3.as_slice());
        push_nat(self.uploaded as u64, &mut out);
        push_all(&mut out, p4.as_slice());
        push_nat(self.downloaded as u64, &mut out);
        push_all(&mut out, p5.as_slice());
        push_nat(self.left as u64, &mut out);
        push_all(&mut out, p6.as_slice());
        push_nat(self.compact as u64, &mut out);
        assert(out@ =~= self.query_spec());
        out
    }
}


/// A peer's IPv4 address and port.
#[derive(Clone, Copy, Debug, PartialEq, Eq)]
pub struct PeerAddr {
    pub ip: [u8; 4],
    pub port: u16,
}

/// The peers of a tracker reply, in the order given.
pub struct Peers(pub Vec<PeerAddr>);

/// The reply of a tracker to an announce.
pub struct TrackerResponse {
    pub peers: Peers,
}

/// The compact peer entry at index `k`: four address bytes, then the port,
/// big-endian.
pub open spec fn compact_entry(b: Seq<u8>, k: int) -> (Seq<u8>, int) {
    (b.subrange(6 * k, 6 * k + 4), b[6 * k + 4] as int * 256 + b[6 * k + 5] as int)
}

/// A list of peers matches the compact entries of `b`, in order.
pub open spec fn peers_match(peers: Seq<PeerAddr>, b: Seq<u8>) -> bool {
    &&& peers.len() == b.len() / 6
    &&& forall|k: int|
        0 <= k < peers.len() ==> ((#[trigger] peers[k]).ip@, peers[k].port as int) == compact_entry(b, k)
}

impl Peers {
    /// Decodes a compact peer list: 6 bytes per peer.
    pub fn from_compact(b: &[u8]) -> (r: Result<Peers, TrackerError>)
        ensures
            match r {
                Ok(p) => b.len() % 6 == 0 && peers_match(p.0@, b@),
                Err(x) => b.len() % 6 != 0 && x == TrackerError::InvalidPeerTable,
            },
    {
        if b.len() % 6 != 0 {
            return Err(TrackerError::InvalidPeerTable);
        }
        let mut peers: Vec<PeerAddr> = Vec::new();
        let mut k: usize = 0;
        while k < b.len() / 6
            invariant
                b.len() % 6 == 0,
                k <= b.len() / 6,
                peers@.len() == k,
                forall|j: int|
                    0 <= j < k ==> ((#[trigger] peers@[j]).ip@, peers@[j].port as int) == compact_entry(
                        b@,
                        j,
                    ),
            decreases b.len() / 6 - k,
        {
            let at: usize = 6 * k;
            let ip: [u8; 4] = [b[at], b[at + 1], b[at + 2], b[at + 3]];
            let port: u16 = (b[at + 4] as u16) * 256 + b[at + 5] as u16;
            assert(ip@ =~= b@.subrange(6 * k, 6 * k + 4));
            peers.push(PeerAddr { ip, port });
            k = k + 1;
        }
        Ok(Peers(peers))
    }
}

/// `peers`
pub open spec fn peers_key() -> Seq<u8> {
    seq![112u8, 101, 101, 114, 115]
}

/// What a tracker reply holds: the compact peer list, or why not.
pub open spec fn reply_peers(body: Seq<u8>) -> Result<Seq<u8>, TrackerError> {
    if body.len() == 0 {
        Err(TrackerError::TrackerProtocolError)
    } else {
        match parse_value(body, 0, MAX_DEPTH as nat) {
            Ok((Bencode::Dict(entries), _)) => match lookup(entries, peers_key()) {
                Some(Bencode::Bytes(b)) => if b.len() % 6 == 0 {
                    Ok(b)
                } else {
                    Err(TrackerError::InvalidPeerTable)
                },
                Some(Bencode::List(_)) => Err(TrackerError::UnsupportedTrackerMode),
                _ => Err(TrackerError::TrackerProtocolError),
            },
            _ => Err(TrackerError::TrackerProtocolError),
        }
    }
}

impl TrackerResponse {
    /// Decodes a tracker's bencoded reply body.
    pub fn parse(body: &[u8]) -> (r: Result<TrackerResponse, TrackerError>)
        ensures
            match r {
                Ok(t) => match reply_peers(body@) {
                    Ok(b) => peers_match(t.peers.0@, b),
                    Err(_) => false,
                },
                Err(x) => reply_peers(body@) == Err::<Seq<u8>, TrackerError>(x),
            },
    {
        let v = match decode(body, 0) {
            Ok(Some((v, _))) => v,
            _ => {
                return Err(TrackerError::TrackerProtocolError);
            },
        };
        let entries = match &v {
            BencodeValue::Dictionary(e) => e,
            _ => {
                return Err(TrackerError::TrackerProtocolError);
            },
        };
        proof {
            lemma_dict_view(*entries);
        }
        let peers_k: [u8; 5] = [112, 101, 101, 114, 115];
        assert(peers_k@ =~= peers_key());
        match find_entry(entries, peers_k.as_slice()) {
            Some(BencodeValue::ByteString(b)) => match Peers::from_compact(b.as_slice()) {
                Ok(peers) => Ok(TrackerResponse { peers }),
                Err(x) => Err(x),
            },
            Some(BencodeValue::List(_)) => Err(TrackerError::UnsupportedTrackerMode),
            _ => Err(TrackerError::TrackerProtocolError),
        }
    }
}

} // verus!
