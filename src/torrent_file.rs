//! The torrent metainfo: a typed view of a decoded `.torrent` file, and the
//! info hash that names the torrent.
use crate::bencode::{copy_range, decode, entries_view, lemma_dict_view, encode_spec, Bencode, BencodeValue, DecodeError, MAX_DEPTH, parse_value};
use crate::text::utf8_text;
use sha1::Digest;
use vstd::prelude::*;
use vstd::utf8::{decode_utf8, encode_utf8, valid_utf8};

verus! {

/// A field of the metainfo.
#[derive(Clone, Copy, Debug, PartialEq, Eq, Structural)]
pub enum Field {
    Announce,
    Info,
    Length,
    Name,
    PieceLength,
    Pieces,
}

/// Why a metainfo file was refused.
#[derive(Clone, Copy, Debug, PartialEq, Eq, Structural)]
pub enum MetainfoError {
    /// The bytes are not bencode.
    Decode(DecodeError),
    /// The input holds no value at all.
    Empty,
    /// The top-level value is not a dictionary.
    NotADictionary,
    /// A required field is absent.
    MissingField(Field),
    /// A field holds a value of the wrong kind.
    WrongFieldType(Field),
    /// The `pieces` byte string is not a whole number of 20-byte hashes.
    InvalidPieceTable,
}

/// The mathematical form of a metainfo file.
pub struct Metainfo {
    pub announce: Seq<char>,
    pub length: nat,
    pub name: Seq<char>,
    pub piece_length: nat,
    pub pieces: Seq<Seq<u8>>,
}

/// A torrent metainfo file.
pub struct TorrentFile {
    pub announce: String,
    pub info: Info,
}

/// The `info` dictionary of a torrent.
pub struct Info {
    pub length: usize,
    pub name: String,
    pub piece_length: usize,
    pub pieces: Pieces,
}

/// The SHA-1 hash of each piece, in order.
pub struct Pieces(pub Vec<[u8; 20]>);

impl View for Pieces {
    type V = Seq<Seq<u8>>;

    open spec fn view(&self) -> Seq<Seq<u8>> {
        self.0@.map_values(|h: [u8; 20]| h@)
    }
}

impl View for TorrentFile {
    type V = Metainfo;

    open spec fn view(&self) -> Metainfo {
        Metainfo {
            announce: self.announce@,
            length: self.info.length as nat,
            name: self.info.name@,
            piece_length: self.info.piece_length as nat,
            pieces: self.info.pieces@,
        }
    }
}

pub open spec fn announce_key() -> Seq<u8> {
    seq![97u8, 110, 110, 111, 117, 110, 99, 101]
}

pub open spec fn info_key() -> Seq<u8> {
    seq![105u8, 110, 102, 111]
}

pub open spec fn length_key() -> Seq<u8> {
    seq![108u8, 101, 110, 103, 116, 104]
}

pub open spec fn name_key() -> Seq<u8> {
    seq![110u8, 97, 109, 101]
}

pub open spec fn piece_length_key() -> Seq<u8> {
    seq![112u8, 105, 101, 99, 101, 32, 108, 101, 110, 103, 116, 104]
}

pub open spec fn pieces_key() -> Seq<u8> {
    seq![112u8, 105, 101, 99, 101, 115]
}

/// The value bound to `key` in a run of dictionary entries: the first such.
pub open spec fn lookup(entries: Seq<(Seq<u8>, Bencode)>, key: Seq<u8>) -> Option<Bencode>
    decreases entries.len(),
{
    if entries.len() == 0 {
        None
    } else if entries[0].0 == key {
        Some(entries[0].1)
    } else {
        lookup(entries.drop_first(), key)
    }
}

/// A text field: a byte string holding UTF-8.
pub open spec fn text_field(entries: Seq<(Seq<u8>, Bencode)>, key: Seq<u8>, f: Field) -> Result<Seq<char>, MetainfoError> {
    match lookup(entries, key) {
        None => Err(MetainfoError::MissingField(f)),
        Some(Bencode::Bytes(b)) => if valid_utf8(b) {
            Ok(decode_utf8(b))
        } else {
            Err(MetainfoError::WrongFieldType(f))
        },
        Some(_) => Err(MetainfoError::WrongFieldType(f)),
    }
}

/// A count field: an integer from 0 to the largest `usize`.
pub open spec fn count_field(entries: Seq<(Seq<u8>, Bencode)>, key: Seq<u8>, f: Field) -> Result<nat, MetainfoError> {
    match lookup(entries, key) {
        None => Err(MetainfoError::MissingField(f)),
        Some(Bencode::Int(i)) => if 0 <= i <= usize::MAX {
            Ok(i as nat)
        } else {
            Err(MetainfoError::WrongFieldType(f))
        },
        Some(_) => Err(MetainfoError::WrongFieldType(f)),
    }
}

/// The `k`-th 20-byte piece hash of a piece table.
pub open spec fn piece_hashes(b: Seq<u8>) -> Seq<Seq<u8>> {
    Seq::new(b.len() / 20, |k: int| b.subrange(20 * k, 20 * k + 20))
}

/// The piece table field.
pub open spec fn pieces_field(entries: Seq<(Seq<u8>, Bencode)>) -> Result<Seq<Seq<u8>>, MetainfoError> {
    match lookup(entries, pieces_key()) {
        None => Err(MetainfoError::MissingField(Field::Pieces)),
        Some(Bencode::Bytes(b)) => if b.len() % 20 == 0 {
            Ok(piece_hashes(b))
        } else {
            Err(MetainfoError::InvalidPieceTable)
        },
        Some(_) => Err(MetainfoError::WrongFieldType(Field::Pieces)),
    }
}

/// The metainfo that a decoded value holds, fields checked in the order
/// announce, info, length, name, piece length, pieces.
pub open spec fn metainfo_of(v: Bencode) -> Result<Metainfo, MetainfoError> {
    match v {
        Bencode::Dict(top) => match text_field(top, announce_key(), Field::Announce) {
            Err(x) => Err(x),
            Ok(announce) => match lookup(top, info_key()) {
                None => Err(MetainfoError::MissingField(Field::Info)),
                Some(Bencode::Dict(info)) => match count_field(info, length_key(), Field::Length) {
                    Err(x) => Err(x),
                    Ok(length) => match text_field(info, name_key(), Field::Name) {
                        Err(x) => Err(x),
                        Ok(name) => match count_field(info, piece_length_key(), Field::PieceLength) {
                            Err(x) => Err(x),
                            Ok(piece_length) => match pieces_field(info) {
                                Err(x) => Err(x),
                                Ok(pieces) => Ok(Metainfo { announce, length, name, piece_length, pieces }),
                            },
                        },
                    },
                },
                Some(_) => Err(MetainfoError::WrongFieldType(Field::Info)),
            },
        },
        _ => Err(MetainfoError::NotADictionary),
    }
}

/// The metainfo that a file's bytes hold: its first value, decoded.
pub open spec fn metainfo_of_bytes(s: Seq<u8>) -> Result<Metainfo, MetainfoError> {
    if s.len() == 0 {
        Err(MetainfoError::Empty)
    } else {
        match parse_value(s, 0, MAX_DEPTH as nat) {
            Err(x) => Err(MetainfoError::Decode(x)),
            Ok((v, _)) => metainfo_of(v),
        }
    }
}


/// The value bound to `key`: the first entry with that key.
pub(crate) fn find_entry<'a>(entries: &'a Vec<(Vec<u8>, BencodeValue)>, key: &[u8]) -> (r: Option<&'a BencodeValue>)
    ensures
        match r {
            Some(v) => lookup(entries_view(entries@), key@) == Some(v@),
            None => lookup(entries_view(entries@), key@) is None,
        },
{
    let ghost es = entries_view(entries@);
    let mut k: usize = 0;
    assert(es.skip(0) =~= es);
    while k < entries.len()
        invariant
            k <= entries.len(),
            es == entries_view(entries@),
            lookup(es, key@) == lookup(es.skip(k as int), key@),
        decreases entries.len() - k,
    {
        assert(es.skip(k as int).drop_first() =~= es.skip(k + 1));
        if crate::bencode::same_bytes(entries[k].0.as_slice(), key) {
            return Some(&entries[k].1);
        }
        k = k + 1;
    }
    None
}

/// Reads a text field.
fn get_text(entries: &Vec<(Vec<u8>, BencodeValue)>, key: &[u8], f: Field) -> (r: Result<String, MetainfoError>)
    ensures
        match r {
            Ok(t) => text_field(entries_view(entries@), key@, f) == Ok::<Seq<char>, MetainfoError>(t@),
            Err(x) => text_field(entries_view(entries@), key@, f) == Err::<Seq<char>, MetainfoError>(x),
        },
{
    match find_entry(entries, key) {
        None => Err(MetainfoError::MissingField(f)),
        Some(BencodeValue::ByteString(b)) => match utf8_text(b.as_slice()) {
            Some(t) => Ok(t),
            None => Err(MetainfoError::WrongFieldType(f)),
        },
        Some(_) => Err(MetainfoError::WrongFieldType(f)),
    }
}

/// Reads a count field.
fn get_count(entries: &Vec<(Vec<u8>, BencodeValue)>, key: &[u8], f: Field) -> (r: Result<usize, MetainfoError>)
    ensures
        match r {
            Ok(n) => count_field(entries_view(entries@), key@, f) == Ok::<nat, MetainfoError>(n as nat),
            Err(x) => count_field(entries_view(entries@), key@, f) == Err::<nat, MetainfoError>(x),
        },
{
    match find_entry(entries, key) {
        None => Err(MetainfoError::MissingField(f)),
        Some(BencodeValue::Integer(i)) => {
            if *i >= 0 && (*i as u64) <= (usize::MAX as u64) {
                Ok(*i as usize)
            } else {
                Err(MetainfoError::WrongFieldType(f))
            }
        },
        Some(_) => Err(MetainfoError::WrongFieldType(f)),
    }
}

/// Splits a piece table into its 20-byte hashes.
fn split_pieces(b: &[u8]) -> (r: Vec<[u8; 20]>)
    requires
        b.len() % 20 == 0,
    ensures
        r@.map_values(|h: [u8; 20]| h@) == piece_hashes(b@),
{
    let mut r: Vec<[u8; 20]> = Vec::new();
    let mut k: usize = 0;
    while k < b.len() / 20
        invariant
            b.len() % 20 == 0,
            k <= b.len() / 20,
            r@.len() == k,
            forall|j: int| 0 <= j < k ==> (#[trigger] r@[j])@ == b@.subrange(20 * j, 20 * j + 20),
        decreases b.len() / 20 - k,
    {
        let mut h = [0u8; 20];
        let mut j: usize = 0;
        while j < 20
            invariant
                k < b.len() / 20,
                b.len() % 20 == 0,
                j <= 20,
                forall|i: int| 0 <= i < j ==> h@[i] == b@[20 * k + i],
            decreases 20 - j,
        {
            h[j] = b[20 * k + j];
            j = j + 1;
        }
        assert(h@ =~= b@.subrange(20 * k, 20 * k + 20));
        r.push(h);
        k = k + 1;
    }
    assert(r@.map_values(|h: [u8; 20]| h@) =~= piece_hashes(b@));
    r
}

/// Reads the piece table.
fn get_pieces(entries: &Vec<(Vec<u8>, BencodeValue)>, key: &[u8]) -> (r: Result<Pieces, MetainfoError>)
    requires
        key@ == pieces_key(),
    ensures
        match r {
            Ok(p) => pieces_field(entries_view(entries@)) == Ok::<Seq<Seq<u8>>, MetainfoError>(p@),
            Err(x) => pieces_field(entries_view(entries@)) == Err::<Seq<Seq<u8>>, MetainfoError>(x),
        },
{
    match find_entry(entries, key) {
        None => Err(MetainfoError::MissingField(Field::Pieces)),
        Some(BencodeValue::ByteString(b)) => {
            if b.len() % 20 != 0 {
                Err(MetainfoError::InvalidPieceTable)
            } else {
                Ok(Pieces(split_pieces(b.as_slice())))
            }
        },
        Some(_) => Err(MetainfoError::WrongFieldType(Field::Pieces)),
    }
}


/// The concatenation of the piece hashes.
pub open spec fn joined(p: Seq<Seq<u8>>) -> Seq<u8>
    decreases p.len(),
{
    if p.len() == 0 {
        Seq::empty()
    } else {
        joined(p.drop_last()) + p.last()
    }
}

/// The canonical `info` dictionary of a metainfo, keys in ascending order.
pub open spec fn info_value(m: Metainfo) -> Bencode {
    Bencode::Dict(
        seq![
            (length_key(), Bencode::Int(m.length as int)),
            (name_key(), Bencode::Bytes(encode_utf8(m.name))),
            (piece_length_key(), Bencode::Int(m.piece_length as int)),
            (pieces_key(), Bencode::Bytes(joined(m.pieces))),
        ],
    )
}

/// The name of what SHA-1 makes of a byte sequence.
pub uninterp spec fn sha1_digest(data: Seq<u8>) -> Seq<u8>;

/// Relies on sha1::Sha1::digest: the SHA-1 digest of the bytes.
#[verifier::external_body]
fn sha1_of(data: &[u8]) -> (r: [u8; 20])
    ensures
        r@ == sha1_digest(data@),
{
    sha1::Sha1::digest(data).into()
}

impl TorrentFile {
    /// Decodes a metainfo file from the first value in `bytes`.
    pub fn parse(bytes: &[u8]) -> (r: Result<TorrentFile, MetainfoError>)
        ensures
            match r {
                Ok(t) => metainfo_of_bytes(bytes@) == Ok::<Metainfo, MetainfoError>(t@),
                Err(x) => metainfo_of_bytes(bytes@) == Err::<Metainfo, MetainfoError>(x),
            },
    {
        let v = match decode(bytes, 0) {
            Err(x) => {
                return Err(MetainfoError::Decode(x));
            },
            Ok(None) => {
                return Err(MetainfoError::Empty);
            },
            Ok(Some((v, _))) => v,
        };
        let top = match &v {
            BencodeValue::Dictionary(e) => e,
            _ => {
                return Err(MetainfoError::NotADictionary);
            },
        };
        proof {
            lemma_dict_view(*top);
        }
        let announce_k: [u8; 8] = [97, 110, 110, 111, 117, 110, 99, 101];
        let info_k: [u8; 4] = [105, 110, 102, 111];
        let length_k: [u8; 6] = [108, 101, 110, 103, 116, 104];
        let name_k: [u8; 4] = [110, 97, 109, 101];
        let piece_length_k: [u8; 12] = [112, 105, 101, 99, 101, 32, 108, 101, 110, 103, 116, 104];
        let pieces_k: [u8; 6] = [112, 105, 101, 99, 101, 115];
        assert(announce_k@ =~= announce_key());
        assert(info_k@ =~= info_key());
        assert(length_k@ =~= length_key());
        assert(name_k@ =~= name_key());
        assert(piece_length_k@ =~= piece_length_key());
        assert(pieces_k@ =~= pieces_key());
        let announce = match get_text(top, announce_k.as_slice(), Field::Announce) {
            Ok(t) => t,
            Err(x) => {
                return Err(x);
            },
        };
        let info = match find_entry(top, info_k.as_slice()) {
            None => {
                return Err(MetainfoError::MissingField(Field::Info));
            },
            Some(BencodeValue::Dictionary(e)) => e,
            Some(_) => {
                return Err(MetainfoError::WrongFieldType(Field::Info));
            },
        };
        proof {
            lemma_dict_view(*info);
        }
        let length = match get_count(info, length_k.as_slice(), Field::Length) {
            Ok(n) => n,
            Err(x) => {
                return Err(x);
            },
        };
        let name = match get_text(info, name_k.as_slice(), Field::Name) {
            Ok(t) => t,
            Err(x) => {
                return Err(x);
            },
        };
        let piece_length = match get_count(info, piece_length_k.as_slice(), Field::PieceLength) {
            Ok(n) => n,
            Err(x) => {
                return Err(x);
            },
        };
        let pieces = match get_pieces(info, pieces_k.as_slice()) {
            Ok(p) => p,
            Err(x) => {
                return Err(x);
            },
        };
        Ok(TorrentFile { announce, info: Info { length, name, piece_length, pieces } })
    }

    /// The info hash: the SHA-1 digest of the canonical encoding of `info`.
    pub fn info_hash(&self) -> (r: [u8; 20])
        requires
            self.info.length <= i64::MAX,
            self.info.piece_length <= i64::MAX,
        ensures
            r@ == sha1_digest(encode_spec(info_value(self@))),
            info_value(self@) == self.info.canonical(),
    {
        let bytes = self.info.encode();
        sha1_of(bytes.as_slice())
    }
}


/// Copies a byte slice.
fn bytes_of(b: &[u8]) -> (r: Vec<u8>)
    ensures
        r@ == b@,
{
    let r = copy_range(b, 0, b.len());
    assert(r@ =~= b@);
    r
}

impl Info {
    /// The canonical `info` dictionary of these fields.
    pub open spec fn canonical(&self) -> Bencode {
        Bencode::Dict(
            seq![
                (length_key(), Bencode::Int(self.length as int)),
                (name_key(), Bencode::Bytes(encode_utf8(self.name@))),
                (piece_length_key(), Bencode::Int(self.piece_length as int)),
                (pieces_key(), Bencode::Bytes(joined(self.pieces@))),
            ],
        )
    }

    /// The piece hashes one after another, as in the `pieces` field.
    pub fn piece_table(&self) -> (r: Vec<u8>)
        ensures
            r@ == joined(self.pieces@),
    {
        let mut r: Vec<u8> = Vec::new();
        let mut k: usize = 0;
        while k < self.pieces.0.len()
            invariant
                k <= self.pieces.0.len(),
                r@ == joined(self.pieces@.take(k as int)),
            decreases self.pieces.0.len() - k,
        {
            assert(self.pieces@.take(k + 1).drop_last() =~= self.pieces@.take(k as int));
            let h = &self.pieces.0[k];
            let mut j: usize = 0;
            let ghost start = r@;
            while j < 20
                invariant
                    j <= 20,
                    r@ == start + h@.subrange(0, j as int),
                decreases 20 - j,
            {
                r.push(h[j]);
                j = j + 1;
                assert(r@ =~= start + h@.subrange(0, j as int));
            }
            assert(h@.subrange(0, 20) =~= h@);
            k = k + 1;
        }
        assert(self.pieces@.take(k as int) =~= self.pieces@);
        r
    }

    /// The canonical `info` dictionary as a value.
    pub fn to_bencode(&self) -> (r: BencodeValue)
        requires
            self.length <= i64::MAX,
            self.piece_length <= i64::MAX,
        ensures
            r@ == self.canonical(),
    {
        let length_k: [u8; 6] = [108, 101, 110, 103, 116, 104];
        let name_k: [u8; 4] = [110, 97, 109, 101];
        let piece_length_k: [u8; 12] = [112, 105, 101, 99, 101, 32, 108, 101, 110, 103, 116, 104];
        let pieces_k: [u8; 6] = [112, 105, 101, 99, 101, 115];
        assert(length_k@ =~= length_key());
        assert(name_k@ =~= name_key());
        assert(piece_length_k@ =~= piece_length_key());
        assert(pieces_k@ =~= pieces_key());
        let name_bytes = self.name.as_str().as_bytes();
        let mut entries: Vec<(Vec<u8>, BencodeValue)> = Vec::new();
        entries.push((bytes_of(length_k.as_slice()), BencodeValue::Integer(self.length as i64)));
        entries.push((bytes_of(name_k.as_slice()), BencodeValue::ByteString(bytes_of(name_bytes))));
        entries.push(
            (bytes_of(piece_length_k.as_slice()), BencodeValue::Integer(self.piece_length as i64)),
        );
        entries.push((bytes_of(pieces_k.as_slice()), BencodeValue::ByteString(self.piece_table())));
        proof {
            lemma_dict_view(entries);
            assert(entries_view(entries@) =~= self.canonical()->Dict_0);
        }
        BencodeValue::Dictionary(entries)
    }

    /// The canonical encoding of the `info` dictionary, keys in ascending
    /// byte order.
    pub fn encode(&self) -> (r: Vec<u8>)
        requires
            self.length <= i64::MAX,
            self.piece_length <= i64::MAX,
        ensures
            r@ == encode_spec(self.canonical()),
    {
        self.to_bencode().encode()
    }
}


/// Key order in the source does not matter: two top-level dictionaries that
/// bind the same keys to the same values, but for `info`, whose `info`
/// dictionaries in turn bind the same keys to the same values, in whatever
/// order, describe the same metainfo; so they have the same canonical
/// `info` encoding and the same info hash.
pub proof fn lemma_key_order_irrelevant(
    a: Seq<(Seq<u8>, Bencode)>,
    b: Seq<(Seq<u8>, Bencode)>,
    info_a: Seq<(Seq<u8>, Bencode)>,
    info_b: Seq<(Seq<u8>, Bencode)>,
)
    requires
        forall|k: Seq<u8>| k != info_key() ==> lookup(a, k) == lookup(b, k),
        lookup(a, info_key()) == Some(Bencode::Dict(info_a)),
        lookup(b, info_key()) == Some(Bencode::Dict(info_b)),
        forall|k: Seq<u8>| lookup(info_a, k) == lookup(info_b, k),
    ensures
        metainfo_of(Bencode::Dict(a)) == metainfo_of(Bencode::Dict(b)),
        metainfo_of(Bencode::Dict(a)) matches Ok(m) ==> encode_spec(info_value(m)) == encode_spec(
            info_value(metainfo_of(Bencode::Dict(b))->Ok_0),
        ) && sha1_digest(encode_spec(info_value(m))) == sha1_digest(
            encode_spec(info_value(metainfo_of(Bencode::Dict(b))->Ok_0)),
        ),
{
    assert(announce_key() != info_key());
    assert(lookup(a, announce_key()) == lookup(b, announce_key()));
    assert(lookup(info_a, length_key()) == lookup(info_b, length_key()));
    assert(lookup(info_a, name_key()) == lookup(info_b, name_key()));
    assert(lookup(info_a, piece_length_key()) == lookup(info_b, piece_length_key()));
    assert(lookup(info_a, pieces_key()) == lookup(info_b, pieces_key()));
}

} // verus!
