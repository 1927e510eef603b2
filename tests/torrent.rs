use bittorrent::bencode::DecodeError;
use bittorrent::torrent_file::{Field, Info, MetainfoError, Pieces, TorrentFile};

fn blob(pieces: &[u8]) -> Vec<u8> {
    let mut b = b"d8:announce3:url4:infod6:lengthi10e4:name4:test12:piece lengthi10e6:pieces".to_vec();
    b.extend_from_slice(format!("{}:", pieces.len()).as_bytes());
    b.extend_from_slice(pieces);
    b.extend_from_slice(b"ee");
    b
}

#[test]
fn parses_a_metainfo_file_and_hashes_its_info() {
    let pieces: Vec<u8> = (1u8..=20).collect();
    let t = TorrentFile::parse(&blob(&pieces)).unwrap();
    assert_eq!(t.announce, "url");
    assert_eq!(t.info.length, 10);
    assert_eq!(t.info.name, "test");
    assert_eq!(t.info.piece_length, 10);
    assert_eq!(t.info.pieces.0.len(), 1);
    assert_eq!(t.info.pieces.0[0].to_vec(), pieces);
    let mut canonical = b"d6:lengthi10e4:name4:test12:piece lengthi10e6:pieces20:".to_vec();
    canonical.extend_from_slice(&pieces);
    canonical.push(b'e');
    assert_eq!(t.info.encode(), canonical);
    assert_eq!(
        t.info_hash(),
        [200, 66, 249, 191, 12, 59, 34, 13, 137, 162, 6, 122, 170, 168, 39, 176, 10, 54, 8, 196]
    );
}

#[test]
fn piece_table_boundaries() {
    for bad in [19usize, 41] {
        let p = vec![3u8; bad];
        assert_eq!(TorrentFile::parse(&blob(&p)).err(), Some(MetainfoError::InvalidPieceTable));
    }
    for (good, count) in [(0usize, 0usize), (20, 1), (40, 2)] {
        let p: Vec<u8> = (0..good).map(|i| i as u8).collect();
        let t = TorrentFile::parse(&blob(&p)).unwrap();
        assert_eq!(t.info.pieces.0.len(), count);
        for (k, h) in t.info.pieces.0.iter().enumerate() {
            assert_eq!(h.to_vec(), p[20 * k..20 * k + 20].to_vec());
        }
    }
}

#[test]
fn key_order_does_not_change_the_info_hash() {
    let sorted = b"d8:announce3:url4:infod6:lengthi10e4:name4:test12:piece lengthi10e6:pieces0:ee";
    let shuffled = b"d4:infod6:pieces0:4:name4:test12:piece lengthi10e6:lengthi10ee8:announce3:urle";
    let a = TorrentFile::parse(sorted).unwrap();
    let b = TorrentFile::parse(shuffled).unwrap();
    assert_eq!(a.info.encode(), b.info.encode());
    assert_eq!(a.info_hash(), b.info_hash());
    assert_eq!(a.info_hash(), a.info_hash());
}

#[test]
fn metainfo_errors() {
    assert_eq!(TorrentFile::parse(b"").err(), Some(MetainfoError::Empty));
    assert_eq!(TorrentFile::parse(b"i3e").err(), Some(MetainfoError::NotADictionary));
    assert_eq!(
        TorrentFile::parse(b"d4:infodee").err(),
        Some(MetainfoError::MissingField(Field::Announce))
    );
    assert_eq!(
        TorrentFile::parse(b"d8:announce3:urle").err(),
        Some(MetainfoError::MissingField(Field::Info))
    );
    assert_eq!(
        TorrentFile::parse(b"d8:announce3:url4:infoi1ee").err(),
        Some(MetainfoError::WrongFieldType(Field::Info))
    );
    assert_eq!(
        TorrentFile::parse(b"d8:announce3:url4:infod6:length2:xxee").err(),
        Some(MetainfoError::WrongFieldType(Field::Length))
    );
    assert_eq!(
        TorrentFile::parse(b"d8:announce3:url4:infod6:lengthi-1eee").err(),
        Some(MetainfoError::WrongFieldType(Field::Length))
    );
    assert_eq!(
        TorrentFile::parse(b"d8:announce3:url4:infod6:lengthi1eee").err(),
        Some(MetainfoError::MissingField(Field::Name))
    );
    assert_eq!(
        TorrentFile::parse(b"d8:announce2:\xff\xfe4:infodee").err(),
        Some(MetainfoError::WrongFieldType(Field::Announce))
    );
    assert_eq!(
        TorrentFile::parse(b"d8:announce3:url4:infod6:lengthi1e4:name1:a12:piece lengthi1eee").err(),
        Some(MetainfoError::MissingField(Field::Pieces))
    );
    assert_eq!(
        TorrentFile::parse(b"d8:announce3:url").err(),
        Some(MetainfoError::Decode(DecodeError::TruncatedInput))
    );
}

#[test]
fn info_encoding_of_built_fields() {
    let info = Info {
        length: 100,
        name: String::from("test"),
        piece_length: 10,
        pieces: Pieces(vec![]),
    };
    assert_eq!(info.encode(), b"d6:lengthi100e4:name4:test12:piece lengthi10e6:pieces0:e".to_vec());
    let t = TorrentFile { announce: String::from("http://t"), info };
    let hex: String = t.info_hash().iter().map(|b| format!("{:02x}", b)).collect();
    assert_eq!(hex, "242f647a320e01d6087233c086960623d8b52764");
}
