//! A small BitTorrent stack: a bencode codec, the torrent metainfo model,
//! the compact tracker protocol and the peer wire handshake.

pub mod bencode;
pub mod text;
pub mod torrent_file;
pub mod tracker;
pub mod handshake;
pub mod message;
