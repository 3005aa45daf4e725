//! A minimal BitTorrent peer-exchange engine: bencode codec, torrent
//! descriptor model, peer handshake, message framing and the piece
//! download pipeline.

pub mod bencode;
pub mod digest;
pub mod torrent;
pub mod peer;
pub mod tracker;
