//! Core logic of a BitTorrent client: piece bitmaps, node identifiers,
//! the peer wire protocol, metainfo decoding, the DHT routing table and
//! the bookkeeping that decides what to download next.

pub mod clock;
pub mod config;
pub mod bitmap;
pub mod id;
pub mod peer;
pub mod peer_message;
pub mod handshake;
pub mod connection_info;
pub mod pending_pieces;
pub mod bencode;
pub mod metainfo;
pub mod tracker;
pub mod routing_table;
pub mod file_layout;
pub mod piece_chunks;
pub mod torrent_state;
pub mod krpc;
pub mod dht_connection;
pub mod dht_node;
pub mod krpc_decode;
pub mod peer_fetcher;
pub mod piece_downloader;
pub mod krpc_roundtrip;
pub mod dht_driver;
pub mod file_cache;
