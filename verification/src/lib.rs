//! Core of a BitTorrent peer-to-peer file-transfer system: the bencoding
//! codec and torrent metafile loader, the piece/block store with SHA-1
//! verification, the peer wire codec and both session roles, the swarm
//! coordinator that serializes block assignment, and the tracker announce
//! engine with its peer registry.
//!
//! Byte-exact laws proved here: a canonical bencoding decodes to its value
//! and re-encodes to the same bytes; every wire message survives its
//! framing round trip; the coordinator never assigns the same block twice;
//! a re-announce keeps a single registry entry per peer.

pub mod strutil;

pub mod bencode;
pub mod metainfo;
pub mod urlencode;

pub mod bitfield;
pub mod messages;
pub mod handshake;

pub mod piece;
pub mod peer;
pub mod client;
pub mod session;

pub mod tracker;
pub mod tracker_request;

pub mod errors;
