//! A BitTorrent download engine: bencoding, torrent metadata, tracker and peer wire
//! formats, piece assembly, disk layout, and the decisions of the download coordinator.

pub mod assembly_laws;
pub mod availability_laws;
pub mod bencoding;
pub mod buffer;
pub mod bytestring;
pub mod choke_laws;
pub mod coordinator;
pub mod coverage;
pub mod digest;
pub mod disk;
pub mod download_laws;
pub mod error;
pub mod event_laws;
pub mod grammar;
pub mod grammar_laws;
pub mod measure_laws;
pub mod metainfo;
pub mod metainfo_laws;
pub mod octets;
pub mod peer;
pub mod piece;
pub mod piece_laws;
pub mod pieces;
pub mod random;
pub mod round_laws;
pub mod roundtrip;
pub mod sequences;
pub mod storage;
pub mod storage_laws;
pub mod swarm;
pub mod swarm_laws;
pub mod swarm_valid;
pub mod text;
pub mod torrent;
pub mod torrent_laws;
pub mod tracker;
