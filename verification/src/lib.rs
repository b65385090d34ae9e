//! A decentralized graph database with HAM conflict resolution, peer sync,
//! identities, signatures, encryption and access certificates.

pub mod assoc;
pub mod certificate;
pub mod encrypt;
pub mod graph;
pub mod ham;
pub mod hex;
pub mod hnsw;
pub mod identity;
pub mod ids;
pub mod message;
pub mod node;
pub mod peer;
pub mod primitives;
pub mod render;
pub mod sign;
pub mod storage;
pub mod text;
pub mod transport;
pub mod value;
pub mod vectors;
