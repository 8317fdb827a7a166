pub mod call_frame;
pub mod db;
pub mod digest;
pub mod error;
pub mod hashing;
pub mod leaf;
pub mod mempool;
pub mod nibble;
pub mod node;
pub mod node_ref;
pub mod precompiles;
pub mod primitives;
pub mod rpc;
pub mod store;
pub mod trie;
pub mod types;
