//! Memory Plant: a compressed associative-memory engine.
//!
//! The crate holds the engine's rules; floating-point arithmetic enters
//! through [`kernel::Kernel`], which works on binary32 bit patterns.

pub mod adaptive;
pub mod anthropic;
pub mod audit;
pub mod bench;
pub mod bytes;
pub mod chunking;
pub mod compression;
pub mod crypto;
pub mod document;
pub mod embedding;
pub mod entropy;
pub mod extractor;
pub mod fact;
pub mod ffi;
pub mod hlb;
pub mod index;
pub mod json;
pub mod kernel;
pub mod llm;
pub mod mcp_server;
pub mod openai;
pub mod packing;
pub mod persistence;
pub mod personal;
pub mod ranking;
pub mod resonator;
pub mod score;
pub mod service;
pub mod text;
pub mod vocab;
pub mod vsa;

pub use adaptive::{safe_shard_capacity, AdaptiveMemory};
pub use chunking::chunk_text;
pub use document::{DocumentMemory, SearchFilter, SearchHit};
pub use embedding::MockEncoder;
pub use extractor::RegexExtractor;
pub use fact::Fact;
pub use hlb::{
    bind_hlb, cosine_similarity, normalize, random_hlb_role, unbind_hlb, HlbError,
};
pub use personal::PersonalMemory;
pub use resonator::role_from_key;
pub use vocab::Vocab;
