//! Deduplication of archives that differ only in the store paths they embed.
//!
//! An archive names itself and its neighbours by paths of the shape
//! `/nix/store/<32 hash bytes>-`. Two archives of one structure then differ in
//! those hashes alone, and so do their digests. This library rewrites every
//! such path of a byte stream to `/nix/store/00000000000000000000000000000000-`,
//! in bounded memory, so that such archives have one digest.
//!
//! - `pattern`: what an embedded path is and what the rewritten stream is.
//! - `theory`: facts about both.
//! - `recognizer`: the automaton that finds embedded paths byte by byte.
//! - `rewriter`: rewriting a buffer in place.
//! - `stream`: the streaming rewriter as a state machine.
//! - `pipeline`: the state machine run over bytes in memory, into a buffer or
//!   into the hasher.
//! - `hasher`: the SHA-256 sink and the text forms of a digest.
//! - `narinfo`, `frontend`: the metadata records and the decisions of the
//!   substituter.
//! - `store_path`, `bytes`: taking store paths, names and byte strings apart.

pub mod bytes;
pub mod frontend;
pub mod hasher;
pub mod narinfo;
pub mod pattern;
pub mod pipeline;
pub mod recognizer;
pub mod rewriter;
pub mod store_path;
pub mod stream;
pub mod theory;
