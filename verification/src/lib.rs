//! Dictionary engine for a phonetic-to-logograph input method.
//!
//! A reading (a sequence of phonetic characters, optionally followed by one
//! ASCII inflection-marker letter) is mapped to an ordered list of conversion
//! candidates. The dictionary is a trie keyed by reading characters; candidate
//! lists hang off terminal nodes, keyed by the optional marker. A compact
//! binary codec persists a built dictionary so that later loads skip text
//! parsing, and a loader picks among cache, compressed source and raw source.

pub mod codec;
pub mod dict;
pub mod error;
pub mod loader;
pub mod text;
