//! Merging of two localized variants of the same structured dialogue
//! script: a portrait variant carrying display tags and a reference variant
//! carrying the authoritative text.
//!
//! - [`codec`] converts between flat display strings and typed segment
//!   sequences, and proves the decode/encode round-trip law.
//! - [`splice`] moves position, voice and face tags from the portrait side
//!   into reference text.
//! - [`script`] models instruction streams as ordered text slots, extracts
//!   text-bearing values into a queue, and re-injects them in lockstep.
//! - [`fixup`] holds the hand-curated per-script corrections applied to the
//!   queue between extraction and re-injection.
//! - [`merge`] drives the whole merge of one script pair, checking
//!   structural parity first.

pub mod codec;
pub mod fixup;
pub mod merge;
pub mod script;
pub mod splice;
