//! A dictionary-substitution text codec.
//!
//! `encode_text` replaces words that occur more than once with short numeric
//! references into a dictionary embedded in the output header; `decode_text`
//! reverses the transform. The framing marker character plays three roles:
//! header delimiter, reference prefix, and escape prefix.

pub mod text;

pub mod digits;

pub mod codec;

pub mod laws;
