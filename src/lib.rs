//! A codec for the ISO Base Media File Format box tree: decoding a byte
//! stream into typed boxes and encoding them back.
//!
//! Every box type has a model (a spec value) with `bytes`, what encoding
//! writes, and `parse`, what decoding reads; the executable `as_bytes`,
//! `len` and `parse` are proved against them, and the round-trip lemmas
//! prove that decoding an encoded box gives it back.
pub mod buf;
pub mod object;
pub mod ftyp;
pub mod moof;
pub mod media;
pub mod media_info;
pub mod sample_table;
pub mod sample_entry;
pub mod avc;
pub mod mvex;
pub mod edts;
pub mod moov;

pub use crate::object::{DecodeError, FullBox, Object};
