//! Parsers for the EDRDG `kradfile` and `radkfile` dictionary formats.
//!
//! The `krad` module recognises the kanji-to-radicals decomposition format,
//! the `radk` module the radical-to-kanji membership format.  Both formats
//! mix a legacy 94x94 two-byte codeset with EUC-JP in the same file; the
//! `shared` module resolves raw byte tokens to Unicode.  The `convert_krad`
//! and `convert_radk` modules render parsed records as text and merge
//! membership records gathered from several files.

pub mod codec;
pub mod krad;
pub mod radk;
pub mod consolidate;
pub mod render;
pub mod opts;
pub mod error;
pub mod embed;
pub mod convert_krad;
pub mod convert_radk;
pub mod shared;
