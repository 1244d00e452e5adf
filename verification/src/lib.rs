//! Ingestion of delimited-text waveform recordings: compression-format
//! sniffing by leading bytes, transparent decompression, and tolerant
//! parsing of comma-separated numeric columns into an in-memory waveform.

use vstd::prelude::*;

pub mod decode;
pub mod fspath;
pub mod model;
pub mod number;
pub mod parse;
pub mod text;

use vstd::utf8::{valid_utf8, decode_utf8};
use crate::decode::{decode, decoded};
use crate::model::Waveform;
use crate::parse::{parse_waveform, waveform_of};

verus! {

/// A failure of the ingestion pipeline.
#[derive(Clone, Copy, Debug, PartialEq, Eq, Structural)]
pub enum WaveError {
    /// The source file was missing or unreadable.
    Io,
    /// A recognized compressed container could not be fully decoded.
    Decompression,
    /// The decoded bytes were not valid delimited text.
    Parse,
}

impl WaveError {
    /// A human-readable account of the failure.
    pub fn message(&self) -> (r: &'static str)
        ensures
            *self is Io ==> r@ == "Failed to read file"@,
            *self is Decompression ==> r@ == "Failed to decompress file"@,
            *self is Parse ==> r@ == "Failed to parse file"@,
    {
        match self {
            WaveError::Io => "Failed to read file",
            WaveError::Decompression => "Failed to decompress file",
            WaveError::Parse => "Failed to parse file",
        }
    }
}

/// The whole ingestion pipeline after the file was loaded: an unreadable
/// source is an input failure; otherwise the bytes are decompressed if a
/// signature matches and the result is parsed into a waveform.
pub fn ingest(loaded: Option<Vec<u8>>) -> (r: Result<Waveform, WaveError>)
    ensures
        loaded is None ==> r == Err::<Waveform, WaveError>(WaveError::Io),
        loaded matches Some(b) ==> match decoded(b@) {
            None => r == Err::<Waveform, WaveError>(WaveError::Decompression),
            Some(d) => if valid_utf8(d) {
                r matches Ok(w) && w.wf() && w@ == waveform_of(decode_utf8(d))
            } else {
                r == Err::<Waveform, WaveError>(WaveError::Parse)
            },
        },
{
    match loaded {
        None => Err(WaveError::Io),
        Some(bytes) => match decode(bytes.as_slice()) {
            Err(e) => Err(e),
            Ok(plain) => parse_waveform(plain.as_slice()),
        },
    }
}

} // verus!
