//! Verified core of a FLAC cutting tool for RF captures.
//!
//! The library parses the parts of a FLAC stream that the cutter relies on
//! (frame headers, the metadata block chain, the Vorbis comment block, the
//! STREAMINFO total-samples field), decides how the real sample count and the
//! real sample rate of a capture are resolved, and computes the in-place
//! metadata rewrites that follow a cut. File and process I/O live outside
//! the library: every function here works on bytes and integers.

pub mod crc;

pub mod frame;

pub mod probe;

pub mod chain;

pub mod text;

pub mod comment;

pub mod tags;

pub mod scan;

pub mod streaminfo;

pub mod rate;

pub mod msps;

pub mod companions;

pub mod vorbis;

pub mod chop;

pub mod ffi;

pub mod sox_ffi;

pub mod replace;
