//! Organizes photo and video files into a destination tree laid out by
//! capture date.
//!
//! The heart of the library is the timestamp-resolution fallback chain
//! (`image`, `video`) and the collision-safe copy planner (`copier`).
//! Filesystem access, metadata decoding and external commands are left to the
//! surrounding binary; the library works on plain values handed in from that
//! edge and its decisions are verified.

pub mod chars;
pub mod copier;
pub mod date;
pub mod filename;
pub mod filetools;
pub mod image;
pub mod strings;
pub mod testtools;
pub mod video;
