//! Tailing of EVE Online chat and game logs: decoding of appended chunks,
//! line parsing into location changes, alerts and combat hits, and the
//! live per-character state derived from them.
pub mod text;
pub mod parse;
pub mod decode;
pub mod names;
pub mod state;
pub mod paths;
pub mod identify;
pub mod tail;
