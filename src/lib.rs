//! Reads the records of an edit decision list (EDL) into entries with
//! frame-accurate times, and turns them into chapter markers.

pub mod chapters;
pub mod entry;
pub mod errors;
pub mod laws;
pub mod parser;
pub mod text;
