//! Caption language selection and subtitle cue normalization.

pub mod cues;
pub mod fetch;
pub mod language;
