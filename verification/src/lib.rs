//! Alignment of two subtitle tracks: text normalisation, split/merge candidate
//! search, a lexical (edit-distance) alignment pass, a semantic alignment pass
//! driven by caller-supplied scores, and the engine that walks both tracks.

pub mod alignment;
pub mod assa_file;
pub mod chars;
pub mod event_processor;
