//! Score model and notation rules of a music notation editor.

pub mod accidentals;
pub mod content;
pub mod durations;
pub mod editor;
pub mod headers;
pub mod laws;
pub mod address;
pub mod notation;
pub mod removal;
pub mod rhythm;
pub mod shared;
pub mod signatures;
pub mod spacing;
pub mod staff;
pub mod staff_creation;
pub mod system;
