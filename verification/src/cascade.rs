//! The cascade: every cut lane on every frame, one timeline, keyframes per window.

pub mod detector;
pub mod event;
pub mod flags;
pub mod frames;
pub mod lanes;
pub mod laws;
pub mod metrics;
pub mod options;
pub mod order;
pub mod rescale;
pub mod restart;
pub mod standing;
pub mod stream;
pub mod timeline;
