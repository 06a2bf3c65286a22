//! Scene and shot boundary detection over decoded video frames.

pub mod adaptive;
pub mod arch;
pub mod cascade;
pub mod content;
pub mod dilate;
pub mod edges;
pub mod frame;
pub mod grid;
pub mod histogram;
pub mod number;
pub mod sum;
pub mod text;
pub mod time;
