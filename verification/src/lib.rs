//! Parsing and presentation logic of a PipeWire volume mixer: what
//! `wpctl` and `pactl` print, turned into streams and devices, and the
//! decisions the mixer's window makes about them.
pub mod text;
pub mod volume;
pub mod wpctl;
pub mod monitor;
pub mod window;
