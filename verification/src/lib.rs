//! Verified core of `netspectrum`, a graphic equaliser for passively observed
//! network traffic: packet classification, the band display, its scene, and the
//! decisions of the program around them.

pub mod audio;
pub mod bands;
pub mod capture;
pub mod fireworks;
pub mod hosts;
pub mod number;
pub mod render;
pub mod spectrum;
pub mod startup;
pub mod text;
pub mod ui;
