pub mod cpu;
pub mod display;
pub mod keypad;
pub mod laws;
mod rng;
