//! Advent of Code 2019 building blocks, centred on a resumable Intcode
//! interpreter.

pub mod amplifiers;
pub mod decode;
pub mod error;
pub mod fuel;
pub mod helper;
pub mod intcode;
pub mod layers;
pub mod machine;
pub mod moons;
pub mod parse;
pub mod password;
pub mod paths;
pub mod rename;
pub mod robot;
pub mod wires;

pub use error::{custom_error, AocErr, AocResult};
