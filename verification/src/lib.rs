//! Switch-matrix scanning for keyboards on bare-metal microcontrollers.
//!
//! A matrix of momentary switches is wired either through a row/column
//! diode matrix (rows driven, columns sensed) or directly, one switch per
//! input pin. Each scan produces a fresh grid of booleans, one per switch
//! position, with `true` meaning pressed (the line reads low).

pub mod delay;
pub mod matrix;
pub mod pins;
