//! Protocol logic of a driver for the AULA F75 keyboard: the key, light and
//! settings packets that the keyboard exchanges over HID feature reports,
//! built and read with proved contracts.
pub mod text;
pub mod types;
pub mod utils;
pub mod devices;
