//! Flashing a keyboard's firmware with dfu-util: what the tool prints is split into lines, the
//! lines are read as devices and as progress, the device to work on is chosen, and the
//! arguments of each run are made up. Running the tool is left to the caller.

pub mod dfu_util;
pub mod flash;
pub mod line_laws;
pub mod numbers;
pub mod pattern;
pub mod progress_lines;
pub mod text;
pub mod text_laws;
pub mod winusb;
