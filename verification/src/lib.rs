//! The decision logic of LoopPanel, a dashboard for the TM-360 cooler display.
//!
//! Everything that can be computed from plain values lives here and is verified:
//! the frame format of the display, image composition, the scheduling of frames,
//! the decoding of what the system reports, and the state machines of the tray
//! icon and of the CPU temperature service.  Input and output stay outside.

pub mod audio;
pub mod bytes;
pub mod config;
pub mod display;
pub mod float;
pub mod icon;
pub mod image;
pub mod io_metrics;
pub mod media;
pub mod monitor;
pub mod process;
pub mod protocol;
pub mod render;
pub mod single;
pub mod startup;
pub mod temperature;
pub mod temperature_service;
pub mod text;
pub mod transport;
pub mod tray;
pub mod win;
