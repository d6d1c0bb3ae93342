//! An OpenRGB-compatible SDK server core for VIA per-key RGB keyboards:
//! the VIA definition parser, the HID report layer with its differential
//! chunker, the per-device state and action queue, the device registry, and
//! the OpenRGB request and response codecs. The surrounding binary supplies
//! the transport: sockets, HID pipes, files and tasks.

pub mod actor;
pub mod chunks;
pub mod colors;
pub mod config;
pub mod consts;
pub mod handlers;
pub mod keyboard;
pub mod keyboards;
pub mod report;
pub mod state;
pub mod utils;
pub mod via_json;
