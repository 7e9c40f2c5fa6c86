//! ttycast: cast a terminal to a TV.

pub mod ansi;
pub mod backend;
pub mod capture;
pub mod cli;
pub mod display;
pub mod doctor;
pub mod encoder;
pub mod fonts;
pub mod framebus;
pub mod number;
pub mod render;
pub mod server;
pub mod status;
pub mod text;
pub mod upnp;
pub mod wfd;
pub mod wifi;
