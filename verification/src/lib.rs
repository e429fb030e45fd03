//! The logic of a remote control for terminal programs.
//!
//! A program runs under a pseudo terminal or with plain pipes. Simulated key
//! presses, typed text, pastes and mouse events are turned into the bytes that
//! the program reads ([`keys`], [`mouse`], [`input`]); its output is watched for
//! what it negotiates ([`kitty`]) and for hyperlinks ([`osc8`]), and the screen
//! that a terminal emulator makes of it ([`emulator`]) is read as text
//! ([`session`]), as a picture ([`render`]), by pages and by search
//! ([`scrollback`]). [`registry`] keeps the sessions, [`wait`] decides when a
//! wait is over, [`tools`] and [`error`] say what callers are told.

pub mod canvas;
pub mod dev_tools;
pub mod emulator;
pub mod error;
pub mod input;
pub mod keys;
pub mod kitty;
pub mod mouse;
pub mod osc8;
pub mod pattern;
pub mod registry;
pub mod render;
pub mod schema;
pub mod scrollback;
pub mod session;
pub mod text;
pub mod tools;
pub mod wait;
