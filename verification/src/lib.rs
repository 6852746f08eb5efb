//! Verified core of a GIF to ASCII-art converter.
//!
//! A GIF is taken apart into frames, each frame is resized to a grid of characters and dumped as
//! text, the dump is read and drawn in characters, and the pictures are put together again. The
//! programs that handle pictures are run from outside; this crate holds what is decided and
//! computed between their runs.
//!
//! - [`coarse`] and [`fine`]: characters for colours, by [`brightness`]
//! - [`channel`] and [`decimal`]: colour channels as text
//! - [`dump`]: pixel dumps and the ASCII art in them
//! - [`typeface`], [`grid`] and [`render`]: fonts, grids of characters, pictures of them
//! - [`probe`], [`frames`], [`names`] and [`commands`]: reports, delays, files, arguments
//! - [`run`]: the course of a conversion, step by step
//! - [`binary64`], [`binary32`] and [`text`]: floating-point arithmetic on integers, and text
//! - [`reading`] and [`course`]: what is written is read back; what holds of whole conversions
//! - [`wording`], [`numeral`], [`lines`], [`shade`], [`layout`], [`lettering`] and [`plan`]: what
//!   text, numbers, lines, colours, rows, characters and steps come to, told from what is given

pub mod binary32;
pub mod binary64;
pub mod brightness;
pub mod channel;
pub mod coarse;
pub mod commands;
pub mod course;
pub mod decimal;
pub mod dump;
pub mod fine;
pub mod frames;
pub mod grid;
pub mod layout;
pub mod lettering;
pub mod lines;
pub mod names;
pub mod numeral;
pub mod plan;
pub mod probe;
pub mod reading;
pub mod render;
pub mod run;
pub mod shade;
pub mod text;
pub mod typeface;
pub mod wording;
