//! Culling of Canon photo bursts: header parsing, preview decoding,
//! sharpness, tracking, and the decisions of the culling program.
//!
//! Floating point numbers do not occur here. Where a measured quantity has to
//! be stored or ordered it is carried by its bit pattern (`single::Real32`).

use vstd::prelude::*;

pub mod bytes;
pub mod text;
pub mod path;
pub mod meta;
pub mod formats;
pub mod io;
pub mod stream;
pub mod decode;
pub mod score;
pub mod eye;
pub mod single;
pub mod pupil;
pub mod sort;
pub mod burst;
pub mod cache;
pub mod output;
pub mod track;
pub mod recipe;
pub mod pipeline;
pub mod action;
pub mod marks;
pub mod roi;
pub mod cull;
pub mod session;
pub mod harvest;
pub mod display;
pub mod report;
