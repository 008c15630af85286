//! A retained UI core for fixed-function handheld hosts.
//!
//! The crate holds the parts of the runtime that decide something: the node
//! tree, styling and animation state, the texture table and its asset loaders,
//! the draw list and its decoder, and the frame loop of a handheld host.
//! Everything that talks to hardware or to a script engine lives outside and
//! exchanges plain values with it.
//!
//! Floating point values cross this boundary as their IEEE 754 binary32 bit
//! patterns.
#![allow(unused_imports)]

pub mod anim;
pub mod arith;
pub mod assets;
pub mod bench;
pub mod bridge;
pub mod bytes;
pub mod calls;
pub mod capture;
pub mod clip;
pub mod color;
pub mod commands;
pub mod constants;
pub mod decode;
pub mod disc;
pub mod drawlist;
pub mod fbits;
pub mod font;
pub mod frames;
pub mod ge;
pub mod glyph;
pub mod guest;
pub mod json;
pub mod lettering;
pub mod looks;
pub mod order;
pub mod packbits;
pub mod paint;
pub mod painting;
pub mod picture;
pub mod pictures;
pub mod plan;
pub mod playback;
pub mod playing;
pub mod pool;
pub mod restyle;
pub mod running;
pub mod scene;
pub mod shot;
pub mod spans;
pub mod structure;
pub mod style;
pub mod surface;
pub mod switch;
pub mod texture;
pub mod touch;
pub mod tree;
pub mod ui;
pub mod walk;
