//! The decisions behind a basemap that follows a 2D camera.
//!
//! A worker thread renders the map around a camera into a texture; the main thread shows
//! the texture as a sprite and asks for another one when the camera has moved away.
//! This crate decides what either of them does next. Numbers that a camera holds in
//! floating point are taken as their bit patterns (see [`binary32`]).

pub mod basemap;
pub mod binary32;
pub mod binary64;
pub mod dev_ui;
pub mod latest;
pub mod render;
pub mod spike;
pub mod texture;
pub mod viewport;
pub mod worker;
