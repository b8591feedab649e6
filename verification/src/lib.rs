//! Verified core of a voxel diorama ray tracer: the sparse voxel world, the
//! procedural scene layout, integer hashing for noise, and the BMP / PPM
//! image codecs.

pub mod world;
pub mod noise;
pub mod numeral;
pub mod ppm;
pub mod bmp;
pub mod cli;
pub mod scene;
pub mod render;
pub mod request;
