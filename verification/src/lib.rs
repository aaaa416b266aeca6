//! Verified core of a small ray tracer: the pixel canvas with its PPM and
//! PNG encodings, the writer that keeps PPM lines short, and the plain data
//! of rays, lights, planes and worlds.

pub mod canvas;
pub mod lights;
pub mod plane;
pub mod png_image;
pub mod ppm;
pub mod ray;
pub mod world;
pub mod writer;
