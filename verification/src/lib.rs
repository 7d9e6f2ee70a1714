//! Rendering the Mandelbrot set into a grayscale image: the size of the
//! image and its partition into bands, the escape-time iteration, the
//! shading of a band, the encoding of the image, and the parsing of the
//! arguments that describe it. The arithmetic on the points of the plane is
//! the caller's: the renderer takes it as functions.

pub mod bands;
pub mod encode;
pub mod escape;
pub mod gcd;
pub mod grid;
pub mod parse;
pub mod render;
