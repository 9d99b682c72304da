//! Integer core of a sphere path tracer: the image buffer that render workers
//! fill, the plain-text P3 raster encoding and decoding, and the column
//! partition used by the parallel fill driver.

pub mod decimal;

pub mod ppm;
pub mod parser;
pub mod render;
