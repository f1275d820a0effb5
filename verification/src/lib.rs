//! An arbitrary-precision binary fixed-point number type for deep-zoom
//! coordinates: exact sign-magnitude arithmetic over 32-bit words with a
//! movable binary point, bit-exact binary32 conversion, and a fixed
//! little-endian byte layout for GPU upload.
pub mod codec;
pub mod convert;
pub mod fixed;
pub mod laws;
pub mod magnitude;
pub mod model;
pub mod op;
pub mod order;
pub mod render;
pub mod text;
