//! Verified core of a gamma-correction bar visualization.
//!
//! The library turns an intensity index and a gamma value into a corrected
//! byte (the lookup table), lays gradients of those bytes out across a
//! four-band RGB pixel buffer, optionally traces the shape of the gamma
//! curve as a diagonal marker of inverted pixels, and folds keyboard events
//! into a bounded gamma state.  Window creation, event polling and texture
//! presentation are a caller's concern; the caller hands this library plain
//! values and a byte buffer.
//!
//! Gamma is held exactly, in twentieths (one key press moves it by one
//! twentieth, that is 0.05), so every function here is integer arithmetic
//! with a proved contract: the power-law curve is evaluated in 16-bit fixed
//! point, a policy the `lookup` module documents and pins down entry by
//! entry.

pub mod gamma;
pub mod lookup;
pub mod render;
pub mod sequence;
