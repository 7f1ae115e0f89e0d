//! The arithmetic of the codec: the parabola of the predictor and the
//! generator of dither noise.

pub mod noise;
pub mod parabola;

pub use noise::{NoiseDistribution, PseudoRandom};
pub use parabola::FixedParabola;
