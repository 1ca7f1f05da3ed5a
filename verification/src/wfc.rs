//! The engine's types under one path.

pub use crate::pattern::Pattern;
pub use crate::cell::WaveTile;
pub use crate::wave::Wave;
