//! A Golomb-Rice codec whose output per symbol never exceeds the symbol
//! width plus one bit.

pub mod bits;
pub mod codec;
pub mod guard;
pub mod laws;
pub mod mask;
pub mod stream;

pub use bitstream_io;

pub use guard::as_big;
pub use codec::Codec;
pub use mask::{mask, ConfigError};
