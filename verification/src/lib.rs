//! MSB128 (most-significant-first base-128) variable-length integer codec.
//!
//! A non-negative integer is carried on the wire as one or more bytes.
//! Every byte contributes its low seven bits, most significant chunk first;
//! the high bit of a byte says whether more bytes follow, and after every
//! byte whose high bit is set the running total is incremented by one, so
//! that each value has exactly one wire form and no shorter one exists.

pub mod codec;
pub mod stream;
pub mod wire;

pub use codec::decode_step;
pub use codec::encode_bytes;
pub use codec::read_positive;
pub use codec::width_max;
pub use codec::write_positive;
pub use codec::write_positive_unsigned;
pub use codec::ReadError;
pub use codec::StepResult;
pub use codec::WriteError;
pub use stream::ByteSink;
pub use stream::ByteSource;
