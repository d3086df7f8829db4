pub mod bits;
pub mod laws;
pub mod numeric;
pub mod read;
pub mod sink;
pub mod source;
pub mod write;

pub use bits::{BitError, BitOrder};
pub use numeric::{Numeric, SignedNumeric};
pub use read::{BitRead, BitReaderBE, BitReaderLE};
pub use write::{BitWrite, BitWriterBE, BitWriterLE};
