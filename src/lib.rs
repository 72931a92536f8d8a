//! A streaming Big5 decoder whose decoding behaviour, buffer bounds and
//! resumption across calls are specified and proved.

pub mod big5;
pub mod index;
pub mod laws;
pub mod result;
pub mod unicode;

pub use big5::Big5Decoder;
pub use index::{Big5Index, POINTER_COUNT};
pub use result::DecoderResult;
