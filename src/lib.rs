//! Lexical JSON numbers.
//!
//! A [`Number`] is a borrowed byte span that is known to match the JSON
//! number grammar exactly; a [`NumberBuf`] owns such bytes. Every query and
//! derived form (sign, trimming, integer conversion) works on the lexical
//! representation, so numbers of unbounded precision are kept bit for bit.
pub mod buffer;
mod error;
pub mod grammar;
pub mod integer;
pub mod number;
pub mod number_buf;
mod sign;
pub mod small;
pub mod trim;

pub use buffer::{AsBytes, Buffer};
pub use error::{InvalidNumber, TryFromFloatError};
pub use number::Number;
pub use number_buf::{CowNumber, NumberBuf};
pub use sign::Sign;
pub use small::{SmallBytes, SmallNumberBuf};
