//! Conversion of byte sequences between four textual notations: ASCII, UTF-8,
//! hexadecimal digits and lists of decimal numbers.
//!
//! [`System::decode`] reads a text in one notation and yields the bytes it
//! denotes; [`System::encode`] writes bytes in a notation; and
//! [`System::interleave`] writes them group by group with a separator between
//! the groups. [`convert`] does the one after the other. Each of them is
//! specified by a function on sequences ([`System::spec_decode`],
//! [`System::spec_encode`], [`System::spec_interleave`], [`system::spec_convert`]),
//! and the module [`laws`] proves how these fit together.

pub mod ascii;
pub mod decimal;
pub mod grouping;
pub mod hexadecimal;
pub mod laws;
pub mod system;
pub mod unicode;

pub use hexadecimal::HexError;
pub use system::{convert, AppError, System};
