//! A fixed-capacity text buffer that truncates instead of failing.
//!
//! [`TruncatingArrayString`] holds at most `CAP` bytes of UTF-8. An append
//! that does not fit is not refused: the buffer takes as many whole scalars
//! of the input as it has room for and hands the rest back, so that stored
//! text is never cut inside a scalar.

pub mod boundary;
pub mod buffer;
pub mod fitting;
pub mod trusted;

pub use arrayvec::CapacityError;
pub use boundary::floor_char_boundary;
pub use boundary::is_utf8_char_boundary;
pub use buffer::TruncatingArrayString;
