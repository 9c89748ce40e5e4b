//! Byte-scanning primitives for text and markup parsers: an ASCII validator,
//! a byte-set scanner, and a zero-copy line splitter.

pub mod ascii;
pub mod byteset;
pub mod lines;

pub use byteset::find_first_of;
pub use byteset::find_first_of_chained;
pub use byteset::ByteSet;
pub use ascii::is_ascii;
pub use ascii::is_ascii_auto_simd;
pub use ascii::is_ascii_seq;
pub use ascii::Accel;
pub use lines::fast_lines;
pub use lines::lines_of;
pub use lines::FastLines;
