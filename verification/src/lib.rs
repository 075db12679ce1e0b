//! A growable, UTF-8 validated text buffer that stores short content inline
//! and spills to a heap allocation once it outgrows its inline capacity.

mod buffer;
pub mod string;

pub use string::Drain;
pub use string::EditError;
pub use string::InvalidEncoding;
pub use string::SmallString;
