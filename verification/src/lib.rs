//! A pull-based sequence protocol ("lending") and its one-item-lookahead
//! adapter.
//!
//! The [`Lender`] trait models a source of elements by the spec sequence
//! it will still produce; [`Peekable`] wraps any such source and adds a
//! single-slot lookahead buffer, letting a caller inspect or conditionally
//! consume the next element without losing it.

pub mod control;
pub mod model;
pub mod peekable;
pub mod source;
pub mod vec_lender;

pub use control::Flow;
pub use peekable::Peekable;
pub use source::DoubleEndedLender;
pub use source::ExactSizeLender;
pub use source::FusedLender;
pub use source::Lender;
pub use vec_lender::VecLender;
