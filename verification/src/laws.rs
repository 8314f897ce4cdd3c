//! What holds of the library as a whole.

pub mod diff;
pub mod filter;
pub mod session;
pub mod stream;
pub mod text;
