//! Sliding-window streaming transcription.
//!
//! Instead of cutting speech into small pieces, a rolling buffer of the whole recording is
//! transcribed again at every tick, so that the speech model always has the full context. This
//! crate decides what part of each transcript is new, stable text, and gives it out as deltas:
//! each is typed at the cursor as it is, so none may repeat what was typed before.
//!
//! While the buffer grows, the words that two transcripts in a row agree on are committed. Once
//! the buffer is full and the window slides, a transcript is matched with the end of the
//! committed text, and the words after the match are committed when two passes in a row agree on
//! them.

pub mod diff;
pub mod filter;
pub mod laws;
pub mod openvino;
pub mod session;
pub mod stream;
pub mod text;
