//! Command and control layer of a chiptune sound subsystem: a lossless command
//! codec, an ordered command channel, an asset cache with stable numeric
//! indices, and the dispatch state machine that turns each command into calls
//! on the audio engine.
pub mod cache;
pub mod channel;
pub mod dispatch;
pub mod protocol;
pub mod sound;
