//! CoreMedia structures carried by the protocol.
pub mod audio_desc;
pub mod clock;
pub mod format_desc;
pub mod sample;
pub mod time;
