//! Cover-art handling for audio files: locating and extracting the artwork
//! stored in an MP4/M4A container, writing a new cover atom into one, and
//! reading or replacing the front cover of ID3 (MP3) and FLAC tags.

pub mod atom;
pub mod error;
pub mod m4a_read;
pub mod chunk_offsets;
pub mod m4a_write;
pub mod format;
pub mod mp3;
pub mod flac;
pub mod laws;
