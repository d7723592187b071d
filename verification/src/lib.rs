//! A small note-taking library: notes with titles, free-form tags and
//! timestamps, an in-memory notebook store with create/update/delete, and a
//! textual codec for whole-collection persistence.

pub mod chars;
pub mod codec;
pub mod tags;
pub mod note;
pub mod store;
pub mod timestamp;

pub use codec::{decode_notes, encode_notes, load_notes, DecodeError};
pub use note::Note;
pub use store::NotebookStore;
pub use timestamp::Timestamp;
