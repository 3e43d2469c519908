//! Bulk renaming, copying and deleting of the entries of a directory by
//! editing a listing of them.
//!
//! The entries are listed as text, one line for each with its index and its
//! file name ([`snapshot`]). The text is edited by hand and read back
//! ([`session::parse_instructions`]): a line whose name was changed moves
//! its entry, a line that was duplicated copies it, and a line that was
//! removed deletes it. [`session::reconcile`] works out the operations that
//! the edited text asks for ([`plan`]); performing them on the file system
//! is left to the caller. What they leave of the files, where each does what
//! it is meant to do, and where the first that is refused ends it, is proved
//! in [`effect`].

pub mod dirops;
pub mod editor;
pub mod effect;
pub mod error;
pub mod format;
pub mod instructions;
pub mod keyedbag;
pub mod listing;
pub mod plan;
pub mod plan_lemmas;
pub mod session;
pub mod snapshot;
pub mod text;
