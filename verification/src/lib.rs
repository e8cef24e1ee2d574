//! Splitting a text into its `<pjd>...</pjd>` fragments, and naming the file
//! that each fragment is stored in.
//!
//! A run goes through the modules in this order: `source` settles where the
//! text is read from, `entities` decodes it where that is asked for,
//! `markers` and `fragments` cut it into fragments, `inspect` reads the
//! command name of each fragment, `naming` makes the file's path of it, and
//! `plan` puts the files of a run together. `errors` sorts what can go wrong.
//! Nothing here reads or writes a file: the caller does.

pub mod entities;
pub mod errors;
pub mod fragments;
pub mod inspect;
pub mod markers;
pub mod naming;
pub mod plan;
pub mod source;
