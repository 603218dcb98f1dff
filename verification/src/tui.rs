//! The interactive tree browser's logic: the visible lines of a document,
//! the browser's state, and what each key does to it. Drawing and the
//! terminal loop live in the application.
pub mod flatten;
pub mod fuzzy;
pub mod jq;
pub mod keys;
pub mod pathset;
pub mod state;
pub mod view;
