//! A small lending library of text books: a repository of immutable book
//! content with per-book checkout metadata and a guest directory, a searching
//! and ranking facility, and the line-oriented editor state machine used to
//! view and author book content.

pub mod editor;
pub mod library;
pub mod score;
pub mod shell;
pub mod text;
