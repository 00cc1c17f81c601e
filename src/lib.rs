//! A reader for a sectioned text corpus: navigation history, search and
//! annotations, with their rules proved by Verus.

pub mod text;
pub mod ordering;
pub mod notes;
pub mod note_query;
pub mod search;
pub mod navigation;
pub mod highlight;
pub mod scripture;
pub mod theme;
pub mod note_app;
