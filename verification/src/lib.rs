//! Joining several document graphs into one, and indexing the words of a
//! document, with contracts proved by Verus.
//!
//! The join takes documents as `lopdf` loads them. Each source is renumbered
//! into a range of identifiers of its own (`renumber`), the nodes of all
//! sources are merged by their role (`merger`), the pages are hung below the
//! one page collection that survives and the graph is finished for writing
//! (`rebuild`). `join` puts the stages together, and `laws` states what holds
//! of every graph that is assembled. The contracts speak of the values in
//! `model`; `pdf` is the boundary to `lopdf`.

pub mod bookmark;
pub mod extract;
pub mod index;
pub mod join;
pub mod laws;
pub mod merger;
pub mod model;
pub mod names;
pub mod pdf;
pub mod rebuild;
pub mod renumber;
pub mod role;
pub mod text;
pub mod words;

pub use bookmark::Bookmark;
pub use index::Index;
pub use join::{merge, MergeError};
pub use role::{classify, Role};
pub use words::{full_text, split_words, WordSet};
