//! A small blog-publishing library: an article store with CRUD and
//! case-insensitive title search, and a reconciler that mirrors a
//! directory of markdown files into the store.

pub mod article;
pub mod reconcile;
pub mod title;
pub mod trusted;
pub mod store;
pub mod text;
