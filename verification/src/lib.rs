//! A local document search engine: text is tokenized into stemmed term counts,
//! documents are collected into an index that can be stored as bytes and read
//! back, and queries are answered from the TF-IDF ingredients of each document.

pub mod config;
pub mod document;
pub mod extract;
pub mod index;
pub mod query;
pub mod store;
pub mod text;
pub mod tokenizer;
pub mod theme;
