//! A small local document knowledge base.
//!
//! Text is cut into sentences and packed into chunks of a bounded number of
//! words (`chunker`); the chunks are indexed word by word (`tokens`, `index`);
//! a query is turned into the terms of each chunk's score (`search`) and the
//! chunks are ranked by keys that stand for the scores (`ranking`). `store`
//! keeps documents, chunks and index together and replaces them as a whole.
//!
//! The library works on integers and text only. A score itself is a sum of
//! products with a logarithm: the caller forms it from the terms, and hands
//! back for each chunk a key that orders as the score does. Reading and
//! writing files is the caller's part too.

pub mod chunker;
pub mod commands;
pub mod embeddings;
pub mod index;
pub mod model;
pub mod ranking;
pub mod scanner;
pub mod search;
pub mod store;
pub mod text;
pub mod tokens;
