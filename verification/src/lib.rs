//! Extraction of the editorial content of a news-style HTML page: title,
//! language, metadata, cleaned body text, outbound links and social
//! embeddings.

pub mod article;
pub mod charset;
pub mod configuration;
pub mod content;
pub mod crawler;
pub mod dom;
pub mod embedding;
pub mod extraction;
pub mod html;
pub mod ordered_map;
pub mod predicate;
pub mod stopwords;
pub mod strings;
pub mod text;
