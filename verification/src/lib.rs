pub mod chars;
pub mod text;
pub mod numfmt;
pub mod processing;
pub mod storage;
pub mod processor;
pub mod correction;
pub mod postings;
pub mod index_store;
pub mod engine;
pub mod term_index;
pub mod cache;
pub mod text_store;
pub mod wiki;
pub mod datasets;
pub mod crawler;
pub mod embedding;
pub mod cli;
pub mod bundle;
pub mod evaluation;
pub mod extraction;
pub mod confidence;
pub mod proximity;
pub mod sharding;
