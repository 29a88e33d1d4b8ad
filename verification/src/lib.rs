//! A local word-card study library: a resumable chunked-upload registry that
//! reassembles byte-exact files in memory, and a transactional import/merge
//! engine that turns delimited text into records of an in-memory word store.

pub mod arith;
pub mod batch;
pub mod buffer;
pub mod calendar;
pub mod chars;
pub mod errors;
pub mod upload;
pub mod upload_laws;
pub mod import;
pub mod learning;
pub mod import_laws;
pub mod word_store;
