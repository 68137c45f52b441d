//! Merging of structured log streams by timestamp.
pub mod text;
pub mod record;
pub mod merger;
pub mod ts;
pub mod json;
pub mod parser;
pub mod output;
