//! Structural inspection of PDF files: the verified core.
pub mod textbuf;
pub mod types;
pub mod stream;
pub mod recover;
pub mod security;
pub mod page_labels;
pub mod page_info;
pub mod text;
pub mod search;
pub mod model;
pub mod validate;
pub mod refs;
pub mod tree;
pub mod counts;
pub mod stats;
pub mod summary;
pub mod resources;
pub mod object;
pub mod dump;
pub mod json;
pub mod structure;
