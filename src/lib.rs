//! Content-addressed documentation archives: the on-disk layout, the
//! archive writer and reader, flavor resolution, HTML rewriting and the
//! archive-facing part of serving.

pub mod error;
pub mod layout;
pub mod byte_reader;
pub mod text;
pub mod codec;
pub mod listing;
pub mod writer;
pub mod dictionary;
pub mod reader;
pub mod laws;
pub mod walker;
pub mod manifest;
pub mod flavors;
pub mod html;
pub mod batch;
pub mod args;
pub mod serve;
