pub mod app;
pub mod decoder;
pub mod extractor;
pub mod path_resolver;
pub mod platform;
pub mod text_codec;
