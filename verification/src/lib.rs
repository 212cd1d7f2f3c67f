pub mod codec;
pub mod errors;
pub mod names;
pub mod parsers;
pub mod processor;
pub mod protocol;
pub mod response_builder;
