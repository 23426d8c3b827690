pub mod binary;
pub mod decoder;
pub mod frontend;
