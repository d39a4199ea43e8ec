pub mod binfmt;
pub mod codec;
pub mod compile;
pub mod config;
pub mod editor;
