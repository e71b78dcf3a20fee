pub mod archive;
pub mod package;
pub mod xml;
