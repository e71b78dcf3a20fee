pub mod theme;
pub mod reader;
pub mod app;
