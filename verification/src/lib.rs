//! A terminal typing speed test: the text layout, the screen model and the
//! session logic, with their contracts.

pub mod types;
pub mod banner;
pub mod engine;
pub mod screen;
pub mod generator;
pub mod app;
