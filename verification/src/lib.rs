//! Embedding of data into video frames as blocks of pixels, and its reading back.
pub mod bits;
pub mod embedsource;
pub mod blocks;
pub mod settings;
pub mod etcher;
pub mod video;
pub mod args;
pub mod ui;
pub mod timer;
