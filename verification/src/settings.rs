//! What is embedded and how.
use vstd::prelude::*;

verus! {

/// How data is etched: one bit per black or white block, or three bytes
/// per coloured block.
#[derive(PartialEq, Eq, Debug, Clone, Copy, Structural)]
pub enum OutputMode {
    Binary,
    Color,
}

/// The data to embed: bits for binary mode, bytes for colour mode.
pub struct Data {
    pub bytes: Vec<u8>,
    pub binary: Vec<bool>,
    pub out_mode: OutputMode,
}

impl Data {
    /// Data to embed in binary mode.
    pub fn from_binary(binary: Vec<bool>) -> (data: Data)
        ensures
            data.bytes@ == Seq::<u8>::empty(),
            data.binary@ == binary@,
            data.out_mode == OutputMode::Binary,
    {
        Data { bytes: Vec::new(), binary, out_mode: OutputMode::Binary }
    }

    /// Data to embed in colour mode.
    pub fn from_color(bytes: Vec<u8>) -> (data: Data)
        ensures
            data.bytes@ == bytes@,
            data.binary@ == Seq::<bool>::empty(),
            data.out_mode == OutputMode::Color,
    {
        Data { bytes, binary: Vec::new(), out_mode: OutputMode::Color }
    }
}

/// Block size, frame rate and frame dimensions of a video.
#[derive(Clone, Copy, Debug, PartialEq, Eq, Structural)]
pub struct Settings {
    pub size: i32,
    pub fps: i32,
    pub width: i32,
    pub height: i32,
}

impl Settings {
    pub fn new(size: i32, fps: i32, width: i32, height: i32) -> (settings: Settings)
        ensures
            settings == (Settings { size, fps, width, height }),
    {
        Settings { size, fps, height, width }
    }
}

} // verus!
