//! What the user asked for: a subcommand and its parameters, each of which
//! may still be missing and then gets asked for.
use crate::settings::{OutputMode, Settings};
use vstd::prelude::*;
use vstd::std_specs::convert::FromSpecImpl;

verus! {

/// Which subcommand, if any, was picked.
pub struct Arguments {
    pub command: Option<Commands>,
}

/// The subcommand the user requested: embed, download or dislodge.
pub enum Commands {
    Embed(EmbedParams),
    Download(DownloadParams),
    Dislodge(DislodgeParams),
}

/// Parameters for embedding; missing ones are asked for.
pub struct EmbedParams {
    /// Path to the file with the data to encode.
    pub in_path: Option<String>,
    /// Preset to use when encoding data.
    pub preset: Option<EmbedPreset>,
    /// Etching mode.
    pub mode: Option<EmbedOutputMode>,
    /// Block size, in pixels per side.
    pub block_size: Option<i32>,
    /// Threads to use when encoding.
    pub threads: Option<usize>,
    /// Output video FPS.
    pub fps: Option<i32>,
    /// Output video resolution.
    pub resolution: Option<String>,
}

impl Default for EmbedParams {
    fn default() -> (params: EmbedParams)
        ensures
            params.in_path is None,
            params.preset is None,
            params.mode is None,
            params.block_size is None,
            params.threads is None,
            params.fps is None,
            params.resolution is None,
    {
        EmbedParams {
            in_path: None,
            preset: None,
            mode: None,
            block_size: None,
            threads: None,
            fps: None,
            resolution: None,
        }
    }
}

/// Ready-made settings.
#[derive(Debug, Clone, Copy, PartialEq, Eq, Structural)]
pub enum EmbedPreset {
    /// Optimal compression resistance.
    Optimal,
    /// Paranoid compression resistance.
    Paranoid,
    /// Maximum efficiency.
    MaxEfficiency,
}

/// How data is etched, as the user names it.
#[derive(Debug, Clone, Copy, PartialEq, Eq, Structural)]
pub enum EmbedOutputMode {
    /// Uses RGB values and breaks under compression.
    Colored,
    /// Uses black and white pixels and resists compression.
    Binary,
}

/// The output mode that an etching mode names.
pub open spec fn output_mode_of(value: EmbedOutputMode) -> OutputMode {
    match value {
        EmbedOutputMode::Colored => OutputMode::Color,
        EmbedOutputMode::Binary => OutputMode::Binary,
    }
}

impl From<EmbedOutputMode> for OutputMode {
    fn from(value: EmbedOutputMode) -> (mode: OutputMode) {
        match value {
            EmbedOutputMode::Colored => OutputMode::Color,
            EmbedOutputMode::Binary => OutputMode::Binary,
        }
    }
}

impl FromSpecImpl<EmbedOutputMode> for OutputMode {
    open spec fn obeys_from_spec() -> bool {
        true
    }

    open spec fn from_spec(value: EmbedOutputMode) -> OutputMode {
        output_mode_of(value)
    }
}

/// Parameters for downloading; missing ones are asked for.
pub struct DownloadParams {
    /// Video URL.
    pub url: Option<String>,
}

impl Default for DownloadParams {
    fn default() -> (params: DownloadParams)
        ensures
            params.url is None,
    {
        DownloadParams { url: None }
    }
}

/// Parameters for dislodging; missing ones are asked for.
pub struct DislodgeParams {
    /// Path to input video.
    pub in_path: Option<String>,
    /// Path to file output (including extension).
    pub out_path: Option<String>,
}

impl Default for DislodgeParams {
    fn default() -> (params: DislodgeParams)
        ensures
            params.in_path is None,
            params.out_path is None,
    {
        DislodgeParams { in_path: None, out_path: None }
    }
}

/// The digits of a resolution name: the name without one trailing `p`.
pub open spec fn resolution_digits(name: Seq<char>) -> Seq<char> {
    if name.len() > 0 && name.last() == 'p' {
        name.drop_last()
    } else {
        name
    }
}

/// Frame width and height for a resolution name: "144", "240", "360",
/// "480" or "720", each also with a trailing "p"; any other name gives the
/// 360p frame.
pub open spec fn resolution_spec(name: Seq<char>) -> (i32, i32) {
    let digits = resolution_digits(name);
    if digits == seq!['1', '4', '4'] {
        (256, 144)
    } else if digits == seq!['2', '4', '0'] {
        (426, 240)
    } else if digits == seq!['4', '8', '0'] {
        (854, 480)
    } else if digits == seq!['7', '2', '0'] {
        (1280, 720)
    } else {
        (640, 360)
    }
}

/// Frame width and height for a resolution name, as `resolution_spec`
/// gives them.
pub fn resolution_size(resolution: &str) -> (dims: (i32, i32))
    ensures
        dims == resolution_spec(resolution@),
{
    let len = resolution.unicode_len();
    let n = if len > 0 && resolution.get_char(len - 1) == 'p' {
        len - 1
    } else {
        len
    };
    let ghost digits = resolution_digits(resolution@);
    assert(digits == resolution@.take(n as int));
    if n != 3 {
        assert(digits.len() != 3);
        return (640, 360);
    }
    let a = resolution.get_char(0);
    let b = resolution.get_char(1);
    let c = resolution.get_char(2);
    assert(digits =~= seq![a, b, c]);
    if a == '1' && b == '4' && c == '4' {
        (256, 144)
    } else if a == '2' && b == '4' && c == '0' {
        (426, 240)
    } else if a == '4' && b == '8' && c == '0' {
        (854, 480)
    } else if a == '7' && b == '2' && c == '0' {
        (1280, 720)
    } else {
        (640, 360)
    }
}

/// Output mode, block size, threads and fps of a preset; every preset
/// makes 720p frames.
pub open spec fn preset_values(preset: EmbedPreset) -> (OutputMode, i32, usize, i32) {
    match preset {
        EmbedPreset::Optimal => (OutputMode::Binary, 2, 8, 10),
        EmbedPreset::Paranoid => (OutputMode::Binary, 4, 8, 10),
        EmbedPreset::MaxEfficiency => (OutputMode::Color, 1, 8, 10),
    }
}

/// Frame width and height that every preset uses.
pub open spec fn preset_frame() -> (i32, i32) {
    (1280, 720)
}

/// How a video is embedded: the output mode, the settings of its frames,
/// and the number of threads that etch them.
#[derive(Debug, Clone, Copy, PartialEq, Eq, Structural)]
pub struct EmbedConfig {
    pub out_mode: OutputMode,
    pub settings: Settings,
    pub threads: usize,
}

/// The embedding configuration of `params`: each value given is taken,
/// each missing one comes from the preset; with a value missing and no
/// preset there is none.
pub open spec fn embed_config_spec(params: EmbedParams) -> Option<EmbedConfig> {
    match params.preset {
        Some(preset) => {
            let (mode, size, threads, fps) = preset_values(preset);
            let dims = match params.resolution {
                Some(r) => resolution_spec(r@),
                None => preset_frame(),
            };
            Some(
                EmbedConfig {
                    out_mode: match params.mode {
                        Some(m) => output_mode_of(m),
                        None => mode,
                    },
                    settings: Settings {
                        size: match params.block_size {
                            Some(b) => b,
                            None => size,
                        },
                        fps: match params.fps {
                            Some(f) => f,
                            None => fps,
                        },
                        width: dims.0,
                        height: dims.1,
                    },
                    threads: match params.threads {
                        Some(t) => t,
                        None => threads,
                    },
                },
            )
        },
        None => {
            if params.mode is Some && params.block_size is Some && params.threads is Some
                && params.fps is Some && params.resolution is Some {
                let dims = resolution_spec(params.resolution.unwrap()@);
                Some(
                    EmbedConfig {
                        out_mode: output_mode_of(params.mode.unwrap()),
                        settings: Settings {
                            size: params.block_size.unwrap(),
                            fps: params.fps.unwrap(),
                            width: dims.0,
                            height: dims.1,
                        },
                        threads: params.threads.unwrap(),
                    },
                )
            } else {
                None
            }
        },
    }
}

fn preset_config(preset: EmbedPreset) -> (res: (OutputMode, i32, usize, i32))
    ensures
        res == preset_values(preset),
{
    match preset {
        EmbedPreset::Optimal => (OutputMode::Binary, 2, 8, 10),
        EmbedPreset::Paranoid => (OutputMode::Binary, 4, 8, 10),
        EmbedPreset::MaxEfficiency => (OutputMode::Color, 1, 8, 10),
    }
}

fn mode_of(value: EmbedOutputMode) -> (mode: OutputMode)
    ensures
        mode == output_mode_of(value),
{
    match value {
        EmbedOutputMode::Colored => OutputMode::Color,
        EmbedOutputMode::Binary => OutputMode::Binary,
    }
}

/// Builds the embedding configuration from the parameters: more specific
/// options override the preset's, and without a preset every option has
/// to be given.
pub fn embed_config(params: &EmbedParams) -> (res: Option<EmbedConfig>)
    ensures
        res == embed_config_spec(*params),
{
    let (mode, size, threads, fps, dims) = match params.preset {
        Some(preset) => {
            let (mode, size, threads, fps) = preset_config(preset);
            (Some(mode), Some(size), Some(threads), Some(fps), Some((1280i32, 720i32)))
        },
        None => (None, None, None, None, None),
    };
    let mode = match params.mode {
        Some(m) => Some(mode_of(m)),
        None => mode,
    };
    let size = match params.block_size {
        Some(b) => Some(b),
        None => size,
    };
    let threads = match params.threads {
        Some(t) => Some(t),
        None => threads,
    };
    let fps = match params.fps {
        Some(f) => Some(f),
        None => fps,
    };
    let dims = match &params.resolution {
        Some(r) => Some(resolution_size(r.as_str())),
        None => dims,
    };
    match (mode, size, threads, fps, dims) {
        (Some(out_mode), Some(size), Some(threads), Some(fps), Some((width, height))) => Some(
            EmbedConfig { out_mode, settings: Settings { size, fps, width, height }, threads },
        ),
        _ => None,
    }
}

/// The frame height that a resolution name asks for: one of the five
/// listed heights written in three digits, with or without a trailing
/// `p`; anything else asks for none.
pub open spec fn named_height(name: Seq<char>) -> Option<i32> {
    if name == seq!['1', '4', '4'] || name == seq!['1', '4', '4', 'p'] {
        Some(144)
    } else if name == seq!['2', '4', '0'] || name == seq!['2', '4', '0', 'p'] {
        Some(240)
    } else if name == seq!['3', '6', '0'] || name == seq!['3', '6', '0', 'p'] {
        Some(360)
    } else if name == seq!['4', '8', '0'] || name == seq!['4', '8', '0', 'p'] {
        Some(480)
    } else if name == seq!['7', '2', '0'] || name == seq!['7', '2', '0', 'p'] {
        Some(720)
    } else {
        None
    }
}

/// Resolution names: each of "144", "240", "360", "480" and "720", with
/// or without a trailing `p`, gives frames of that height (widths 256,
/// 426, 640, 854 and 1280); a trailing `p` never changes the frame of a
/// name that does not already end in one; every other name gives the 360p
/// frame.
pub proof fn law_resolution_names(name: Seq<char>)
    ensures
        (name.len() == 0 || name.last() != 'p') ==> resolution_spec(name.push('p'))
            == resolution_spec(name),
        named_height(name) == Some(144i32) ==> resolution_spec(name) == (256i32, 144i32),
        named_height(name) == Some(240i32) ==> resolution_spec(name) == (426i32, 240i32),
        named_height(name) == Some(360i32) ==> resolution_spec(name) == (640i32, 360i32),
        named_height(name) == Some(480i32) ==> resolution_spec(name) == (854i32, 480i32),
        named_height(name) == Some(720i32) ==> resolution_spec(name) == (1280i32, 720i32),
        named_height(name) is None ==> resolution_spec(name) == (640i32, 360i32),
{
    let pushed = name.push('p');
    assert(pushed.drop_last() =~= name);
    let d = resolution_digits(name);
    if name.len() > 0 && name.last() == 'p' {
        assert(d =~= name.take(name.len() - 1));
    }
    let lits: Seq<Seq<char>> = seq![
        seq!['1', '4', '4'],
        seq!['2', '4', '0'],
        seq!['3', '6', '0'],
        seq!['4', '8', '0'],
        seq!['7', '2', '0'],
    ];
    assert forall|i: int| 0 <= i < 5 implies (#[trigger] lits[i] == d <==> (name == lits[i] || name
        == lits[i].push('p'))) by {
        let l = lits[i];
        if name == l.push('p') {
            assert(name.last() == 'p');
            assert(d =~= l);
        }
        if d == l {
            if name.len() > 0 && name.last() == 'p' {
                assert(name =~= l.push('p'));
            } else {
                assert(name =~= l);
            }
        }
        if name == l {
            assert(name.last() != 'p');
        }
    }
    assert(lits[0] == seq!['1', '4', '4']);
    assert(lits[1] == seq!['2', '4', '0']);
    assert(lits[2] == seq!['3', '6', '0']);
    assert(lits[3] == seq!['4', '8', '0']);
    assert(lits[4] == seq!['7', '2', '0']);
    assert(seq!['1', '4', '4'].push('p') =~= seq!['1', '4', '4', 'p']);
    assert(seq!['2', '4', '0'].push('p') =~= seq!['2', '4', '0', 'p']);
    assert(seq!['3', '6', '0'].push('p') =~= seq!['3', '6', '0', 'p']);
    assert(seq!['4', '8', '0'].push('p') =~= seq!['4', '8', '0', 'p']);
    assert(seq!['7', '2', '0'].push('p') =~= seq!['7', '2', '0', 'p']);
}

/// With a preset, every option the user gives is taken unchanged, and every
/// option left out comes from the preset: the compression-resistant presets
/// (optimal, paranoid) etch in binary mode with blocks of 2 and 4 pixels,
/// maximum efficiency in colour with blocks of 1 pixel, all at 10 fps on 8
/// threads in 1280 by 720 frames. Without a preset there is a configuration
/// exactly when every option is given, and it is made of them.
pub proof fn law_embed_config(params: EmbedParams)
    ensures
        embed_config_spec(params) is Some <==> (params.preset is Some || (params.mode is Some
            && params.block_size is Some && params.threads is Some && params.fps is Some
            && params.resolution is Some)),
        embed_config_spec(params) matches Some(c) ==> {
            &&& params.mode == Some(EmbedOutputMode::Colored) ==> c.out_mode == OutputMode::Color
            &&& params.mode == Some(EmbedOutputMode::Binary) ==> c.out_mode == OutputMode::Binary
            &&& params.block_size matches Some(b) ==> c.settings.size == b
            &&& params.threads matches Some(t) ==> c.threads == t
            &&& params.fps matches Some(f) ==> c.settings.fps == f
            &&& params.resolution matches Some(r) ==> (c.settings.width, c.settings.height)
                == resolution_spec(r@)
            &&& params.mode is None ==> c.out_mode == if params.preset == Some(
                EmbedPreset::MaxEfficiency,
            ) {
                OutputMode::Color
            } else {
                OutputMode::Binary
            }
            &&& params.block_size is None ==> c.settings.size == match params.preset {
                Some(EmbedPreset::Optimal) => 2i32,
                Some(EmbedPreset::Paranoid) => 4i32,
                _ => 1i32,
            }
            &&& params.threads is None ==> c.threads == 8
            &&& params.fps is None ==> c.settings.fps == 10
            &&& params.resolution is None ==> c.settings.width == 1280 && c.settings.height == 720
        },
{
}

} // verus!
