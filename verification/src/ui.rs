//! The questions that fill in missing parameters, and in which order they
//! are asked. Asking is left to the caller: these functions say what to
//! ask next and take the answers in.
use crate::args::{DislodgeParams, DownloadParams, EmbedOutputMode, EmbedParams, EmbedPreset};
use vstd::prelude::*;

verus! {

/// Where the embedding dialog stands.
#[derive(Debug, Clone, Copy, PartialEq, Eq, Structural)]
pub enum EmbedStage {
    /// The input path is settled first.
    Path,
    /// Then a preset may be picked, if no advanced option is set.
    Preset,
    /// Then the missing advanced options are asked for one by one.
    Advanced,
    /// Nothing more to ask.
    Done,
}

/// A question of the embedding dialog.
#[derive(Debug, Clone, Copy, PartialEq, Eq, Structural)]
pub enum EmbedPrompt {
    InPath,
    Preset,
    Mode,
    BlockSize,
    Threads,
    Fps,
    Resolution,
}

/// What the embedding dialog does next.
#[derive(Debug, Clone, Copy, PartialEq, Eq, Structural)]
pub enum EmbedStep {
    /// Ask this question; the answer is taken in with `answer_embed` or,
    /// for the preset, `answer_preset`.
    Ask(EmbedPrompt),
    /// Tell the user that a block size which does not divide the height
    /// breaks the data.
    Warn,
    /// The parameters are complete.
    Finish,
}

/// An answer to a question of the embedding dialog (other than the preset).
pub enum EmbedAnswer {
    InPath(String),
    Mode(EmbedOutputMode),
    BlockSize(i32),
    Threads(usize),
    Fps(i32),
    Resolution(String),
}

/// None of the advanced options is set.
pub open spec fn no_advanced(params: EmbedParams) -> bool {
    &&& params.mode is None
    &&& params.block_size is None
    &&& params.threads is None
    &&& params.fps is None
    &&& params.resolution is None
}

/// The first advanced option that is missing, in the order they are asked.
pub open spec fn first_missing(params: EmbedParams) -> Option<EmbedPrompt> {
    if params.mode is None {
        Some(EmbedPrompt::Mode)
    } else if params.block_size is None {
        Some(EmbedPrompt::BlockSize)
    } else if params.threads is None {
        Some(EmbedPrompt::Threads)
    } else if params.fps is None {
        Some(EmbedPrompt::Fps)
    } else if params.resolution is None {
        Some(EmbedPrompt::Resolution)
    } else {
        None
    }
}

fn missing_advanced(params: &EmbedParams) -> (res: Option<EmbedPrompt>)
    ensures
        res == first_missing(*params),
{
    if params.mode.is_none() {
        Some(EmbedPrompt::Mode)
    } else if params.block_size.is_none() {
        Some(EmbedPrompt::BlockSize)
    } else if params.threads.is_none() {
        Some(EmbedPrompt::Threads)
    } else if params.fps.is_none() {
        Some(EmbedPrompt::Fps)
    } else if params.resolution.is_none() {
        Some(EmbedPrompt::Resolution)
    } else {
        None
    }
}

/// The next step of the embedding dialog at `stage`, and the stage after
/// it. A missing input path is asked for first; then comes the warning.
/// When no advanced option is set, a preset that is already given ends the
/// dialog, and without one the preset is asked for. Otherwise every missing
/// advanced option is asked for in turn: mode, block size, threads, fps,
/// resolution.
pub fn embed_step(params: &EmbedParams, stage: EmbedStage) -> (res: (EmbedStep, EmbedStage))
    ensures
        stage == EmbedStage::Path ==> res == if params.in_path is None {
            (EmbedStep::Ask(EmbedPrompt::InPath), EmbedStage::Path)
        } else {
            (EmbedStep::Warn, EmbedStage::Preset)
        },
        stage == EmbedStage::Preset && no_advanced(*params) ==> res == if params.preset is Some {
            (EmbedStep::Finish, EmbedStage::Done)
        } else {
            (EmbedStep::Ask(EmbedPrompt::Preset), EmbedStage::Preset)
        },
        (stage == EmbedStage::Advanced || (stage == EmbedStage::Preset && !no_advanced(*params)))
            ==> res == match first_missing(*params) {
            Some(prompt) => (EmbedStep::Ask(prompt), EmbedStage::Advanced),
            None => (EmbedStep::Finish, EmbedStage::Done),
        },
        stage == EmbedStage::Done ==> res == (EmbedStep::Finish, EmbedStage::Done),
{
    match stage {
        EmbedStage::Path => {
            if params.in_path.is_none() {
                (EmbedStep::Ask(EmbedPrompt::InPath), EmbedStage::Path)
            } else {
                (EmbedStep::Warn, EmbedStage::Preset)
            }
        },
        EmbedStage::Preset if params.mode.is_none() && params.block_size.is_none()
            && params.threads.is_none() && params.fps.is_none() && params.resolution.is_none() => {
            if params.preset.is_some() {
                (EmbedStep::Finish, EmbedStage::Done)
            } else {
                (EmbedStep::Ask(EmbedPrompt::Preset), EmbedStage::Preset)
            }
        },
        EmbedStage::Preset | EmbedStage::Advanced => match missing_advanced(params) {
            Some(prompt) => (EmbedStep::Ask(prompt), EmbedStage::Advanced),
            None => (EmbedStep::Finish, EmbedStage::Done),
        },
        EmbedStage::Done => (EmbedStep::Finish, EmbedStage::Done),
    }
}

/// Takes in the preset choice: a preset ends the dialog with that preset
/// set; `None` (custom settings) goes on to the advanced options.
pub fn answer_preset(params: EmbedParams, choice: Option<EmbedPreset>) -> (res: (
    EmbedParams,
    EmbedStage,
))
    ensures
        res.0.in_path == params.in_path,
        res.0.mode == params.mode,
        res.0.block_size == params.block_size,
        res.0.threads == params.threads,
        res.0.fps == params.fps,
        res.0.resolution == params.resolution,
        match choice {
            Some(preset) => res.0.preset == Some(preset) && res.1 == EmbedStage::Done,
            None => res.0.preset == params.preset && res.1 == EmbedStage::Advanced,
        },
{
    let mut params = params;
    match choice {
        Some(preset) => {
            params.preset = Some(preset);
            (params, EmbedStage::Done)
        },
        None => (params, EmbedStage::Advanced),
    }
}

/// Takes in an answer: the parameter it answers is set, the others are
/// kept.
pub fn answer_embed(params: EmbedParams, answer: EmbedAnswer) -> (res: EmbedParams)
    ensures
        res.preset == params.preset,
        res.in_path == (match answer {
            EmbedAnswer::InPath(p) => Some(p),
            _ => params.in_path,
        }),
        res.mode == (match answer {
            EmbedAnswer::Mode(m) => Some(m),
            _ => params.mode,
        }),
        res.block_size == (match answer {
            EmbedAnswer::BlockSize(b) => Some(b),
            _ => params.block_size,
        }),
        res.threads == (match answer {
            EmbedAnswer::Threads(t) => Some(t),
            _ => params.threads,
        }),
        res.fps == (match answer {
            EmbedAnswer::Fps(f) => Some(f),
            _ => params.fps,
        }),
        res.resolution == (match answer {
            EmbedAnswer::Resolution(r) => Some(r),
            _ => params.resolution,
        }),
{
    let mut params = params;
    match answer {
        EmbedAnswer::InPath(p) => {
            params.in_path = Some(p);
        },
        EmbedAnswer::Mode(m) => {
            params.mode = Some(m);
        },
        EmbedAnswer::BlockSize(b) => {
            params.block_size = Some(b);
        },
        EmbedAnswer::Threads(t) => {
            params.threads = Some(t);
        },
        EmbedAnswer::Fps(f) => {
            params.fps = Some(f);
        },
        EmbedAnswer::Resolution(r) => {
            params.resolution = Some(r);
        },
    }
    params
}

/// A question of the dislodging dialog.
#[derive(Debug, Clone, Copy, PartialEq, Eq, Structural)]
pub enum DislodgePrompt {
    InPath,
    OutPath,
}

/// The next question of the dislodging dialog: the input path, then the
/// output path, each only if missing.
pub fn next_dislodge_prompt(params: &DislodgeParams) -> (res: Option<DislodgePrompt>)
    ensures
        res == if params.in_path is None {
            Some(DislodgePrompt::InPath)
        } else if params.out_path is None {
            Some(DislodgePrompt::OutPath)
        } else {
            None
        },
{
    if params.in_path.is_none() {
        Some(DislodgePrompt::InPath)
    } else if params.out_path.is_none() {
        Some(DislodgePrompt::OutPath)
    } else {
        None
    }
}

/// Whether the downloading dialog has to ask for the URL.
pub fn download_needs_url(params: &DownloadParams) -> (res: bool)
    ensures
        res == params.url is None,
{
    params.url.is_none()
}

/// The advanced options are asked for in a fixed order, each exactly when
/// it is missing and the ones before it are set, whatever their values:
/// mode, block size, threads, fps, resolution. The dialog has nothing more
/// to ask exactly when all five are set.
pub proof fn law_advanced_order(params: EmbedParams)
    ensures
        first_missing(params) is None <==> (params.mode is Some && params.block_size is Some
            && params.threads is Some && params.fps is Some && params.resolution is Some),
        first_missing(params) == Some(EmbedPrompt::Mode) <==> params.mode is None,
        first_missing(params) == Some(EmbedPrompt::BlockSize) <==> (params.mode is Some
            && params.block_size is None),
        first_missing(params) == Some(EmbedPrompt::Threads) <==> (params.mode is Some
            && params.block_size is Some && params.threads is None),
        first_missing(params) == Some(EmbedPrompt::Fps) <==> (params.mode is Some
            && params.block_size is Some && params.threads is Some && params.fps is None),
        first_missing(params) == Some(EmbedPrompt::Resolution) <==> (params.mode is Some
            && params.block_size is Some && params.threads is Some && params.fps is Some
            && params.resolution is None),
        first_missing(params) != Some(EmbedPrompt::InPath),
        first_missing(params) != Some(EmbedPrompt::Preset),
{
}

} // verus!
