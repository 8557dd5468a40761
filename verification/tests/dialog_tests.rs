use isg::args::{
    embed_config, resolution_size, DislodgeParams, DownloadParams, EmbedConfig, EmbedOutputMode,
    EmbedParams, EmbedPreset,
};
use isg::settings::Settings;
use isg::settings::OutputMode;
use isg::timer::{pick_unit, TimeUnit, Timer};
use isg::ui::{
    answer_embed, answer_preset, download_needs_url, embed_step, next_dislodge_prompt,
    DislodgePrompt, EmbedAnswer, EmbedPrompt, EmbedStage, EmbedStep,
};

#[test]
fn embed_output_mode_converts() {
    assert_eq!(OutputMode::from(EmbedOutputMode::Colored), OutputMode::Color);
    assert_eq!(OutputMode::from(EmbedOutputMode::Binary), OutputMode::Binary);
}

#[test]
fn dialog_with_preset() {
    let params = EmbedParams::default();
    let (step, stage) = embed_step(&params, EmbedStage::Path);
    assert_eq!(step, EmbedStep::Ask(EmbedPrompt::InPath));
    assert_eq!(stage, EmbedStage::Path);
    let params = answer_embed(params, EmbedAnswer::InPath("a.zip".to_string()));
    assert_eq!(params.in_path, Some("a.zip".to_string()));
    let (step, stage) = embed_step(&params, stage);
    assert_eq!(step, EmbedStep::Warn);
    assert_eq!(stage, EmbedStage::Preset);
    let (step, stage) = embed_step(&params, stage);
    assert_eq!(step, EmbedStep::Ask(EmbedPrompt::Preset));
    let (params, stage) = answer_preset(params, Some(EmbedPreset::Optimal));
    assert_eq!(stage, EmbedStage::Done);
    assert_eq!(params.preset, Some(EmbedPreset::Optimal));
    assert_eq!(embed_step(&params, stage).0, EmbedStep::Finish);
}

#[test]
fn dialog_custom_asks_every_advanced_option() {
    let mut params = EmbedParams::default();
    params.in_path = Some("x".to_string());
    let (step, stage) = embed_step(&params, EmbedStage::Path);
    assert_eq!(step, EmbedStep::Warn);
    let (step, stage) = embed_step(&params, stage);
    assert_eq!(step, EmbedStep::Ask(EmbedPrompt::Preset));
    let (mut params, mut stage) = answer_preset(params, None);
    assert_eq!(stage, EmbedStage::Advanced);
    let answers = vec![
        (EmbedPrompt::Mode, EmbedAnswer::Mode(EmbedOutputMode::Binary)),
        (EmbedPrompt::BlockSize, EmbedAnswer::BlockSize(2)),
        (EmbedPrompt::Threads, EmbedAnswer::Threads(8)),
        (EmbedPrompt::Fps, EmbedAnswer::Fps(10)),
        (EmbedPrompt::Resolution, EmbedAnswer::Resolution("720p".to_string())),
    ];
    for (prompt, answer) in answers {
        let (step, next) = embed_step(&params, stage);
        assert_eq!(step, EmbedStep::Ask(prompt));
        stage = next;
        params = answer_embed(params, answer);
    }
    let (step, stage) = embed_step(&params, stage);
    assert_eq!(step, EmbedStep::Finish);
    assert_eq!(stage, EmbedStage::Done);
    assert_eq!(params.block_size, Some(2));
    assert_eq!(params.threads, Some(8));
    assert_eq!(params.fps, Some(10));
    assert_eq!(params.resolution, Some("720p".to_string()));
    assert_eq!(params.preset, None);
}

#[test]
fn dialog_skips_preset_when_an_option_is_set() {
    let mut params = EmbedParams::default();
    params.in_path = Some("x".to_string());
    params.fps = Some(30);
    let (step, stage) = embed_step(&params, EmbedStage::Preset);
    assert_eq!(step, EmbedStep::Ask(EmbedPrompt::Mode));
    assert_eq!(stage, EmbedStage::Advanced);
    params.mode = Some(EmbedOutputMode::Colored);
    params.block_size = Some(1);
    params.threads = Some(1);
    let (step, _) = embed_step(&params, stage);
    assert_eq!(step, EmbedStep::Ask(EmbedPrompt::Resolution));
}

#[test]
fn dislodge_and_download_dialogs() {
    let mut p = DislodgeParams::default();
    assert_eq!(next_dislodge_prompt(&p), Some(DislodgePrompt::InPath));
    p.in_path = Some("v.avi".to_string());
    assert_eq!(next_dislodge_prompt(&p), Some(DislodgePrompt::OutPath));
    p.out_path = Some("out.zip".to_string());
    assert_eq!(next_dislodge_prompt(&p), None);
    let mut d = DownloadParams::default();
    assert!(download_needs_url(&d));
    d.url = Some("https://example.com".to_string());
    assert!(!download_needs_url(&d));
}

#[test]
fn timer_units() {
    assert_eq!(pick_unit(9999), (9999, TimeUnit::Micros));
    assert_eq!(pick_unit(10000), (10, TimeUnit::Millis));
    assert_eq!(pick_unit(123456), (123, TimeUnit::Millis));
    let t = Timer::new("Etching video");
    assert_eq!(t.title(), "Etching video");
    let (value, unit) = t.elapsed();
    if unit == TimeUnit::Micros {
        assert!(value < 10000);
    }
}

#[test]
fn dialog_keeps_a_given_preset() {
    let mut params = EmbedParams::default();
    params.in_path = Some("x".to_string());
    params.preset = Some(EmbedPreset::Paranoid);
    let (step, stage) = embed_step(&params, EmbedStage::Path);
    assert_eq!(step, EmbedStep::Warn);
    let (step, stage) = embed_step(&params, stage);
    assert_eq!(step, EmbedStep::Finish);
    assert_eq!(stage, EmbedStage::Done);
    assert_eq!(params.preset, Some(EmbedPreset::Paranoid));
}

#[test]
fn resolution_names() {
    assert_eq!(resolution_size("144"), (256, 144));
    assert_eq!(resolution_size("144p"), (256, 144));
    assert_eq!(resolution_size("240p"), (426, 240));
    assert_eq!(resolution_size("360"), (640, 360));
    assert_eq!(resolution_size("480"), (854, 480));
    assert_eq!(resolution_size("720p"), (1280, 720));
    // anything else defaults to 360p
    assert_eq!(resolution_size("1080"), (640, 360));
    assert_eq!(resolution_size(""), (640, 360));
    assert_eq!(resolution_size("720pp"), (640, 360));
}

#[test]
fn config_from_preset_and_overrides() {
    let mut params = EmbedParams::default();
    params.preset = Some(EmbedPreset::Optimal);
    assert_eq!(
        embed_config(&params),
        Some(EmbedConfig {
            out_mode: OutputMode::Binary,
            settings: Settings::new(2, 10, 1280, 720),
            threads: 8,
        })
    );
    // more specific options override the preset's
    params.block_size = Some(5);
    params.resolution = Some("144p".to_string());
    params.mode = Some(EmbedOutputMode::Colored);
    assert_eq!(
        embed_config(&params),
        Some(EmbedConfig {
            out_mode: OutputMode::Color,
            settings: Settings::new(5, 10, 256, 144),
            threads: 8,
        })
    );
    let mut params = EmbedParams::default();
    params.preset = Some(EmbedPreset::MaxEfficiency);
    let c = embed_config(&params).unwrap();
    assert_eq!((c.out_mode, c.settings.size), (OutputMode::Color, 1));
    params.preset = Some(EmbedPreset::Paranoid);
    assert_eq!(embed_config(&params).unwrap().settings.size, 4);
}

#[test]
fn config_without_preset_needs_every_option() {
    let mut params = EmbedParams::default();
    params.mode = Some(EmbedOutputMode::Binary);
    params.block_size = Some(3);
    params.threads = Some(2);
    params.fps = Some(24);
    assert_eq!(embed_config(&params), None);
    params.resolution = Some("weird".to_string());
    assert_eq!(
        embed_config(&params),
        Some(EmbedConfig {
            out_mode: OutputMode::Binary,
            settings: Settings::new(3, 24, 640, 360),
            threads: 2,
        })
    );
}

#[test]
fn dialog_with_preset_asks_missing_options() {
    let mut params = EmbedParams::default();
    params.in_path = Some("x".to_string());
    params.preset = Some(EmbedPreset::Optimal);
    params.mode = Some(EmbedOutputMode::Binary);
    let (step, stage) = embed_step(&params, EmbedStage::Preset);
    assert_eq!(step, EmbedStep::Ask(EmbedPrompt::BlockSize));
    assert_eq!(stage, EmbedStage::Advanced);
    let params = answer_embed(params, EmbedAnswer::BlockSize(3));
    let (step, _) = embed_step(&params, stage);
    assert_eq!(step, EmbedStep::Ask(EmbedPrompt::Threads));
    assert_eq!(params.preset, Some(EmbedPreset::Optimal));
}
