//! The option grammars, the size-override arithmetic, the fingerprinting
//! of configurations, and the runner's boundary decisions.

use disson::cancel::{CancelError, CancelToken};
use disson::cli::{
    CacheMode, GenerateOpts, MapFormat, MapOutput, Output, OutputType, SizeOverride, FromStrErr,
};
use disson::codec::encode_key;
use disson::config::{GenerateConfig, MapConfig};
use disson::error::Error;
use disson::map::{CacheKey as MapKey, CacheValue as MapCacheValue, Config, ViewTransform};
use disson::runner::{conclude, watch_step, FsEventKind, RunnerEvent, WatchAction};

#[test]
fn cache_mode_words() {
    assert!(matches!(CacheMode::from_str(b""), CacheMode::File(None)));
    assert!(matches!(CacheMode::from_str(b"-"), CacheMode::Off));
    match CacheMode::from_str(b"/tmp/cache") {
        CacheMode::File(Some(p)) => assert_eq!(p, b"/tmp/cache".to_vec()),
        _ => panic!("an explicit directory expected"),
    }
}

#[test]
fn map_format_words() {
    assert_eq!(MapFormat::from_str(b"csv").unwrap(), MapFormat::csv());
    assert_eq!(MapFormat::from_str(b"TSV").unwrap(), MapFormat::tsv());
    assert_eq!(MapFormat::csv(), MapFormat::Xsv(b','));
    assert_eq!(MapFormat::tsv(), MapFormat::Xsv(b'\t'));
    assert_eq!(MapFormat::from_str(b"Png").unwrap(), MapFormat::Png);
    assert_eq!(MapFormat::from_str(b"bmp").unwrap_err(), FromStrErr::OneOf);
    assert_eq!(OutputType::from_str(b"CSV").unwrap(), OutputType::Csv);
    assert_eq!(OutputType::from_str(b"tsv").unwrap_err(), FromStrErr::OneOf);
    assert!(matches!(MapOutput::from_str(b"-"), MapOutput::Stdout));
    assert!(matches!(MapOutput::from_str(b"out.csv"), MapOutput::File(_)));
    assert!(matches!(Output::from_str(b"-"), Output::Stdout));
    assert!(matches!(Output::from_str(b"x"), Output::File(_)));
}

#[test]
fn size_override_grammar() {
    assert_eq!(SizeOverride::from_str(b"800w").unwrap(), SizeOverride::Width(800));
    assert_eq!(SizeOverride::from_str(b"600H").unwrap(), SizeOverride::Height(600));
    assert_eq!(SizeOverride::from_str(b"640x480").unwrap(), SizeOverride::Exact(640, 480));
    assert_eq!(SizeOverride::from_str(b"50%").unwrap(), SizeOverride::Percent(50, 0));
    assert_eq!(SizeOverride::from_str(b"12.5%").unwrap(), SizeOverride::Percent(125, 1));
    assert_eq!(SizeOverride::from_str(b"abc").unwrap_err(), FromStrErr::Custom);
    assert_eq!(SizeOverride::from_str(b"").unwrap_err(), FromStrErr::Custom);
    assert_eq!(SizeOverride::from_str(b"12.%").unwrap_err(), FromStrErr::Custom);
    assert_eq!(SizeOverride::from_str(b"5000000000w").unwrap_err(), FromStrErr::ParseInt);
    assert_eq!(
        SizeOverride::from_str(b"99999999999999999999%").unwrap_err(),
        FromStrErr::ParseFloat,
    );
    assert_eq!(SizeOverride::from_str(b"10x").unwrap_err(), FromStrErr::Custom);
}

#[test]
fn format_guessing_from_the_output() {
    let opts = GenerateOpts {
        config: b"cfg.ron".to_vec(),
        size: None,
        ty: Some(MapFormat::Png),
        out: MapOutput::Stdout,
    };
    assert_eq!(opts.ty().unwrap(), MapFormat::Png);

    let guess = |path: &[u8]| GenerateOpts {
        config: b"cfg.ron".to_vec(),
        size: None,
        ty: None,
        out: MapOutput::File(path.to_vec()),
    }.ty();
    assert_eq!(guess(b"map.png").unwrap(), MapFormat::Png);
    assert_eq!(guess(b"map.csv").unwrap(), MapFormat::Xsv(b','));
    assert_eq!(guess(b"map.tsv").unwrap(), MapFormat::Xsv(b'\t'));
    assert_eq!(guess(b"map.txt").unwrap(), MapFormat::Xsv(b'\t'));
    assert_eq!(guess(b"map").unwrap(), MapFormat::Xsv(b'\t'));
    assert_eq!(guess(b"dir.d/map").unwrap(), MapFormat::Xsv(b'\t'));
    assert_eq!(guess(b".hidden").unwrap(), MapFormat::Xsv(b'\t'));
    assert_eq!(guess(b"map.webp").unwrap_err(), FromStrErr::OneOf);

    let stdout_default = GenerateOpts {
        config: b"cfg.ron".to_vec(),
        size: None,
        ty: None,
        out: MapOutput::Stdout,
    };
    assert_eq!(stdout_default.ty().unwrap(), MapFormat::Xsv(b'\t'));
}

fn default_map() -> MapConfig {
    MapConfig::default()
}

#[test]
fn default_configuration() {
    let cfg = GenerateConfig::default();
    assert_eq!(cfg.map.width, 1000);
    assert_eq!(cfg.map.height, 1000);
    assert_eq!(f64::from_bits(cfg.map.base_frequency_bits), 440.0);
}

#[test]
fn size_override_scales_to_half() {
    // Configured 1000×1000 with a 50% override: the effective size is
    // 500×500, and its fingerprint differs from the unscaled one.
    let mut cfg = default_map();
    GenerateConfig::override_size(&SizeOverride::Percent(50, 0), &mut cfg).unwrap();
    assert_eq!((cfg.width, cfg.height), (500, 500));

    let key_scaled = encode_key(&disson::cache::CacheKey::MapDomain(MapKey(
        Config::for_generate(&cfg),
    )));
    let key_plain = encode_key(&disson::cache::CacheKey::MapDomain(MapKey(
        Config::for_generate(&default_map()),
    )));
    assert_ne!(key_scaled, key_plain);
}

#[test]
fn size_override_keeps_the_aspect_ratio() {
    let mut cfg = MapConfig { width: 1000, height: 500, ..default_map() };
    GenerateConfig::override_size(&SizeOverride::Width(800), &mut cfg).unwrap();
    assert_eq!((cfg.width, cfg.height), (800, 400));

    let mut cfg2 = MapConfig { width: 1000, height: 400, ..default_map() };
    GenerateConfig::override_size(&SizeOverride::Height(100), &mut cfg2).unwrap();
    assert_eq!((cfg2.width, cfg2.height), (250, 100));

    let mut cfg3 = default_map();
    GenerateConfig::override_size(&SizeOverride::Exact(64, 48), &mut cfg3).unwrap();
    assert_eq!((cfg3.width, cfg3.height), (64, 48));

    // Rounding is to the nearest cell, halves away from zero.
    let mut cfg4 = MapConfig { width: 1000, height: 3, ..default_map() };
    GenerateConfig::override_size(&SizeOverride::Width(500), &mut cfg4).unwrap();
    assert_eq!((cfg4.width, cfg4.height), (500, 2));
}

#[test]
fn size_override_rejects_a_collapsed_result() {
    let mut cfg = default_map();
    let r = GenerateConfig::override_size(&SizeOverride::Percent(1, 5), &mut cfg);
    assert!(matches!(r, Err(Error::InvalidSizeOverride)));
    // The configuration is untouched on failure.
    assert_eq!((cfg.width, cfg.height), (1000, 1000));

    let r2 = GenerateConfig::override_size(&SizeOverride::Percent(0, 0), &mut cfg);
    assert!(matches!(r2, Err(Error::InvalidSizeOverride)));
}

#[test]
fn fingerprints_separate_every_field() {
    let base = Config::for_generate(&default_map());
    let key = |c: Config| encode_key(&disson::cache::CacheKey::MapDomain(MapKey(c)));
    let mut other = base;
    other.pitch = disson::algo::PitchCurve::Edo;
    assert_ne!(key(base), key(other));
    let mut other2 = base;
    other2.base_hz_bits = 220.0f64.to_bits();
    assert_ne!(key(base), key(other2));
    let mut other3 = base;
    other3.view = ViewTransform { m01: 1, ..ViewTransform::identity() };
    assert_ne!(key(base), key(other3));
}

#[test]
fn runner_collapses_outcomes() {
    let v = conclude(RunnerEvent::<u32>::Interrupted);
    assert!(v.set_token && v.acknowledge);
    assert!(matches!(v.outcome, Ok(None)));

    let v2 = conclude(RunnerEvent::Finished(Ok(7u32)));
    assert!(v2.set_token && !v2.acknowledge);
    assert!(matches!(v2.outcome, Ok(Some(7))));

    let v3 = conclude(RunnerEvent::<u32>::Finished(Err(CancelError::Cancelled)));
    assert!(matches!(v3.outcome, Ok(None)));

    let v4 = conclude(RunnerEvent::<u32>::Finished(Err(CancelError::Failed(
        Error::InvalidSizeOverride,
    ))));
    assert!(matches!(v4.outcome, Err(Error::InvalidSizeOverride)));
}

#[test]
fn watch_reruns_only_on_data_modification_of_the_config() {
    let cfg = b"dir/site.ron";
    let msg = |k: FsEventKind, p: &[u8]| -> Result<(FsEventKind, Vec<u8>), Error> {
        Ok((k, p.to_vec()))
    };
    assert_eq!(watch_step(&msg(FsEventKind::DataModify, cfg), cfg), WatchAction::Rerun);
    assert_eq!(watch_step(&msg(FsEventKind::DataModify, b"dir/other"), cfg), WatchAction::Wait);
    assert_eq!(watch_step(&msg(FsEventKind::Other, cfg), cfg), WatchAction::Wait);
    assert_eq!(
        watch_step(&Err::<(FsEventKind, Vec<u8>), Error>(Error::InvalidSizeOverride), cfg),
        WatchAction::Abort,
    );
}

#[test]
fn cancel_token_reads_back_its_setting() {
    let t = CancelToken::new();
    assert!(t.try_weak().is_ok());
    assert!(t.try_strong().is_ok());
    t.set();
    assert!(t.try_weak().is_err());
    assert!(t.try_strong().is_err());
    let e = t.try_strong().unwrap_err();
    assert!(e.into_result().is_ok());
}

#[test]
fn conversion_reports_no_mismatch_for_the_only_domain() {
    let v = disson::cache::CacheValue::from_map(MapCacheValue::Histogram);
    assert!(v.into_map().is_ok());
}
