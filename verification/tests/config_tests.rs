use arbor::args::{Args, ColorMode};
use arbor::config::{AppConfig, OutputFormat};

#[test]
fn conflict_json_and_count() {
    let mut args = Args::default();
    args.json = true;
    args.count = true;
    let err = AppConfig::from_raw(args).unwrap_err();
    assert!(err.contains("mutually exclusive"));
}

#[test]
fn depth_zero_is_rejected() {
    let mut args = Args::default();
    args.depth = Some(0);
    let err = AppConfig::from_raw(args).unwrap_err();
    assert!(err.contains("--depth must be >= 1"));
}

#[test]
fn defaults_map_to_stdout_mode() {
    let args = Args::default();
    let cfg = AppConfig::from_raw(args).unwrap();

    assert!(matches!(cfg.output, OutputFormat::Tree));

    assert!(cfg.walk.follow_gitignore);
    assert!(!cfg.walk.include_hidden);
    assert!(cfg.walk.depth.is_none());

    assert_eq!(cfg.render.color, ColorMode::Auto);
    assert!(!cfg.render.icons);

    assert!(!cfg.git.enabled);
    assert!(!cfg.git.show_branch);

    assert!(!cfg.runtime.measure_time);
    assert!(!cfg.runtime.verbose);
    assert_eq!(cfg.runtime.root, ".");
}

#[test]
fn maps_flags_to_config_correctly() {
    let mut args = Args::default();
    args.show_gitignored = true;
    args.show_hiddens = true;
    args.depth = Some(3);
    args.color = ColorMode::Never;
    args.icons = true;
    args.git = true;
    args.git_branch = true;
    args.time = true;
    args.verbose = true;
    args.root = "root_dir".to_string();

    let cfg = AppConfig::from_raw(args).unwrap();

    assert!(!cfg.walk.follow_gitignore);
    assert!(cfg.walk.include_hidden);
    assert_eq!(cfg.walk.depth, Some(3));

    assert_eq!(cfg.render.color, ColorMode::Never);
    assert!(cfg.render.icons);

    assert!(cfg.git.enabled);
    assert!(cfg.git.show_branch);

    assert!(matches!(cfg.output, OutputFormat::Tree));

    assert!(cfg.runtime.measure_time);
    assert!(cfg.runtime.verbose);
    assert_eq!(cfg.runtime.root, "root_dir");
}

#[test]
fn selects_output_modes_json_and_count() {
    let mut args_json = Args::default();
    args_json.json = true;
    let cfg_json = AppConfig::from_raw(args_json).unwrap();
    assert!(matches!(cfg_json.output, OutputFormat::Json));

    let mut args_count = Args::default();
    args_count.count = true;
    let cfg_count = AppConfig::from_raw(args_count).unwrap();
    assert!(matches!(cfg_count.output, OutputFormat::Count));
}
