use macdirstat::cli::Cli;
use macdirstat::config::{
    default_worker_count, flag_pair, missing_config, AppPaths, FileConfig, Settings,
};
use macdirstat::path::FilePath;
use macdirstat::theme::ThemeKind;
use macdirstat::tree::{SizeMode, SortDirection, SortKey};

fn path(text: &str) -> FilePath {
    FilePath::from_text(text)
}

fn parse(arguments: &[&str]) -> Cli {
    let arguments: Vec<String> = arguments.iter().map(|word| word.to_string()).collect();
    Cli::try_parse_from(&arguments).unwrap()
}

fn paths() -> AppPaths {
    AppPaths::discover(None, &path("/config"), &path("/cache"))
}

#[test]
fn empty_config_uses_phase_two_defaults() {
    let cli = parse(&["macDirStat", "--config", "/settings.toml"]);
    let settings = Settings::load(&cli, &FileConfig::default(), 4, paths()).unwrap();
    assert_eq!(settings.size_mode, SizeMode::Logical);
    assert!(settings.one_file_system);
    assert!(settings.cache_enabled);
    assert_eq!(settings.cache_ttl, 24 * 60 * 60);
    assert!(!settings.mouse);
    assert_eq!(settings.theme, ThemeKind::Default);
    assert!(settings.detail_panel);
    assert_eq!(settings.sort.key, SortKey::Size);
    assert_eq!(settings.sort.direction, SortDirection::Descending);
    assert_eq!(settings.workers, 4);
    assert!(!settings.watch);
    assert_eq!(settings.watch_debounce, 750);
    assert!(settings.snapshots);
}

#[test]
fn cli_overrides_toml_and_defaults() {
    let config = FileConfig {
        workers: Some(2),
        size_mode: Some(SizeMode::Physical),
        one_file_system: Some(false),
        mouse: Some(true),
        sort: Some(SortKey::Name),
        ..FileConfig::default()
    };
    let cli = parse(&[
        "macDirStat",
        "--config",
        "/settings.toml",
        "--workers",
        "3",
        "--size-mode",
        "logical",
        "--one-file-system",
        "--no-mouse",
    ]);
    let settings = Settings::load(&cli, &config, 8, paths()).unwrap();
    assert_eq!(settings.workers, 3);
    assert_eq!(settings.size_mode, SizeMode::Logical);
    assert!(settings.one_file_system);
    assert!(!settings.mouse);
    assert_eq!(settings.sort.key, SortKey::Name);
    assert_eq!(settings.sort.direction, SortDirection::Ascending);
}

#[test]
fn rejects_invalid_config_values() {
    let cli = parse(&["macDirStat"]);
    let config = FileConfig { workers: Some(0), ..FileConfig::default() };
    let error = Settings::load(&cli, &config, 1, paths()).err();
    assert_eq!(error.as_deref(), Some("workers must be greater than zero"));
    let config = FileConfig { cache_ttl_hours: Some(0), ..FileConfig::default() };
    let error = Settings::load(&cli, &config, 1, paths()).err();
    assert_eq!(error.as_deref(), Some("cache_ttl_hours must be greater than zero"));
}

#[test]
fn the_time_to_live_is_counted_in_seconds() {
    let cli = parse(&["macDirStat"]);
    let config = FileConfig { cache_ttl_hours: Some(2), ..FileConfig::default() };
    assert_eq!(Settings::load(&cli, &config, 1, paths()).unwrap().cache_ttl, 7_200);
    let config = FileConfig { cache_ttl_hours: Some(u64::MAX), ..FileConfig::default() };
    assert_eq!(Settings::load(&cli, &config, 1, paths()).unwrap().cache_ttl, u64::MAX);
}

#[test]
fn the_file_speaks_where_the_command_line_is_silent() {
    let config = FileConfig {
        workers: Some(2),
        size_mode: Some(SizeMode::Physical),
        cache: Some(false),
        theme: Some(ThemeKind::HighContrast),
        detail_panel: Some(false),
        watch: Some(true),
        watch_debounce_ms: Some(100),
        snapshots: Some(false),
        ..FileConfig::default()
    };
    let settings = Settings::load(&parse(&["macDirStat"]), &config, 8, paths()).unwrap();
    assert_eq!(settings.workers, 2);
    assert_eq!(settings.size_mode, SizeMode::Physical);
    assert!(!settings.cache_enabled);
    assert_eq!(settings.theme, ThemeKind::HighContrast);
    assert!(!settings.detail_panel);
    assert!(settings.watch);
    assert_eq!(settings.watch_debounce, 100);
    assert!(!settings.snapshots);
}

#[test]
fn paths_are_found_below_the_given_directories() {
    let found = paths();
    assert_eq!(found.config_file, path("/config/config.toml"));
    assert_eq!(found.cache_file, path("/cache/scan-cache-v1.json"));
    let found = AppPaths::discover(Some(path("/mine.toml")), &path("/config"), &path("/cache"));
    assert_eq!(found.config_file, path("/mine.toml"));
}

#[test]
fn a_missing_file_is_an_error_only_if_it_was_asked_for() {
    let config = missing_config(false, &path("/config/config.toml")).unwrap();
    assert!(config.workers.is_none());
    let message = missing_config(true, &path("/mine.toml")).unwrap_err();
    assert!(message.contains("/mine.toml"));
}

#[test]
fn flags_come_before_what_they_fall_back_on() {
    assert!(flag_pair(true, false, false));
    assert!(!flag_pair(false, true, true));
    assert!(flag_pair(false, false, true));
    assert!(!flag_pair(false, false, false));
}

#[test]
fn there_are_at_least_one_and_at_most_eight_default_workers() {
    assert_eq!(default_worker_count(Some(4)), 4);
    assert_eq!(default_worker_count(Some(64)), 8);
    assert_eq!(default_worker_count(None), 1);
}
