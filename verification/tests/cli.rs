use macdirstat::cli::Cli;
use macdirstat::cli::{check_number, parse_whole, NumberError, NumberKind};
use macdirstat::path::FilePath;
use macdirstat::release::is_release_version;
use macdirstat::snapshot::VERSION;
use macdirstat::theme::ThemeKind;
use macdirstat::tree::{SizeMode, SortDirection, SortKey};

fn parse(arguments: &[&str]) -> Result<Cli, macdirstat::cli::CliError> {
    let arguments: Vec<String> = arguments.iter().map(|word| word.to_string()).collect();
    Cli::try_parse_from(&arguments)
}

#[test]
fn reports_version_from_version_file() {
    assert_eq!(Cli::version(), VERSION);
    assert_eq!(Cli::version(), "0.3.1");
    assert!(is_release_version(Cli::version()));
}

#[test]
fn long_help_is_a_complete_manpage() {
    let help = Cli::long_help();

    for section in [
        "MACDIRSTAT(1)",
        "NAME",
        "SYNOPSIS",
        "DESCRIPTION",
        "ARGUMENTS",
        "OPTIONS",
        "INTERACTIVE KEYS",
        "FILTER SYNTAX",
        "CONFIGURATION",
        "FILES",
        "EXAMPLES",
        "EXIT STATUS",
    ] {
        assert!(help.contains(section), "missing help section: {section}");
    }

    for option in [
        "--config",
        "--workers",
        "--size-mode",
        "--one-file-system",
        "--cross-filesystems",
        "--cache",
        "--no-cache",
        "--cache-ttl-hours",
        "--mouse",
        "--no-mouse",
        "--theme",
        "--details",
        "--no-details",
        "--sort",
        "--sort-direction",
        "--watch",
        "--no-watch",
        "--snapshots",
        "--no-snapshots",
        "--export-json",
        "--compare-snapshot",
        "--detect-duplicates",
        "--help",
        "--version",
    ] {
        assert!(help.contains(option), "missing documented option: {option}");
    }
}

#[test]
fn defaults_to_current_directory() {
    let cli = parse(&["macDirStat"]).expect("CLI should parse");
    assert_eq!(cli.path, FilePath::from_text("."));
    assert!(cli.workers.is_none());
}

#[test]
fn parses_phase_two_options() {
    let cli = parse(&[
        "macDirStat",
        "--workers",
        "3",
        "--size-mode",
        "physical",
        "--cross-filesystems",
        "--no-cache",
        "--mouse",
        "--theme",
        "monochrome",
        "/tmp",
    ])
    .expect("CLI should parse");
    assert_eq!(cli.path, FilePath::from_text("/tmp"));
    assert_eq!(cli.workers.unwrap(), 3);
    assert_eq!(cli.size_mode, Some(SizeMode::Physical));
    assert!(cli.cross_filesystems);
    assert!(cli.no_cache);
    assert!(cli.mouse);
    assert_eq!(cli.theme, Some(ThemeKind::Monochrome));
}

#[test]
fn rejects_zero_workers_and_conflicting_flags() {
    assert!(parse(&["macDirStat", "--workers", "0"]).is_err());
    assert!(parse(&["macDirStat", "--mouse", "--no-mouse"]).is_err());
    assert!(parse(&["macDirStat", "--watch", "--export-json", "-"]).is_err());
}

#[test]
fn parses_phase_three_options() {
    let cli = parse(&[
        "macDirStat",
        "--watch",
        "--snapshots",
        "--compare-snapshot",
        "before.json",
        "--detect-duplicates",
    ])
    .unwrap();
    assert!(cli.watch);
    assert!(cli.snapshots);
    assert_eq!(cli.compare_snapshot, Some(FilePath::from_text("before.json")));
    assert!(cli.detect_duplicates);
}

#[test]
fn reads_sort_options_and_numbers() {
    let cli = parse(&[
        "macDirStat",
        "--sort",
        "files",
        "--sort-direction",
        "ascending",
        "--cache-ttl-hours",
        "12",
        "--config",
        "/etc/settings.toml",
    ])
    .unwrap();
    assert_eq!(cli.sort, Some(SortKey::Files));
    assert_eq!(cli.sort_direction, Some(SortDirection::Ascending));
    assert_eq!(cli.cache_ttl_hours, Some(12));
    assert_eq!(cli.config, Some(FilePath::from_text("/etc/settings.toml")));
}

#[test]
fn every_pair_of_opposite_flags_conflicts() {
    for (first, second) in [
        ("--one-file-system", "--cross-filesystems"),
        ("--cache", "--no-cache"),
        ("--mouse", "--no-mouse"),
        ("--details", "--no-details"),
        ("--watch", "--no-watch"),
        ("--snapshots", "--no-snapshots"),
    ] {
        assert!(parse(&["macDirStat", first]).is_ok());
        assert!(parse(&["macDirStat", second]).is_ok());
        let error = parse(&["macDirStat", first, second]).unwrap_err();
        assert!(!error.help);
        assert_eq!(error.exit_code, 2);
        let error = parse(&["macDirStat", second, first]).unwrap_err();
        assert_eq!(error.exit_code, 2);
    }
}

#[test]
fn mistakes_and_requests_for_help_are_told_apart() {
    let help = parse(&["macDirStat", "--help"]).unwrap_err();
    assert!(help.help);
    assert_eq!(help.exit_code, 0);
    assert!(help.message.contains("INTERACTIVE KEYS"));
    let version = parse(&["macDirStat", "--version"]).unwrap_err();
    assert_eq!(version.exit_code, 0);
    assert!(version.message.contains("0.3.1"));
    let mistake = parse(&["macDirStat", "--unheard-of"]).unwrap_err();
    assert!(!mistake.help);
    assert_eq!(mistake.exit_code, 2);
    let mistake = parse(&["macDirStat", "--theme", "ultraviolet"]).unwrap_err();
    assert_eq!(mistake.exit_code, 2);
    let mistake = parse(&["macDirStat", "--workers", "three"]).unwrap_err();
    assert_eq!(mistake.exit_code, 2);
}

#[test]
fn numbers_are_read_within_their_limit() {
    assert_eq!(parse_whole("0", 10), Ok(0));
    assert_eq!(parse_whole("007", 10), Ok(7));
    assert_eq!(parse_whole("10", 10), Ok(10));
    assert_eq!(parse_whole("11", 10), Err(NumberError::TooLarge));
    assert_eq!(parse_whole("", 10), Err(NumberError::Empty));
    assert_eq!(parse_whole("1x", 10), Err(NumberError::InvalidDigit));
    assert_eq!(parse_whole("18446744073709551615", u64::MAX), Ok(u64::MAX));
    assert_eq!(parse_whole("18446744073709551616", u64::MAX), Err(NumberError::TooLarge));
}

#[test]
fn release_versions_have_three_plain_numbers() {
    for version in ["0.0.0", "1.2.3", "10.20.30", "0.3.1"] {
        assert!(is_release_version(version), "{version}");
    }
    for version in ["", "1", "1.2", "1.2.3.4", "1..3", ".1.2", "1.2.", "01.2.3", "1.2.x", "1.2.3-rc"] {
        assert!(!is_release_version(version), "{version}");
    }
}

#[test]
fn the_first_mistake_is_the_one_that_is_told() {
    let told = "error: invalid value '0' for '--workers <N>': number would be zero for non-zero type\n\nFor more information, try '--help'.\n";
    let error = parse(&["macDirStat", "--workers", "0", "--theme", "ultraviolet"]).unwrap_err();
    assert_eq!(error.message, told);
    let mut values: Vec<Option<String>> = vec![None; 23];
    values[2] = Some("0".to_owned());
    assert_eq!(Cli::from_values(&values).unwrap_err().message, told);
    let error = parse(&["macDirStat", "--cache-ttl-hours", "1x"]).unwrap_err();
    values[2] = None;
    values[8] = Some("1x".to_owned());
    assert_eq!(Cli::from_values(&values).unwrap_err().message, error.message);
    assert_eq!(
        check_number(NumberKind::Whole, "18446744073709551616").unwrap_err(),
        "number too large to fit in target type"
    );
    assert_eq!(check_number(NumberKind::Whole, "0").unwrap(), "0");
    assert_eq!(
        check_number(NumberKind::Positive, "").unwrap_err(),
        "cannot parse integer from empty string"
    );
}

#[test]
fn an_empty_path_is_no_path() {
    let options = [
        (0, "", "[PATH]"),
        (1, "--config", "--config <PATH>"),
        (20, "--export-json", "--export-json <FILE>"),
        (21, "--compare-snapshot", "--compare-snapshot <FILE>"),
    ];
    for (place, option, shown) in options {
        let told = format!(
            "error: a value is required for '{shown}' but none was supplied\n\nFor more information, try '--help'.\n"
        );
        let mut arguments = vec!["macDirStat"];
        if !option.is_empty() {
            arguments.push(option);
        }
        arguments.push("");
        let error = parse(&arguments).unwrap_err();
        assert!(!error.help);
        assert_eq!(error.exit_code, 2);
        assert_eq!(error.message, told);
        let mut values: Vec<Option<String>> = vec![None; 23];
        values[place] = Some(String::new());
        let error = Cli::from_values(&values).unwrap_err();
        assert!(!error.help);
        assert_eq!(error.exit_code, 2);
        assert_eq!(error.message, told);
    }
    let values: Vec<Option<String>> = vec![None; 23];
    assert_eq!(Cli::from_values(&values).unwrap().path, FilePath::from_text("."));
}
