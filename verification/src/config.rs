//! Settings: built-in defaults, the configuration file and the command line.
use vstd::prelude::*;
use vstd::string::StringExecFns;

use crate::cli::Cli;
use crate::path;
use crate::path::FilePath;
use crate::text;
use crate::theme::ThemeKind;
use crate::tree::{SizeMode, SortDirection, SortKey, SortSpec};

verus! {

pub const DEFAULT_CACHE_TTL_HOURS: u64 = 24;

pub const DEFAULT_WATCH_DEBOUNCE_MS: u64 = 750;

/// The largest number of workers that is chosen without being asked for.
pub const MOST_DEFAULT_WORKERS: usize = 8;

/// Where the program keeps its files.
#[derive(Debug)]
pub struct AppPaths {
    pub config_file: FilePath,
    pub cache_file: FilePath,
    pub snapshots_dir: FilePath,
}

impl Clone for AppPaths {
    fn clone(&self) -> (copy: Self)
        ensures
            copy == *self,
    {
        AppPaths {
            config_file: self.config_file.clone(),
            cache_file: self.cache_file.clone(),
            snapshots_dir: self.snapshots_dir.clone(),
        }
    }
}

fn joined(directory: &FilePath, name: &str) -> (path: FilePath)
    ensures
        path@ == path::joined_path(directory@, vstd::utf8::encode_utf8(name@)),
{
    directory.join(&FilePath::from_text(name))
}

impl AppPaths {
    /// The files in the directories for configuration and for caches, unless
    /// another configuration file was asked for.
    pub fn discover(
        config_override: Option<FilePath>,
        config_directory: &FilePath,
        cache_directory: &FilePath,
    ) -> (paths: Self)
        ensures
            paths.config_file@ == match config_override {
                Some(path) => path@,
                None => path::joined_path(
                    config_directory@,
                    vstd::utf8::encode_utf8("config.toml"@),
                ),
            },
            paths.cache_file@ == path::joined_path(
                cache_directory@,
                vstd::utf8::encode_utf8("scan-cache-v1.json"@),
            ),
            paths.snapshots_dir@ == path::joined_path(
                config_directory@,
                vstd::utf8::encode_utf8("snapshots"@),
            ),
    {
        AppPaths {
            config_file: match config_override {
                Some(path) => path,
                None => joined(config_directory, "config.toml"),
            },
            cache_file: joined(cache_directory, "scan-cache-v1.json"),
            snapshots_dir: joined(config_directory, "snapshots"),
        }
    }
}

/// The settings of a run. `cache_ttl` counts seconds, `watch_debounce`
/// milliseconds.
#[derive(Debug)]
pub struct Settings {
    pub workers: usize,
    pub size_mode: SizeMode,
    pub one_file_system: bool,
    pub cache_enabled: bool,
    pub cache_ttl: u64,
    pub mouse: bool,
    pub theme: ThemeKind,
    pub detail_panel: bool,
    pub sort: SortSpec,
    pub watch: bool,
    pub watch_debounce: u64,
    pub snapshots: bool,
    pub export_json: Option<FilePath>,
    pub compare_snapshot: Option<FilePath>,
    pub detect_duplicates: bool,
    pub paths: AppPaths,
}

/// What a configuration file may say.
#[derive(Debug)]
pub struct FileConfig {
    pub workers: Option<usize>,
    pub size_mode: Option<SizeMode>,
    pub one_file_system: Option<bool>,
    pub cache: Option<bool>,
    pub cache_ttl_hours: Option<u64>,
    pub mouse: Option<bool>,
    pub theme: Option<ThemeKind>,
    pub detail_panel: Option<bool>,
    pub sort: Option<SortKey>,
    pub sort_direction: Option<SortDirection>,
    pub watch: Option<bool>,
    pub watch_debounce_ms: Option<u64>,
    pub snapshots: Option<bool>,
}

impl FileConfig {
    /// A configuration that says nothing.
    pub open spec fn silent() -> FileConfig {
        FileConfig {
            workers: None,
            size_mode: None,
            one_file_system: None,
            cache: None,
            cache_ttl_hours: None,
            mouse: None,
            theme: None,
            detail_panel: None,
            sort: None,
            sort_direction: None,
            watch: None,
            watch_debounce_ms: None,
            snapshots: None,
        }
    }
}

impl Default for FileConfig {
    fn default() -> (config: Self)
        ensures
            config == FileConfig::silent(),
    {
        FileConfig {
            workers: None,
            size_mode: None,
            one_file_system: None,
            cache: None,
            cache_ttl_hours: None,
            mouse: None,
            theme: None,
            detail_panel: None,
            sort: None,
            sort_direction: None,
            watch: None,
            watch_debounce_ms: None,
            snapshots: None,
        }
    }
}

/// A setting with a pair of flags: the flags come first, then the fallback.
pub open spec fn flagged(positive: bool, negative: bool, fallback: bool) -> bool {
    positive || (!negative && fallback)
}

pub fn flag_pair(positive: bool, negative: bool, fallback: bool) -> (result: bool)
    ensures
        result == flagged(positive, negative, fallback),
{
    if positive {
        true
    } else if negative {
        false
    } else {
        fallback
    }
}

/// The first of two values that is there, or a default.
pub open spec fn first_of<T>(first: Option<T>, second: Option<T>, default: T) -> T {
    match first {
        Some(value) => value,
        None => match second {
            Some(value) => value,
            None => default,
        },
    }
}

fn pick<T: Copy>(first: Option<T>, second: Option<T>, default: T) -> (value: T)
    ensures
        value == first_of(first, second, default),
{
    match first {
        Some(value) => value,
        None => match second {
            Some(value) => value,
            None => default,
        },
    }
}

/// How many workers are usual on a machine that can run so many at a time.
pub open spec fn usual_workers(available: Option<usize>) -> usize {
    match available {
        Some(count) => if count < MOST_DEFAULT_WORKERS {
            count
        } else {
            MOST_DEFAULT_WORKERS
        },
        None => 1,
    }
}

/// The number of workers for a machine.
pub fn default_worker_count(available: Option<usize>) -> (workers: usize)
    ensures
        workers == usual_workers(available),
        workers == match available {
            Some(count) => if count < MOST_DEFAULT_WORKERS {
                count
            } else {
                MOST_DEFAULT_WORKERS
            },
            None => 1,
        },
{
    match available {
        Some(count) => if count < MOST_DEFAULT_WORKERS {
            count
        } else {
            MOST_DEFAULT_WORKERS
        },
        None => 1,
    }
}

/// What is wrong with settings: a number that has to be positive is zero.
pub open spec fn settings_error(cli: Cli, config: FileConfig, default_workers: usize) -> Option<
    Seq<char>,
> {
    if first_of(cli.workers, config.workers, default_workers) == 0 {
        Some("workers must be greater than zero"@)
    } else if first_of(cli.cache_ttl_hours, config.cache_ttl_hours, DEFAULT_CACHE_TTL_HOURS) == 0 {
        Some("cache_ttl_hours must be greater than zero"@)
    } else {
        None
    }
}

/// The settings that a command line and a configuration file give: the command
/// line comes first, then the file, then the built-in default.
pub open spec fn merged(
    cli: Cli,
    config: FileConfig,
    default_workers: usize,
    paths: AppPaths,
) -> Settings {
    let hours = first_of(cli.cache_ttl_hours, config.cache_ttl_hours, DEFAULT_CACHE_TTL_HOURS);
    let key = first_of(cli.sort, config.sort, SortKey::Size);
    Settings {
        workers: first_of(cli.workers, config.workers, default_workers),
        size_mode: first_of(cli.size_mode, config.size_mode, SizeMode::Logical),
        one_file_system: flagged(
            cli.one_file_system,
            cli.cross_filesystems,
            first_of(config.one_file_system, None, true),
        ),
        cache_enabled: flagged(cli.cache, cli.no_cache, first_of(config.cache, None, true)),
        cache_ttl: if hours * 3600 > u64::MAX {
            u64::MAX
        } else {
            (hours * 3600) as u64
        },
        mouse: flagged(cli.mouse, cli.no_mouse, first_of(config.mouse, None, false)),
        theme: first_of(cli.theme, config.theme, ThemeKind::Default),
        detail_panel: flagged(
            cli.details,
            cli.no_details,
            first_of(config.detail_panel, None, true),
        ),
        sort: SortSpec {
            key,
            direction: first_of(cli.sort_direction, config.sort_direction, key.natural_direction()),
        },
        watch: flagged(cli.watch, cli.no_watch, first_of(config.watch, None, false)),
        watch_debounce: first_of(config.watch_debounce_ms, None, DEFAULT_WATCH_DEBOUNCE_MS),
        snapshots: flagged(
            cli.snapshots,
            cli.no_snapshots,
            first_of(config.snapshots, None, true),
        ),
        export_json: cli.export_json,
        compare_snapshot: cli.compare_snapshot,
        detect_duplicates: cli.detect_duplicates,
        paths,
    }
}

fn copy_path(path: &Option<FilePath>) -> (copy: Option<FilePath>)
    ensures
        copy == *path,
{
    match path {
        Some(path) => Some(path.clone()),
        None => None,
    }
}

impl Settings {
    /// The settings of a run.
    pub fn load(
        cli: &Cli,
        config: &FileConfig,
        default_workers: usize,
        paths: AppPaths,
    ) -> (settings: Result<Settings, String>)
        ensures
            match settings {
                Ok(settings) => settings_error(*cli, *config, default_workers) is None && settings
                    == merged(*cli, *config, default_workers, paths),
                Err(message) => settings_error(*cli, *config, default_workers) == Some(message@),
            },
    {
        let workers: usize = pick(cli.workers, config.workers, default_workers);
        if workers == 0 {
            return Err("workers must be greater than zero".to_owned());
        }
        let hours: u64 = pick(
            cli.cache_ttl_hours,
            config.cache_ttl_hours,
            DEFAULT_CACHE_TTL_HOURS,
        );
        if hours == 0 {
            return Err("cache_ttl_hours must be greater than zero".to_owned());
        }
        let cache_ttl: u64 = match hours.checked_mul(3600) {
            Some(seconds) => seconds,
            None => u64::MAX,
        };
        let key = pick(cli.sort, config.sort, SortKey::Size);
        let direction = pick(cli.sort_direction, config.sort_direction, key.default_direction());
        Ok(
            Settings {
                workers,
                size_mode: pick(cli.size_mode, config.size_mode, SizeMode::Logical),
                one_file_system: flag_pair(
                    cli.one_file_system,
                    cli.cross_filesystems,
                    pick(config.one_file_system, None, true),
                ),
                cache_enabled: flag_pair(cli.cache, cli.no_cache, pick(config.cache, None, true)),
                cache_ttl,
                mouse: flag_pair(cli.mouse, cli.no_mouse, pick(config.mouse, None, false)),
                theme: pick(cli.theme, config.theme, ThemeKind::Default),
                detail_panel: flag_pair(
                    cli.details,
                    cli.no_details,
                    pick(config.detail_panel, None, true),
                ),
                sort: SortSpec { key, direction },
                watch: flag_pair(cli.watch, cli.no_watch, pick(config.watch, None, false)),
                watch_debounce: pick(config.watch_debounce_ms, None, DEFAULT_WATCH_DEBOUNCE_MS),
                snapshots: flag_pair(
                    cli.snapshots,
                    cli.no_snapshots,
                    pick(config.snapshots, None, true),
                ),
                export_json: copy_path(&cli.export_json),
                compare_snapshot: copy_path(&cli.compare_snapshot),
                detect_duplicates: cli.detect_duplicates,
                paths,
            },
        )
    }

    /// Settings for a run that keeps its files in one directory and caches and
    /// stores nothing.
    pub fn for_tests(workers: usize, root: &FilePath) -> (settings: Settings)
        ensures
            settings.workers == workers,
            settings.size_mode == SizeMode::Logical,
            settings.one_file_system,
            !settings.cache_enabled,
            settings.cache_ttl == 86_400,
            !settings.mouse,
            settings.theme == ThemeKind::Default,
            settings.detail_panel,
            settings.sort == SortSpec::standard(),
            !settings.watch,
            settings.watch_debounce == DEFAULT_WATCH_DEBOUNCE_MS,
            !settings.snapshots,
            settings.export_json is None,
            settings.compare_snapshot is None,
            !settings.detect_duplicates,
            settings.paths.config_file@ == path::joined_path(
                root@,
                vstd::utf8::encode_utf8("config.toml"@),
            ),
            settings.paths.cache_file@ == path::joined_path(
                root@,
                vstd::utf8::encode_utf8("cache.json"@),
            ),
            settings.paths.snapshots_dir@ == path::joined_path(
                root@,
                vstd::utf8::encode_utf8("snapshots"@),
            ),
    {
        Settings {
            workers,
            size_mode: SizeMode::Logical,
            one_file_system: true,
            cache_enabled: false,
            cache_ttl: 86_400,
            mouse: false,
            theme: ThemeKind::Default,
            detail_panel: true,
            sort: SortSpec::default(),
            watch: false,
            watch_debounce: DEFAULT_WATCH_DEBOUNCE_MS,
            snapshots: false,
            export_json: None,
            compare_snapshot: None,
            detect_duplicates: false,
            paths: AppPaths {
                config_file: joined(root, "config.toml"),
                cache_file: joined(root, "cache.json"),
                snapshots_dir: joined(root, "snapshots"),
            },
        }
    }
}

/// The configuration where the file is missing: none, unless the file was asked
/// for.
pub fn missing_config(explicit: bool, file: &FilePath) -> (config: Result<FileConfig, String>)
    ensures
        match config {
            Ok(config) => !explicit && config == FileConfig::silent(),
            Err(message) => explicit && message@ == "Explicit config file does not exist: "@
                + text::lossy_text(file@),
        },
{
    if explicit {
        let mut message = "Explicit config file does not exist: ".to_owned();
        message.append(file.display().as_str());
        Err(message)
    } else {
        Ok(FileConfig::default())
    }
}

/// The command line has the last word: what it sets does not depend on the
/// configuration file.
pub proof fn the_command_line_comes_first(
    cli: Cli,
    first: FileConfig,
    second: FileConfig,
    default_workers: usize,
    paths: AppPaths,
)
    ensures
        ({
            let one = merged(cli, first, default_workers, paths);
            let other = merged(cli, second, default_workers, paths);
            &&& cli.workers is Some ==> one.workers == other.workers
            &&& cli.size_mode is Some ==> one.size_mode == other.size_mode
            &&& cli.one_file_system || cli.cross_filesystems ==> one.one_file_system
                == other.one_file_system
            &&& cli.cache || cli.no_cache ==> one.cache_enabled == other.cache_enabled
            &&& cli.cache_ttl_hours is Some ==> one.cache_ttl == other.cache_ttl
            &&& cli.mouse || cli.no_mouse ==> one.mouse == other.mouse
            &&& cli.theme is Some ==> one.theme == other.theme
            &&& cli.details || cli.no_details ==> one.detail_panel == other.detail_panel
            &&& cli.sort is Some ==> one.sort.key == other.sort.key
            &&& cli.sort_direction is Some ==> one.sort.direction == other.sort.direction
            &&& cli.watch || cli.no_watch ==> one.watch == other.watch
            &&& cli.snapshots || cli.no_snapshots ==> one.snapshots == other.snapshots
        }),
{
}

/// What the command line leaves open the configuration file decides, and what
/// both leave open has its usual value.
pub proof fn settings_fall_back_in_turn(
    cli: Cli,
    config: FileConfig,
    default_workers: usize,
    paths: AppPaths,
)
    ensures
        ({
            let settings = merged(cli, config, default_workers, paths);
            &&& cli.workers is Some ==> settings.workers == cli.workers->0
            &&& cli.workers is None && config.workers is Some ==> settings.workers
                == config.workers->0
            &&& cli.workers is None && config.workers is None ==> settings.workers
                == default_workers
            &&& cli.size_mode is Some ==> settings.size_mode == cli.size_mode->0
            &&& cli.size_mode is None && config.size_mode is Some ==> settings.size_mode
                == config.size_mode->0
            &&& cli.size_mode is None && config.size_mode is None ==> settings.size_mode
                == SizeMode::Logical
            &&& cli.theme is Some ==> settings.theme == cli.theme->0
            &&& cli.theme is None && config.theme is Some ==> settings.theme == config.theme->0
            &&& cli.theme is None && config.theme is None ==> settings.theme == ThemeKind::Default
            &&& cli.sort is Some ==> settings.sort.key == cli.sort->0
            &&& cli.sort is None && config.sort is Some ==> settings.sort.key == config.sort->0
            &&& cli.sort is None && config.sort is None ==> settings.sort.key == SortKey::Size
            &&& config.watch_debounce_ms is Some ==> settings.watch_debounce
                == config.watch_debounce_ms->0
            &&& config.watch_debounce_ms is None ==> settings.watch_debounce == 750
            &&& settings.export_json == cli.export_json
            &&& settings.compare_snapshot == cli.compare_snapshot
            &&& settings.detect_duplicates == cli.detect_duplicates
            &&& settings.paths == paths
        }),
{
}

/// A direction that nobody names is that of the order: amounts begin with the
/// largest, words with the first.
pub proof fn directions_go_with_the_order(
    cli: Cli,
    config: FileConfig,
    default_workers: usize,
    paths: AppPaths,
)
    ensures
        ({
            let sort = merged(cli, config, default_workers, paths).sort;
            &&& cli.sort_direction is Some ==> sort.direction == cli.sort_direction->0
            &&& cli.sort_direction is None && config.sort_direction is Some ==> sort.direction
                == config.sort_direction->0
            &&& cli.sort_direction is None && config.sort_direction is None ==> (sort.direction
                == SortDirection::Descending <==> sort.key == SortKey::Size || sort.key
                == SortKey::Files)
        }),
{
}

/// The cache keeps what it holds for the hours that were asked for, 24 of them
/// if nobody asks, each of 3,600 seconds.
pub proof fn the_cache_keeps_for_whole_hours(
    cli: Cli,
    config: FileConfig,
    default_workers: usize,
    paths: AppPaths,
)
    ensures
        ({
            let seconds = merged(cli, config, default_workers, paths).cache_ttl;
            let hours: int = if cli.cache_ttl_hours is Some {
                cli.cache_ttl_hours->0 as int
            } else if config.cache_ttl_hours is Some {
                config.cache_ttl_hours->0 as int
            } else {
                24
            };
            &&& 3_600 * hours <= u64::MAX ==> seconds == 3_600 * hours
            &&& 3_600 * hours > u64::MAX ==> seconds == u64::MAX
        }),
{
}

/// A switch that the command line sets is set; one that it clears is cleared;
/// else the configuration file decides, and last the usual state: only the mouse
/// and the watch are off.
pub proof fn switches_are_set_in_turn(
    cli: Cli,
    config: FileConfig,
    default_workers: usize,
    paths: AppPaths,
)
    ensures
        ({
            let settings = merged(cli, config, default_workers, paths);
            &&& settings.one_file_system <==> cli.one_file_system || (!cli.cross_filesystems
                && config.one_file_system != Some(false))
            &&& settings.cache_enabled <==> cli.cache || (!cli.no_cache && config.cache != Some(
                false,
            ))
            &&& settings.detail_panel <==> cli.details || (!cli.no_details && config.detail_panel
                != Some(false))
            &&& settings.snapshots <==> cli.snapshots || (!cli.no_snapshots && config.snapshots
                != Some(false))
            &&& settings.mouse <==> cli.mouse || (!cli.no_mouse && config.mouse == Some(true))
            &&& settings.watch <==> cli.watch || (!cli.no_watch && config.watch == Some(true))
        }),
{
}

/// Settings are refused that leave no worker, or a cache that keeps nothing.
pub proof fn settings_need_workers_and_hours(
    cli: Cli,
    config: FileConfig,
    default_workers: usize,
    paths: AppPaths,
)
    ensures
        settings_error(cli, config, default_workers) is None <==> merged(
            cli,
            config,
            default_workers,
            paths,
        ).workers > 0 && merged(cli, config, default_workers, paths).cache_ttl > 0,
        merged(cli, config, default_workers, paths).workers == 0 ==> settings_error(
            cli,
            config,
            default_workers,
        ) == Some("workers must be greater than zero"@),
{
}

/// A machine has as many workers as it can run at a time, up to eight, and one
/// where that is not known.
pub proof fn machines_have_up_to_eight_workers(available: Option<usize>)
    ensures
        available is None ==> usual_workers(available) == 1,
        available is Some && available->0 <= 8 ==> usual_workers(available) == available->0,
        available is Some && available->0 > 8 ==> usual_workers(available) == 8,
{
}

} // verus!
