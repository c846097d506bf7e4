//! The command line.
use clap::builder::{PossibleValuesParser, ValueParser};
use clap::error::ErrorKind;
use clap::{Arg, Command};
use vstd::prelude::*;
use vstd::string::StringExecFns;

use crate::path::FilePath;
use crate::quantity;
use crate::snapshot::VERSION;
use crate::text;
use crate::theme::ThemeKind;
use crate::tree;
use crate::tree::{SizeMode, SortDirection, SortKey};

verus! {

/// The layout of the help page.
pub const MANPAGE_HELP_TEMPLATE: &'static str = "\
MACDIRSTAT(1)

NAME
    macDirStat - {about}

SYNOPSIS
    {usage}

DESCRIPTION
    macDirStat is an interactive macOS terminal application for finding large files and
    directories. It scans directory metadata in background workers so that navigation,
    filtering, and cancellation remain responsive. The Tree view scans on demand; the
    analysis views build a complete file index for largest-file, type, duplicate, and
    change reports.

    Logical and physical sizes are collected together. Symbolic links are shown but never
    followed. By default, mounted filesystems below the start path remain visible but are
    not traversed. Deletions are confirmed and move entries to the macOS Trash.

    When standard output is an interactive terminal, this help page opens in less. Use the
    arrow keys, PageUp, or PageDown to scroll and q to quit. Redirected help is written as
    plain text without starting a pager.

ARGUMENTS
{positionals}
OPTIONS
{options}
{after-help}";

/// What the help page says after the options.
pub const MANPAGE_AFTER_HELP: &'static str = "\
INTERACTIVE KEYS
    Tab / Shift+Tab, 1-5
        Switch between Tree, Largest, Types, Duplicates, and Changes.
    Up / Down, k / j
        Move the selection.
    Right / Left, l / h
        Open a directory, or close it and move to its parent.
    Enter
        Expand or collapse a directory; reveal an analysis result in Tree.
    g / G, Home / End, PageUp / PageDown
        Jump to the first or last item, or move one page.
    Backspace
        Open the parent directory as the new scan root.
    /, n / N
        Search loaded entries and select the next or previous match.
    f / F
        Set or clear the combined filter.
    s / S
        Cycle the sort key or reverse the sort direction.
    z, i, t, m, w
        Toggle size mode, details, theme, mouse capture, or filesystem watching.
    Space, x
        Mark entries and move all marked entries to the Trash after confirmation.
    d
        Move the selected entry to the Trash after confirmation.
    r
        Discard cached data for the root and perform a fresh scan.
    e
        Export the completed analysis index as JSON.
    Esc
        Cancel running scan jobs or close the current dialog.
    ?, q, Ctrl+C
        Open interactive help, quit, or quit immediately.

FILTER SYNTAX
    Filter terms are combined with AND. Names and quoted phrases are accepted alongside
    predicates such as >1GiB, size>500MB, age>30d, ext:log, ext:none, and type:image.
    File categories are image, video, audio, archive, document, code, and other.

CONFIGURATION
    Settings are applied in this order: built-in defaults, TOML configuration, command-line
    options. Supported TOML keys are workers, size_mode, one_file_system, cache,
    cache_ttl_hours, mouse, theme, detail_panel, sort, sort_direction, watch,
    watch_debounce_ms, and snapshots.

FILES
    ~/Library/Application Support/macDirStat/config.toml
        Default configuration file.
    ~/Library/Caches/macDirStat/scan-cache-v1.json
        Persistent directory scan cache.
    ~/Library/Application Support/macDirStat/snapshots/
        Rolling snapshots used by the Changes view.

EXAMPLES
    Scan the current directory:
        macDirStat

    Scan Library using physical sizes and four workers:
        macDirStat --workers 4 --size-mode physical ~/Library

    Traverse filesystems mounted below the start path:
        macDirStat --cross-filesystems /

    Export a complete index to standard output with duplicate detection:
        macDirStat --export-json - --detect-duplicates ~/Library > scan.json

    Compare a new scan with an exported snapshot:
        macDirStat --export-json changes.json --compare-snapshot scan.json ~/Library

EXIT STATUS
    0   Successful completion.
    1   A runtime, filesystem, configuration, or export error occurred.
    2   Invalid command-line usage.
";

/// The name of the program.
pub const PROGRAM: &'static str = "macDirStat";

/// What the program does, in a few words.
pub const ABOUT: &'static str = "explore disk usage in a responsive terminal UI";

/// The longest line of the help page.
pub const HELP_WIDTH: usize = 100;

/// A number that an option takes as its value.
#[derive(Clone, Copy, Debug, PartialEq, Eq, Structural)]
pub enum NumberKind {
    /// A count that is not zero.
    Positive,
    Whole,
}

/// An argument of the command line: the value without a name, a flag, or an
/// option with a value. `values` is how many values it takes.
#[derive(Debug)]
pub struct OptionSpec {
    pub name: &'static str,
    pub long: Option<&'static str>,
    pub value_name: Option<&'static str>,
    pub help: &'static str,
    pub default: Option<&'static str>,
    pub values: usize,
    pub choices: Option<Vec<&'static str>>,
    pub number: Option<NumberKind>,
    pub is_path: bool,
    pub conflicts: Vec<&'static str>,
}

pub struct OptionModel {
    pub name: Seq<char>,
    pub long: Option<Seq<char>>,
    pub value_name: Option<Seq<char>>,
    pub help: Seq<char>,
    pub default: Option<Seq<char>>,
    pub values: usize,
    pub choices: Option<Seq<Seq<char>>>,
    pub number: Option<NumberKind>,
    pub is_path: bool,
    pub conflicts: Seq<Seq<char>>,
}

pub open spec fn word(value: Option<&'static str>) -> Option<Seq<char>> {
    match value {
        Some(value) => Some(value@),
        None => None,
    }
}

pub open spec fn words(list: Seq<&'static str>) -> Seq<Seq<char>> {
    Seq::new(list.len(), |i: int| list[i]@)
}

impl View for OptionSpec {
    type V = OptionModel;

    open spec fn view(&self) -> OptionModel {
        OptionModel {
            name: self.name@,
            long: word(self.long),
            value_name: word(self.value_name),
            help: self.help@,
            default: word(self.default),
            values: self.values,
            choices: match self.choices {
                Some(choices) => Some(words(choices@)),
                None => None,
            },
            number: self.number,
            is_path: self.is_path,
            conflicts: words(self.conflicts@),
        }
    }
}

pub open spec fn option_views(options: Seq<OptionSpec>) -> Seq<OptionModel> {
    Seq::new(options.len(), |i: int| options[i]@)
}

/// A flag.
pub open spec fn flag_model(
    name: Seq<char>,
    long: Seq<char>,
    help: Seq<char>,
    conflicts: Seq<Seq<char>>,
) -> OptionModel {
    OptionModel {
        name,
        long: Some(long),
        value_name: None,
        help,
        default: None,
        values: 0,
        choices: None,
        number: None,
        is_path: false,
        conflicts,
    }
}

/// An option with a value, which may have to be one of some choices.
pub open spec fn value_model(
    name: Seq<char>,
    long: Seq<char>,
    value_name: Seq<char>,
    help: Seq<char>,
    choices: Option<Seq<Seq<char>>>,
    conflicts: Seq<Seq<char>>,
) -> OptionModel {
    OptionModel {
        name,
        long: Some(long),
        value_name: Some(value_name),
        help,
        default: None,
        values: 1,
        choices,
        number: None,
        is_path: false,
        conflicts,
    }
}

/// An option with a number.
pub open spec fn number_model(
    name: Seq<char>,
    long: Seq<char>,
    value_name: Seq<char>,
    help: Seq<char>,
    number: NumberKind,
) -> OptionModel {
    OptionModel {
        number: Some(number),
        ..value_model(name, long, value_name, help, None, Seq::empty())
    }
}

/// An option with a path.
pub open spec fn path_model(
    name: Seq<char>,
    long: Seq<char>,
    value_name: Seq<char>,
    help: Seq<char>,
    conflicts: Seq<Seq<char>>,
) -> OptionModel {
    OptionModel { is_path: true, ..value_model(name, long, value_name, help, None, conflicts) }
}

/// The arguments that the program takes.
pub open spec fn option_table() -> Seq<OptionModel> {
    seq![
        OptionModel {
            name: "path"@,
            long: None,
            value_name: Some("PATH"@),
            help: "Directory to scan; defaults to the current directory"@,
            default: Some("."@),
            values: 1,
            choices: None,
            number: None,
            is_path: true,
            conflicts: Seq::empty(),
        },
        path_model(
            "config"@,
            "config"@,
            "PATH"@,
            "Read settings from PATH instead of the default TOML file"@,
            Seq::empty(),
        ),
        number_model(
            "workers"@,
            "workers"@,
            "N"@,
            "Set the number of background filesystem workers; defaults to available CPUs, capped at 8"@,
            NumberKind::Positive,
        ),
        value_model(
            "size_mode"@,
            "size-mode"@,
            "SIZE_MODE"@,
            "Select logical file length or physical allocated space; defaults to logical"@,
            Some(seq!["logical"@, "physical"@]),
            Seq::empty(),
        ),
        flag_model(
            "one_file_system"@,
            "one-file-system"@,
            "Stay on the filesystem containing PATH; this is the default unless configuration overrides it"@,
            seq!["cross_filesystems"@],
        ),
        flag_model(
            "cross_filesystems"@,
            "cross-filesystems"@,
            "Traverse filesystems mounted below PATH"@,
            seq!["one_file_system"@],
        ),
        flag_model(
            "cache"@,
            "cache"@,
            "Enable the persistent directory scan cache; enabled by default"@,
            seq!["no_cache"@],
        ),
        flag_model(
            "no_cache"@,
            "no-cache"@,
            "Disable reading and writing the persistent directory scan cache"@,
            seq!["cache"@],
        ),
        number_model(
            "cache_ttl_hours"@,
            "cache-ttl-hours"@,
            "HOURS"@,
            "Set the maximum age of cache entries; defaults to 24 hours"@,
            NumberKind::Whole,
        ),
        flag_model(
            "mouse"@,
            "mouse"@,
            "Enable mouse capture at startup; disabled by default"@,
            seq!["no_mouse"@],
        ),
        flag_model(
            "no_mouse"@,
            "no-mouse"@,
            "Disable mouse capture at startup"@,
            seq!["mouse"@],
        ),
        value_model(
            "theme"@,
            "theme"@,
            "THEME"@,
            "Select the initial color theme; defaults to default"@,
            Some(seq!["default"@, "monochrome"@, "high-contrast"@]),
            Seq::empty(),
        ),
        flag_model(
            "details"@,
            "details"@,
            "Show the adaptive detail panel; shown by default"@,
            seq!["no_details"@],
        ),
        flag_model(
            "no_details"@,
            "no-details"@,
            "Hide the adaptive detail panel"@,
            seq!["details"@],
        ),
        value_model(
            "sort"@,
            "sort"@,
            "SORT"@,
            "Select the initial sort key; defaults to size"@,
            Some(seq!["size"@, "name"@, "files"@, "kind"@]),
            Seq::empty(),
        ),
        value_model(
            "sort_direction"@,
            "sort-direction"@,
            "SORT_DIRECTION"@,
            "Select the initial sort direction; defaults to the natural direction of the sort key"@,
            Some(seq!["ascending"@, "descending"@]),
            Seq::empty(),
        ),
        flag_model(
            "watch"@,
            "watch"@,
            "Watch the scanned tree for filesystem changes; disabled by default"@,
            seq!["no_watch"@, "export_json"@],
        ),
        flag_model(
            "no_watch"@,
            "no-watch"@,
            "Disable filesystem watching"@,
            seq!["watch"@],
        ),
        flag_model(
            "snapshots"@,
            "snapshots"@,
            "Enable rolling snapshots after a complete analysis; enabled by default"@,
            seq!["no_snapshots"@],
        ),
        flag_model(
            "no_snapshots"@,
            "no-snapshots"@,
            "Disable rolling snapshots and automatic Changes baselines"@,
            seq!["snapshots"@],
        ),
        path_model(
            "export_json"@,
            "export-json"@,
            "FILE"@,
            "Write a complete analysis as JSON and exit; use - for standard output"@,
            seq!["watch"@],
        ),
        path_model(
            "compare_snapshot"@,
            "compare-snapshot"@,
            "FILE"@,
            "Compare the completed analysis against the snapshot in FILE"@,
            Seq::empty(),
        ),
        flag_model(
            "detect_duplicates"@,
            "detect-duplicates"@,
            "Hash same-size candidates with BLAKE3 to identify exact duplicates"@,
            Seq::empty(),
        ),
    ]
}

fn flag(
    name: &'static str,
    long: &'static str,
    help: &'static str,
    conflicts: Vec<&'static str>,
) -> (option: OptionSpec)
    ensures
        option@ == flag_model(name@, long@, help@, words(conflicts@)),
{
    OptionSpec {
        name,
        long: Some(long),
        value_name: None,
        help,
        default: None,
        values: 0,
        choices: None,
        number: None,
        is_path: false,
        conflicts,
    }
}

fn value(
    name: &'static str,
    long: &'static str,
    value_name: &'static str,
    help: &'static str,
    choices: Option<Vec<&'static str>>,
    conflicts: Vec<&'static str>,
) -> (option: OptionSpec)
    ensures
        option@ == value_model(
            name@,
            long@,
            value_name@,
            help@,
            match choices {
                Some(choices) => Some(words(choices@)),
                None => None,
            },
            words(conflicts@),
        ),
{
    OptionSpec {
        name,
        long: Some(long),
        value_name: Some(value_name),
        help,
        default: None,
        values: 1,
        choices,
        number: None,
        is_path: false,
        conflicts,
    }
}

fn numeric(
    name: &'static str,
    long: &'static str,
    value_name: &'static str,
    help: &'static str,
    kind: NumberKind,
) -> (option: OptionSpec)
    ensures
        option@ == number_model(name@, long@, value_name@, help@, kind),
{
    let mut option = value(name, long, value_name, help, None, no_words());
    option.number = Some(kind);
    option
}

fn path_option(
    name: &'static str,
    long: &'static str,
    value_name: &'static str,
    help: &'static str,
    conflicts: Vec<&'static str>,
) -> (option: OptionSpec)
    ensures
        option@ == path_model(name@, long@, value_name@, help@, words(conflicts@)),
{
    let mut option = value(name, long, value_name, help, None, conflicts);
    option.is_path = true;
    option
}

fn no_words() -> (list: Vec<&'static str>)
    ensures
        words(list@) == Seq::<Seq<char>>::empty(),
{
    let list: Vec<&'static str> = Vec::new();
    assert(words(list@) =~= Seq::empty());
    list
}

fn one_word(first: &'static str) -> (list: Vec<&'static str>)
    ensures
        words(list@) == seq![first@],
{
    let list: Vec<&'static str> = vec![first];
    assert(words(list@) =~= seq![first@]);
    list
}

fn two_words(first: &'static str, second: &'static str) -> (list: Vec<&'static str>)
    ensures
        words(list@) == seq![first@, second@],
{
    let list: Vec<&'static str> = vec![first, second];
    assert(words(list@) =~= seq![first@, second@]);
    list
}

fn three_words(first: &'static str, second: &'static str, third: &'static str) -> (list: Vec<
    &'static str,
>)
    ensures
        words(list@) == seq![first@, second@, third@],
{
    let list: Vec<&'static str> = vec![first, second, third];
    assert(words(list@) =~= seq![first@, second@, third@]);
    list
}

fn four_words(
    first: &'static str,
    second: &'static str,
    third: &'static str,
    fourth: &'static str,
) -> (list: Vec<&'static str>)
    ensures
        words(list@) == seq![first@, second@, third@, fourth@],
{
    let list: Vec<&'static str> = vec![first, second, third, fourth];
    assert(words(list@) =~= seq![first@, second@, third@, fourth@]);
    list
}

/// The arguments that the program takes.
fn command_options() -> (options: Vec<OptionSpec>)
    ensures
        option_views(options@) == option_table(),
{
    let mut options: Vec<OptionSpec> = Vec::new();
    options.push(
        OptionSpec {
            name: "path",
            long: None,
            value_name: Some("PATH"),
            help: "Directory to scan; defaults to the current directory",
            default: Some("."),
            values: 1,
            choices: None,
            number: None,
            is_path: true,
            conflicts: no_words(),
        },
    );
    options.push(
        path_option(
            "config",
            "config",
            "PATH",
            "Read settings from PATH instead of the default TOML file",
            no_words(),
        ),
    );
    options.push(
        numeric(
            "workers",
            "workers",
            "N",
            "Set the number of background filesystem workers; defaults to available CPUs, capped at 8",
            NumberKind::Positive,
        ),
    );
    options.push(
        value(
            "size_mode",
            "size-mode",
            "SIZE_MODE",
            "Select logical file length or physical allocated space; defaults to logical",
            Some(two_words("logical", "physical")),
            no_words(),
        ),
    );
    options.push(
        flag(
            "one_file_system",
            "one-file-system",
            "Stay on the filesystem containing PATH; this is the default unless configuration overrides it",
            one_word("cross_filesystems"),
        ),
    );
    options.push(
        flag(
            "cross_filesystems",
            "cross-filesystems",
            "Traverse filesystems mounted below PATH",
            one_word("one_file_system"),
        ),
    );
    options.push(
        flag(
            "cache",
            "cache",
            "Enable the persistent directory scan cache; enabled by default",
            one_word("no_cache"),
        ),
    );
    options.push(
        flag(
            "no_cache",
            "no-cache",
            "Disable reading and writing the persistent directory scan cache",
            one_word("cache"),
        ),
    );
    options.push(
        numeric(
            "cache_ttl_hours",
            "cache-ttl-hours",
            "HOURS",
            "Set the maximum age of cache entries; defaults to 24 hours",
            NumberKind::Whole,
        ),
    );
    options.push(
        flag(
            "mouse",
            "mouse",
            "Enable mouse capture at startup; disabled by default",
            one_word("no_mouse"),
        ),
    );
    options.push(
        flag(
            "no_mouse",
            "no-mouse",
            "Disable mouse capture at startup",
            one_word("mouse"),
        ),
    );
    options.push(
        value(
            "theme",
            "theme",
            "THEME",
            "Select the initial color theme; defaults to default",
            Some(three_words("default", "monochrome", "high-contrast")),
            no_words(),
        ),
    );
    options.push(
        flag(
            "details",
            "details",
            "Show the adaptive detail panel; shown by default",
            one_word("no_details"),
        ),
    );
    options.push(
        flag(
            "no_details",
            "no-details",
            "Hide the adaptive detail panel",
            one_word("details"),
        ),
    );
    options.push(
        value(
            "sort",
            "sort",
            "SORT",
            "Select the initial sort key; defaults to size",
            Some(four_words("size", "name", "files", "kind")),
            no_words(),
        ),
    );
    options.push(
        value(
            "sort_direction",
            "sort-direction",
            "SORT_DIRECTION",
            "Select the initial sort direction; defaults to the natural direction of the sort key",
            Some(two_words("ascending", "descending")),
            no_words(),
        ),
    );
    options.push(
        flag(
            "watch",
            "watch",
            "Watch the scanned tree for filesystem changes; disabled by default",
            two_words("no_watch", "export_json"),
        ),
    );
    options.push(
        flag(
            "no_watch",
            "no-watch",
            "Disable filesystem watching",
            one_word("watch"),
        ),
    );
    options.push(
        flag(
            "snapshots",
            "snapshots",
            "Enable rolling snapshots after a complete analysis; enabled by default",
            one_word("no_snapshots"),
        ),
    );
    options.push(
        flag(
            "no_snapshots",
            "no-snapshots",
            "Disable rolling snapshots and automatic Changes baselines",
            one_word("snapshots"),
        ),
    );
    options.push(
        path_option(
            "export_json",
            "export-json",
            "FILE",
            "Write a complete analysis as JSON and exit; use - for standard output",
            one_word("watch"),
        ),
    );
    options.push(
        path_option(
            "compare_snapshot",
            "compare-snapshot",
            "FILE",
            "Compare the completed analysis against the snapshot in FILE",
            no_words(),
        ),
    );
    options.push(
        flag(
            "detect_duplicates",
            "detect-duplicates",
            "Hash same-size candidates with BLAKE3 to identify exact duplicates",
            no_words(),
        ),
    );
    assert(option_views(options@) =~= option_table());
    options
}

/// The program as its help page presents it.
#[derive(Debug)]
pub struct Program {
    pub name: &'static str,
    pub version: &'static str,
    pub about: &'static str,
    pub template: &'static str,
    pub after_help: &'static str,
    pub width: usize,
}

/// A command line that did not give values: a request for the help page or the
/// version, or a mistake.
#[derive(Debug)]
pub struct CliError {
    pub help: bool,
    pub exit_code: i32,
    pub message: String,
}

pub struct CliErrorModel {
    pub help: bool,
    pub exit_code: i32,
    pub message: Seq<char>,
}

impl View for CliError {
    type V = CliErrorModel;

    open spec fn view(&self) -> CliErrorModel {
        CliErrorModel { help: self.help, exit_code: self.exit_code, message: self.message@ }
    }
}

pub open spec fn value_views(values: Seq<Option<String>>) -> Seq<Option<Seq<char>>> {
    Seq::new(values.len(), |i: int| tree::text_view(values[i]))
}

pub open spec fn argument_views(arguments: Seq<String>) -> Seq<Seq<char>> {
    Seq::new(arguments.len(), |i: int| arguments[i]@)
}

/// A program with the arguments that it takes, as clap knows it.
#[verifier::external_type_specification]
#[verifier::external_body]
pub struct ExCommand(clap::Command);

/// The arguments that a command takes.
pub uninterp spec fn arguments_of(command: Command) -> Seq<OptionModel>;

/// What clap reads from a command line: a value for each argument that the
/// program takes, in the same order, where there is one.
pub uninterp spec fn arguments_read(options: Seq<OptionModel>, arguments: Seq<Seq<char>>) -> Result<
    Seq<Option<Seq<char>>>,
    CliErrorModel,
>;

pub open spec fn read_view(result: Result<Vec<Option<String>>, CliError>) -> Result<
    Seq<Option<Seq<char>>>,
    CliErrorModel,
> {
    match result {
        Ok(values) => Ok(value_views(values@)),
        Err(error) => Err(error@),
    }
}

/// Whether a program is this one.
pub open spec fn is_this_program(program: Program) -> bool {
    &&& program.name == PROGRAM
    &&& program.version == VERSION
    &&& program.about == ABOUT
    &&& program.template == MANPAGE_HELP_TEMPLATE
    &&& program.after_help == MANPAGE_AFTER_HELP
    &&& program.width == HELP_WIDTH
}

/// `Command::new` of clap with the texts of a program: a command that takes no
/// arguments yet. Commands are made only for this one program.
#[verifier::external_body]
fn new_command(program: &Program) -> (command: Command)
    requires
        is_this_program(*program),
    ensures
        arguments_of(command) == Seq::<OptionModel>::empty(),
{
    Command::new(program.name).version(program.version).about(program.about)
        .help_template(program.template).after_long_help(program.after_help).next_line_help(true)
        .max_term_width(program.width)
}

/// `Command::arg` of clap: the command takes one more argument. A number is
/// checked by `check_number`, a path by `ValueParser::path_buf` of clap.
#[verifier::external_body]
fn add_argument(command: Command, option: &OptionSpec) -> (result: Command)
    ensures
        arguments_of(result) == arguments_of(command).push(option@),
{
    let check = |kind| ValueParser::new(move |value: &str| check_number(kind, value));
    let choices = option.choices.clone().map(PossibleValuesParser::new).map(ValueParser::new);
    let path = option.is_path.then_some(ValueParser::path_buf());
    command.arg(
        Arg::new(option.name).long(option.long).value_name(option.value_name).help(option.help)
            .default_value(option.default).num_args(option.values)
            .conflicts_with_all(option.conflicts.clone())
            .value_parser(choices.or(option.number.map(check)).or(path)),
    )
}

/// `Command::try_get_matches_from` of clap, and `ArgMatches::get_raw` for each
/// argument: what comes of it depends on what the command takes and on the
/// given arguments alone. A value is given for each argument.
#[verifier::external_body]
fn match_arguments(command: Command, options: &Vec<OptionSpec>, arguments: &Vec<String>) -> (result:
    Result<Vec<Option<String>>, CliError>)
    requires
        option_views(options@) == option_table(),
        arguments_of(command) == option_table(),
    ensures
        read_view(result) == arguments_read(arguments_of(command), argument_views(arguments@)),
        result matches Ok(values) ==> values@.len() == options@.len(),
{
    let found = command.try_get_matches_from(arguments).map_err(|e| CliError {
        help: e.kind() == ErrorKind::DisplayHelp, exit_code: e.exit_code(), message: e.to_string(),
    })?;
    let text = |o: &OptionSpec| found.get_raw(o.name)?.next()?.to_str().map(String::from);
    Ok(options.iter().map(text).collect())
}

/// Reads a command line.
fn read_arguments(arguments: &Vec<String>) -> (result: Result<Vec<Option<String>>, CliError>)
    ensures
        read_view(result) == arguments_read(option_table(), argument_views(arguments@)),
        result matches Ok(values) ==> values@.len() == option_table().len(),
{
    let options = command_options();
    let ghost table = option_views(options@);
    let mut command = new_command(&this_program());
    let mut i: usize = 0;
    while i < options.len()
        invariant
            i <= options@.len(),
            table == option_views(options@),
            arguments_of(command) == table.take(i as int),
        decreases options@.len() - i,
    {
        assert(table.take(i + 1) =~= table.take(i as int).push(options@[i as int]@));
        command = add_argument(command, &options[i]);
        i += 1;
    }
    assert(table.take(i as int) =~= table);
    match_arguments(command, &options, arguments)
}

fn this_program() -> (program: Program)
    ensures
        is_this_program(program),
{
    Program {
        name: PROGRAM,
        version: VERSION,
        about: ABOUT,
        template: MANPAGE_HELP_TEMPLATE,
        after_help: MANPAGE_AFTER_HELP,
        width: HELP_WIDTH,
    }
}

/// What can be wrong with a written whole number.
#[derive(Clone, Copy, Debug, PartialEq, Eq, Structural)]
pub enum NumberError {
    Empty,
    InvalidDigit,
    TooLarge,
}

impl NumberError {
    pub open spec fn text(self) -> Seq<char> {
        match self {
            NumberError::Empty => "cannot parse integer from empty string"@,
            NumberError::InvalidDigit => "invalid digit found in string"@,
            NumberError::TooLarge => "number too large to fit in target type"@,
        }
    }

    pub fn message(self) -> (message: &'static str)
        ensures
            message@ == self.text(),
    {
        match self {
            NumberError::Empty => "cannot parse integer from empty string",
            NumberError::InvalidDigit => "invalid digit found in string",
            NumberError::TooLarge => "number too large to fit in target type",
        }
    }
}

/// The value of digits, read from the left; the first character that does not
/// fit is what is wrong.
pub open spec fn digits_read(letters: Seq<char>, limit: u64) -> Result<nat, NumberError>
    decreases letters.len(),
{
    if letters.len() == 0 {
        Ok(0)
    } else {
        match digits_read(letters.drop_last(), limit) {
            Err(error) => Err(error),
            Ok(value) => if !quantity::is_digit(letters.last()) {
                Err(NumberError::InvalidDigit)
            } else {
                let more = value * 10 + quantity::digit_of(letters.last()) as nat;
                if more > limit {
                    Err(NumberError::TooLarge)
                } else {
                    Ok(more)
                }
            },
        }
    }
}

/// The value of a written whole number, which may have a plus sign.
pub open spec fn whole_number(letters: Seq<char>, limit: u64) -> Result<nat, NumberError> {
    if letters.len() == 0 {
        Err(NumberError::Empty)
    } else if letters[0] == '+' && letters.len() > 1 {
        digits_read(letters.drop_first(), limit)
    } else {
        digits_read(letters, limit)
    }
}

proof fn lemma_first_wrong(letters: Seq<char>, limit: u64, count: int)
    requires
        0 <= count <= letters.len(),
        digits_read(letters.take(count), limit) is Err,
    ensures
        digits_read(letters, limit) == digits_read(letters.take(count), limit),
    decreases letters.len(),
{
    if count == letters.len() {
        assert(letters.take(count) =~= letters);
    } else {
        let rest = letters.drop_last();
        assert(rest.take(count) =~= letters.take(count));
        lemma_first_wrong(rest, limit, count);
    }
}

/// The value of a written whole number up to a limit.
pub fn parse_whole(value: &str, limit: u64) -> (number: Result<u64, NumberError>)
    ensures
        match number {
            Ok(number) => whole_number(value@, limit) == Ok::<nat, NumberError>(number as nat),
            Err(error) => whole_number(value@, limit) == Err::<nat, NumberError>(error),
        },
{
    let letters = text::chars_of(value);
    if letters.len() == 0 {
        return Err(NumberError::Empty);
    }
    let from: usize = if letters[0] == '+' && letters.len() > 1 {
        1
    } else {
        0
    };
    let ghost digits = letters@.skip(from as int);
    assert(from == 1 ==> digits =~= letters@.drop_first());
    assert(from == 0 ==> digits =~= letters@);
    let mut number: u64 = 0;
    let mut i: usize = from;
    assert(digits.take(0) =~= Seq::empty());
    while i < letters.len()
        invariant
            from <= i <= letters@.len(),
            digits == letters@.skip(from as int),
            digits_read(digits.take(i - from), limit) == Ok::<nat, NumberError>(number as nat),
            whole_number(letters@, limit) == digits_read(digits, limit),
            letters@ == value@,
        decreases letters@.len() - i,
    {
        let letter = letters[i];
        proof {
            assert(digits.take(i + 1 - from).drop_last() =~= digits.take(i - from));
            assert(digits.take(i + 1 - from).last() == letter);
            if digits_read(digits.take(i + 1 - from), limit) is Err {
                lemma_first_wrong(digits, limit, i + 1 - from);
            }
        }
        if letter < '0' || letter > '9' {
            return Err(NumberError::InvalidDigit);
        }
        let digit: u64 = (letter as u32 - 48) as u64;
        let wide: u128 = number as u128 * 10 + digit as u128;
        if wide > limit as u128 {
            return Err(NumberError::TooLarge);
        }
        number = wide as u64;
        i += 1;
    }
    assert(digits.take(i - from) =~= digits);
    Ok(number)
}

/// Why a text is not a number that an option takes.
pub open spec fn number_refusal(kind: NumberKind, value: Seq<char>) -> Option<Seq<char>> {
    let limit = match kind {
        NumberKind::Positive => usize::MAX as u64,
        NumberKind::Whole => u64::MAX,
    };
    match whole_number(value, limit) {
        Err(error) => Some(error.text()),
        Ok(number) => if kind == NumberKind::Positive && number == 0 {
            Some("number would be zero for non-zero type"@)
        } else {
            None
        },
    }
}

/// A text that is a number, or why it is none.
pub fn check_number(kind: NumberKind, value: &str) -> (result: Result<String, String>)
    ensures
        match result {
            Ok(number) => number_refusal(kind, value@) is None && number@ == value@,
            Err(reason) => number_refusal(kind, value@) == Some(reason@),
        },
{
    let limit: u64 = match kind {
        NumberKind::Positive => usize::MAX as u64,
        NumberKind::Whole => u64::MAX,
    };
    match parse_whole(value, limit) {
        Err(error) => Err(error.message().to_owned()),
        Ok(number) => {
            if kind == NumberKind::Positive && number == 0 {
                Err("number would be zero for non-zero type".to_owned())
            } else {
                Ok(value.to_owned())
            }
        },
    }
}

/// The mistake that a value of an option is not one that it takes.
pub open spec fn invalid_value(value: Seq<char>, option: Seq<char>, reason: Seq<char>) -> CliErrorModel {
    CliErrorModel {
        help: false,
        exit_code: 2,
        message: "error: invalid value '"@ + value + "' for '"@ + option + "': "@ + reason
            + "\n\nFor more information, try '--help'.\n"@,
    }
}

fn refuse_value(value: &str, option: &str, reason: &str) -> (error: CliError)
    ensures
        error@ == invalid_value(value@, option@, reason@),
{
    let mut message = "error: invalid value '".to_owned();
    message.append(value);
    message.append("' for '");
    message.append(option);
    message.append("': ");
    message.append(reason);
    message.append("\n\nFor more information, try '--help'.\n");
    assert(message@ =~= invalid_value(value@, option@, reason@).message);
    CliError { help: false, exit_code: 2, message }
}

/// The mistake that an option that takes a value has none.
pub open spec fn missing_value(option: Seq<char>) -> CliErrorModel {
    CliErrorModel {
        help: false,
        exit_code: 2,
        message: "error: a value is required for '"@ + option
            + "' but none was supplied\n\nFor more information, try '--help'.\n"@,
    }
}

fn refuse_missing(option: &str) -> (error: CliError)
    ensures
        error@ == missing_value(option@),
{
    let mut message = "error: a value is required for '".to_owned();
    message.append(option);
    message.append("' but none was supplied\n\nFor more information, try '--help'.\n");
    assert(message@ =~= missing_value(option@).message);
    CliError { help: false, exit_code: 2, message }
}

/// The command line, read.
#[derive(Debug)]
pub struct Cli {
    pub path: FilePath,
    pub config: Option<FilePath>,
    pub workers: Option<usize>,
    pub size_mode: Option<SizeMode>,
    pub one_file_system: bool,
    pub cross_filesystems: bool,
    pub cache: bool,
    pub no_cache: bool,
    pub cache_ttl_hours: Option<u64>,
    pub mouse: bool,
    pub no_mouse: bool,
    pub theme: Option<ThemeKind>,
    pub details: bool,
    pub no_details: bool,
    pub sort: Option<SortKey>,
    pub sort_direction: Option<SortDirection>,
    pub watch: bool,
    pub no_watch: bool,
    pub snapshots: bool,
    pub no_snapshots: bool,
    pub export_json: Option<FilePath>,
    pub compare_snapshot: Option<FilePath>,
    pub detect_duplicates: bool,
}

#[verifier::ext_equal]
pub struct CliModel {
    pub path: Seq<u8>,
    pub config: Option<Seq<u8>>,
    pub workers: Option<usize>,
    pub size_mode: Option<SizeMode>,
    pub one_file_system: bool,
    pub cross_filesystems: bool,
    pub cache: bool,
    pub no_cache: bool,
    pub cache_ttl_hours: Option<u64>,
    pub mouse: bool,
    pub no_mouse: bool,
    pub theme: Option<ThemeKind>,
    pub details: bool,
    pub no_details: bool,
    pub sort: Option<SortKey>,
    pub sort_direction: Option<SortDirection>,
    pub watch: bool,
    pub no_watch: bool,
    pub snapshots: bool,
    pub no_snapshots: bool,
    pub export_json: Option<Seq<u8>>,
    pub compare_snapshot: Option<Seq<u8>>,
    pub detect_duplicates: bool,
}

pub open spec fn path_view(path: Option<FilePath>) -> Option<Seq<u8>> {
    match path {
        Some(path) => Some(path@),
        None => None,
    }
}

impl View for Cli {
    type V = CliModel;

    open spec fn view(&self) -> CliModel {
        CliModel {
            path: self.path@,
            config: path_view(self.config),
            workers: self.workers,
            size_mode: self.size_mode,
            one_file_system: self.one_file_system,
            cross_filesystems: self.cross_filesystems,
            cache: self.cache,
            no_cache: self.no_cache,
            cache_ttl_hours: self.cache_ttl_hours,
            mouse: self.mouse,
            no_mouse: self.no_mouse,
            theme: self.theme,
            details: self.details,
            no_details: self.no_details,
            sort: self.sort,
            sort_direction: self.sort_direction,
            watch: self.watch,
            no_watch: self.no_watch,
            snapshots: self.snapshots,
            no_snapshots: self.no_snapshots,
            export_json: path_view(self.export_json),
            compare_snapshot: path_view(self.compare_snapshot),
            detect_duplicates: self.detect_duplicates,
        }
    }
}

/// The bytes of a path that was written for an option. An empty text is no path.
pub open spec fn path_of(value: Option<Seq<char>>, option: Seq<char>) -> Result<
    Option<Seq<u8>>,
    CliErrorModel,
> {
    match value {
        Some(value) => if value.len() == 0 {
            Err(missing_value(option))
        } else {
            Ok(Some(vstd::utf8::encode_utf8(value)))
        },
        None => Ok(None),
    }
}

/// The paths of a command line.
pub struct PathsModel {
    pub path: Seq<u8>,
    pub config: Option<Seq<u8>>,
    pub export_json: Option<Seq<u8>>,
    pub compare_snapshot: Option<Seq<u8>>,
}

/// The paths among the values of the arguments, or the first mistake in them.
/// The current directory is scanned where nothing else is said.
pub open spec fn paths_of(values: Seq<Option<Seq<char>>>) -> Result<PathsModel, CliErrorModel> {
    match path_of(values[0], "[PATH]"@) {
        Err(error) => Err(error),
        Ok(path) => match path_of(values[1], "--config <PATH>"@) {
            Err(error) => Err(error),
            Ok(config) => match path_of(values[20], "--export-json <FILE>"@) {
                Err(error) => Err(error),
                Ok(export_json) => match path_of(values[21], "--compare-snapshot <FILE>"@) {
                    Err(error) => Err(error),
                    Ok(compare_snapshot) => Ok(
                        PathsModel {
                            path: match path {
                                Some(path) => path,
                                None => vstd::utf8::encode_utf8("."@),
                            },
                            config,
                            export_json,
                            compare_snapshot,
                        },
                    ),
                },
            },
        },
    }
}

pub open spec fn is_set(value: Option<Seq<char>>) -> bool {
    value == Some("true"@)
}

/// The number of workers: at least one.
pub open spec fn workers_of(value: Option<Seq<char>>) -> Result<Option<usize>, CliErrorModel> {
    match value {
        None => Ok(None),
        Some(text) => match number_refusal(NumberKind::Positive, text) {
            Some(reason) => Err(invalid_value(text, "--workers <N>"@, reason)),
            None => Ok(Some(whole_number(text, usize::MAX as u64)->Ok_0 as usize)),
        },
    }
}

pub open spec fn hours_of(value: Option<Seq<char>>) -> Result<Option<u64>, CliErrorModel> {
    match value {
        None => Ok(None),
        Some(text) => match number_refusal(NumberKind::Whole, text) {
            Some(reason) => Err(invalid_value(text, "--cache-ttl-hours <HOURS>"@, reason)),
            None => Ok(Some(whole_number(text, u64::MAX)->Ok_0 as u64)),
        },
    }
}

pub open spec fn size_mode_of(value: Option<Seq<char>>) -> Option<SizeMode> {
    if value == Some("logical"@) {
        Some(SizeMode::Logical)
    } else if value == Some("physical"@) {
        Some(SizeMode::Physical)
    } else {
        None
    }
}

pub open spec fn theme_of(value: Option<Seq<char>>) -> Option<ThemeKind> {
    if value == Some("default"@) {
        Some(ThemeKind::Default)
    } else if value == Some("monochrome"@) {
        Some(ThemeKind::Monochrome)
    } else if value == Some("high-contrast"@) {
        Some(ThemeKind::HighContrast)
    } else {
        None
    }
}

pub open spec fn sort_of(value: Option<Seq<char>>) -> Option<SortKey> {
    if value == Some("size"@) {
        Some(SortKey::Size)
    } else if value == Some("name"@) {
        Some(SortKey::Name)
    } else if value == Some("files"@) {
        Some(SortKey::Files)
    } else if value == Some("kind"@) {
        Some(SortKey::Kind)
    } else {
        None
    }
}

pub open spec fn direction_of(value: Option<Seq<char>>) -> Option<SortDirection> {
    if value == Some("ascending"@) {
        Some(SortDirection::Ascending)
    } else if value == Some("descending"@) {
        Some(SortDirection::Descending)
    } else {
        None
    }
}

/// The command line that the values of the arguments, in the order of the
/// table, stand for. A value that is not one of the choices of its option has
/// been refused before, and counts as missing.
pub open spec fn cli_of(values: Seq<Option<Seq<char>>>) -> Result<CliModel, CliErrorModel> {
    match paths_of(values) {
        Err(error) => Err(error),
        Ok(paths) => with_paths(values, paths),
    }
}

/// The command line with the given paths.
pub open spec fn with_paths(values: Seq<Option<Seq<char>>>, paths: PathsModel) -> Result<
    CliModel,
    CliErrorModel,
> {
    match workers_of(values[2]) {
        Err(error) => Err(error),
        Ok(workers) => match hours_of(values[8]) {
            Err(error) => Err(error),
            Ok(cache_ttl_hours) => Ok(
                CliModel {
                    path: paths.path,
                    config: paths.config,
                    workers,
                    size_mode: size_mode_of(values[3]),
                    one_file_system: is_set(values[4]),
                    cross_filesystems: is_set(values[5]),
                    cache: is_set(values[6]),
                    no_cache: is_set(values[7]),
                    cache_ttl_hours,
                    mouse: is_set(values[9]),
                    no_mouse: is_set(values[10]),
                    theme: theme_of(values[11]),
                    details: is_set(values[12]),
                    no_details: is_set(values[13]),
                    sort: sort_of(values[14]),
                    sort_direction: direction_of(values[15]),
                    watch: is_set(values[16]),
                    no_watch: is_set(values[17]),
                    snapshots: is_set(values[18]),
                    no_snapshots: is_set(values[19]),
                    export_json: paths.export_json,
                    compare_snapshot: paths.compare_snapshot,
                    detect_duplicates: is_set(values[22]),
                },
            ),
        },
    }
}

fn path_from(value: &Option<String>, option: &str) -> (path: Result<Option<FilePath>, CliError>)
    ensures
        match path {
            Ok(path) => path_of(tree::text_view(*value), option@) == Ok::<_, CliErrorModel>(
                path_view(path),
            ),
            Err(error) => path_of(tree::text_view(*value), option@) == Err::<Option<Seq<u8>>, _>(
                error@,
            ),
        },
{
    match value {
        Some(value) => {
            if text::chars_of(value.as_str()).len() == 0 {
                Err(refuse_missing(option))
            } else {
                Ok(Some(FilePath::from_text(value.as_str())))
            }
        },
        None => Ok(None),
    }
}

/// The paths of a command line.
struct CliPaths {
    path: FilePath,
    config: Option<FilePath>,
    export_json: Option<FilePath>,
    compare_snapshot: Option<FilePath>,
}

spec fn paths_view(paths: CliPaths) -> PathsModel {
    PathsModel {
        path: paths.path@,
        config: path_view(paths.config),
        export_json: path_view(paths.export_json),
        compare_snapshot: path_view(paths.compare_snapshot),
    }
}

fn read_paths(values: &Vec<Option<String>>) -> (paths: Result<CliPaths, CliError>)
    requires
        values@.len() == 23,
    ensures
        match paths {
            Ok(paths) => paths_of(value_views(values@)) == Ok::<_, CliErrorModel>(paths_view(paths)),
            Err(error) => paths_of(value_views(values@)) == Err::<PathsModel, _>(error@),
        },
{
    let path = match path_from(&values[0], "[PATH]") {
        Ok(Some(path)) => path,
        Ok(None) => FilePath::from_text("."),
        Err(error) => {
            return Err(error);
        },
    };
    let config = match path_from(&values[1], "--config <PATH>") {
        Ok(config) => config,
        Err(error) => {
            return Err(error);
        },
    };
    let export_json = match path_from(&values[20], "--export-json <FILE>") {
        Ok(export_json) => export_json,
        Err(error) => {
            return Err(error);
        },
    };
    match path_from(&values[21], "--compare-snapshot <FILE>") {
        Ok(compare_snapshot) => Ok(CliPaths { path, config, export_json, compare_snapshot }),
        Err(error) => Err(error),
    }
}

fn says(value: &Option<String>, word: &str) -> (result: bool)
    ensures
        result == (tree::text_view(*value) == Some(word@)),
{
    match value {
        Some(value) => text::same_text(value.as_str(), word),
        None => false,
    }
}

fn read_workers(value: &Option<String>) -> (workers: Result<Option<usize>, CliError>)
    ensures
        match workers {
            Ok(workers) => workers_of(tree::text_view(*value)) == Ok::<_, CliErrorModel>(workers),
            Err(error) => workers_of(tree::text_view(*value)) == Err::<Option<usize>, _>(error@),
        },
{
    match value {
        None => Ok(None),
        Some(value) => match parse_whole(value.as_str(), usize::MAX as u64) {
            Err(error) => Err(refuse_value(value.as_str(), "--workers <N>", error.message())),
            Ok(number) => {
                if number == 0 {
                    Err(
                        refuse_value(
                            value.as_str(),
                            "--workers <N>",
                            "number would be zero for non-zero type",
                        ),
                    )
                } else {
                    proof {
                        lemma_number_limit(value@, usize::MAX as u64);
                    }
                    Ok(Some(number as usize))
                }
            },
        },
    }
}

proof fn lemma_digits_limit(letters: Seq<char>, limit: u64)
    ensures
        digits_read(letters, limit) matches Ok(value) ==> value <= limit,
    decreases letters.len(),
{
    if letters.len() > 0 {
        lemma_digits_limit(letters.drop_last(), limit);
    }
}

proof fn lemma_number_limit(letters: Seq<char>, limit: u64)
    ensures
        whole_number(letters, limit) matches Ok(value) ==> value <= limit,
{
    lemma_digits_limit(letters, limit);
    if letters.len() > 0 {
        lemma_digits_limit(letters.drop_first(), limit);
    }
}

fn read_hours(value: &Option<String>) -> (hours: Result<Option<u64>, CliError>)
    ensures
        match hours {
            Ok(hours) => hours_of(tree::text_view(*value)) == Ok::<_, CliErrorModel>(hours),
            Err(error) => hours_of(tree::text_view(*value)) == Err::<Option<u64>, _>(error@),
        },
{
    match value {
        None => Ok(None),
        Some(value) => match parse_whole(value.as_str(), u64::MAX) {
            Err(error) => Err(
                refuse_value(value.as_str(), "--cache-ttl-hours <HOURS>", error.message()),
            ),
            Ok(number) => Ok(Some(number)),
        },
    }
}

fn read_size_mode(value: &Option<String>) -> (mode: Option<SizeMode>)
    ensures
        mode == size_mode_of(tree::text_view(*value)),
{
    if says(value, "logical") {
        Some(SizeMode::Logical)
    } else if says(value, "physical") {
        Some(SizeMode::Physical)
    } else {
        None
    }
}

fn read_theme(value: &Option<String>) -> (theme: Option<ThemeKind>)
    ensures
        theme == theme_of(tree::text_view(*value)),
{
    if says(value, "default") {
        Some(ThemeKind::Default)
    } else if says(value, "monochrome") {
        Some(ThemeKind::Monochrome)
    } else if says(value, "high-contrast") {
        Some(ThemeKind::HighContrast)
    } else {
        None
    }
}

fn read_sort(value: &Option<String>) -> (sort: Option<SortKey>)
    ensures
        sort == sort_of(tree::text_view(*value)),
{
    if says(value, "size") {
        Some(SortKey::Size)
    } else if says(value, "name") {
        Some(SortKey::Name)
    } else if says(value, "files") {
        Some(SortKey::Files)
    } else if says(value, "kind") {
        Some(SortKey::Kind)
    } else {
        None
    }
}

fn read_direction(value: &Option<String>) -> (direction: Option<SortDirection>)
    ensures
        direction == direction_of(tree::text_view(*value)),
{
    if says(value, "ascending") {
        Some(SortDirection::Ascending)
    } else if says(value, "descending") {
        Some(SortDirection::Descending)
    } else {
        None
    }
}

/// Whether a command line was read as stated.
pub open spec fn reads(
    result: Result<Cli, CliError>,
    stated: Result<CliModel, CliErrorModel>,
) -> bool {
    match result {
        Ok(cli) => stated matches Ok(other) && other == cli@,
        Err(error) => stated matches Err(other) && other == error@,
    }
}

impl Cli {
    /// The command line that the values of the arguments stand for, in the
    /// order of the table.
    pub fn from_values(values: &Vec<Option<String>>) -> (cli: Result<Cli, CliError>)
        requires
            values@.len() == 23,
        ensures
            reads(cli, cli_of(value_views(values@))),
    {
        let paths = match read_paths(values) {
            Ok(paths) => paths,
            Err(error) => {
                return Err(error);
            },
        };
        let workers = match read_workers(&values[2]) {
            Ok(workers) => workers,
            Err(error) => {
                return Err(error);
            },
        };
        let cache_ttl_hours = match read_hours(&values[8]) {
            Ok(hours) => hours,
            Err(error) => {
                return Err(error);
            },
        };
        let cli = Cli {
            path: paths.path,
            config: paths.config,
            workers,
            size_mode: read_size_mode(&values[3]),
            one_file_system: says(&values[4], "true"),
            cross_filesystems: says(&values[5], "true"),
            cache: says(&values[6], "true"),
            no_cache: says(&values[7], "true"),
            cache_ttl_hours,
            mouse: says(&values[9], "true"),
            no_mouse: says(&values[10], "true"),
            theme: read_theme(&values[11]),
            details: says(&values[12], "true"),
            no_details: says(&values[13], "true"),
            sort: read_sort(&values[14]),
            sort_direction: read_direction(&values[15]),
            watch: says(&values[16], "true"),
            no_watch: says(&values[17], "true"),
            snapshots: says(&values[18], "true"),
            no_snapshots: says(&values[19], "true"),
            export_json: paths.export_json,
            compare_snapshot: paths.compare_snapshot,
            detect_duplicates: says(&values[22], "true"),
        };
        assert(cli@ =~= cli_of(value_views(values@))->Ok_0);
        Ok(cli)
    }

    /// Reads a command line, which begins with the name of the program.
    pub fn try_parse_from(arguments: &Vec<String>) -> (cli: Result<Cli, CliError>)
        ensures
            match arguments_read(option_table(), argument_views(arguments@)) {
                Ok(values) => reads(cli, cli_of(values)),
                Err(error) => cli matches Err(found) && found@ == error,
            },
    {
        match read_arguments(arguments) {
            Ok(values) => Cli::from_values(&values),
            Err(error) => Err(error),
        }
    }

    /// The version that the program reports.
    pub fn version() -> (version: &'static str)
        ensures
            version@ == VERSION@,
    {
        VERSION
    }

    /// The help page: what the command line answers to `--help`.
    pub fn long_help() -> (help: String)
        ensures
            match arguments_read(option_table(), seq![PROGRAM@, "--help"@]) {
                Ok(values) => help@.len() == 0,
                Err(error) => help@ == error.message,
            },
    {
        let arguments: Vec<String> = vec![PROGRAM.to_owned(), "--help".to_owned()];
        assert(argument_views(arguments@) =~= seq![PROGRAM@, "--help"@]);
        match read_arguments(&arguments) {
            Ok(_) => String::new(),
            Err(error) => error.message,
        }
    }
}

proof fn lemma_digits_read(n: nat, limit: u64)
    ensures
        n <= limit ==> digits_read(text::decimal(n), limit) == Ok::<nat, NumberError>(n),
        n > limit ==> digits_read(text::decimal(n), limit) == Err::<nat, _>(NumberError::TooLarge),
    decreases n,
{
    reveal_with_fuel(digits_read, 2);
    let letters = text::decimal(n);
    let last = text::digit(n % 10);
    assert(quantity::is_digit(last));
    assert(quantity::digit_of(last) == n % 10);
    if n < 10 {
        assert(text::digit(n) == last);
        assert(letters.drop_last() =~= Seq::empty());
    } else {
        lemma_digits_read(n / 10, limit);
        assert(letters.drop_last() =~= text::decimal(n / 10));
        assert(letters.last() == last);
    }
}

/// A written number is read as its value, with or without a plus sign, up to the
/// largest that fits; larger ones and empty texts are refused.
pub proof fn numbers_are_read_up_to_the_largest(n: nat, limit: u64)
    ensures
        n <= limit ==> whole_number(text::decimal(n), limit) == Ok::<nat, NumberError>(n),
        n <= limit ==> whole_number(seq!['+'] + text::decimal(n), limit) == Ok::<nat, NumberError>(
            n,
        ),
        n > limit ==> whole_number(text::decimal(n), limit) == Err::<nat, _>(
            NumberError::TooLarge,
        ),
        whole_number(Seq::empty(), limit) == Err::<nat, _>(NumberError::Empty),
{
    lemma_digits_read(n, limit);
    text::numbers_read_back(n);
    let letters = text::decimal(n);
    assert(quantity::is_digit(letters[0]));
    assert((seq!['+'] + letters).drop_first() =~= letters);
}

/// A letter that is no digit is refused where what stands before it can be read.
pub proof fn other_letters_are_refused(start: Seq<char>, letter: char, limit: u64)
    requires
        digits_read(start, limit) is Ok,
        letter < '0' || letter > '9',
    ensures
        digits_read(start.push(letter), limit) == Err::<nat, _>(NumberError::InvalidDigit),
{
    assert(start.push(letter).drop_last() =~= start);
}

/// The number of workers is read as it is written, and is not zero.
pub proof fn workers_are_read_as_written(n: nat)
    ensures
        0 < n <= usize::MAX ==> workers_of(Some(text::decimal(n))) == Ok::<_, CliErrorModel>(
            Some(n as usize),
        ),
        n == 0 || n > usize::MAX ==> workers_of(Some(text::decimal(n))) is Err,
        workers_of(None) == Ok::<Option<usize>, CliErrorModel>(None),
{
    lemma_whole(n, usize::MAX as u64);
}

/// Hours are read as they are written.
pub proof fn hours_are_read_as_written(n: nat)
    ensures
        n <= u64::MAX ==> hours_of(Some(text::decimal(n))) == Ok::<_, CliErrorModel>(
            Some(n as u64),
        ),
        n > u64::MAX ==> hours_of(Some(text::decimal(n))) is Err,
        hours_of(None) == Ok::<Option<u64>, CliErrorModel>(None),
{
    lemma_whole(n, u64::MAX);
}

proof fn lemma_whole(n: nat, limit: u64)
    ensures
        n <= limit ==> whole_number(text::decimal(n), limit) == Ok::<nat, NumberError>(n),
        n > limit ==> whole_number(text::decimal(n), limit) is Err,
{
    numbers_are_read_up_to_the_largest(n, limit);
}

/// A switch is set by the option of its name and by no other.
pub proof fn switches_are_set_by_their_option(values: Seq<Option<Seq<char>>>)
    requires
        cli_of(values) is Ok,
    ensures
        ({
            let cli = cli_of(values)->Ok_0;
            let set = |at: int| values[at] == Some("true"@);
            let table = option_table();
            &&& table.len() == 23
            &&& table[4].name == "one_file_system"@ && cli.one_file_system == set(4)
            &&& table[5].name == "cross_filesystems"@ && cli.cross_filesystems == set(5)
            &&& table[6].name == "cache"@ && cli.cache == set(6)
            &&& table[7].name == "no_cache"@ && cli.no_cache == set(7)
            &&& table[9].name == "mouse"@ && cli.mouse == set(9)
            &&& table[10].name == "no_mouse"@ && cli.no_mouse == set(10)
            &&& table[12].name == "details"@ && cli.details == set(12)
            &&& table[13].name == "no_details"@ && cli.no_details == set(13)
            &&& table[16].name == "watch"@ && cli.watch == set(16)
            &&& table[17].name == "no_watch"@ && cli.no_watch == set(17)
            &&& table[18].name == "snapshots"@ && cli.snapshots == set(18)
            &&& table[19].name == "no_snapshots"@ && cli.no_snapshots == set(19)
            &&& table[22].name == "detect_duplicates"@ && cli.detect_duplicates == set(22)
        }),
{
}

/// The other options bring their values: each is read under its name, and what
/// is left out is not set.
pub proof fn values_are_read_under_their_name(values: Seq<Option<Seq<char>>>)
    requires
        cli_of(values) is Ok,
    ensures
        ({
            let cli = cli_of(values)->Ok_0;
            let table = option_table();
            &&& table[2].name == "workers"@ && (values[2] is None ==> cli.workers is None)
            &&& table[8].name == "cache_ttl_hours"@ && (values[8] is None
                ==> cli.cache_ttl_hours is None)
            &&& table[3].name == "size_mode"@ && (values[3] == Some("logical"@) ==> cli.size_mode
                == Some(SizeMode::Logical))
            &&& values[3] is None ==> cli.size_mode is None
            &&& table[11].name == "theme"@ && (values[11] == Some("default"@) ==> cli.theme == Some(
                ThemeKind::Default,
            ))
            &&& values[11] is None ==> cli.theme is None
            &&& table[14].name == "sort"@ && (values[14] == Some("size"@) ==> cli.sort == Some(
                SortKey::Size,
            ))
            &&& values[14] is None ==> cli.sort is None
            &&& table[15].name == "sort_direction"@ && (values[15] == Some("ascending"@)
                ==> cli.sort_direction == Some(SortDirection::Ascending))
            &&& values[15] is None ==> cli.sort_direction is None
            &&& table[0].name == "path"@ && (values[0] is Some ==> cli.path
                == vstd::utf8::encode_utf8(values[0]->0))
            &&& table[1].name == "config"@ && (values[1] is Some ==> cli.config == Some(
                vstd::utf8::encode_utf8(values[1]->0),
            ))
            &&& values[1] is None ==> cli.config is None
            &&& table[20].name == "export_json"@ && (values[20] is Some ==> cli.export_json == Some(
                vstd::utf8::encode_utf8(values[20]->0),
            ))
            &&& values[20] is None ==> cli.export_json is None
            &&& table[21].name == "compare_snapshot"@ && (values[21] is Some
                ==> cli.compare_snapshot == Some(vstd::utf8::encode_utf8(values[21]->0)))
            &&& values[21] is None ==> cli.compare_snapshot is None
        }),
{
}

/// Each choice of an option is read as what it names.
pub proof fn choices_are_read_as_what_they_name()
    ensures
        size_mode_of(Some("logical"@)) == Some(SizeMode::Logical),
        size_mode_of(Some("physical"@)) == Some(SizeMode::Physical),
        theme_of(Some("default"@)) == Some(ThemeKind::Default),
        theme_of(Some("monochrome"@)) == Some(ThemeKind::Monochrome),
        theme_of(Some("high-contrast"@)) == Some(ThemeKind::HighContrast),
        sort_of(Some("size"@)) == Some(SortKey::Size),
        sort_of(Some("name"@)) == Some(SortKey::Name),
        sort_of(Some("files"@)) == Some(SortKey::Files),
        sort_of(Some("kind"@)) == Some(SortKey::Kind),
        direction_of(Some("ascending"@)) == Some(SortDirection::Ascending),
        direction_of(Some("descending"@)) == Some(SortDirection::Descending),
{
    reveal_strlit("logical");
    reveal_strlit("physical");
    reveal_strlit("default");
    reveal_strlit("monochrome");
    reveal_strlit("high-contrast");
    reveal_strlit("size");
    reveal_strlit("name");
    reveal_strlit("files");
    reveal_strlit("kind");
    reveal_strlit("ascending");
    reveal_strlit("descending");
    assert("physical"@[0] == 'p' && "logical"@[0] == 'l');
    assert("default"@[0] == 'd' && "monochrome"@[0] == 'm' && "high-contrast"@[0] == 'h');
    assert("size"@[0] == 's' && "name"@[0] == 'n' && "files"@[0] == 'f' && "kind"@[0] == 'k');
    assert("ascending"@[0] == 'a' && "descending"@[0] == 'd');
}

/// What the program calls a choice is what the option takes.
pub proof fn labels_are_read_back(mode: SizeMode, theme: ThemeKind, key: SortKey)
    ensures
        size_mode_of(Some(mode.label_text())) == Some(mode),
        theme_of(Some(theme.label_text())) == Some(theme),
        sort_of(Some(key.label_text())) == Some(key),
{
    choices_are_read_as_what_they_name();
}

} // verus!
