//! The full index of a tree: its files, its directories and what they add up
//! to.
use vstd::prelude::*;

use crate::lists;
use crate::order;
use crate::path;
use crate::path::FilePath;
use crate::table;
use crate::text;
use crate::tree;
use crate::tree::{FileIdentity, UsageStats};

pub mod groups;

verus! {

pub const FILE_BATCH_SIZE: usize = 512;

pub const MAX_ISSUES: usize = 10_000;

#[derive(Clone, Copy, Debug, PartialEq, Eq, Structural)]
pub enum FileCategory {
    Image,
    Video,
    Audio,
    Archive,
    Document,
    Code,
    Other,
}

impl FileCategory {
    pub open spec fn label_text(self) -> Seq<char> {
        match self {
            FileCategory::Image => "image"@,
            FileCategory::Video => "video"@,
            FileCategory::Audio => "audio"@,
            FileCategory::Archive => "archive"@,
            FileCategory::Document => "document"@,
            FileCategory::Code => "code"@,
            FileCategory::Other => "other"@,
        }
    }

    pub fn label(self) -> (label: &'static str)
        ensures
            label@ == self.label_text(),
    {
        match self {
            FileCategory::Image => "image",
            FileCategory::Video => "video",
            FileCategory::Audio => "audio",
            FileCategory::Archive => "archive",
            FileCategory::Document => "document",
            FileCategory::Code => "code",
            FileCategory::Other => "other",
        }
    }

    /// The place of the category in a listing.
    pub open spec fn rank(self) -> u64 {
        match self {
            FileCategory::Image => 0,
            FileCategory::Video => 1,
            FileCategory::Audio => 2,
            FileCategory::Archive => 3,
            FileCategory::Document => 4,
            FileCategory::Code => 5,
            FileCategory::Other => 6,
        }
    }

    pub fn place(self) -> (rank: u64)
        ensures
            rank == self.rank(),
    {
        match self {
            FileCategory::Image => 0,
            FileCategory::Video => 1,
            FileCategory::Audio => 2,
            FileCategory::Archive => 3,
            FileCategory::Document => 4,
            FileCategory::Code => 5,
            FileCategory::Other => 6,
        }
    }

    /// The category with a label, whatever its case.
    pub open spec fn named(value: Seq<char>) -> Option<FileCategory> {
        if text::same_ignoring_case("image"@, value) {
            Some(FileCategory::Image)
        } else if text::same_ignoring_case("video"@, value) {
            Some(FileCategory::Video)
        } else if text::same_ignoring_case("audio"@, value) {
            Some(FileCategory::Audio)
        } else if text::same_ignoring_case("archive"@, value) {
            Some(FileCategory::Archive)
        } else if text::same_ignoring_case("document"@, value) {
            Some(FileCategory::Document)
        } else if text::same_ignoring_case("code"@, value) {
            Some(FileCategory::Code)
        } else if text::same_ignoring_case("other"@, value) {
            Some(FileCategory::Other)
        } else {
            None
        }
    }

    pub fn parse(value: &str) -> (category: Option<FileCategory>)
        ensures
            category == FileCategory::named(value@),
    {
        if text::matches_ignoring_case("image", value) {
            Some(FileCategory::Image)
        } else if text::matches_ignoring_case("video", value) {
            Some(FileCategory::Video)
        } else if text::matches_ignoring_case("audio", value) {
            Some(FileCategory::Audio)
        } else if text::matches_ignoring_case("archive", value) {
            Some(FileCategory::Archive)
        } else if text::matches_ignoring_case("document", value) {
            Some(FileCategory::Document)
        } else if text::matches_ignoring_case("code", value) {
            Some(FileCategory::Code)
        } else if text::matches_ignoring_case("other", value) {
            Some(FileCategory::Other)
        } else {
            None
        }
    }
}

/// Parsing a label gives its category back.
pub proof fn labels_parse_back(category: FileCategory)
    ensures
        FileCategory::named(category.label_text()) == Some(category),
{
    reveal_strlit("image");
    reveal_strlit("video");
    reveal_strlit("audio");
    reveal_strlit("archive");
    reveal_strlit("document");
    reveal_strlit("code");
    reveal_strlit("other");
    assert(text::ascii_lower("image"@[0]) != text::ascii_lower("video"@[0]));
    assert(text::ascii_lower("image"@[0]) != text::ascii_lower("audio"@[0]));
    assert(text::ascii_lower("image"@[0]) != text::ascii_lower("other"@[0]));
    assert(text::ascii_lower("video"@[0]) != text::ascii_lower("audio"@[0]));
    assert(text::ascii_lower("video"@[0]) != text::ascii_lower("other"@[0]));
    assert(text::ascii_lower("audio"@[0]) != text::ascii_lower("other"@[0]));
}

/// The category that an extension in lowercase stands for.
pub open spec fn extension_category(extension: Seq<char>) -> FileCategory {
    if is_image(extension) {
        FileCategory::Image
    } else if is_video(extension) {
        FileCategory::Video
    } else if is_audio(extension) {
        FileCategory::Audio
    } else if is_archive(extension) {
        FileCategory::Archive
    } else if is_document(extension) {
        FileCategory::Document
    } else if is_code(extension) {
        FileCategory::Code
    } else {
        FileCategory::Other
    }
}

pub open spec fn is_image(e: Seq<char>) -> bool {
    e == "jpg"@ || e == "jpeg"@ || e == "png"@ || e == "gif"@ || e == "webp"@ || e == "heic"@ || e
        == "tif"@ || e == "tiff"@ || e == "svg"@ || e == "bmp"@ || e == "ico"@
}

pub open spec fn is_video(e: Seq<char>) -> bool {
    e == "mp4"@ || e == "mov"@ || e == "mkv"@ || e == "avi"@ || e == "webm"@ || e == "m4v"@ || e
        == "mpeg"@ || e == "mpg"@
}

pub open spec fn is_audio(e: Seq<char>) -> bool {
    e == "mp3"@ || e == "m4a"@ || e == "aac"@ || e == "wav"@ || e == "flac"@ || e == "ogg"@ || e
        == "aiff"@
}

pub open spec fn is_archive(e: Seq<char>) -> bool {
    e == "zip"@ || e == "gz"@ || e == "tgz"@ || e == "bz2"@ || e == "xz"@ || e == "7z"@ || e
        == "rar"@ || e == "tar"@ || e == "dmg"@ || e == "pkg"@
}

pub open spec fn is_document(e: Seq<char>) -> bool {
    e == "pdf"@ || e == "doc"@ || e == "docx"@ || e == "xls"@ || e == "xlsx"@ || e == "ppt"@ || e
        == "pptx"@ || e == "odt"@ || e == "rtf"@ || e == "txt"@ || e == "md"@ || e == "pages"@ || e
        == "numbers"@ || e == "key"@
}

pub open spec fn is_code(e: Seq<char>) -> bool {
    e == "rs"@ || e == "c"@ || e == "h"@ || e == "cpp"@ || e == "hpp"@ || e == "m"@ || e == "mm"@
        || e == "swift"@ || e == "go"@ || e == "py"@ || e == "js"@ || e == "jsx"@ || e == "ts"@ || e
        == "tsx"@ || e == "java"@ || e == "kt"@ || e == "rb"@ || e == "php"@ || e == "sh"@ || e
        == "zsh"@ || e == "fish"@ || e == "html"@ || e == "css"@ || e == "scss"@ || e == "json"@
        || e == "toml"@ || e == "yaml"@ || e == "yml"@ || e == "xml"@ || e == "sql"@
}

fn spells_image(e: &Vec<char>) -> (result: bool)
    ensures
        result == is_image(e@),
{
    text::spells(e, "jpg") || text::spells(e, "jpeg") || text::spells(e, "png") || text::spells(
        e,
        "gif",
    ) || text::spells(e, "webp") || text::spells(e, "heic") || text::spells(e, "tif")
        || text::spells(e, "tiff") || text::spells(e, "svg") || text::spells(e, "bmp")
        || text::spells(e, "ico")
}

fn spells_video(e: &Vec<char>) -> (result: bool)
    ensures
        result == is_video(e@),
{
    text::spells(e, "mp4") || text::spells(e, "mov") || text::spells(e, "mkv") || text::spells(
        e,
        "avi",
    ) || text::spells(e, "webm") || text::spells(e, "m4v") || text::spells(e, "mpeg")
        || text::spells(e, "mpg")
}

fn spells_audio(e: &Vec<char>) -> (result: bool)
    ensures
        result == is_audio(e@),
{
    text::spells(e, "mp3") || text::spells(e, "m4a") || text::spells(e, "aac") || text::spells(
        e,
        "wav",
    ) || text::spells(e, "flac") || text::spells(e, "ogg") || text::spells(e, "aiff")
}

fn spells_archive(e: &Vec<char>) -> (result: bool)
    ensures
        result == is_archive(e@),
{
    text::spells(e, "zip") || text::spells(e, "gz") || text::spells(e, "tgz") || text::spells(
        e,
        "bz2",
    ) || text::spells(e, "xz") || text::spells(e, "7z") || text::spells(e, "rar") || text::spells(
        e,
        "tar",
    ) || text::spells(e, "dmg") || text::spells(e, "pkg")
}

fn spells_document(e: &Vec<char>) -> (result: bool)
    ensures
        result == is_document(e@),
{
    text::spells(e, "pdf") || text::spells(e, "doc") || text::spells(e, "docx") || text::spells(
        e,
        "xls",
    ) || text::spells(e, "xlsx") || text::spells(e, "ppt") || text::spells(e, "pptx")
        || text::spells(e, "odt") || text::spells(e, "rtf") || text::spells(e, "txt")
        || text::spells(e, "md") || text::spells(e, "pages") || text::spells(e, "numbers")
        || text::spells(e, "key")
}

fn spells_code(e: &Vec<char>) -> (result: bool)
    ensures
        result == is_code(e@),
{
    text::spells(e, "rs") || text::spells(e, "c") || text::spells(e, "h") || text::spells(e, "cpp")
        || text::spells(e, "hpp") || text::spells(e, "m") || text::spells(e, "mm") || text::spells(
        e,
        "swift",
    ) || text::spells(e, "go") || text::spells(e, "py") || text::spells(e, "js") || text::spells(
        e,
        "jsx",
    ) || text::spells(e, "ts") || text::spells(e, "tsx") || text::spells(e, "java")
        || text::spells(e, "kt") || text::spells(e, "rb") || text::spells(e, "php")
        || text::spells(e, "sh") || text::spells(e, "zsh") || text::spells(e, "fish")
        || text::spells(e, "html") || text::spells(e, "css") || text::spells(e, "scss")
        || text::spells(e, "json") || text::spells(e, "toml") || text::spells(e, "yaml")
        || text::spells(e, "yml") || text::spells(e, "xml") || text::spells(e, "sql")
}

/// The category of a file without an extension or with the given one.
pub open spec fn category_of(extension: Option<Seq<char>>) -> FileCategory {
    match extension {
        Some(extension) => extension_category(extension),
        None => FileCategory::Other,
    }
}

/// The category that an extension in lowercase stands for.
pub fn category_for_extension(extension: Option<&str>) -> (category: FileCategory)
    ensures
        category == category_of(
            match extension {
                Some(extension) => Some(extension@),
                None => None,
            },
        ),
{
    let e = match extension {
        Some(extension) => text::chars_of(extension),
        None => {
            return FileCategory::Other;
        },
    };
    if spells_image(&e) {
        FileCategory::Image
    } else if spells_video(&e) {
        FileCategory::Video
    } else if spells_audio(&e) {
        FileCategory::Audio
    } else if spells_archive(&e) {
        FileCategory::Archive
    } else if spells_document(&e) {
        FileCategory::Document
    } else if spells_code(&e) {
        FileCategory::Code
    } else {
        FileCategory::Other
    }
}

/// The extension of a path in lowercase, unless it is empty.
pub open spec fn normal_extension(bytes: Seq<u8>) -> Option<Seq<char>> {
    match path::extension_of(bytes) {
        Some(extension) => if extension.len() == 0 {
            None
        } else {
            Some(text::lowercase(text::lossy_text(extension)))
        },
        None => None,
    }
}

pub fn normalized_extension(path: &FilePath) -> (extension: Option<String>)
    ensures
        tree::text_view(extension) == normal_extension(path@),
{
    match path.extension() {
        Some(extension) => {
            if extension.as_bytes().len() == 0 {
                return None;
            }
            let shown = extension.display();
            Some(shown.to_lowercase())
        },
        None => None,
    }
}

/// The category of the file at a path.
pub fn path_category(path: &FilePath) -> (category: FileCategory)
    ensures
        category == category_of(normal_extension(path@)),
{
    match normalized_extension(path) {
        Some(extension) => category_for_extension(Some(extension.as_str())),
        None => category_for_extension(None),
    }
}

/// A regular file of the index.
#[derive(Debug, PartialEq, Eq)]
pub struct FileRecord {
    pub path: FilePath,
    pub usage: UsageStats,
    pub identity: FileIdentity,
    pub modified_seconds: i64,
    pub modified_nanoseconds: i64,
    pub extension: Option<String>,
    pub category: FileCategory,
}

/// A copy of a text that may be missing.
pub fn copy_text(value: &Option<String>) -> (copy: Option<String>)
    ensures
        copy == *value,
        tree::text_view(copy) == tree::text_view(*value),
{
    match value {
        Some(value) => Some(value.clone()),
        None => None,
    }
}

impl Clone for FileRecord {
    fn clone(&self) -> (copy: Self)
        ensures
            copy == *self,
    {
        FileRecord {
            path: self.path.clone(),
            usage: self.usage,
            identity: self.identity,
            modified_seconds: self.modified_seconds,
            modified_nanoseconds: self.modified_nanoseconds,
            extension: copy_text(&self.extension),
            category: self.category,
        }
    }
}

/// A directory of the index, with what is below it.
#[derive(Debug, PartialEq, Eq)]
pub struct DirectoryRecord {
    pub path: FilePath,
    pub usage: UsageStats,
    pub identity: FileIdentity,
    pub modified_seconds: i64,
    pub modified_nanoseconds: i64,
}

impl Clone for DirectoryRecord {
    fn clone(&self) -> (copy: Self)
        ensures
            copy == *self,
    {
        DirectoryRecord {
            path: self.path.clone(),
            usage: self.usage,
            identity: self.identity,
            modified_seconds: self.modified_seconds,
            modified_nanoseconds: self.modified_nanoseconds,
        }
    }
}

/// A problem met while the index was built.
#[derive(Debug, PartialEq, Eq)]
pub struct AnalysisIssue {
    pub path: FilePath,
    pub message: String,
}

impl Clone for AnalysisIssue {
    fn clone(&self) -> (copy: Self)
        ensures
            copy == *self,
    {
        AnalysisIssue { path: self.path.clone(), message: self.message.clone() }
    }
}

/// The issues with one more, up to the largest number that is kept.
pub open spec fn with_issue(issues: Seq<AnalysisIssue>, path: FilePath, message: String) -> Seq<
    AnalysisIssue,
> {
    if issues.len() < MAX_ISSUES {
        issues.push(AnalysisIssue { path, message })
    } else {
        issues
    }
}

/// What an issue says.
pub struct IssueModel {
    pub path: FilePath,
    pub message: Seq<char>,
}

pub open spec fn issue_views(issues: Seq<AnalysisIssue>) -> Seq<IssueModel> {
    Seq::new(issues.len(), |i: int| IssueModel { path: issues[i].path, message: issues[i].message@ })
}

/// The issues with one more, up to the largest number that is kept.
pub open spec fn with_issue_text(issues: Seq<IssueModel>, path: FilePath, message: Seq<char>) -> Seq<
    IssueModel,
> {
    if issues.len() < MAX_ISSUES {
        issues.push(IssueModel { path, message })
    } else {
        issues
    }
}

pub fn push_issue(issues: &mut Vec<AnalysisIssue>, path: &FilePath, message: String)
    ensures
        final(issues)@ == with_issue(old(issues)@, *path, message),
        issue_views(final(issues)@) == with_issue_text(issue_views(old(issues)@), *path, message@),
{
    if issues.len() < MAX_ISSUES {
        issues.push(AnalysisIssue { path: path.clone(), message });
    }
    assert(issue_views(issues@) =~= with_issue_text(issue_views(old(issues)@), *path, message@));
}

/// How many files a group has and what they take up.
#[derive(Clone, Copy, Debug, PartialEq, Eq, Structural)]
pub struct GroupStats {
    pub files: u64,
    pub usage: UsageStats,
}

impl GroupStats {
    pub open spec fn zero() -> GroupStats {
        GroupStats { files: 0, usage: UsageStats::zero() }
    }

    pub open spec fn with_file(self, usage: UsageStats) -> GroupStats {
        GroupStats { files: tree::saturated(self.files + 1), usage: self.usage.plus(usage) }
    }

    pub fn add_file(self, usage: UsageStats) -> (stats: GroupStats)
        ensures
            stats == self.with_file(usage),
    {
        GroupStats {
            files: self.files.saturating_add(1),
            usage: self.usage.saturating_add(usage),
        }
    }
}

impl Default for GroupStats {
    fn default() -> (stats: Self)
        ensures
            stats == GroupStats::zero(),
    {
        GroupStats { files: 0, usage: UsageStats::default() }
    }
}

/// A named group of files.
#[derive(Debug, PartialEq, Eq)]
pub struct GroupRow {
    pub name: String,
    pub stats: GroupStats,
}

impl Clone for GroupRow {
    fn clone(&self) -> (copy: Self)
        ensures
            copy == *self,
    {
        GroupRow { name: self.name.clone(), stats: self.stats }
    }
}

pub struct GroupLine {
    pub name: Seq<char>,
    pub stats: GroupStats,
}

pub open spec fn group_lines(rows: Seq<GroupRow>) -> Seq<GroupLine> {
    Seq::new(rows.len(), |i: int| GroupLine { name: rows[i].name@, stats: rows[i].stats })
}

/// What the files with a given group name add up to. The file at a place has
/// the group name at the same place.
pub open spec fn group_total(
    names: Seq<Seq<char>>,
    usages: Seq<UsageStats>,
    name: Seq<char>,
) -> GroupStats
    decreases names.len(),
{
    if names.len() == 0 {
        GroupStats::zero()
    } else {
        let rest = group_total(names.drop_last(), usages.drop_last(), name);
        if names.last() == name {
            rest.with_file(usages.last())
        } else {
            rest
        }
    }
}

/// Whether names come in order, each once.
pub open spec fn names_ascend(rows: Seq<GroupLine>) -> bool {
    forall|i: int, j: int|
        0 <= i < j < rows.len() ==> {
            &&& order::key_le(
                text::text_key((#[trigger] rows[i]).name),
                text::text_key((#[trigger] rows[j]).name),
            )
            &&& rows[i].name != rows[j].name
        }
}

/// Whether the rows are the groups of the files, in the order of their names:
/// each name of a file has one row, which adds up the files with that name.
pub open spec fn is_grouping(
    rows: Seq<GroupLine>,
    names: Seq<Seq<char>>,
    usages: Seq<UsageStats>,
) -> bool {
    &&& names_ascend(rows)
    &&& forall|i: int|
        0 <= i < rows.len() ==> {
            &&& names.contains((#[trigger] rows[i]).name)
            &&& rows[i].stats == group_total(names, usages, rows[i].name)
        }
    &&& forall|name: Seq<char>| #[trigger]
        names.contains(name) ==> exists|i: int| 0 <= i < rows.len() && (#[trigger] rows[i]).name == name
}

struct GroupTable {
    rows: Vec<GroupRow>,
    keys: Vec<Vec<u64>>,
}

impl GroupTable {
    spec fn lines(self) -> Seq<GroupLine> {
        group_lines(self.rows@)
    }

    spec fn wf(self) -> bool {
        &&& names_ascend(self.lines())
        &&& self.keys@.len() == self.rows@.len()
        &&& forall|i: int|
            0 <= i < self.keys@.len() ==> (#[trigger] self.keys@[i])@ == text::text_key(
                self.rows@[i].name@,
            )
    }

    fn new() -> (table: Self)
        ensures
            table.wf(),
            table.rows@.len() == 0,
    {
        GroupTable { rows: Vec::new(), keys: Vec::new() }
    }

    /// The first place whose name is not before the given key.
    fn place(&self, key: &Vec<u64>) -> (place: usize)
        requires
            self.wf(),
        ensures
            place <= self.rows@.len(),
            forall|i: int|
                0 <= i < place ==> !order::key_le(key@, (#[trigger] self.keys@[i])@),
            forall|i: int|
                place <= i < self.keys@.len() ==> order::key_le(key@, (#[trigger] self.keys@[i])@),
    {
        let mut low: usize = 0;
        let mut high: usize = self.keys.len();
        while low < high
            invariant
                self.wf(),
                low <= high <= self.keys@.len(),
                forall|i: int|
                    0 <= i < low ==> !order::key_le(key@, (#[trigger] self.keys@[i])@),
                forall|i: int|
                    high <= i < self.keys@.len() ==> order::key_le(
                        key@,
                        (#[trigger] self.keys@[i])@,
                    ),
            decreases high - low,
        {
            let middle: usize = low + (high - low) / 2;
            if order::key_not_after(key, &self.keys[middle]) {
                proof {
                    assert forall|i: int| middle <= i < self.keys@.len() implies order::key_le(
                        key@,
                        (#[trigger] self.keys@[i])@,
                    ) by {
                        if i > middle {
                            assert(self.lines()[middle as int].name == self.rows@[middle as int].name@);
                            assert(self.lines()[i].name == self.rows@[i].name@);
                            order::lemma_key_le_transitive(
                                key@,
                                self.keys@[middle as int]@,
                                self.keys@[i]@,
                            );
                        }
                    }
                }
                high = middle;
            } else {
                proof {
                    assert forall|i: int| 0 <= i < middle + 1 implies !order::key_le(
                        key@,
                        (#[trigger] self.keys@[i])@,
                    ) by {
                        if i < middle && order::key_le(key@, self.keys@[i]@) {
                            assert(self.lines()[middle as int].name == self.rows@[middle as int].name@);
                            assert(self.lines()[i].name == self.rows@[i].name@);
                            order::lemma_key_le_transitive(
                                key@,
                                self.keys@[i]@,
                                self.keys@[middle as int]@,
                            );
                        }
                    }
                }
                low = middle + 1;
            }
        }
        low
    }

    /// Counts a file in the group with a name.
    fn add(&mut self, name: String, usage: UsageStats, Ghost(names): Ghost<Seq<Seq<char>>>, Ghost(
        usages,
    ): Ghost<Seq<UsageStats>>)
        requires
            old(self).wf(),
            names.len() == usages.len(),
            is_grouping(old(self).lines(), names, usages),
        ensures
            final(self).wf(),
            is_grouping(final(self).lines(), names.push(name@), usages.push(usage)),
    {
        let ghost before = *self;
        let ghost old_lines = self.lines();
        let mut key: Vec<u64> = Vec::new();
        text::push_text_key(&mut key, name.as_str());
        assert(key@ =~= text::text_key(name@));
        let place = self.place(&key);
        let ghost wanted = name@;
        let known: bool = place < self.rows.len() && order::key_not_after(&self.keys[place], &key);
        proof {
            if known {
                order::lemma_key_le_antisymmetric(key@, self.keys@[place as int]@);
                text::lemma_text_key_injective(wanted, self.rows@[place as int].name@);
            }
            assert forall|i: int| 0 <= i < old_lines.len() && !(known && i == place) implies (
            #[trigger] old_lines[i]).name != wanted by {
                if old_lines[i].name == wanted {
                    assert(self.keys@[i]@ == key@);
                    order::lemma_key_le_total(key@, key@);
                    if i > place {
                        assert(old_lines[place as int].name == self.rows@[place as int].name@);
                        order::lemma_key_le_antisymmetric(key@, self.keys@[place as int]@);
                    }
                }
            }
        }
        if known {
            let stats = self.rows[place].stats.add_file(usage);
            self.rows[place].stats = stats;
        } else {
            let empty = GroupStats::default();
            self.rows.insert(place, GroupRow { name, stats: empty.add_file(usage) });
            self.keys.insert(place, key);
        }
        proof {
            let lines = self.lines();
            if !known {
                assert(!names.contains(wanted)) by {
                    if names.contains(wanted) {
                        let i = choose|i: int|
                            0 <= i < old_lines.len() && (#[trigger] old_lines[i]).name == wanted;
                    }
                }
                lemma_group_missing(names, usages, wanted);
                assert forall|i: int, j: int| 0 <= i < j < lines.len() implies {
                    &&& order::key_le(
                        text::text_key((#[trigger] lines[i]).name),
                        text::text_key((#[trigger] lines[j]).name),
                    )
                    &&& lines[i].name != lines[j].name
                } by {
                    let a = if i < place {
                        i
                    } else {
                        i - 1
                    };
                    let b = if j < place {
                        j
                    } else {
                        j - 1
                    };
                    if i != place && j != place {
                        assert(lines[i] == old_lines[a]);
                        assert(lines[j] == old_lines[b]);
                    } else if j == place {
                        assert(lines[i] == old_lines[i]);
                        assert(!order::key_le(key@, before.keys@[i]@));
                        order::lemma_key_le_total(key@, before.keys@[i]@);
                    } else {
                        assert(lines[j] == old_lines[b]);
                        assert(order::key_le(key@, before.keys@[b]@));
                    }
                }
                assert forall|i: int| 0 <= i < self.keys@.len() implies (
                #[trigger] self.keys@[i])@ == text::text_key(self.rows@[i].name@) by {
                    if i < place {
                        assert(self.keys@[i] == before.keys@[i]);
                    } else if i > place {
                        assert(self.keys@[i] == before.keys@[i - 1]);
                    }
                }
            } else {
                assert forall|i: int, j: int| 0 <= i < j < lines.len() implies {
                    &&& order::key_le(
                        text::text_key((#[trigger] lines[i]).name),
                        text::text_key((#[trigger] lines[j]).name),
                    )
                    &&& lines[i].name != lines[j].name
                } by {
                    assert(lines[i].name == old_lines[i].name);
                    assert(lines[j].name == old_lines[j].name);
                }
            }
            lists::lemma_push_contains(names, wanted);
            let more = names.push(wanted);
            let sums = usages.push(usage);
            assert(more.drop_last() =~= names);
            assert(sums.drop_last() =~= usages);
            assert forall|i: int| 0 <= i < lines.len() implies {
                &&& more.contains((#[trigger] lines[i]).name)
                &&& lines[i].stats == group_total(more, sums, lines[i].name)
            } by {
                let a = if known || i < place {
                    i
                } else {
                    i - 1
                };
                if i == place {
                    if known {
                        assert(old_lines[i].name == wanted);
                        assert(old_lines[i].stats == group_total(names, usages, wanted));
                    }
                } else {
                    assert(lines[i] == old_lines[a]);
                    assert(old_lines[a].name != wanted);
                }
            }
            assert forall|n: Seq<char>| #[trigger] more.contains(n) implies exists|i: int|
                0 <= i < lines.len() && (#[trigger] lines[i]).name == n by {
                if n == wanted {
                    assert(lines[place as int].name == n);
                } else {
                    assert(names.contains(n));
                    let a = choose|a: int| 0 <= a < old_lines.len() && (#[trigger] old_lines[a]).name == n;
                    let i = if known || a < place {
                        a
                    } else {
                        a + 1
                    };
                    assert(lines[i].name == n);
                }
            }
        }
    }
}

/// A name that no file has adds up to nothing.
proof fn lemma_group_missing(names: Seq<Seq<char>>, usages: Seq<UsageStats>, name: Seq<char>)
    requires
        !names.contains(name),
        names.len() == usages.len(),
    ensures
        group_total(names, usages, name) == GroupStats::zero(),
    decreases names.len(),
{
    if names.len() > 0 {
        assert(names[names.len() - 1] != name);
        assert(!names.drop_last().contains(name)) by {
            if names.drop_last().contains(name) {
                let i = choose|i: int|
                    0 <= i < names.drop_last().len() && names.drop_last()[i] == name;
                assert(names[i] == name);
            }
        }
        lemma_group_missing(names.drop_last(), usages.drop_last(), name);
    }
}

/// One of several files with the same contents.
#[derive(Debug, PartialEq, Eq)]
pub struct DuplicateEntry {
    pub path: FilePath,
    pub usage: UsageStats,
    pub identity: FileIdentity,
    pub hardlink_aliases: Vec<FilePath>,
}

pub struct EntryModel {
    pub path: FilePath,
    pub usage: UsageStats,
    pub identity: FileIdentity,
    pub hardlink_aliases: Seq<FilePath>,
}

impl View for DuplicateEntry {
    type V = EntryModel;

    open spec fn view(&self) -> EntryModel {
        EntryModel {
            path: self.path,
            usage: self.usage,
            identity: self.identity,
            hardlink_aliases: self.hardlink_aliases@,
        }
    }
}

/// A copy of a list of paths.
pub fn copy_paths(paths: &Vec<FilePath>) -> (copy: Vec<FilePath>)
    ensures
        copy@ == paths@,
{
    let mut copy: Vec<FilePath> = Vec::new();
    let mut i: usize = 0;
    while i < paths.len()
        invariant
            i <= paths@.len(),
            copy@ == paths@.take(i as int),
        decreases paths@.len() - i,
    {
        copy.push(paths[i].clone());
        i += 1;
        assert(copy@ =~= paths@.take(i as int));
    }
    assert(copy@ =~= paths@);
    copy
}

impl Clone for DuplicateEntry {
    fn clone(&self) -> (copy: Self)
        ensures
            copy@ == self@,
    {
        DuplicateEntry {
            path: self.path.clone(),
            usage: self.usage,
            identity: self.identity,
            hardlink_aliases: copy_paths(&self.hardlink_aliases),
        }
    }
}

/// Files with the same contents, and what removing all but one would free.
#[derive(Debug, PartialEq, Eq)]
pub struct DuplicateGroup {
    pub hash: String,
    pub logical_size: u64,
    pub reclaimable_logical: u64,
    pub physical_total: u64,
    pub files: Vec<DuplicateEntry>,
}

pub struct GroupModel {
    pub hash: Seq<char>,
    pub logical_size: u64,
    pub reclaimable_logical: u64,
    pub physical_total: u64,
    pub files: Seq<EntryModel>,
}

/// The contents of a list of duplicates.
pub open spec fn entry_views(entries: Seq<DuplicateEntry>) -> Seq<EntryModel> {
    Seq::new(entries.len(), |i: int| entries[i]@)
}

impl View for DuplicateGroup {
    type V = GroupModel;

    open spec fn view(&self) -> GroupModel {
        GroupModel {
            hash: self.hash@,
            logical_size: self.logical_size,
            reclaimable_logical: self.reclaimable_logical,
            physical_total: self.physical_total,
            files: entry_views(self.files@),
        }
    }
}

/// The contents of a list of groups.
pub open spec fn group_views(groups: Seq<DuplicateGroup>) -> Seq<GroupModel> {
    Seq::new(groups.len(), |i: int| groups[i]@)
}

impl Clone for DuplicateGroup {
    fn clone(&self) -> (copy: Self)
        ensures
            copy@ == self@,
    {
        let mut files: Vec<DuplicateEntry> = Vec::new();
        let mut i: usize = 0;
        while i < self.files.len()
            invariant
                i <= self.files@.len(),
                entry_views(files@) == entry_views(self.files@).take(i as int),
                files@.len() == i,
            decreases self.files@.len() - i,
        {
            let ghost last = files@;
            files.push(self.files[i].clone());
            i += 1;
            assert(entry_views(files@) =~= entry_views(self.files@).take(i as int)) by {
                assert(entry_views(last) == entry_views(self.files@).take(i - 1));
                assert forall|k: int| 0 <= k < i implies entry_views(files@)[k] == entry_views(
                    self.files@,
                )[k] by {
                    if k < i - 1 {
                        assert(entry_views(last)[k] == entry_views(self.files@).take(i - 1)[k]);
                    }
                }
            }
        }
        assert(entry_views(files@) =~= entry_views(self.files@));
        DuplicateGroup {
            hash: self.hash.clone(),
            logical_size: self.logical_size,
            reclaimable_logical: self.reclaimable_logical,
            physical_total: self.physical_total,
            files,
        }
    }
}

/// Statistics of a set of files.
#[derive(Debug, PartialEq, Eq)]
pub struct AnalysisSummary {
    pub total: UsageStats,
    pub categories: Vec<GroupRow>,
    pub extensions: Vec<GroupRow>,
    pub age_buckets: Vec<GroupRow>,
}

/// How old a file is, in the words of the summary.
pub open spec fn age_bucket(modified_seconds: i64, now: u64) -> Seq<char> {
    if modified_seconds < 0 {
        "unknown"@
    } else {
        let age = tree::saturated(now - modified_seconds);
        if age <= 86_399 {
            "<24h"@
        } else if age <= 604_799 {
            "1-7d"@
        } else if age <= 2_591_999 {
            "7-30d"@
        } else if age <= 31_535_999 {
            "30-365d"@
        } else {
            ">1y"@
        }
    }
}

fn age_label(modified_seconds: i64, now: u64) -> (label: &'static str)
    ensures
        label@ == age_bucket(modified_seconds, now),
{
    if modified_seconds < 0 {
        return "unknown";
    }
    let age: u64 = now.saturating_sub(modified_seconds as u64);
    if age <= 86_399 {
        "<24h"
    } else if age <= 604_799 {
        "1-7d"
    } else if age <= 2_591_999 {
        "7-30d"
    } else if age <= 31_535_999 {
        "30-365d"
    } else {
        ">1y"
    }
}

/// The name that stands for a missing extension.
pub open spec fn extension_name(extension: Option<Seq<char>>) -> Seq<char> {
    match extension {
        Some(extension) => extension,
        None => "<none>"@,
    }
}

/// The sum of usages.
pub open spec fn usage_sum(usages: Seq<UsageStats>) -> UsageStats
    decreases usages.len(),
{
    if usages.len() == 0 {
        UsageStats::zero()
    } else {
        usage_sum(usages.drop_last()).plus(usages.last())
    }
}

pub open spec fn file_usages(files: Seq<FileRecord>) -> Seq<UsageStats> {
    Seq::new(files.len(), |i: int| files[i].usage)
}

pub open spec fn category_names(files: Seq<FileRecord>) -> Seq<Seq<char>> {
    Seq::new(files.len(), |i: int| files[i].category.label_text())
}

pub open spec fn extension_names(files: Seq<FileRecord>) -> Seq<Seq<char>> {
    Seq::new(files.len(), |i: int| extension_name(tree::text_view(files[i].extension)))
}

pub open spec fn age_names(files: Seq<FileRecord>, now: u64) -> Seq<Seq<char>> {
    Seq::new(files.len(), |i: int| age_bucket(files[i].modified_seconds, now))
}

/// Whether a summary adds up the given files as seen at the given time.
pub open spec fn summarizes(summary: AnalysisSummary, files: Seq<FileRecord>, now: u64) -> bool {
    &&& summary.total == usage_sum(file_usages(files))
    &&& is_grouping(group_lines(summary.categories@), category_names(files), file_usages(files))
    &&& is_grouping(group_lines(summary.extensions@), extension_names(files), file_usages(files))
    &&& is_grouping(group_lines(summary.age_buckets@), age_names(files, now), file_usages(files))
}

/// The files at the given places.
pub open spec fn chosen_files(files: Seq<FileRecord>, chosen: Seq<usize>) -> Seq<FileRecord> {
    Seq::new(chosen.len(), |i: int| files[chosen[i] as int])
}

/// The summary of the files at the given places, as seen at the given time.
pub fn summary_of(files: &Vec<FileRecord>, chosen: &Vec<usize>, now: u64) -> (summary:
    AnalysisSummary)
    requires
        order::within(chosen@, 0, files@.len() as int),
    ensures
        summarizes(summary, chosen_files(files@, chosen@), now),
{
    let mut total = UsageStats::default();
    let mut categories = GroupTable::new();
    let mut extensions = GroupTable::new();
    let mut ages = GroupTable::new();
    let ghost all = chosen_files(files@, chosen@);
    let mut i: usize = 0;
    while i < chosen.len()
        invariant
            i <= chosen@.len(),
            order::within(chosen@, 0, files@.len() as int),
            all == chosen_files(files@, chosen@),
            total == usage_sum(file_usages(all.take(i as int))),
            categories.wf(),
            extensions.wf(),
            ages.wf(),
            is_grouping(
                categories.lines(),
                category_names(all.take(i as int)),
                file_usages(all.take(i as int)),
            ),
            is_grouping(
                extensions.lines(),
                extension_names(all.take(i as int)),
                file_usages(all.take(i as int)),
            ),
            is_grouping(
                ages.lines(),
                age_names(all.take(i as int), now),
                file_usages(all.take(i as int)),
            ),
        decreases chosen@.len() - i,
    {
        let file: &FileRecord = &files[chosen[i]];
        let ghost part = all.take(i as int);
        let ghost more = all.take(i + 1);
        proof {
            assert(more =~= part.push(*file));
            assert(file_usages(more) =~= file_usages(part).push(file.usage));
            assert(file_usages(more).drop_last() =~= file_usages(part));
            assert(category_names(more) =~= category_names(part).push(file.category.label_text()));
            assert(extension_names(more) =~= extension_names(part).push(
                extension_name(tree::text_view(file.extension)),
            ));
            assert(age_names(more, now) =~= age_names(part, now).push(
                age_bucket(file.modified_seconds, now),
            ));
        }
        total = total.saturating_add(file.usage);
        categories.add(
            file.category.label().to_owned(),
            file.usage,
            Ghost(category_names(part)),
            Ghost(file_usages(part)),
        );
        let extension: String = match &file.extension {
            Some(extension) => extension.clone(),
            None => "<none>".to_owned(),
        };
        extensions.add(
            extension,
            file.usage,
            Ghost(extension_names(part)),
            Ghost(file_usages(part)),
        );
        ages.add(
            age_label(file.modified_seconds, now).to_owned(),
            file.usage,
            Ghost(age_names(part, now)),
            Ghost(file_usages(part)),
        );
        i += 1;
    }
    assert(all.take(i as int) =~= all);
    AnalysisSummary {
        total,
        categories: categories.rows,
        extensions: extensions.rows,
        age_buckets: ages.rows,
    }
}

/// The index of a tree.
#[derive(Debug)]
pub struct AnalysisIndex {
    pub root: FilePath,
    pub one_file_system: bool,
    pub started_at: u64,
    pub completed_at: Option<u64>,
    pub files: Vec<FileRecord>,
    pub directories: Vec<DirectoryRecord>,
    pub issues: Vec<AnalysisIssue>,
    pub mounts_skipped: usize,
    pub complete: bool,
    pub duplicates: Option<Vec<DuplicateGroup>>,
}

pub struct IndexModel {
    pub root: FilePath,
    pub one_file_system: bool,
    pub started_at: u64,
    pub completed_at: Option<u64>,
    pub files: Seq<FileRecord>,
    pub directories: Seq<DirectoryRecord>,
    pub issues: Seq<AnalysisIssue>,
    pub mounts_skipped: usize,
    pub complete: bool,
    pub duplicates: Option<Seq<GroupModel>>,
}

impl View for AnalysisIndex {
    type V = IndexModel;

    open spec fn view(&self) -> IndexModel {
        IndexModel {
            root: self.root,
            one_file_system: self.one_file_system,
            started_at: self.started_at,
            completed_at: self.completed_at,
            files: self.files@,
            directories: self.directories@,
            issues: self.issues@,
            mounts_skipped: self.mounts_skipped,
            complete: self.complete,
            duplicates: match self.duplicates {
                Some(groups) => Some(group_views(groups@)),
                None => None,
            },
        }
    }
}

/// The place of the first directory with a path, or the number of them.
pub open spec fn directory_place(directories: Seq<DirectoryRecord>, path: Seq<u8>) -> int
    decreases directories.len(),
{
    if directories.len() == 0 {
        0
    } else if path::same_path(directories[0].path@, path) {
        0
    } else {
        1 + directory_place(directories.drop_first(), path)
    }
}

/// The usage of the first directory with a path.
pub open spec fn directory_usage(directories: Seq<DirectoryRecord>, path: Seq<u8>) -> Option<
    UsageStats,
> {
    let place = directory_place(directories, path);
    if place < directories.len() {
        Some(directories[place].usage)
    } else {
        None
    }
}

/// The first file with a path.
pub open spec fn file_place(files: Seq<FileRecord>, path: Seq<u8>) -> int
    decreases files.len(),
{
    if files.len() == 0 {
        0
    } else if path::same_path(files[0].path@, path) {
        0
    } else {
        1 + file_place(files.drop_first(), path)
    }
}

pub open spec fn file_at(files: Seq<FileRecord>, path: Seq<u8>) -> Option<FileRecord> {
    let place = file_place(files, path);
    if place < files.len() {
        Some(files[place])
    } else {
        None
    }
}

/// The usage of the first directory with a path.
pub fn find_directory_usage(directories: &Vec<DirectoryRecord>, path: &FilePath) -> (usage: Option<
    UsageStats,
>)
    ensures
        usage == directory_usage(directories@, path@),
{
    let mut i: usize = 0;
    assert(directories@.skip(0) =~= directories@);
    while i < directories.len()
        invariant
            i <= directories@.len(),
            directory_place(directories@, path@) == i + directory_place(
                directories@.skip(i as int),
                path@,
            ),
        decreases directories@.len() - i,
    {
        if directories[i].path.same(path) {
            return Some(directories[i].usage);
        }
        assert(directories@.skip(i as int).drop_first() =~= directories@.skip(i + 1));
        i += 1;
    }
    None
}

/// The place of the first file with a path.
pub fn find_file(files: &Vec<FileRecord>, path: &FilePath) -> (place: Option<usize>)
    ensures
        match place {
            Some(place) => place == file_place(files@, path@) && place < files@.len(),
            None => file_place(files@, path@) >= files@.len(),
        },
{
    let mut i: usize = 0;
    assert(files@.skip(0) =~= files@);
    while i < files.len()
        invariant
            i <= files@.len(),
            file_place(files@, path@) == i + file_place(files@.skip(i as int), path@),
        decreases files@.len() - i,
    {
        if files[i].path.same(path) {
            return Some(i);
        }
        assert(files@.skip(i as int).drop_first() =~= files@.skip(i + 1));
        i += 1;
    }
    None
}

/// What lies outside a subtree.
pub open spec fn file_outside(path: Seq<u8>) -> spec_fn(FileRecord) -> bool {
    |file: FileRecord| !path::path_starts_with(file.path@, path)
}

pub open spec fn directory_outside(path: Seq<u8>) -> spec_fn(DirectoryRecord) -> bool {
    |directory: DirectoryRecord| !path::path_starts_with(directory.path@, path)
}

pub open spec fn issue_outside(path: Seq<u8>) -> spec_fn(AnalysisIssue) -> bool {
    |issue: AnalysisIssue| !path::path_starts_with(issue.path@, path)
}

impl IndexModel {
    pub open spec fn empty(root: FilePath, one_file_system: bool, started_at: u64) -> IndexModel {
        IndexModel {
            root,
            one_file_system,
            started_at,
            completed_at: None,
            files: Seq::empty(),
            directories: Seq::empty(),
            issues: Seq::empty(),
            mounts_skipped: 0,
            complete: false,
            duplicates: None,
        }
    }

    /// What the whole tree takes up: the record of the root, or the sum of the
    /// files while there is none.
    pub open spec fn total(self) -> UsageStats {
        match directory_usage(self.directories, self.root@) {
            Some(usage) => usage,
            None => usage_sum(file_usages(self.files)),
        }
    }

    /// The index without the records of a subtree. What was known of
    /// duplicates no longer holds.
    pub open spec fn without_subtree(self, path: Seq<u8>) -> IndexModel {
        IndexModel {
            files: self.files.filter(file_outside(path)),
            directories: self.directories.filter(directory_outside(path)),
            duplicates: None,
            ..self
        }
    }
}

/// The sum of the usages of files.
pub fn sum_of_files(files: &Vec<FileRecord>) -> (total: UsageStats)
    ensures
        total == usage_sum(file_usages(files@)),
{
    let mut total = UsageStats::default();
    let mut i: usize = 0;
    while i < files.len()
        invariant
            i <= files@.len(),
            total == usage_sum(file_usages(files@.take(i as int))),
        decreases files@.len() - i,
    {
        assert(file_usages(files@.take(i + 1)).drop_last() =~= file_usages(files@.take(i as int)));
        total = total.saturating_add(files[i].usage);
        i += 1;
    }
    assert(files@.take(i as int) =~= files@);
    total
}

/// The places of all files.
pub open spec fn all_places(count: nat) -> Seq<usize> {
    Seq::new(count, |i: int| i as usize)
}

pub fn every_place(count: usize) -> (places: Vec<usize>)
    ensures
        places@ == all_places(count as nat),
        order::within(places@, 0, count as int),
{
    let mut places: Vec<usize> = Vec::new();
    let mut i: usize = 0;
    while i < count
        invariant
            i <= count,
            places@ == all_places(i as nat),
        decreases count - i,
    {
        places.push(i);
        i += 1;
        assert(places@ =~= all_places(i as nat));
    }
    places
}

/// `SystemTime::now`, in seconds since the epoch. Nothing is said of the time.
#[verifier::external_body]
pub fn now_seconds() -> u64 {
    std::time::SystemTime::now().duration_since(std::time::UNIX_EPOCH).unwrap_or_default().as_secs()
}

impl AnalysisIndex {
    pub fn new(root: FilePath, one_file_system: bool, started_at: u64) -> (index: Self)
        ensures
            index@ == IndexModel::empty(root, one_file_system, started_at),
    {
        let index = AnalysisIndex {
            root,
            one_file_system,
            started_at,
            completed_at: None,
            files: Vec::new(),
            directories: Vec::new(),
            issues: Vec::new(),
            mounts_skipped: 0,
            complete: false,
            duplicates: None,
        };
        assert(index.files@ =~= Seq::empty());
        assert(index.directories@ =~= Seq::empty());
        assert(index.issues@ =~= Seq::empty());
        index
    }

    /// What the whole tree takes up.
    pub fn root_usage(&self) -> (usage: UsageStats)
        ensures
            usage == self@.total(),
    {
        match find_directory_usage(&self.directories, &self.root) {
            Some(usage) => usage,
            None => sum_of_files(&self.files),
        }
    }

    /// The summary of the files at the given places, as of now.
    pub fn summary(&self, chosen: &Vec<usize>) -> (summary: AnalysisSummary)
        requires
            order::within(chosen@, 0, self.files@.len() as int),
        ensures
            exists|now: u64| summarizes(summary, chosen_files(self.files@, chosen@), now),
    {
        let now = now_seconds();
        summary_of(&self.files, chosen, now)
    }

    /// Removes the records of a subtree.
    pub fn remove_subtree(&mut self, path: &FilePath)
        ensures
            final(self)@ == old(self)@.without_subtree(path@),
    {
        let ghost before = self@;
        self.files = files_outside(&self.files, path);
        self.directories = directories_outside(&self.directories, path);
        self.duplicates = None;
    }
}

fn files_outside(files: &Vec<FileRecord>, path: &FilePath) -> (rest: Vec<FileRecord>)
    ensures
        rest@ == files@.filter(file_outside(path@)),
{
    let mut rest: Vec<FileRecord> = Vec::new();
    let mut i: usize = 0;
    proof {
        reveal(Seq::filter);
        assert(files@.take(0).filter(file_outside(path@)) =~= Seq::empty());
    }
    while i < files.len()
        invariant
            i <= files@.len(),
            rest@ == files@.take(i as int).filter(file_outside(path@)),
        decreases files@.len() - i,
    {
        proof {
            lists::lemma_filter_step(files@, file_outside(path@), i as int);
        }
        if !files[i].path.starts_with(path) {
            rest.push(files[i].clone());
        }
        i += 1;
    }
    assert(files@.take(i as int) =~= files@);
    rest
}

fn directories_outside(directories: &Vec<DirectoryRecord>, path: &FilePath) -> (rest: Vec<
    DirectoryRecord,
>)
    ensures
        rest@ == directories@.filter(directory_outside(path@)),
{
    let mut rest: Vec<DirectoryRecord> = Vec::new();
    let mut i: usize = 0;
    proof {
        reveal(Seq::filter);
        assert(directories@.take(0).filter(directory_outside(path@)) =~= Seq::empty());
    }
    while i < directories.len()
        invariant
            i <= directories@.len(),
            rest@ == directories@.take(i as int).filter(directory_outside(path@)),
        decreases directories@.len() - i,
    {
        proof {
            lists::lemma_filter_step(directories@, directory_outside(path@), i as int);
        }
        if !directories[i].path.starts_with(path) {
            rest.push(directories[i].clone());
        }
        i += 1;
    }
    assert(directories@.take(i as int) =~= directories@);
    rest
}

/// The issues that are not about a subtree.
pub fn issues_outside(issues: &Vec<AnalysisIssue>, path: &FilePath) -> (rest: Vec<AnalysisIssue>)
    ensures
        rest@ == issues@.filter(issue_outside(path@)),
{
    let mut rest: Vec<AnalysisIssue> = Vec::new();
    let mut i: usize = 0;
    proof {
        reveal(Seq::filter);
        assert(issues@.take(0).filter(issue_outside(path@)) =~= Seq::empty());
    }
    while i < issues.len()
        invariant
            i <= issues@.len(),
            rest@ == issues@.take(i as int).filter(issue_outside(path@)),
        decreases issues@.len() - i,
    {
        proof {
            lists::lemma_filter_step(issues@, issue_outside(path@), i as int);
        }
        if !issues[i].path.starts_with(path) {
            rest.push(issues[i].clone());
        }
        i += 1;
    }
    assert(issues@.take(i as int) =~= issues@);
    rest
}

/// A copy of a list of files.
pub fn copy_files(files: &Vec<FileRecord>) -> (copy: Vec<FileRecord>)
    ensures
        copy@ == files@,
{
    let mut copy: Vec<FileRecord> = Vec::new();
    let mut i: usize = 0;
    while i < files.len()
        invariant
            i <= files@.len(),
            copy@ == files@.take(i as int),
        decreases files@.len() - i,
    {
        copy.push(files[i].clone());
        i += 1;
        assert(copy@ =~= files@.take(i as int));
    }
    assert(copy@ =~= files@);
    copy
}

fn copy_directories(directories: &Vec<DirectoryRecord>) -> (copy: Vec<DirectoryRecord>)
    ensures
        copy@ == directories@,
{
    let mut copy: Vec<DirectoryRecord> = Vec::new();
    let mut i: usize = 0;
    while i < directories.len()
        invariant
            i <= directories@.len(),
            copy@ == directories@.take(i as int),
        decreases directories@.len() - i,
    {
        copy.push(directories[i].clone());
        i += 1;
        assert(copy@ =~= directories@.take(i as int));
    }
    assert(copy@ =~= directories@);
    copy
}

fn copy_issues(issues: &Vec<AnalysisIssue>) -> (copy: Vec<AnalysisIssue>)
    ensures
        copy@ == issues@,
{
    let mut copy: Vec<AnalysisIssue> = Vec::new();
    let mut i: usize = 0;
    while i < issues.len()
        invariant
            i <= issues@.len(),
            copy@ == issues@.take(i as int),
        decreases issues@.len() - i,
    {
        copy.push(issues[i].clone());
        i += 1;
        assert(copy@ =~= issues@.take(i as int));
    }
    assert(copy@ =~= issues@);
    copy
}

fn copy_groups(groups: &Vec<DuplicateGroup>) -> (copy: Vec<DuplicateGroup>)
    ensures
        group_views(copy@) == group_views(groups@),
{
    let mut copy: Vec<DuplicateGroup> = Vec::new();
    let mut i: usize = 0;
    while i < groups.len()
        invariant
            i <= groups@.len(),
            copy@.len() == i,
            forall|k: int| 0 <= k < i ==> (#[trigger] copy@[k])@ == groups@[k]@,
        decreases groups@.len() - i,
    {
        copy.push(groups[i].clone());
        i += 1;
    }
    assert(group_views(copy@) =~= group_views(groups@));
    copy
}

impl Clone for AnalysisIndex {
    fn clone(&self) -> (copy: Self)
        ensures
            copy@ == self@,
    {
        AnalysisIndex {
            root: self.root.clone(),
            one_file_system: self.one_file_system,
            started_at: self.started_at,
            completed_at: self.completed_at,
            files: copy_files(&self.files),
            directories: copy_directories(&self.directories),
            issues: copy_issues(&self.issues),
            mounts_skipped: self.mounts_skipped,
            complete: self.complete,
            duplicates: match &self.duplicates {
                Some(groups) => Some(copy_groups(groups)),
                None => None,
            },
        }
    }
}

/// What the work on an index reports.
#[derive(Debug)]
pub enum AnalysisEvent {
    Started { generation: u64, scan_root: FilePath, started_at: u64 },
    FileBatch { generation: u64, files: Vec<FileRecord> },
    Finished {
        generation: u64,
        scan_root: FilePath,
        completed_at: u64,
        directories: Vec<DirectoryRecord>,
        issues: Vec<AnalysisIssue>,
        mounts_skipped: usize,
    },
    DuplicatesStarted { generation: u64, candidates: usize },
    DuplicatesFinished {
        generation: u64,
        groups: Vec<DuplicateGroup>,
        issues: Vec<AnalysisIssue>,
    },
}

/// The groups of some files are determined by the files.
pub proof fn grouping_is_unique(
    first: Seq<GroupLine>,
    second: Seq<GroupLine>,
    names: Seq<Seq<char>>,
    usages: Seq<UsageStats>,
)
    requires
        is_grouping(first, names, usages),
        is_grouping(second, names, usages),
    ensures
        first == second,
{
    assert forall|i: int| 0 <= i < first.len() implies i < second.len() && first[i]
        == second[i] by {
        lemma_same_group(first, second, names, usages, i);
    }
    if second.len() > first.len() {
        lemma_same_group(second, first, names, usages, first.len() as int);
    } else if first.len() > second.len() {
        lemma_same_group(first, second, names, usages, second.len() as int);
    }
    assert(first =~= second);
}

proof fn lemma_same_group(
    first: Seq<GroupLine>,
    second: Seq<GroupLine>,
    names: Seq<Seq<char>>,
    usages: Seq<UsageStats>,
    i: int,
)
    requires
        is_grouping(first, names, usages),
        is_grouping(second, names, usages),
        0 <= i < first.len(),
    ensures
        i < second.len(),
        first[i] == second[i],
    decreases i,
{
    assert forall|j: int| 0 <= j < i implies j < second.len() && first[j].name
        == second[j].name by {
        lemma_same_group(first, second, names, usages, j);
    }
    assert(names.contains(first[i].name));
    let k = choose|k: int| 0 <= k < second.len() && (#[trigger] second[k]).name == first[i].name;
    if k < i {
        assert(first[k].name == second[k].name);
        assert(first[k].name != first[i].name);
    }
    assert(names.contains(second[i].name));
    let m = choose|m: int| 0 <= m < first.len() && (#[trigger] first[m]).name == second[i].name;
    if m < i {
        assert(first[m].name == second[m].name);
        assert(second[m].name != second[i].name);
    }
    if k > i {
        assert(second[i].name != second[k].name);
        assert(m > i);
        assert(order::key_le(text::text_key(first[i].name), text::text_key(first[m].name)));
        assert(order::key_le(text::text_key(second[i].name), text::text_key(second[k].name)));
        order::lemma_key_le_antisymmetric(
            text::text_key(first[i].name),
            text::text_key(second[i].name),
        );
        text::lemma_text_key_injective(first[i].name, second[i].name);
    }
}

/// The groups of some files, in the order of their names.
pub open spec fn grouped(names: Seq<Seq<char>>, usages: Seq<UsageStats>) -> Seq<GroupLine> {
    choose|rows: Seq<GroupLine>| is_grouping(rows, names, usages)
}

impl AnalysisEvent {
    pub open spec fn made_in(self) -> u64 {
        match self {
            AnalysisEvent::Started { generation, .. } => generation,
            AnalysisEvent::FileBatch { generation, .. } => generation,
            AnalysisEvent::Finished { generation, .. } => generation,
            AnalysisEvent::DuplicatesStarted { generation, .. } => generation,
            AnalysisEvent::DuplicatesFinished { generation, .. } => generation,
        }
    }

    /// The generation that the event belongs to.
    pub fn generation(&self) -> (result: u64)
        ensures
            result == self.made_in(),
    {
        match self {
            AnalysisEvent::Started { generation, .. } => *generation,
            AnalysisEvent::FileBatch { generation, .. } => *generation,
            AnalysisEvent::Finished { generation, .. } => *generation,
            AnalysisEvent::DuplicatesStarted { generation, .. } => *generation,
            AnalysisEvent::DuplicatesFinished { generation, .. } => *generation,
        }
    }
}

/// Ages are told apart at a day, a week, 30 days and 365 days. What changed in
/// the future counts as new, and a time before 1970 is not known.
pub proof fn ages_fall_into_their_bucket(modified: i64, now: u64)
    ensures
        modified < 0 ==> age_bucket(modified, now) == "unknown"@,
        modified >= 0 && now - modified < 24 * 3_600 ==> age_bucket(modified, now) == "<24h"@,
        modified >= 0 && 24 * 3_600 <= now - modified < 7 * 24 * 3_600 ==> age_bucket(modified, now)
            == "1-7d"@,
        modified >= 0 && 7 * 24 * 3_600 <= now - modified < 30 * 24 * 3_600 ==> age_bucket(
            modified,
            now,
        ) == "7-30d"@,
        modified >= 0 && 30 * 24 * 3_600 <= now - modified < 365 * 24 * 3_600 ==> age_bucket(
            modified,
            now,
        ) == "30-365d"@,
        modified >= 0 && 365 * 24 * 3_600 <= now - modified ==> age_bucket(modified, now)
            == ">1y"@,
{
}

/// An extension is what follows the last dot of a name, in small letters; a name
/// that ends in a dot has none.
pub proof fn extensions_are_in_small_letters(path: Seq<u8>)
    ensures
        path::extension_of(path) is None ==> normal_extension(path) is None,
        path::extension_of(path) is Some && path::extension_of(path)->0.len() == 0
            ==> normal_extension(path) is None,
        path::extension_of(path) is Some && path::extension_of(path)->0.len() > 0
            ==> normal_extension(path) == Some(
            text::lowercase(text::lossy_text(path::extension_of(path)->0)),
        ),
        category_of(None) == FileCategory::Other,
        extension_name(None) == "<none>"@,
        forall|extension: Seq<char>| #[trigger] extension_name(Some(extension)) == extension,
{
}

/// The first 10,000 problems are kept, in the order in which they came.
pub proof fn problems_are_kept_in_order(
    issues: Seq<AnalysisIssue>,
    path: FilePath,
    message: String,
)
    ensures
        issues.len() < 10_000 ==> with_issue(issues, path, message).len() == issues.len() + 1
            && with_issue(issues, path, message).drop_last() == issues && with_issue(
            issues,
            path,
            message,
        ).last() == (AnalysisIssue { path, message }),
        issues.len() >= 10_000 ==> with_issue(issues, path, message) == issues,
{
}

/// One more file of a group adds one to its count and its sizes to its usage.
pub proof fn one_more_file_counts_in_its_group(
    names: Seq<Seq<char>>,
    usages: Seq<UsageStats>,
    name: Seq<char>,
    usage: UsageStats,
    other: Seq<char>,
)
    requires
        names.len() == usages.len(),
    ensures
        ({
            let before = group_total(names, usages, name);
            let after = group_total(names.push(name), usages.push(usage), name);
            &&& before.files < u64::MAX ==> after.files == before.files + 1
            &&& before.usage.logical + usage.logical <= u64::MAX ==> after.usage.logical
                == before.usage.logical + usage.logical
            &&& before.usage.physical + usage.physical <= u64::MAX ==> after.usage.physical
                == before.usage.physical + usage.physical
            &&& before.usage.files + usage.files <= u64::MAX ==> after.usage.files
                == before.usage.files + usage.files
        }),
        other != name ==> group_total(names.push(name), usages.push(usage), other) == group_total(
            names,
            usages,
            other,
        ),
        group_total(Seq::empty(), Seq::empty(), name) == GroupStats::zero(),
{
    assert(names.push(name).drop_last() =~= names);
    assert(usages.push(usage).drop_last() =~= usages);
}

/// The total of an index is what its root takes up, or where the root is not
/// recorded the sum over its files.
pub proof fn totals_are_those_of_the_root(index: IndexModel, i: int)
    ensures
        0 <= i < index.directories.len() && path::same_path(
            index.directories[i].path@,
            index.root@,
        ) && (forall|k: int|
            0 <= k < i ==> !path::same_path(
                (#[trigger] index.directories[k]).path@,
                index.root@,
            )) ==> index.total() == index.directories[i].usage,
        (forall|k: int|
            0 <= k < index.directories.len() ==> !path::same_path(
                (#[trigger] index.directories[k]).path@,
                index.root@,
            )) ==> index.total() == usage_sum(file_usages(index.files)),
{
    lemma_first_directory(index.directories, index.root@);
    let place = directory_place(index.directories, index.root@);
    if 0 <= i < index.directories.len() && path::same_path(
        index.directories[i].path@,
        index.root@,
    ) && (forall|k: int|
        0 <= k < i ==> !path::same_path((#[trigger] index.directories[k]).path@, index.root@)) {
        assert(place <= i);
        assert(!(place < i));
    }
}

proof fn lemma_first_directory(directories: Seq<DirectoryRecord>, path: Seq<u8>)
    ensures
        0 <= directory_place(directories, path) <= directories.len(),
        forall|k: int|
            0 <= k < directory_place(directories, path) ==> !path::same_path(
                (#[trigger] directories[k]).path@,
                path,
            ),
        directory_place(directories, path) < directories.len() ==> path::same_path(
            directories[directory_place(directories, path)].path@,
            path,
        ),
    decreases directories.len(),
{
    if directories.len() > 0 && !path::same_path(directories[0].path@, path) {
        let rest = directories.drop_first();
        lemma_first_directory(rest, path);
        let place = directory_place(rest, path);
        assert forall|k: int| 0 <= k < 1 + place implies !path::same_path(
            (#[trigger] directories[k]).path@,
            path,
        ) by {
            if k > 0 {
                assert(directories[k] == rest[k - 1]);
            }
        }
        if place < rest.len() {
            assert(directories[1 + place] == rest[place]);
        }
    }
}

/// One more file adds what it takes up to the sum.
pub proof fn one_more_file_adds_to_the_sum(files: Seq<FileRecord>, file: FileRecord)
    ensures
        ({
            let before = usage_sum(file_usages(files));
            let after = usage_sum(file_usages(files.push(file)));
            &&& before.logical + file.usage.logical <= u64::MAX ==> after.logical == before.logical
                + file.usage.logical
            &&& before.physical + file.usage.physical <= u64::MAX ==> after.physical
                == before.physical + file.usage.physical
            &&& before.files + file.usage.files <= u64::MAX ==> after.files == before.files
                + file.usage.files
        }),
        usage_sum(file_usages(Seq::empty())) == (UsageStats { logical: 0, physical: 0, files: 0 }),
{
    assert(file_usages(files.push(file)).drop_last() =~= file_usages(files));
}

/// Of what an index holds, what lies below a path is taken out and all the rest
/// stays; duplicates have to be looked for again.
pub proof fn taking_a_part_out_leaves_the_rest(index: IndexModel, path: Seq<u8>)
    ensures
        ({
            let rest = index.without_subtree(path);
            &&& forall|file: FileRecord| #[trigger]
                rest.files.contains(file) <==> index.files.contains(file)
                    && !path::path_starts_with(file.path@, path)
            &&& forall|directory: DirectoryRecord| #[trigger]
                rest.directories.contains(directory) <==> index.directories.contains(directory)
                    && !path::path_starts_with(directory.path@, path)
            &&& rest.duplicates is None
            &&& rest.issues == index.issues
            &&& rest.root == index.root
            &&& rest.complete == index.complete
        }),
{
    let rest = index.without_subtree(path);
    assert forall|file: FileRecord| #[trigger] rest.files.contains(file) <==> index.files.contains(
        file,
    ) && !path::path_starts_with(file.path@, path) by {
        lemma_filtered(index.files, file_outside(path), file);
    }
    assert forall|directory: DirectoryRecord| #[trigger]
        rest.directories.contains(directory) <==> index.directories.contains(directory)
        && !path::path_starts_with(directory.path@, path) by {
        lemma_filtered(index.directories, directory_outside(path), directory);
    }
}

proof fn lemma_filtered<T>(items: Seq<T>, keep: spec_fn(T) -> bool, item: T)
    ensures
        items.filter(keep).contains(item) <==> items.contains(item) && keep(item),
{
    if items.filter(keep).contains(item) {
        items.lemma_filter_contains_rev(keep, item);
        let at = choose|at: int|
            0 <= at < items.filter(keep).len() && items.filter(keep)[at] == item;
        items.lemma_filter_pred(keep, at);
    }
    if items.contains(item) && keep(item) {
        let at = choose|at: int| 0 <= at < items.len() && items[at] == item;
        items.lemma_filter_contains(keep, at);
    }
}

/// A summary has the total of all files and a row for the category, the extension
/// and the age of each of them.
pub proof fn summaries_have_a_row_for_every_file(
    summary: AnalysisSummary,
    files: Seq<FileRecord>,
    now: u64,
    i: int,
)
    requires
        summarizes(summary, files, now),
        0 <= i < files.len(),
    ensures
        summary.total == usage_sum(file_usages(files)),
        exists|r: int|
            0 <= r < summary.categories@.len() && (#[trigger] summary.categories@[r]).name@
                == files[i].category.label_text(),
        exists|r: int|
            0 <= r < summary.extensions@.len() && (#[trigger] summary.extensions@[r]).name@
                == match files[i].extension {
                Some(extension) => extension@,
                None => "<none>"@,
            },
        exists|r: int|
            0 <= r < summary.age_buckets@.len() && (#[trigger] summary.age_buckets@[r]).name@
                == age_bucket(files[i].modified_seconds, now),
{
    lemma_row_of(summary.categories@, category_names(files), file_usages(files), i);
    lemma_row_of(summary.extensions@, extension_names(files), file_usages(files), i);
    lemma_row_of(summary.age_buckets@, age_names(files, now), file_usages(files), i);
}

proof fn lemma_row_of(
    rows: Seq<GroupRow>,
    names: Seq<Seq<char>>,
    usages: Seq<UsageStats>,
    i: int,
)
    requires
        is_grouping(group_lines(rows), names, usages),
        0 <= i < names.len(),
    ensures
        exists|r: int| 0 <= r < rows.len() && (#[trigger] rows[r]).name@ == names[i],
{
    let lines = group_lines(rows);
    assert(names.contains(names[i]));
    let r = choose|r: int| 0 <= r < lines.len() && (#[trigger] lines[r]).name == names[i];
    assert(rows[r].name@ == names[i]);
}

/// The rows of a grouping come by name, each name once, with the total of the
/// files of that name.
pub proof fn groups_come_by_name(
    rows: Seq<GroupLine>,
    names: Seq<Seq<char>>,
    usages: Seq<UsageStats>,
    i: int,
    j: int,
)
    requires
        is_grouping(rows, names, usages),
        0 <= i < rows.len(),
    ensures
        names.contains(rows[i].name),
        rows[i].stats == group_total(names, usages, rows[i].name),
        0 <= i < j < rows.len() ==> rows[i].name != rows[j].name && order::key_le(
            text::text_key(rows[i].name),
            text::text_key(rows[j].name),
        ),
{
}

/// A looked up file has the path, and is the first that has.
pub proof fn looked_up_files_have_the_path(files: Seq<FileRecord>, path: Seq<u8>)
    ensures
        file_at(files, path) is None <==> forall|k: int|
            0 <= k < files.len() ==> !path::same_path((#[trigger] files[k]).path@, path),
        file_at(files, path) is Some ==> exists|i: int|
            0 <= i < files.len() && #[trigger] files[i] == file_at(files, path)->0
                && path::same_path(files[i].path@, path) && forall|k: int|
                0 <= k < i ==> !path::same_path((#[trigger] files[k]).path@, path),
{
    lemma_first_file(files, path);
    let place = file_place(files, path);
    if place < files.len() {
        assert(files[place] == file_at(files, path)->0);
    }
}

proof fn lemma_first_file(files: Seq<FileRecord>, path: Seq<u8>)
    ensures
        0 <= file_place(files, path) <= files.len(),
        forall|k: int|
            0 <= k < file_place(files, path) ==> !path::same_path(
                (#[trigger] files[k]).path@,
                path,
            ),
        file_place(files, path) < files.len() ==> path::same_path(
            files[file_place(files, path)].path@,
            path,
        ),
    decreases files.len(),
{
    if files.len() > 0 && !path::same_path(files[0].path@, path) {
        let rest = files.drop_first();
        lemma_first_file(rest, path);
        let place = file_place(rest, path);
        assert forall|k: int| 0 <= k < 1 + place implies !path::same_path(
            (#[trigger] files[k]).path@,
            path,
        ) by {
            if k > 0 {
                assert(files[k] == rest[k - 1]);
            }
        }
        if place < rest.len() {
            assert(files[1 + place] == rest[place]);
        }
    }
}

proof fn lemma_letters_of_images()
    ensures
        "jpg"@.len() == 3 && "jpg"@[0] == 'j' && "jpg"@[1] == 'p' && "jpg"@[2] == 'g',
        "jpeg"@.len() == 4 && "jpeg"@[0] == 'j' && "jpeg"@[1] == 'p' && "jpeg"@[2] == 'e' &&
            "jpeg"@[3] == 'g',
        "png"@.len() == 3 && "png"@[0] == 'p' && "png"@[1] == 'n' && "png"@[2] == 'g',
        "gif"@.len() == 3 && "gif"@[0] == 'g' && "gif"@[1] == 'i' && "gif"@[2] == 'f',
        "webp"@.len() == 4 && "webp"@[0] == 'w' && "webp"@[1] == 'e' && "webp"@[2] == 'b' &&
            "webp"@[3] == 'p',
        "heic"@.len() == 4 && "heic"@[0] == 'h' && "heic"@[1] == 'e' && "heic"@[2] == 'i' &&
            "heic"@[3] == 'c',
        "tif"@.len() == 3 && "tif"@[0] == 't' && "tif"@[1] == 'i' && "tif"@[2] == 'f',
        "tiff"@.len() == 4 && "tiff"@[0] == 't' && "tiff"@[1] == 'i' && "tiff"@[2] == 'f' &&
            "tiff"@[3] == 'f',
        "svg"@.len() == 3 && "svg"@[0] == 's' && "svg"@[1] == 'v' && "svg"@[2] == 'g',
        "bmp"@.len() == 3 && "bmp"@[0] == 'b' && "bmp"@[1] == 'm' && "bmp"@[2] == 'p',
        "ico"@.len() == 3 && "ico"@[0] == 'i' && "ico"@[1] == 'c' && "ico"@[2] == 'o',
{
    reveal_strlit("jpg");
    reveal_strlit("jpeg");
    reveal_strlit("png");
    reveal_strlit("gif");
    reveal_strlit("webp");
    reveal_strlit("heic");
    reveal_strlit("tif");
    reveal_strlit("tiff");
    reveal_strlit("svg");
    reveal_strlit("bmp");
    reveal_strlit("ico");
}

proof fn lemma_letters_of_videos()
    ensures
        "mp4"@.len() == 3 && "mp4"@[0] == 'm' && "mp4"@[1] == 'p' && "mp4"@[2] == '4',
        "mov"@.len() == 3 && "mov"@[0] == 'm' && "mov"@[1] == 'o' && "mov"@[2] == 'v',
        "mkv"@.len() == 3 && "mkv"@[0] == 'm' && "mkv"@[1] == 'k' && "mkv"@[2] == 'v',
        "avi"@.len() == 3 && "avi"@[0] == 'a' && "avi"@[1] == 'v' && "avi"@[2] == 'i',
        "webm"@.len() == 4 && "webm"@[0] == 'w' && "webm"@[1] == 'e' && "webm"@[2] == 'b' &&
            "webm"@[3] == 'm',
        "m4v"@.len() == 3 && "m4v"@[0] == 'm' && "m4v"@[1] == '4' && "m4v"@[2] == 'v',
        "mpeg"@.len() == 4 && "mpeg"@[0] == 'm' && "mpeg"@[1] == 'p' && "mpeg"@[2] == 'e' &&
            "mpeg"@[3] == 'g',
        "mpg"@.len() == 3 && "mpg"@[0] == 'm' && "mpg"@[1] == 'p' && "mpg"@[2] == 'g',
{
    reveal_strlit("mp4");
    reveal_strlit("mov");
    reveal_strlit("mkv");
    reveal_strlit("avi");
    reveal_strlit("webm");
    reveal_strlit("m4v");
    reveal_strlit("mpeg");
    reveal_strlit("mpg");
}

proof fn lemma_letters_of_sound()
    ensures
        "mp3"@.len() == 3 && "mp3"@[0] == 'm' && "mp3"@[1] == 'p' && "mp3"@[2] == '3',
        "m4a"@.len() == 3 && "m4a"@[0] == 'm' && "m4a"@[1] == '4' && "m4a"@[2] == 'a',
        "aac"@.len() == 3 && "aac"@[0] == 'a' && "aac"@[1] == 'a' && "aac"@[2] == 'c',
        "wav"@.len() == 3 && "wav"@[0] == 'w' && "wav"@[1] == 'a' && "wav"@[2] == 'v',
        "flac"@.len() == 4 && "flac"@[0] == 'f' && "flac"@[1] == 'l' && "flac"@[2] == 'a' &&
            "flac"@[3] == 'c',
        "ogg"@.len() == 3 && "ogg"@[0] == 'o' && "ogg"@[1] == 'g' && "ogg"@[2] == 'g',
        "aiff"@.len() == 4 && "aiff"@[0] == 'a' && "aiff"@[1] == 'i' && "aiff"@[2] == 'f' &&
            "aiff"@[3] == 'f',
{
    reveal_strlit("mp3");
    reveal_strlit("m4a");
    reveal_strlit("aac");
    reveal_strlit("wav");
    reveal_strlit("flac");
    reveal_strlit("ogg");
    reveal_strlit("aiff");
}

proof fn lemma_letters_of_archives()
    ensures
        "zip"@.len() == 3 && "zip"@[0] == 'z' && "zip"@[1] == 'i' && "zip"@[2] == 'p',
        "gz"@.len() == 2 && "gz"@[0] == 'g' && "gz"@[1] == 'z',
        "tgz"@.len() == 3 && "tgz"@[0] == 't' && "tgz"@[1] == 'g' && "tgz"@[2] == 'z',
        "bz2"@.len() == 3 && "bz2"@[0] == 'b' && "bz2"@[1] == 'z' && "bz2"@[2] == '2',
        "xz"@.len() == 2 && "xz"@[0] == 'x' && "xz"@[1] == 'z',
        "7z"@.len() == 2 && "7z"@[0] == '7' && "7z"@[1] == 'z',
        "rar"@.len() == 3 && "rar"@[0] == 'r' && "rar"@[1] == 'a' && "rar"@[2] == 'r',
        "tar"@.len() == 3 && "tar"@[0] == 't' && "tar"@[1] == 'a' && "tar"@[2] == 'r',
        "dmg"@.len() == 3 && "dmg"@[0] == 'd' && "dmg"@[1] == 'm' && "dmg"@[2] == 'g',
        "pkg"@.len() == 3 && "pkg"@[0] == 'p' && "pkg"@[1] == 'k' && "pkg"@[2] == 'g',
{
    reveal_strlit("zip");
    reveal_strlit("gz");
    reveal_strlit("tgz");
    reveal_strlit("bz2");
    reveal_strlit("xz");
    reveal_strlit("7z");
    reveal_strlit("rar");
    reveal_strlit("tar");
    reveal_strlit("dmg");
    reveal_strlit("pkg");
}

proof fn lemma_letters_of_documents()
    ensures
        "pdf"@.len() == 3 && "pdf"@[0] == 'p' && "pdf"@[1] == 'd' && "pdf"@[2] == 'f',
        "doc"@.len() == 3 && "doc"@[0] == 'd' && "doc"@[1] == 'o' && "doc"@[2] == 'c',
        "docx"@.len() == 4 && "docx"@[0] == 'd' && "docx"@[1] == 'o' && "docx"@[2] == 'c' &&
            "docx"@[3] == 'x',
        "xls"@.len() == 3 && "xls"@[0] == 'x' && "xls"@[1] == 'l' && "xls"@[2] == 's',
        "xlsx"@.len() == 4 && "xlsx"@[0] == 'x' && "xlsx"@[1] == 'l' && "xlsx"@[2] == 's' &&
            "xlsx"@[3] == 'x',
        "ppt"@.len() == 3 && "ppt"@[0] == 'p' && "ppt"@[1] == 'p' && "ppt"@[2] == 't',
        "pptx"@.len() == 4 && "pptx"@[0] == 'p' && "pptx"@[1] == 'p' && "pptx"@[2] == 't' &&
            "pptx"@[3] == 'x',
        "odt"@.len() == 3 && "odt"@[0] == 'o' && "odt"@[1] == 'd' && "odt"@[2] == 't',
        "rtf"@.len() == 3 && "rtf"@[0] == 'r' && "rtf"@[1] == 't' && "rtf"@[2] == 'f',
        "txt"@.len() == 3 && "txt"@[0] == 't' && "txt"@[1] == 'x' && "txt"@[2] == 't',
        "md"@.len() == 2 && "md"@[0] == 'm' && "md"@[1] == 'd',
        "pages"@.len() == 5 && "pages"@[0] == 'p' && "pages"@[1] == 'a' && "pages"@[2] == 'g' &&
            "pages"@[3] == 'e' && "pages"@[4] == 's',
        "numbers"@.len() == 7 && "numbers"@[0] == 'n' && "numbers"@[1] == 'u' &&
            "numbers"@[2] == 'm' && "numbers"@[3] == 'b' && "numbers"@[4] == 'e' &&
            "numbers"@[5] == 'r' && "numbers"@[6] == 's',
        "key"@.len() == 3 && "key"@[0] == 'k' && "key"@[1] == 'e' && "key"@[2] == 'y',
{
    reveal_strlit("pdf");
    reveal_strlit("doc");
    reveal_strlit("docx");
    reveal_strlit("xls");
    reveal_strlit("xlsx");
    reveal_strlit("ppt");
    reveal_strlit("pptx");
    reveal_strlit("odt");
    reveal_strlit("rtf");
    reveal_strlit("txt");
    reveal_strlit("md");
    reveal_strlit("pages");
    reveal_strlit("numbers");
    reveal_strlit("key");
}

proof fn lemma_letters_of_code()
    ensures
        "rs"@.len() == 2 && "rs"@[0] == 'r' && "rs"@[1] == 's',
        "c"@.len() == 1 && "c"@[0] == 'c',
        "h"@.len() == 1 && "h"@[0] == 'h',
        "cpp"@.len() == 3 && "cpp"@[0] == 'c' && "cpp"@[1] == 'p' && "cpp"@[2] == 'p',
        "hpp"@.len() == 3 && "hpp"@[0] == 'h' && "hpp"@[1] == 'p' && "hpp"@[2] == 'p',
        "m"@.len() == 1 && "m"@[0] == 'm',
        "mm"@.len() == 2 && "mm"@[0] == 'm' && "mm"@[1] == 'm',
        "swift"@.len() == 5 && "swift"@[0] == 's' && "swift"@[1] == 'w' && "swift"@[2] == 'i' &&
            "swift"@[3] == 'f' && "swift"@[4] == 't',
        "go"@.len() == 2 && "go"@[0] == 'g' && "go"@[1] == 'o',
        "py"@.len() == 2 && "py"@[0] == 'p' && "py"@[1] == 'y',
        "js"@.len() == 2 && "js"@[0] == 'j' && "js"@[1] == 's',
        "jsx"@.len() == 3 && "jsx"@[0] == 'j' && "jsx"@[1] == 's' && "jsx"@[2] == 'x',
        "ts"@.len() == 2 && "ts"@[0] == 't' && "ts"@[1] == 's',
        "tsx"@.len() == 3 && "tsx"@[0] == 't' && "tsx"@[1] == 's' && "tsx"@[2] == 'x',
        "java"@.len() == 4 && "java"@[0] == 'j' && "java"@[1] == 'a' && "java"@[2] == 'v' &&
            "java"@[3] == 'a',
        "kt"@.len() == 2 && "kt"@[0] == 'k' && "kt"@[1] == 't',
        "rb"@.len() == 2 && "rb"@[0] == 'r' && "rb"@[1] == 'b',
        "php"@.len() == 3 && "php"@[0] == 'p' && "php"@[1] == 'h' && "php"@[2] == 'p',
        "sh"@.len() == 2 && "sh"@[0] == 's' && "sh"@[1] == 'h',
        "zsh"@.len() == 3 && "zsh"@[0] == 'z' && "zsh"@[1] == 's' && "zsh"@[2] == 'h',
        "fish"@.len() == 4 && "fish"@[0] == 'f' && "fish"@[1] == 'i' && "fish"@[2] == 's' &&
            "fish"@[3] == 'h',
        "html"@.len() == 4 && "html"@[0] == 'h' && "html"@[1] == 't' && "html"@[2] == 'm' &&
            "html"@[3] == 'l',
        "css"@.len() == 3 && "css"@[0] == 'c' && "css"@[1] == 's' && "css"@[2] == 's',
        "scss"@.len() == 4 && "scss"@[0] == 's' && "scss"@[1] == 'c' && "scss"@[2] == 's' &&
            "scss"@[3] == 's',
        "json"@.len() == 4 && "json"@[0] == 'j' && "json"@[1] == 's' && "json"@[2] == 'o' &&
            "json"@[3] == 'n',
        "toml"@.len() == 4 && "toml"@[0] == 't' && "toml"@[1] == 'o' && "toml"@[2] == 'm' &&
            "toml"@[3] == 'l',
        "yaml"@.len() == 4 && "yaml"@[0] == 'y' && "yaml"@[1] == 'a' && "yaml"@[2] == 'm' &&
            "yaml"@[3] == 'l',
        "yml"@.len() == 3 && "yml"@[0] == 'y' && "yml"@[1] == 'm' && "yml"@[2] == 'l',
        "xml"@.len() == 3 && "xml"@[0] == 'x' && "xml"@[1] == 'm' && "xml"@[2] == 'l',
        "sql"@.len() == 3 && "sql"@[0] == 's' && "sql"@[1] == 'q' && "sql"@[2] == 'l',
{
    reveal_strlit("rs");
    reveal_strlit("c");
    reveal_strlit("h");
    reveal_strlit("cpp");
    reveal_strlit("hpp");
    reveal_strlit("m");
    reveal_strlit("mm");
    reveal_strlit("swift");
    reveal_strlit("go");
    reveal_strlit("py");
    reveal_strlit("js");
    reveal_strlit("jsx");
    reveal_strlit("ts");
    reveal_strlit("tsx");
    reveal_strlit("java");
    reveal_strlit("kt");
    reveal_strlit("rb");
    reveal_strlit("php");
    reveal_strlit("sh");
    reveal_strlit("zsh");
    reveal_strlit("fish");
    reveal_strlit("html");
    reveal_strlit("css");
    reveal_strlit("scss");
    reveal_strlit("json");
    reveal_strlit("toml");
    reveal_strlit("yaml");
    reveal_strlit("yml");
    reveal_strlit("xml");
    reveal_strlit("sql");
}

/// These extensions, and no others, are those of images.
pub proof fn images_are_told_by_extension(extension: Seq<char>)
    ensures
        extension_category(extension) == FileCategory::Image <==> (
            extension == "jpg"@ || extension == "jpeg"@ || extension == "png"@ ||
            extension == "gif"@ || extension == "webp"@ || extension == "heic"@ ||
            extension == "tif"@ || extension == "tiff"@ || extension == "svg"@ ||
            extension == "bmp"@ || extension == "ico"@
        ),
{
}

/// These extensions, and no others, are those of videos.
pub proof fn videos_are_told_by_extension(extension: Seq<char>)
    ensures
        extension_category(extension) == FileCategory::Video <==> (
            extension == "mp4"@ || extension == "mov"@ || extension == "mkv"@ ||
            extension == "avi"@ || extension == "webm"@ || extension == "m4v"@ ||
            extension == "mpeg"@ || extension == "mpg"@
        ),
{
    lemma_letters_of_images();
    lemma_letters_of_videos();
}

/// These extensions, and no others, are those of sound.
pub proof fn sound_is_told_by_extension(extension: Seq<char>)
    ensures
        extension_category(extension) == FileCategory::Audio <==> (
            extension == "mp3"@ || extension == "m4a"@ || extension == "aac"@ ||
            extension == "wav"@ || extension == "flac"@ || extension == "ogg"@ ||
            extension == "aiff"@
        ),
{
    lemma_letters_of_images();
    lemma_letters_of_videos();
    lemma_letters_of_sound();
}

/// These extensions, and no others, are those of archives.
pub proof fn archives_are_told_by_extension(extension: Seq<char>)
    ensures
        extension_category(extension) == FileCategory::Archive <==> (
            extension == "zip"@ || extension == "gz"@ || extension == "tgz"@ ||
            extension == "bz2"@ || extension == "xz"@ || extension == "7z"@ ||
            extension == "rar"@ || extension == "tar"@ || extension == "dmg"@ ||
            extension == "pkg"@
        ),
{
    lemma_letters_of_images();
    lemma_letters_of_videos();
    lemma_letters_of_sound();
    lemma_letters_of_archives();
}

/// These extensions, and no others, are those of documents.
pub proof fn documents_are_told_by_extension(extension: Seq<char>)
    ensures
        extension_category(extension) == FileCategory::Document <==> (
            extension == "pdf"@ || extension == "doc"@ || extension == "docx"@ ||
            extension == "xls"@ || extension == "xlsx"@ || extension == "ppt"@ ||
            extension == "pptx"@ || extension == "odt"@ || extension == "rtf"@ ||
            extension == "txt"@ || extension == "md"@ || extension == "pages"@ ||
            extension == "numbers"@ || extension == "key"@
        ),
{
    lemma_letters_of_images();
    lemma_letters_of_videos();
    lemma_letters_of_sound();
    lemma_letters_of_archives();
    lemma_letters_of_documents();
}

/// These extensions, and no others, are those of code.
pub proof fn code_is_told_by_extension(extension: Seq<char>)
    ensures
        extension_category(extension) == FileCategory::Code <==> (
            extension == "rs"@ || extension == "c"@ || extension == "h"@ || extension == "cpp"@
            || extension == "hpp"@ || extension == "m"@ || extension == "mm"@ ||
            extension == "swift"@ || extension == "go"@ || extension == "py"@ ||
            extension == "js"@ || extension == "jsx"@ || extension == "ts"@ ||
            extension == "tsx"@ || extension == "java"@ || extension == "kt"@ ||
            extension == "rb"@ || extension == "php"@ || extension == "sh"@ ||
            extension == "zsh"@ || extension == "fish"@ || extension == "html"@ ||
            extension == "css"@ || extension == "scss"@ || extension == "json"@ ||
            extension == "toml"@ || extension == "yaml"@ || extension == "yml"@ ||
            extension == "xml"@ || extension == "sql"@
        ),
{
    lemma_letters_of_images();
    lemma_letters_of_videos();
    lemma_letters_of_sound();
    lemma_letters_of_archives();
    lemma_letters_of_documents();
    lemma_letters_of_code();
}

} // verus!
