//! Filter expressions: words, sizes, ages, extensions and categories that an
//! entry must all match.
use vstd::prelude::*;
use vstd::string::StringExecFns;

use crate::analytics;
use crate::analytics::{now_seconds, FileCategory, FileRecord};
use crate::path;
use crate::path::FilePath;
use crate::quantity;
use crate::quantity::Decimal;
use crate::text;
use crate::tree;
use crate::tree::{Node, NodeKind, NodeModel, SizeMode, UsageStats};

verus! {

/// The form of a text that `Debug` gives: in quotes, with escapes.
pub uninterp spec fn quoted_text(text: Seq<char>) -> Seq<char>;

/// `Debug` of `str` depends on the text alone.
#[verifier::external_body]
fn quoted(text: &str) -> (result: String)
    ensures
        result@ == quoted_text(text@),
{
    format!("{text:?}")
}

#[derive(Clone, Copy, Debug, PartialEq, Eq, Structural)]
pub enum ComparisonOperator {
    Greater,
    GreaterEqual,
    Less,
    LessEqual,
    Equal,
}

impl ComparisonOperator {
    pub open spec fn holds(self, left: u64, right: u64) -> bool {
        match self {
            ComparisonOperator::Greater => left > right,
            ComparisonOperator::GreaterEqual => left >= right,
            ComparisonOperator::Less => left < right,
            ComparisonOperator::LessEqual => left <= right,
            ComparisonOperator::Equal => left == right,
        }
    }

    pub fn matches(self, left: u64, right: u64) -> (result: bool)
        ensures
            result == self.holds(left, right),
    {
        match self {
            ComparisonOperator::Greater => left > right,
            ComparisonOperator::GreaterEqual => left >= right,
            ComparisonOperator::Less => left < right,
            ComparisonOperator::LessEqual => left <= right,
            ComparisonOperator::Equal => left == right,
        }
    }
}

/// One condition of a filter.
#[derive(Debug, PartialEq, Eq)]
pub enum Predicate {
    Name(String),
    Size(ComparisonOperator, u64),
    Age(ComparisonOperator, u64),
    Extension(Option<String>),
    Category(FileCategory),
}

impl Clone for Predicate {
    fn clone(&self) -> (copy: Self)
        ensures
            copy@ == self@,
    {
        match self {
            Predicate::Name(query) => Predicate::Name(query.clone()),
            Predicate::Size(operator, size) => Predicate::Size(*operator, *size),
            Predicate::Age(operator, age) => Predicate::Age(*operator, *age),
            Predicate::Extension(extension) => Predicate::Extension(
                analytics::copy_text(extension),
            ),
            Predicate::Category(category) => Predicate::Category(*category),
        }
    }
}

pub enum PredicateModel {
    Name(Seq<char>),
    Size(ComparisonOperator, u64),
    Age(ComparisonOperator, u64),
    Extension(Option<Seq<char>>),
    Category(FileCategory),
}

impl View for Predicate {
    type V = PredicateModel;

    open spec fn view(&self) -> PredicateModel {
        match *self {
            Predicate::Name(query) => PredicateModel::Name(query@),
            Predicate::Size(operator, size) => PredicateModel::Size(operator, size),
            Predicate::Age(operator, age) => PredicateModel::Age(operator, age),
            Predicate::Extension(extension) => PredicateModel::Extension(
                tree::text_view(extension),
            ),
            Predicate::Category(category) => PredicateModel::Category(category),
        }
    }
}

/// What a filter looks at. An entry that is no file has neither an extension
/// nor a category, which differs from a file without an extension.
pub struct SubjectModel {
    pub name: Seq<char>,
    pub usage: Option<UsageStats>,
    pub modified: Option<i64>,
    pub extension: Option<Option<Seq<char>>>,
    pub category: Option<FileCategory>,
}

/// How long ago something was modified; nothing is known of times before the
/// epoch.
pub open spec fn age_of(modified_seconds: i64, now: u64) -> Option<u64> {
    if modified_seconds < 0 {
        None
    } else {
        Some(tree::saturated(now - modified_seconds))
    }
}

impl PredicateModel {
    pub open spec fn admits(self, subject: SubjectModel, mode: SizeMode, now: u64) -> bool {
        match self {
            PredicateModel::Name(query) => text::contains_text(subject.name, query),
            PredicateModel::Size(operator, size) => match subject.usage {
                Some(usage) => operator.holds(usage.amount(mode), size),
                None => false,
            },
            PredicateModel::Age(operator, age) => match subject.modified {
                Some(modified) => match age_of(modified, now) {
                    Some(value) => operator.holds(value, age),
                    None => false,
                },
                None => false,
            },
            PredicateModel::Extension(extension) => subject.extension == Some(extension),
            PredicateModel::Category(category) => subject.category == Some(category),
        }
    }
}

/// Whether an entry meets all conditions.
pub open spec fn admits_all(
    predicates: Seq<PredicateModel>,
    subject: SubjectModel,
    mode: SizeMode,
    now: u64,
) -> bool {
    forall|i: int|
        0 <= i < predicates.len() ==> (#[trigger] predicates[i]).admits(subject, mode, now)
}

/// The text in which names are searched.
pub open spec fn searched_name(bytes: Seq<u8>) -> Seq<char> {
    text::lowercase(text::lossy_text(bytes))
}

/// A file of the index, as a filter sees it.
pub open spec fn file_subject(file: FileRecord) -> SubjectModel {
    SubjectModel {
        name: searched_name(tree::base_name(file.path@)),
        usage: Some(file.usage),
        modified: Some(file.modified_seconds),
        extension: Some(tree::text_view(file.extension)),
        category: Some(file.category),
    }
}

/// A node of the tree, as a filter sees it.
pub open spec fn node_subject(node: NodeModel) -> SubjectModel {
    let extension = analytics::normal_extension(node.path@);
    SubjectModel {
        name: searched_name(node.name),
        usage: node.usage,
        modified: node.modified,
        extension: if node.kind == NodeKind::File {
            Some(extension)
        } else {
            None
        },
        category: if node.kind == NodeKind::File {
            Some(analytics::category_of(extension))
        } else {
            None
        },
    }
}

/// A path with what is known of it, as a filter sees it.
pub open spec fn path_subject(
    path: Seq<u8>,
    usage: UsageStats,
    modified_seconds: Option<i64>,
) -> SubjectModel {
    let extension = analytics::normal_extension(path);
    SubjectModel {
        name: searched_name(tree::base_name(path)),
        usage: Some(usage),
        modified: modified_seconds,
        extension: Some(extension),
        category: Some(analytics::category_of(extension)),
    }
}

struct Subject {
    name: String,
    usage: Option<UsageStats>,
    modified: Option<i64>,
    is_file: bool,
    extension: Option<String>,
    category: FileCategory,
}

impl Subject {
    spec fn model(self) -> SubjectModel {
        SubjectModel {
            name: self.name@,
            usage: self.usage,
            modified: self.modified,
            extension: if self.is_file {
                Some(tree::text_view(self.extension))
            } else {
                None
            },
            category: if self.is_file {
                Some(self.category)
            } else {
                None
            },
        }
    }
}

/// Whether two texts that may be missing are the same.
pub fn same_optional(left: &Option<String>, right: &Option<String>) -> (same: bool)
    ensures
        same == (tree::text_view(*left) == tree::text_view(*right)),
{
    match (left, right) {
        (Some(left), Some(right)) => text::same_text(left.as_str(), right.as_str()),
        (None, None) => true,
        _ => false,
    }
}

impl Predicate {
    fn admits(&self, subject: &Subject, mode: SizeMode, now: u64) -> (result: bool)
        ensures
            result == self@.admits(subject.model(), mode, now),
    {
        match self {
            Predicate::Name(query) => text::contains(subject.name.as_str(), query.as_str()),
            Predicate::Size(operator, size) => match subject.usage {
                Some(usage) => operator.matches(usage.size(mode), *size),
                None => false,
            },
            Predicate::Age(operator, age) => match subject.modified {
                Some(modified) => match file_age(modified, now) {
                    Some(value) => operator.matches(value, *age),
                    None => false,
                },
                None => false,
            },
            Predicate::Extension(extension) => {
                subject.is_file && same_optional(&subject.extension, extension)
            },
            Predicate::Category(category) => subject.is_file && subject.category == *category,
        }
    }
}

/// How long ago something was modified.
pub fn file_age(modified_seconds: i64, now: u64) -> (age: Option<u64>)
    ensures
        age == age_of(modified_seconds, now),
{
    if modified_seconds < 0 {
        None
    } else {
        Some(now.saturating_sub(modified_seconds as u64))
    }
}

/// The rest of a text behind a prefix.
pub open spec fn after_prefix(value: Seq<char>, prefix: Seq<char>) -> Option<Seq<char>> {
    if text::occurs_at(value, prefix, 0) {
        Some(value.skip(prefix.len() as int))
    } else {
        None
    }
}

fn strip(value: &Vec<char>, prefix: &str) -> (rest: Option<Vec<char>>)
    ensures
        match rest {
            Some(rest) => after_prefix(value@, prefix@) == Some(rest@),
            None => after_prefix(value@, prefix@) is None,
        },
{
    if !text::begins_with(value, prefix) {
        return None;
    }
    let count: usize = text::chars_of(prefix).len();
    Some(rest_of(value, count))
}

/// The characters from a place on.
fn rest_of(value: &Vec<char>, from: usize) -> (rest: Vec<char>)
    requires
        from <= value@.len(),
    ensures
        rest@ == value@.skip(from as int),
{
    let mut rest: Vec<char> = Vec::new();
    let mut i: usize = from;
    while i < value.len()
        invariant
            from <= i <= value@.len(),
            rest@ == value@.subrange(from as int, i as int),
        decreases value@.len() - i,
    {
        rest.push(value[i]);
        i = i + 1;
        assert(rest@ =~= value@.subrange(from as int, i as int));
    }
    assert(rest@ =~= value@.skip(from as int));
    rest
}

/// Whether a character can stand in a number.
pub open spec fn is_numeric(letter: char) -> bool {
    quantity::is_digit(letter) || letter == '.'
}

/// How many characters at the start can stand in a number.
pub open spec fn number_length(value: Seq<char>) -> nat
    decreases value.len(),
{
    if value.len() > 0 && is_numeric(value[0]) {
        1 + number_length(value.drop_first())
    } else {
        0
    }
}

proof fn lemma_number_length(value: Seq<char>)
    ensures
        number_length(value) <= value.len(),
    decreases value.len(),
{
    if value.len() > 0 {
        lemma_number_length(value.drop_first());
    }
}

/// How many points stand at the start.
pub open spec fn leading_points(value: Seq<char>) -> nat
    decreases value.len(),
{
    if value.len() > 0 && value[0] == '.' {
        1 + leading_points(value.drop_first())
    } else {
        0
    }
}

/// The bytes that a size unit stands for, whatever its case.
pub open spec fn size_unit(unit: Seq<char>) -> Option<u64> {
    if unit.len() == 0 || text::same_ignoring_case(unit, "b"@) {
        Some(1)
    } else if text::same_ignoring_case(unit, "kb"@) {
        Some(1_000)
    } else if text::same_ignoring_case(unit, "mb"@) {
        Some(1_000_000)
    } else if text::same_ignoring_case(unit, "gb"@) {
        Some(1_000_000_000)
    } else if text::same_ignoring_case(unit, "tb"@) {
        Some(1_000_000_000_000)
    } else if text::same_ignoring_case(unit, "kib"@) {
        Some(1_024)
    } else if text::same_ignoring_case(unit, "mib"@) {
        Some(1_048_576)
    } else if text::same_ignoring_case(unit, "gib"@) {
        Some(1_073_741_824)
    } else if text::same_ignoring_case(unit, "tib"@) {
        Some(1_099_511_627_776)
    } else {
        None
    }
}

/// The seconds that an age unit stands for.
pub open spec fn age_unit(unit: Seq<char>) -> Option<u64> {
    if unit == "s"@ {
        Some(1)
    } else if unit == "m"@ {
        Some(60)
    } else if unit == "h"@ {
        Some(3_600)
    } else if unit == "d"@ {
        Some(86_400)
    } else if unit == "w"@ {
        Some(604_800)
    } else if unit == "y"@ {
        Some(31_536_000)
    } else {
        None
    }
}

/// A written number times a unit.
pub open spec fn amount_of(number: (Seq<u8>, Seq<u8>), unit: u64) -> Option<u64> {
    let (before, behind) = number;
    let den = quantity::ten_to(behind.len());
    let num = quantity::digits_value(before) * den + quantity::digits_value(behind);
    quantity::product(num, den, unit as nat)
}

/// The bytes that a written size stands for, or what is wrong with it.
pub open spec fn size_of_text(value: Seq<char>) -> Result<u64, Seq<char>> {
    let split = number_length(value) as int;
    let number = value.take(split);
    let unit = value.skip(split);
    match quantity::number_of(number) {
        None => Err("invalid size number "@ + quoted_text(number)),
        Some(parts) => if quantity::digits_value(parts.0) >= quantity::infinite_from() {
            Err("size must be a finite positive number"@)
        } else {
            match size_unit(unit) {
                None => Err("unknown size unit "@ + quoted_text(unit)),
                Some(factor) => match amount_of(parts, factor) {
                    None => Err("size is too large"@),
                    Some(bytes) => Ok(bytes),
                },
            }
        },
    }
}

/// The seconds that a written age stands for, or what is wrong with it.
pub open spec fn duration_of_text(value: Seq<char>) -> Result<u64, Seq<char>> {
    let split = number_length(value) as int;
    let number = value.take(split);
    let unit = value.skip(split);
    match quantity::number_of(number) {
        None => Err("invalid age number "@ + quoted_text(number)),
        Some(parts) => match age_unit(unit) {
            None => Err(
                "unknown age unit "@ + quoted_text(unit) + "; use s, m, h, d, w or y"@,
            ),
            Some(factor) => match amount_of(parts, factor) {
                None => Err("age must be a finite positive duration"@),
                Some(seconds) => Ok(seconds),
            },
        },
    }
}

/// An error message in two parts.
fn message(first: &str, second: &str) -> (result: String)
    ensures
        result@ == first@ + second@,
{
    let mut result = first.to_owned();
    result.append(second);
    result
}

/// Where the number at the start of a text ends.
fn number_end(value: &Vec<char>) -> (split: usize)
    ensures
        split == number_length(value@),
        split <= value@.len(),
{
    let mut split: usize = 0;
    assert(value@.skip(0) =~= value@);
    while split < value.len() && (('0' <= value[split] && value[split] <= '9') || value[split]
        == '.')
        invariant
            split <= value@.len(),
            number_length(value@) == split + number_length(value@.skip(split as int)),
        decreases value@.len() - split,
    {
        assert(value@.skip(split as int).drop_first() =~= value@.skip(split + 1));
        split = split + 1;
    }
    split
}

/// The characters before a place.
fn first_of(value: &Vec<char>, count: usize) -> (first: Vec<char>)
    requires
        count <= value@.len(),
    ensures
        first@ == value@.take(count as int),
{
    let mut first: Vec<char> = Vec::new();
    let mut i: usize = 0;
    while i < count
        invariant
            i <= count <= value@.len(),
            first@ == value@.take(i as int),
        decreases count - i,
    {
        first.push(value[i]);
        i = i + 1;
        assert(first@ =~= value@.take(i as int));
    }
    first
}

fn size_factor(unit: &str) -> (factor: Option<u64>)
    ensures
        factor == size_unit(unit@),
{
    let letters = text::chars_of(unit);
    if letters.len() == 0 || text::matches_ignoring_case(unit, "b") {
        Some(1)
    } else if text::matches_ignoring_case(unit, "kb") {
        Some(1_000)
    } else if text::matches_ignoring_case(unit, "mb") {
        Some(1_000_000)
    } else if text::matches_ignoring_case(unit, "gb") {
        Some(1_000_000_000)
    } else if text::matches_ignoring_case(unit, "tb") {
        Some(1_000_000_000_000)
    } else if text::matches_ignoring_case(unit, "kib") {
        Some(1_024)
    } else if text::matches_ignoring_case(unit, "mib") {
        Some(1_048_576)
    } else if text::matches_ignoring_case(unit, "gib") {
        Some(1_073_741_824)
    } else if text::matches_ignoring_case(unit, "tib") {
        Some(1_099_511_627_776)
    } else {
        None
    }
}

fn age_factor(unit: &Vec<char>) -> (factor: Option<u64>)
    ensures
        factor == age_unit(unit@),
{
    if text::spells(unit, "s") {
        Some(1)
    } else if text::spells(unit, "m") {
        Some(60)
    } else if text::spells(unit, "h") {
        Some(3_600)
    } else if text::spells(unit, "d") {
        Some(86_400)
    } else if text::spells(unit, "w") {
        Some(604_800)
    } else if text::spells(unit, "y") {
        Some(31_536_000)
    } else {
        None
    }
}

/// Whether a result, with its error as a text, is what is stated.
pub open spec fn reports<T>(result: Result<T, String>, stated: Result<T, Seq<char>>) -> bool {
    match result {
        Ok(value) => stated matches Ok(other) && other == value,
        Err(message) => stated matches Err(other) && other == message@,
    }
}

/// The bytes that a written size stands for.
pub fn parse_size(value: &Vec<char>) -> (bytes: Result<u64, String>)
    ensures
        reports(bytes, size_of_text(value@)),
{
    let split: usize = number_end(value);
    let number = first_of(value, split);
    let unit = text::text_of(&rest_of(value, split));
    let parts = match Decimal::read(&number) {
        Some(parts) => parts,
        None => {
            let shown = quoted(text::text_of(&number).as_str());
            return Err(message("invalid size number ", shown.as_str()));
        },
    };
    if !parts.is_finite() {
        return Err("size must be a finite positive number".to_owned());
    }
    let factor: u64 = match size_factor(unit.as_str()) {
        Some(factor) => factor,
        None => {
            let shown = quoted(unit.as_str());
            return Err(message("unknown size unit ", shown.as_str()));
        },
    };
    match parts.times(factor) {
        Some(bytes) => Ok(bytes),
        None => Err("size is too large".to_owned()),
    }
}

/// The seconds that a written age stands for.
pub fn parse_duration(value: &Vec<char>) -> (seconds: Result<u64, String>)
    ensures
        reports(seconds, duration_of_text(value@)),
{
    let split: usize = number_end(value);
    let number = first_of(value, split);
    let unit = rest_of(value, split);
    let parts = match Decimal::read(&number) {
        Some(parts) => parts,
        None => {
            let shown = quoted(text::text_of(&number).as_str());
            return Err(message("invalid age number ", shown.as_str()));
        },
    };
    let factor: u64 = match age_factor(&unit) {
        Some(factor) => factor,
        None => {
            let shown = quoted(text::text_of(&unit).as_str());
            let start = message("unknown age unit ", shown.as_str());
            return Err(message(start.as_str(), "; use s, m, h, d, w or y"));
        },
    };
    match parts.times(factor) {
        Some(seconds) => Ok(seconds),
        None => Err("age must be a finite positive duration".to_owned()),
    }
}

/// The operator and the value of a comparison, or what is wrong with it.
pub open spec fn comparison_of(value: Seq<char>, label: Seq<char>) -> Result<
    (ComparisonOperator, Seq<char>),
    Seq<char>,
> {
    let found = if after_prefix(value, ">="@) is Some {
        Some((ComparisonOperator::GreaterEqual, after_prefix(value, ">="@)->0))
    } else if after_prefix(value, "<="@) is Some {
        Some((ComparisonOperator::LessEqual, after_prefix(value, "<="@)->0))
    } else if after_prefix(value, ">"@) is Some {
        Some((ComparisonOperator::Greater, after_prefix(value, ">"@)->0))
    } else if after_prefix(value, "<"@) is Some {
        Some((ComparisonOperator::Less, after_prefix(value, "<"@)->0))
    } else if after_prefix(value, "="@) is Some {
        Some((ComparisonOperator::Equal, after_prefix(value, "="@)->0))
    } else {
        None
    };
    match found {
        None => Err(label + " requires one of >, >=, <, <= or ="@),
        Some((operator, rest)) => if rest.len() == 0 {
            Err(label + " comparison requires a value"@)
        } else {
            Ok((operator, rest))
        },
    }
}

fn parse_comparison(value: &Vec<char>, label: &str) -> (result: Result<
    (ComparisonOperator, Vec<char>),
    String,
>)
    ensures
        match result {
            Ok((operator, rest)) => comparison_of(value@, label@) matches Ok(stated) && stated == (
                operator,
                rest@,
            ),
            Err(message) => comparison_of(value@, label@) matches Err(stated) && stated
                == message@,
        },
{
    let (operator, rest) = if let Some(rest) = strip(value, ">=") {
        (ComparisonOperator::GreaterEqual, rest)
    } else if let Some(rest) = strip(value, "<=") {
        (ComparisonOperator::LessEqual, rest)
    } else if let Some(rest) = strip(value, ">") {
        (ComparisonOperator::Greater, rest)
    } else if let Some(rest) = strip(value, "<") {
        (ComparisonOperator::Less, rest)
    } else if let Some(rest) = strip(value, "=") {
        (ComparisonOperator::Equal, rest)
    } else {
        return Err(message(label, " requires one of >, >=, <, <= or ="));
    };
    if rest.len() == 0 {
        return Err(message(label, " comparison requires a value"));
    }
    Ok((operator, rest))
}

/// The condition on a size: an operator and a written size.
pub open spec fn size_predicate(value: Seq<char>) -> Result<PredicateModel, Seq<char>> {
    match comparison_of(value, "size"@) {
        Err(message) => Err(message),
        Ok((operator, rest)) => match size_of_text(rest) {
            Err(message) => Err(message),
            Ok(size) => Ok(PredicateModel::Size(operator, size)),
        },
    }
}

/// The condition on an age: an operator and a written age.
pub open spec fn age_predicate(value: Seq<char>) -> Result<PredicateModel, Seq<char>> {
    match comparison_of(value, "age"@) {
        Err(message) => Err(message),
        Ok((operator, rest)) => match duration_of_text(rest) {
            Err(message) => Err(message),
            Ok(age) => Ok(PredicateModel::Age(operator, age)),
        },
    }
}

/// The condition on an extension. Points in front of it do not count.
pub open spec fn extension_predicate(value: Seq<char>) -> Result<PredicateModel, Seq<char>> {
    if value.len() == 0 {
        Err("ext: requires an extension or ext:none"@)
    } else if value == "none"@ || value == "<none>"@ {
        Ok(PredicateModel::Extension(None))
    } else {
        Ok(PredicateModel::Extension(Some(value.skip(leading_points(value) as int))))
    }
}

pub open spec fn category_predicate(value: Seq<char>) -> Result<PredicateModel, Seq<char>> {
    match FileCategory::named(value) {
        Some(category) => Ok(PredicateModel::Category(category)),
        None => Err(
            "unknown type "@ + quoted_text(value)
                + "; use image, video, audio, archive, document, code or other"@,
        ),
    }
}

/// What one word of a filter asks for, or what is wrong with it.
pub open spec fn predicate_of(token: Seq<char>) -> Result<PredicateModel, Seq<char>> {
    let lower = text::lowercase(token);
    if after_prefix(lower, "ext:"@) is Some {
        extension_predicate(after_prefix(lower, "ext:"@)->0)
    } else if after_prefix(lower, "type:"@) is Some {
        category_predicate(after_prefix(lower, "type:"@)->0)
    } else if after_prefix(lower, "size"@) is Some {
        size_predicate(after_prefix(lower, "size"@)->0)
    } else if after_prefix(lower, "age"@) is Some {
        age_predicate(after_prefix(lower, "age"@)->0)
    } else if lower.len() > 0 && (lower[0] == '>' || lower[0] == '<' || lower[0] == '=') {
        size_predicate(lower)
    } else {
        Ok(PredicateModel::Name(lower))
    }
}

/// Whether a parsed condition, with its error as a text, is what is stated.
pub open spec fn reports_predicate(
    result: Result<Predicate, String>,
    stated: Result<PredicateModel, Seq<char>>,
) -> bool {
    match result {
        Ok(predicate) => stated matches Ok(other) && other == predicate@,
        Err(message) => stated matches Err(other) && other == message@,
    }
}

fn parse_size_predicate(value: &Vec<char>) -> (result: Result<Predicate, String>)
    ensures
        reports_predicate(result, size_predicate(value@)),
{
    match parse_comparison(value, "size") {
        Err(message) => Err(message),
        Ok((operator, rest)) => match parse_size(&rest) {
            Err(message) => Err(message),
            Ok(size) => Ok(Predicate::Size(operator, size)),
        },
    }
}

fn parse_age_predicate(value: &Vec<char>) -> (result: Result<Predicate, String>)
    ensures
        reports_predicate(result, age_predicate(value@)),
{
    match parse_comparison(value, "age") {
        Err(message) => Err(message),
        Ok((operator, rest)) => match parse_duration(&rest) {
            Err(message) => Err(message),
            Ok(age) => Ok(Predicate::Age(operator, age)),
        },
    }
}

fn parse_extension_predicate(value: &Vec<char>) -> (result: Result<Predicate, String>)
    ensures
        reports_predicate(result, extension_predicate(value@)),
{
    if value.len() == 0 {
        return Err("ext: requires an extension or ext:none".to_owned());
    }
    if text::spells(value, "none") || text::spells(value, "<none>") {
        return Ok(Predicate::Extension(None));
    }
    let mut from: usize = 0;
    assert(value@.skip(0) =~= value@);
    while from < value.len() && value[from] == '.'
        invariant
            from <= value@.len(),
            leading_points(value@) == from + leading_points(value@.skip(from as int)),
        decreases value@.len() - from,
    {
        assert(value@.skip(from as int).drop_first() =~= value@.skip(from + 1));
        from = from + 1;
    }
    Ok(Predicate::Extension(Some(text::text_of(&rest_of(value, from)))))
}

fn parse_category_predicate(value: &Vec<char>) -> (result: Result<Predicate, String>)
    ensures
        reports_predicate(result, category_predicate(value@)),
{
    let name = text::text_of(value);
    match FileCategory::parse(name.as_str()) {
        Some(category) => Ok(Predicate::Category(category)),
        None => {
            let shown = quoted(name.as_str());
            let start = message("unknown type ", shown.as_str());
            Err(
                message(
                    start.as_str(),
                    "; use image, video, audio, archive, document, code or other",
                ),
            )
        },
    }
}

/// What one word of a filter asks for.
pub fn parse_predicate(token: &str) -> (result: Result<Predicate, String>)
    ensures
        reports_predicate(result, predicate_of(token@)),
{
    let name = token.to_lowercase();
    let lower = text::chars_of(name.as_str());
    if let Some(value) = strip(&lower, "ext:") {
        return parse_extension_predicate(&value);
    }
    if let Some(value) = strip(&lower, "type:") {
        return parse_category_predicate(&value);
    }
    if let Some(value) = strip(&lower, "size") {
        return parse_size_predicate(&value);
    }
    if let Some(value) = strip(&lower, "age") {
        return parse_age_predicate(&value);
    }
    if lower.len() > 0 && (lower[0] == '>' || lower[0] == '<' || lower[0] == '=') {
        return parse_size_predicate(&lower);
    }
    Ok(Predicate::Name(name))
}

/// A filter that has been read up to some place: the words so far, the word
/// that is being read, and the quotation mark that is open.
pub struct ReadingModel {
    pub words: Seq<Seq<char>>,
    pub current: Seq<char>,
    pub quote: Option<char>,
}

/// The reading after one more character. Inside quotation marks everything
/// belongs to the word up to the same mark; outside, white characters end it.
pub open spec fn read_on(reading: ReadingModel, letter: char) -> ReadingModel {
    match reading.quote {
        Some(expected) => if letter == expected {
            ReadingModel { quote: None, ..reading }
        } else {
            ReadingModel { current: reading.current.push(letter), ..reading }
        },
        None => if letter == '\'' || letter == '"' {
            ReadingModel { quote: Some(letter), ..reading }
        } else if text::is_white(letter) {
            ReadingModel {
                words: with_word(reading.words, reading.current),
                current: Seq::empty(),
                quote: None,
            }
        } else {
            ReadingModel { current: reading.current.push(letter), ..reading }
        },
    }
}

/// The words with one more, unless that is empty.
pub open spec fn with_word(words: Seq<Seq<char>>, word: Seq<char>) -> Seq<Seq<char>> {
    if word.len() == 0 {
        words
    } else {
        words.push(word)
    }
}

pub open spec fn reading_of(input: Seq<char>) -> ReadingModel
    decreases input.len(),
{
    if input.len() == 0 {
        ReadingModel { words: Seq::empty(), current: Seq::empty(), quote: None }
    } else {
        read_on(reading_of(input.drop_last()), input.last())
    }
}

/// The words of a filter, or what is wrong with it.
pub open spec fn words_of(input: Seq<char>) -> Result<Seq<Seq<char>>, Seq<char>> {
    let reading = reading_of(input);
    if reading.quote is Some {
        Err("unterminated quote in filter"@)
    } else {
        Ok(with_word(reading.words, reading.current))
    }
}

/// The words of a filter.
pub fn tokenize(input: &str) -> (words: Result<Vec<String>, String>)
    ensures
        match words {
            Ok(words) => words_of(input@) matches Ok(stated) && stated == text::texts(words@),
            Err(message) => words_of(input@) matches Err(stated) && stated == message@,
        },
{
    let letters = text::chars_of(input);
    let mut words: Vec<String> = Vec::new();
    let mut current = String::new();
    let mut quote: Option<char> = None;
    let mut i: usize = 0;
    assert(text::texts(words@) =~= Seq::empty());
    assert(current@ =~= Seq::empty());
    while i < letters.len()
        invariant
            i <= letters@.len(),
            reading_of(letters@.take(i as int)) == (ReadingModel {
                words: text::texts(words@),
                current: current@,
                quote,
            }),
        decreases letters@.len() - i,
    {
        let letter = letters[i];
        assert(letters@.take(i + 1).drop_last() =~= letters@.take(i as int));
        let ghost before = ReadingModel { words: text::texts(words@), current: current@, quote };
        match quote {
            Some(expected) => {
                if letter == expected {
                    quote = None;
                } else {
                    current.push(letter);
                }
            },
            None => {
                if letter == '\'' || letter == '"' {
                    quote = Some(letter);
                } else if text::white(letter) {
                    let ended: bool = current.as_str().unicode_len() > 0;
                    if ended {
                        let ghost list = words@;
                        words.push(current);
                        assert(text::texts(words@) =~= text::texts(list).push(current@));
                        current = String::new();
                    }
                    assert(current@ =~= Seq::empty());
                } else {
                    current.push(letter);
                }
            },
        }
        i = i + 1;
    }
    assert(letters@.take(i as int) =~= letters@);
    if quote.is_some() {
        return Err("unterminated quote in filter".to_owned());
    }
    if current.as_str().unicode_len() > 0 {
        let ghost list = words@;
        let ghost last = current@;
        words.push(current);
        assert(text::texts(words@) =~= text::texts(list).push(last));
    }
    Ok(words)
}

/// What the words of a filter ask for; the first word that is wrong counts.
pub open spec fn predicates_of(words: Seq<Seq<char>>) -> Result<Seq<PredicateModel>, Seq<char>>
    decreases words.len(),
{
    if words.len() == 0 {
        Ok(Seq::empty())
    } else {
        match predicates_of(words.drop_last()) {
            Err(message) => Err(message),
            Ok(list) => match predicate_of(words.last()) {
                Err(message) => Err(message),
                Ok(predicate) => Ok(list.push(predicate)),
            },
        }
    }
}

/// What a filter asks for: nothing where it holds no word.
pub open spec fn filter_of(input: Seq<char>) -> Result<Option<Seq<PredicateModel>>, Seq<char>> {
    match words_of(input) {
        Err(message) => Err(message),
        Ok(words) => if words.len() == 0 {
            Ok(None)
        } else {
            match predicates_of(words) {
                Err(message) => Err(message),
                Ok(list) => Ok(Some(list)),
            }
        },
    }
}

pub open spec fn predicate_views(list: Seq<Predicate>) -> Seq<PredicateModel> {
    list.map_values(|item: Predicate| item@)
}

/// The conditions that an entry must all meet.
#[derive(Debug, PartialEq, Eq)]
pub struct FilterExpression {
    predicates: Vec<Predicate>,
}

impl View for FilterExpression {
    type V = Seq<PredicateModel>;

    closed spec fn view(&self) -> Seq<PredicateModel> {
        predicate_views(self.predicates@)
    }
}

impl Default for FilterExpression {
    fn default() -> (filter: Self)
        ensures
            filter@ == Seq::<PredicateModel>::empty(),
    {
        let predicates: Vec<Predicate> = Vec::new();
        assert(predicate_views(predicates@) =~= Seq::empty());
        FilterExpression { predicates }
    }
}

impl Clone for FilterExpression {
    fn clone(&self) -> (copy: Self)
        ensures
            copy@ == self@,
    {
        let mut predicates: Vec<Predicate> = Vec::new();
        let mut i: usize = 0;
        while i < self.predicates.len()
            invariant
                i <= self.predicates@.len(),
                predicates@.len() == i,
                forall|j: int| 0 <= j < i ==> (#[trigger] predicates@[j])@ == self.predicates@[j]@,
            decreases self.predicates@.len() - i,
        {
            predicates.push(self.predicates[i].clone());
            i = i + 1;
        }
        assert(predicate_views(predicates@) =~= predicate_views(self.predicates@));
        FilterExpression { predicates }
    }
}

pub open spec fn filter_view(filter: Option<FilterExpression>) -> Option<Seq<PredicateModel>> {
    match filter {
        Some(filter) => Some(filter@),
        None => None,
    }
}

impl FilterExpression {
    pub fn parse(input: &str) -> (filter: Result<Option<Self>, String>)
        ensures
            match filter {
                Ok(filter) => filter_of(input@) matches Ok(stated) && stated == filter_view(
                    filter,
                ),
                Err(message) => filter_of(input@) matches Err(stated) && stated == message@,
            },
    {
        let words = match tokenize(input) {
            Ok(words) => words,
            Err(message) => {
                return Err(message);
            },
        };
        if words.len() == 0 {
            return Ok(None);
        }
        let ghost all = text::texts(words@);
        let mut predicates: Vec<Predicate> = Vec::new();
        let mut i: usize = 0;
        assert(predicate_views(predicates@) =~= Seq::empty());
        while i < words.len()
            invariant
                i <= words@.len(),
                all == text::texts(words@),
                words_of(input@) matches Ok(stated) && stated == all,
                all.len() > 0,
                predicates_of(all.take(i as int)) == Ok::<_, Seq<char>>(
                    predicate_views(predicates@),
                ),
            decreases words@.len() - i,
        {
            assert(all.take(i + 1).drop_last() =~= all.take(i as int));
            let ghost list = predicates@;
            match parse_predicate(words[i].as_str()) {
                Ok(predicate) => {
                    predicates.push(predicate);
                    assert(predicate_views(predicates@) =~= predicate_views(list).push(
                        predicate@,
                    ));
                },
                Err(message) => {
                    proof {
                        lemma_first_error(all, i as int);
                    }
                    return Err(message);
                },
            }
            i = i + 1;
        }
        assert(all.take(i as int) =~= all);
        Ok(Some(FilterExpression { predicates }))
    }

    fn matches_subject(&self, subject: &Subject, mode: SizeMode, now: u64) -> (result: bool)
        ensures
            result == admits_all(self@, subject.model(), mode, now),
    {
        let mut i: usize = 0;
        while i < self.predicates.len()
            invariant
                i <= self.predicates@.len(),
                forall|j: int|
                    0 <= j < i ==> (#[trigger] self@[j]).admits(subject.model(), mode, now),
            decreases self.predicates@.len() - i,
        {
            assert(self@[i as int] == self.predicates@[i as int]@);
            if !self.predicates[i].admits(subject, mode, now) {
                return false;
            }
            i = i + 1;
        }
        true
    }

    /// Whether a file of the index meets all conditions at a given time.
    pub fn matches_file_at(&self, file: &FileRecord, mode: SizeMode, now: u64) -> (result: bool)
        ensures
            result == admits_all(self@, file_subject(*file), mode, now),
    {
        let name = tree::base_name_of(&file.path).display();
        let subject = Subject {
            name: name.as_str().to_lowercase(),
            usage: Some(file.usage),
            modified: Some(file.modified_seconds),
            is_file: true,
            extension: analytics::copy_text(&file.extension),
            category: file.category,
        };
        self.matches_subject(&subject, mode, now)
    }

    /// Whether a file of the index meets all conditions now.
    pub fn matches_file(&self, file: &FileRecord, size_mode: SizeMode) -> (result: bool)
        ensures
            exists|now: u64| result == admits_all(self@, file_subject(*file), size_mode, now),
    {
        self.matches_file_at(file, size_mode, now_seconds())
    }

    /// Whether a node meets all conditions at a given time.
    pub fn matches_node_at(&self, node: &Node, mode: SizeMode, now: u64) -> (result: bool)
        ensures
            result == admits_all(self@, node_subject(node@), mode, now),
    {
        let name = node.name.display();
        let extension = analytics::normalized_extension(&node.path);
        let category = analytics::path_category(&node.path);
        let subject = Subject {
            name: name.as_str().to_lowercase(),
            usage: node.usage,
            modified: node.modified,
            is_file: node.kind == NodeKind::File,
            extension,
            category,
        };
        self.matches_subject(&subject, mode, now)
    }

    /// Whether a node meets all conditions now.
    pub fn matches_node(&self, node: &Node, size_mode: SizeMode) -> (result: bool)
        ensures
            exists|now: u64| result == admits_all(self@, node_subject(node@), size_mode, now),
    {
        self.matches_node_at(node, size_mode, now_seconds())
    }

    /// Whether a path with what is known of it meets all conditions at a given
    /// time.
    pub fn matches_path_usage_at(
        &self,
        path: &FilePath,
        usage: UsageStats,
        modified_seconds: Option<i64>,
        mode: SizeMode,
        now: u64,
    ) -> (result: bool)
        ensures
            result == admits_all(
                self@,
                path_subject(path@, usage, modified_seconds),
                mode,
                now,
            ),
    {
        let name = tree::base_name_of(path).display();
        let subject = Subject {
            name: name.as_str().to_lowercase(),
            usage: Some(usage),
            modified: modified_seconds,
            is_file: true,
            extension: analytics::normalized_extension(path),
            category: analytics::path_category(path),
        };
        self.matches_subject(&subject, mode, now)
    }

    /// Whether a path with what is known of it meets all conditions now.
    pub fn matches_path_usage(
        &self,
        path: &FilePath,
        usage: UsageStats,
        modified_seconds: Option<i64>,
        size_mode: SizeMode,
    ) -> (result: bool)
        ensures
            exists|now: u64|
                result == admits_all(
                    self@,
                    path_subject(path@, usage, modified_seconds),
                    size_mode,
                    now,
                ),
    {
        self.matches_path_usage_at(path, usage, modified_seconds, size_mode, now_seconds())
    }
}

/// The first word that is wrong decides what is reported.
proof fn lemma_first_error(words: Seq<Seq<char>>, at: int)
    requires
        0 <= at < words.len(),
        predicates_of(words.take(at)) is Ok,
        predicate_of(words[at]) is Err,
    ensures
        predicates_of(words) is Err,
        predicates_of(words)->Err_0 == predicate_of(words[at])->Err_0,
    decreases words.len(),
{
    if at == words.len() - 1 {
        assert(words.drop_last() =~= words.take(at));
    } else {
        let rest = words.drop_last();
        assert(rest.take(at) =~= words.take(at));
        lemma_first_error(rest, at);
    }
}

proof fn lemma_reading_joined(start: Seq<char>, rest: Seq<char>)
    requires
        reading_of(start).current.len() == 0,
        reading_of(start).quote is None,
    ensures
        ({
            let tail = reading_of(rest);
            reading_of(start + rest) == ReadingModel {
                words: reading_of(start).words + tail.words,
                ..tail
            }
        }),
    decreases rest.len(),
{
    if rest.len() == 0 {
        assert(start + rest =~= start);
        assert(reading_of(start).words + Seq::<Seq<char>>::empty() =~= reading_of(start).words);
        assert(reading_of(start).current =~= Seq::empty());
    } else {
        let less = rest.drop_last();
        lemma_reading_joined(start, less);
        assert((start + rest).drop_last() =~= start + less);
        let tail = reading_of(less);
        assert((reading_of(start).words + tail.words).push(tail.current)
            =~= reading_of(start).words + tail.words.push(tail.current));
    }
}

proof fn lemma_predicates_joined(first: Seq<Seq<char>>, second: Seq<Seq<char>>)
    requires
        predicates_of(first) is Ok,
        predicates_of(second) is Ok,
    ensures
        predicates_of(first + second) == Ok::<_, Seq<char>>(
            predicates_of(first)->Ok_0 + predicates_of(second)->Ok_0,
        ),
    decreases second.len(),
{
    if second.len() == 0 {
        assert(first + second =~= first);
        assert(predicates_of(first)->Ok_0 + Seq::<PredicateModel>::empty() =~= predicates_of(
            first,
        )->Ok_0);
    } else {
        lemma_predicates_joined(first, second.drop_last());
        assert((first + second).drop_last() =~= first + second.drop_last());
        let list = predicates_of(second.drop_last())->Ok_0;
        let last = predicate_of(second.last())->Ok_0;
        assert((predicates_of(first)->Ok_0 + list).push(last) =~= predicates_of(first)->Ok_0
            + list.push(last));
    }
}

/// Two filters with a space between them make one filter, which admits what
/// both admit.
pub proof fn joined_filters_admit_what_both_admit(
    first: Seq<char>,
    second: Seq<char>,
    subject: SubjectModel,
    mode: SizeMode,
    now: u64,
)
    requires
        filter_of(first) matches Ok(Some(_)),
        filter_of(second) matches Ok(Some(_)),
    ensures
        filter_of(first + seq![' '] + second) matches Ok(Some(both)) && (admits_all(
            both,
            subject,
            mode,
            now,
        ) <==> admits_all(filter_of(first)->Ok_0->0, subject, mode, now) && admits_all(
            filter_of(second)->Ok_0->0,
            subject,
            mode,
            now,
        )),
{
    let start = first + seq![' '];
    assert(start.drop_last() =~= first);
    assert(text::is_white(' '));
    lemma_reading_joined(start, second);
    let a = words_of(first)->Ok_0;
    let b = words_of(second)->Ok_0;
    let tail = reading_of(second);
    assert(reading_of(start).words == a);
    assert((a + tail.words).push(tail.current) =~= a + tail.words.push(tail.current));
    assert(words_of(start + second) == Ok::<_, Seq<char>>(a + b));
    lemma_predicates_joined(a, b);
    let p = predicates_of(a)->Ok_0;
    let q = predicates_of(b)->Ok_0;
    let both = p + q;
    if admits_all(both, subject, mode, now) {
        assert forall|i: int| 0 <= i < p.len() implies (#[trigger] p[i]).admits(
            subject,
            mode,
            now,
        ) by {
            assert(both[i] == p[i]);
        }
        assert forall|i: int| 0 <= i < q.len() implies (#[trigger] q[i]).admits(
            subject,
            mode,
            now,
        ) by {
            assert(both[p.len() + i] == q[i]);
        }
    }
    if admits_all(p, subject, mode, now) && admits_all(q, subject, mode, now) {
        assert forall|i: int| 0 <= i < both.len() implies (#[trigger] both[i]).admits(
            subject,
            mode,
            now,
        ) by {
            if i < p.len() {
                assert(both[i] == p[i]);
            } else {
                assert(both[i] == q[i - p.len()]);
            }
        }
    }
}

/// Which nodes a tree view shows.
pub enum NodeRule<'a> {
    /// What is open, as it is.
    Everything,
    /// The nodes whose name contains a query, whatever the case.
    Named(&'a str),
    /// The nodes that a filter admits, by a size mode and at a time.
    Matching(&'a FilterExpression, SizeMode, u64),
}

pub open spec fn named(query: Seq<char>) -> spec_fn(NodeModel) -> bool {
    |node: NodeModel| node.is_named(query)
}

pub open spec fn matching(filter: Seq<PredicateModel>, mode: SizeMode, now: u64) -> spec_fn(
    NodeModel,
) -> bool {
    |node: NodeModel| admits_all(filter, node_subject(node), mode, now)
}

impl<'a> NodeRule<'a> {
    /// The nodes that the rule admits, where it is one that chooses.
    pub open spec fn admits(self) -> spec_fn(NodeModel) -> bool {
        match self {
            NodeRule::Everything => |node: NodeModel| true,
            NodeRule::Named(query) => named(query@),
            NodeRule::Matching(filter, mode, now) => matching(filter@, mode, now),
        }
    }

    pub fn admits_node(&self, node: &Node) -> (result: bool)
        ensures
            result == (self.admits())(node@),
    {
        match self {
            NodeRule::Everything => true,
            NodeRule::Named(query) => node.matches(query),
            NodeRule::Matching(filter, mode, now) => filter.matches_node_at(node, *mode, *now),
        }
    }
}

/// What one operator admits is what it says: less, at most, as much, at least
/// or more.
pub proof fn operators_compare_as_they_are_written(left: u64, right: u64)
    ensures
        ComparisonOperator::Less.holds(left, right) <==> left < right,
        ComparisonOperator::GreaterEqual.holds(left, right) <==> !ComparisonOperator::Less.holds(
            left,
            right,
        ),
        ComparisonOperator::Greater.holds(left, right) <==> ComparisonOperator::Less.holds(
            right,
            left,
        ),
        ComparisonOperator::LessEqual.holds(left, right) <==> !ComparisonOperator::Greater.holds(
            left,
            right,
        ),
        ComparisonOperator::Equal.holds(left, right) <==> ComparisonOperator::LessEqual.holds(
            left,
            right,
        ) && ComparisonOperator::GreaterEqual.holds(left, right),
{
}

/// A condition on the size admits an entry of known size by that size, in the
/// mode that is shown: `<` those below the amount, `>=` all others, and so on.
/// An entry of unknown size is never admitted.
pub proof fn size_conditions_compare_the_size(
    subject: SubjectModel,
    amount: u64,
    mode: SizeMode,
    now: u64,
)
    ensures
        subject.usage is None ==> forall|operator: ComparisonOperator|
            !#[trigger] PredicateModel::Size(operator, amount).admits(subject, mode, now),
        subject.usage matches Some(usage) ==> {
            let size = if mode == SizeMode::Logical {
                usage.logical
            } else {
                usage.physical
            };
            &&& PredicateModel::Size(ComparisonOperator::Less, amount).admits(subject, mode, now)
                <==> size < amount
            &&& PredicateModel::Size(ComparisonOperator::LessEqual, amount).admits(
                subject,
                mode,
                now,
            ) <==> size <= amount
            &&& PredicateModel::Size(ComparisonOperator::Equal, amount).admits(subject, mode, now)
                <==> size == amount
            &&& PredicateModel::Size(ComparisonOperator::GreaterEqual, amount).admits(
                subject,
                mode,
                now,
            ) <==> size >= amount
            &&& PredicateModel::Size(ComparisonOperator::Greater, amount).admits(
                subject,
                mode,
                now,
            ) <==> size > amount
        },
{
}

/// A condition on the age admits an entry by the seconds since its last change.
/// A change in the future counts as just made; without a time, or with one
/// before the epoch, an entry is never admitted.
pub proof fn age_conditions_compare_the_age(
    subject: SubjectModel,
    seconds: u64,
    mode: SizeMode,
    now: u64,
)
    ensures
        subject.modified is None || subject.modified->0 < 0 ==> forall|operator: ComparisonOperator|
            !#[trigger] PredicateModel::Age(operator, seconds).admits(subject, mode, now),
        subject.modified is Some && subject.modified->0 >= 0 ==> {
            let modified = subject.modified->0;
            let age = if modified <= now {
                now - modified
            } else {
                0
            };
            &&& PredicateModel::Age(ComparisonOperator::Less, seconds).admits(subject, mode, now)
                <==> age < seconds
            &&& PredicateModel::Age(ComparisonOperator::LessEqual, seconds).admits(
                subject,
                mode,
                now,
            ) <==> age <= seconds
            &&& PredicateModel::Age(ComparisonOperator::Equal, seconds).admits(subject, mode, now)
                <==> age == seconds
            &&& PredicateModel::Age(ComparisonOperator::GreaterEqual, seconds).admits(
                subject,
                mode,
                now,
            ) <==> age >= seconds
            &&& PredicateModel::Age(ComparisonOperator::Greater, seconds).admits(
                subject,
                mode,
                now,
            ) <==> age > seconds
        },
{
}

/// A filter admits an entry if and only if each of its conditions does; one
/// condition more never admits more.
pub proof fn one_condition_more_admits_no_more(
    filter: Seq<PredicateModel>,
    condition: PredicateModel,
    subject: SubjectModel,
    mode: SizeMode,
    now: u64,
)
    ensures
        admits_all(Seq::empty(), subject, mode, now),
        admits_all(filter.push(condition), subject, mode, now) <==> admits_all(
            filter,
            subject,
            mode,
            now,
        ) && condition.admits(subject, mode, now),
{
    let more = filter.push(condition);
    if admits_all(more, subject, mode, now) {
        assert(more[filter.len() as int].admits(subject, mode, now));
        assert forall|i: int| 0 <= i < filter.len() implies (#[trigger] filter[i]).admits(
            subject,
            mode,
            now,
        ) by {
            assert(more[i].admits(subject, mode, now));
        }
    }
}

/// A name is admitted if it contains what is asked for; an extension or a
/// category if it is the one that is asked for, which only files have.
pub proof fn names_extensions_and_categories_are_matched(
    subject: SubjectModel,
    before: Seq<char>,
    query: Seq<char>,
    behind: Seq<char>,
    extension: Option<Seq<char>>,
    category: FileCategory,
    mode: SizeMode,
    now: u64,
)
    ensures
        subject.name == before + query + behind ==> PredicateModel::Name(query).admits(
            subject,
            mode,
            now,
        ),
        PredicateModel::Name(query).admits(subject, mode, now) ==> exists|at: int|
            0 <= at && at + query.len() <= subject.name.len() && #[trigger] subject.name.subrange(
                at,
                at + query.len(),
            ) == query,
        PredicateModel::Extension(extension).admits(subject, mode, now) <==> (
        subject.extension matches Some(own) && own == extension),
        PredicateModel::Category(category).admits(subject, mode, now) <==> (
        subject.category matches Some(own) && own == category),
{
    if subject.name == before + query + behind {
        assert(subject.name.subrange(before.len() as int, (before.len() + query.len()) as int)
            =~= query);
        assert(text::occurs_at(subject.name, query, before.len() as int));
    }
    if PredicateModel::Name(query).admits(subject, mode, now) {
        let at = choose|at: int| text::occurs_at(subject.name, query, at);
        assert(subject.name.subrange(at, at + query.len()) == query);
    }
}

/// A filter sees of a file its size, the time of its last change, its extension
/// and its category as they are in the index.
pub proof fn filters_see_files_as_they_are(file: FileRecord)
    ensures
        file_subject(file).usage == Some(file.usage),
        file_subject(file).modified == Some(file.modified_seconds),
        file_subject(file).category == Some(file.category),
        file_subject(file).extension == Some(
            match file.extension {
                Some(extension) => Some(extension@),
                None => None,
            },
        ),
        file_subject(file).name == text::lowercase(
            text::lossy_text(
                match path::file_name_of(file.path@) {
                    Some(name) => name,
                    None => file.path@,
                },
            ),
        ),
{
}

/// A filter sees of a node its size and the time of its last change as they are
/// known. Only regular files have an extension and a category.
pub proof fn filters_see_nodes_as_they_are(node: NodeModel)
    ensures
        node_subject(node).usage == node.usage,
        node_subject(node).modified == node.modified,
        node_subject(node).name == text::lowercase(text::lossy_text(node.name)),
        node_subject(node).extension is Some <==> node.kind == NodeKind::File,
        node_subject(node).category is Some <==> node.kind == NodeKind::File,
{
}

/// The units of size are decimal and binary ones, in any case; a size without a
/// unit is in bytes.
pub proof fn size_units_are_decimal_and_binary(unit: Seq<char>)
    ensures
        unit.len() == 0 ==> size_unit(unit) == Some(1u64),
        text::same_ignoring_case(unit, "b"@) ==> size_unit(unit) == Some(1u64),
        text::same_ignoring_case(unit, "kb"@) ==> size_unit(unit) == Some(1_000u64),
        text::same_ignoring_case(unit, "mb"@) ==> size_unit(unit) == Some(1_000_000u64),
        text::same_ignoring_case(unit, "gb"@) ==> size_unit(unit) == Some(1_000_000_000u64),
        text::same_ignoring_case(unit, "tb"@) ==> size_unit(unit) == Some(1_000_000_000_000u64),
        text::same_ignoring_case(unit, "kib"@) ==> size_unit(unit) == Some(0x400u64),
        text::same_ignoring_case(unit, "mib"@) ==> size_unit(unit) == Some(0x10_0000u64),
        text::same_ignoring_case(unit, "gib"@) ==> size_unit(unit) == Some(0x4000_0000u64),
        text::same_ignoring_case(unit, "tib"@) ==> size_unit(unit) == Some(0x100_0000_0000u64),
        unit.len() > 3 ==> size_unit(unit) is None,
{
    reveal_strlit("b");
    reveal_strlit("kb");
    reveal_strlit("mb");
    reveal_strlit("gb");
    reveal_strlit("tb");
    reveal_strlit("kib");
    reveal_strlit("mib");
    reveal_strlit("gib");
    reveal_strlit("tib");
    if unit.len() > 0 {
        lemma_first_letters(unit);
    }
}

proof fn lemma_first_letters(unit: Seq<char>)
    requires
        unit.len() > 0,
    ensures
        forall|other: Seq<char>| #[trigger]
            text::same_ignoring_case(unit, other) ==> unit.len() == other.len()
                && text::ascii_lower(unit[0]) == text::ascii_lower(other[0]),
{
    assert forall|other: Seq<char>| #[trigger]
        text::same_ignoring_case(unit, other) implies unit.len() == other.len()
        && text::ascii_lower(unit[0]) == text::ascii_lower(other[0]) by {
        assert(text::ascii_lower(unit[0]) == text::ascii_lower(other[0]));
    }
}

/// The units of age are seconds, minutes, hours, days, weeks and years of 365
/// days; none can be left out.
pub proof fn age_units_are_in_seconds(unit: Seq<char>)
    ensures
        age_unit("s"@) == Some(1u64),
        age_unit("m"@) == Some(60u64),
        age_unit("h"@) == Some(3_600u64),
        age_unit("d"@) == Some(86_400u64),
        age_unit("w"@) == Some(604_800u64),
        age_unit("y"@) == Some(31_536_000u64),
        unit.len() != 1 ==> age_unit(unit) is None,
{
    reveal_strlit("s");
    reveal_strlit("m");
    reveal_strlit("h");
    reveal_strlit("d");
    reveal_strlit("w");
    reveal_strlit("y");
    assert("s"@[0] == 's');
    assert("m"@[0] == 'm');
    assert("h"@[0] == 'h');
    assert("d"@[0] == 'd');
    assert("w"@[0] == 'w');
    assert("y"@[0] == 'y');
}

proof fn lemma_number_before(number: Seq<char>, unit: Seq<char>)
    requires
        forall|i: int| 0 <= i < number.len() ==> is_numeric(#[trigger] number[i]),
        unit.len() == 0 || !is_numeric(unit[0]),
    ensures
        number_length(number + unit) == number.len(),
    decreases number.len(),
{
    let value = number + unit;
    if number.len() > 0 {
        assert(is_numeric(number[0]));
        let rest = number.drop_first();
        assert forall|i: int| 0 <= i < rest.len() implies is_numeric(#[trigger] rest[i]) by {
            assert(rest[i] == number[i + 1]);
        }
        lemma_number_before(rest, unit);
        assert(value.drop_first() =~= rest + unit);
    } else {
        assert(value =~= unit);
    }
}

/// How a whole number before a unit is read.
proof fn lemma_whole_amount(number: nat, unit: Seq<char>)
    requires
        unit.len() == 0 || !is_numeric(unit[0]),
    ensures
        ({
            let value = text::decimal(number) + unit;
            let split = number_length(value) as int;
            &&& value.take(split) == text::decimal(number)
            &&& value.skip(split) == unit
            &&& quantity::number_of(text::decimal(number)) == Some(
                (quantity::digits_of(text::decimal(number)), Seq::<u8>::empty()),
            )
            &&& quantity::digits_value(quantity::digits_of(text::decimal(number))) == number
            &&& quantity::digits_value(Seq::<u8>::empty()) == 0
            &&& quantity::ten_to(0) == 1
        }),
{
    let digits = text::decimal(number);
    let value = digits + unit;
    text::numbers_read_back(number);
    assert forall|i: int| 0 <= i < digits.len() implies is_numeric(#[trigger] digits[i]) by {
        assert(quantity::is_digit(digits[i]));
    }
    lemma_number_before(digits, unit);
    assert(value.take(digits.len() as int) =~= digits);
    assert(value.skip(digits.len() as int) =~= unit);
    quantity::a_text_of_digits_is_a_whole_number(digits);
}

/// A whole number of a unit is that many times the unit, exactly while the
/// product has at most 53 binary digits.
pub proof fn whole_sizes_are_exact(number: nat, unit: Seq<char>, factor: u64)
    requires
        unit.len() == 0 || !is_numeric(unit[0]),
        size_unit(unit) == Some(factor),
        number * factor < 9_007_199_254_740_992,
    ensures
        size_of_text(text::decimal(number) + unit) == Ok::<u64, Seq<char>>(
            (number * factor) as u64,
        ),
{
    lemma_whole_amount(number, unit);
    assert(factor > 0);
    assert(number <= number * factor) by (nonlinear_arith)
        requires
            factor > 0,
    ;
    quantity::short_numbers_are_finite();
    quantity::whole_numbers_are_multiplied_exactly(number, factor as nat);
    assert(number * 1 + 0 == number);
}

/// A whole number of a unit of age is that many times the unit in seconds,
/// exactly while the product has at most 53 binary digits.
pub proof fn whole_ages_are_exact(number: nat, unit: Seq<char>, factor: u64)
    requires
        unit.len() == 0 || !is_numeric(unit[0]),
        age_unit(unit) == Some(factor),
        number * factor < 9_007_199_254_740_992,
    ensures
        duration_of_text(text::decimal(number) + unit) == Ok::<u64, Seq<char>>(
            (number * factor) as u64,
        ),
{
    lemma_whole_amount(number, unit);
    assert(factor > 0);
    quantity::whole_numbers_are_multiplied_exactly(number, factor as nat);
    assert(number * 1 + 0 == number);
}

/// An operator is read at the start of a condition, the longer ones first, and
/// what follows it is the value, which must not be missing.
pub proof fn operators_stand_before_the_value(rest: Seq<char>, label: Seq<char>)
    ensures
        rest.len() > 0 ==> {
            &&& comparison_of(seq!['>', '='] + rest, label) == Ok::<_, Seq<char>>(
                (ComparisonOperator::GreaterEqual, rest),
            )
            &&& comparison_of(seq!['<', '='] + rest, label) == Ok::<_, Seq<char>>(
                (ComparisonOperator::LessEqual, rest),
            )
            &&& comparison_of(seq!['='] + rest, label) == Ok::<_, Seq<char>>(
                (ComparisonOperator::Equal, rest),
            )
            &&& rest[0] != '=' ==> comparison_of(seq!['>'] + rest, label) == Ok::<_, Seq<char>>(
                (ComparisonOperator::Greater, rest),
            )
            &&& rest[0] != '=' ==> comparison_of(seq!['<'] + rest, label) == Ok::<_, Seq<char>>(
                (ComparisonOperator::Less, rest),
            )
        },
        rest.len() == 0 ==> comparison_of(seq!['>'], label) is Err && comparison_of(
            seq!['<'],
            label,
        ) is Err && comparison_of(seq!['='], label) is Err,
        rest.len() > 0 && rest[0] != '>' && rest[0] != '<' && rest[0] != '=' ==> comparison_of(
            rest,
            label,
        ) is Err,
{
    lemma_operators(seq!['>', '='] + rest);
    lemma_operators(seq!['<', '='] + rest);
    lemma_operators(seq!['='] + rest);
    lemma_operators(seq!['>'] + rest);
    lemma_operators(seq!['<'] + rest);
    lemma_operators(seq!['>']);
    lemma_operators(seq!['<']);
    lemma_operators(seq!['=']);
    if rest.len() > 0 {
        lemma_operators(rest);
    }
    assert((seq!['>', '='] + rest).skip(2) =~= rest);
    assert((seq!['<', '='] + rest).skip(2) =~= rest);
    assert((seq!['='] + rest).skip(1) =~= rest);
    assert((seq!['>'] + rest).skip(1) =~= rest);
    assert((seq!['<'] + rest).skip(1) =~= rest);
    assert(seq!['='].skip(1).len() == 0);
    assert(seq!['>'].skip(1).len() == 0);
    assert(seq!['<'].skip(1).len() == 0);
}

/// Which operators a text begins with.
proof fn lemma_operators(value: Seq<char>)
    requires
        value.len() > 0,
    ensures
        after_prefix(value, ">="@) == (if value.len() > 1 && value[0] == '>' && value[1] == '=' {
            Some(value.skip(2))
        } else {
            None
        }),
        after_prefix(value, "<="@) == (if value.len() > 1 && value[0] == '<' && value[1] == '=' {
            Some(value.skip(2))
        } else {
            None
        }),
        after_prefix(value, ">"@) == (if value[0] == '>' {
            Some(value.skip(1))
        } else {
            None
        }),
        after_prefix(value, "<"@) == (if value[0] == '<' {
            Some(value.skip(1))
        } else {
            None
        }),
        after_prefix(value, "="@) == (if value[0] == '=' {
            Some(value.skip(1))
        } else {
            None
        }),
{
    reveal_strlit(">=");
    reveal_strlit("<=");
    reveal_strlit(">");
    reveal_strlit("<");
    reveal_strlit("=");
    assert(">="@ =~= seq!['>', '=']);
    assert("<="@ =~= seq!['<', '=']);
    assert(">"@ =~= seq!['>']);
    assert("<"@ =~= seq!['<']);
    assert("="@ =~= seq!['=']);
    if value.len() > 1 {
        assert(value.subrange(0, 2)[0] == value[0]);
        assert(value.subrange(0, 2)[1] == value[1]);
        if value[0] == '>' && value[1] == '=' {
            assert(value.subrange(0, 2) =~= ">="@);
        }
        if value[0] == '<' && value[1] == '=' {
            assert(value.subrange(0, 2) =~= "<="@);
        }
    }
    assert(value.subrange(0, 1)[0] == value[0]);
    assert(value.subrange(0, 1) =~= seq![value[0]]);
}

proof fn lemma_after_own_prefix(prefix: Seq<char>, rest: Seq<char>)
    ensures
        after_prefix(prefix + rest, prefix) == Some(rest),
{
    let value = prefix + rest;
    assert(value.subrange(0, prefix.len() as int) =~= prefix);
    assert(value.skip(prefix.len() as int) =~= rest);
}

proof fn lemma_other_start(value: Seq<char>, prefix: Seq<char>)
    requires
        prefix.len() > 0,
        value.len() == 0 || value[0] != prefix[0],
    ensures
        after_prefix(value, prefix) is None,
{
    if text::occurs_at(value, prefix, 0) {
        assert(value.subrange(0, prefix.len() as int)[0] == value[0]);
    }
}

/// `ext:` names an extension, with or without its dot, and `ext:none` asks for
/// files without one.
pub proof fn extensions_are_asked_for(token: Seq<char>, rest: Seq<char>)
    requires
        rest.len() > 0,
        text::lowercase(token) == "ext:"@ + rest,
    ensures
        rest == "none"@ || rest == "<none>"@ ==> predicate_of(token) == Ok::<_, Seq<char>>(
            PredicateModel::Extension(None),
        ),
        rest != "none"@ && rest != "<none>"@ && rest[0] != '.' ==> predicate_of(token) == Ok::<
            _,
            Seq<char>,
        >(PredicateModel::Extension(Some(rest))),
        rest[0] == '.' && rest.len() > 1 && rest[1] != '.' ==> predicate_of(token) == Ok::<
            _,
            Seq<char>,
        >(PredicateModel::Extension(Some(rest.skip(1)))),
{
    lemma_after_own_prefix("ext:"@, rest);
    reveal_with_fuel(leading_points, 3);
    reveal_strlit("none");
    reveal_strlit("<none>");
    assert("none"@[0] == 'n');
    assert("<none>"@[0] == '<');
    assert(rest.skip(0) =~= rest);
    assert(rest.drop_first().len() == rest.len() - 1);
    if rest.len() > 1 {
        assert(rest.drop_first()[0] == rest[1]);
    }
}

/// `type:` names a category.
pub proof fn categories_are_asked_for(token: Seq<char>, rest: Seq<char>)
    requires
        text::lowercase(token) == "type:"@ + rest,
    ensures
        FileCategory::named(rest) is Some ==> predicate_of(token) == Ok::<_, Seq<char>>(
            PredicateModel::Category(FileCategory::named(rest)->0),
        ),
        FileCategory::named(rest) is None ==> predicate_of(token) is Err,
{
    let lower = text::lowercase(token);
    reveal_strlit("ext:");
    reveal_strlit("type:");
    assert(lower[0] == 't');
    lemma_other_start(lower, "ext:"@);
    lemma_after_own_prefix("type:"@, rest);
}

/// A condition on the size begins with `size` or with its operator.
pub proof fn sizes_are_asked_for(
    token: Seq<char>,
    rest: Seq<char>,
    operator: ComparisonOperator,
    amount: Seq<char>,
    size: u64,
)
    requires
        text::lowercase(token) == "size"@ + rest || text::lowercase(token) == rest,
        comparison_of(rest, "size"@) == Ok::<_, Seq<char>>((operator, amount)),
        size_of_text(amount) == Ok::<_, Seq<char>>(size),
    ensures
        predicate_of(token) == Ok::<_, Seq<char>>(PredicateModel::Size(operator, size)),
{
    let lower = text::lowercase(token);
    reveal_strlit("ext:");
    reveal_strlit("type:");
    reveal_strlit("size");
    reveal_strlit("age");
    if lower == "size"@ + rest {
        assert(lower[0] == 's');
        lemma_other_start(lower, "ext:"@);
        lemma_other_start(lower, "type:"@);
        lemma_after_own_prefix("size"@, rest);
    } else {
        if rest.len() == 0 {
            reveal_strlit(">=");
            reveal_strlit("<=");
            reveal_strlit(">");
            reveal_strlit("<");
            reveal_strlit("=");
            lemma_other_start(rest, ">="@);
            lemma_other_start(rest, "<="@);
            lemma_other_start(rest, ">"@);
            lemma_other_start(rest, "<"@);
            lemma_other_start(rest, "="@);
            assert(false);
        }
        lemma_operators(rest);
        assert(lower[0] == '>' || lower[0] == '<' || lower[0] == '=');
        lemma_other_start(lower, "ext:"@);
        lemma_other_start(lower, "type:"@);
        lemma_other_start(lower, "size"@);
        lemma_other_start(lower, "age"@);
    }
}

/// A condition on the age begins with `age`.
pub proof fn ages_are_asked_for(
    token: Seq<char>,
    rest: Seq<char>,
    operator: ComparisonOperator,
    amount: Seq<char>,
    age: u64,
)
    requires
        text::lowercase(token) == "age"@ + rest,
        comparison_of(rest, "age"@) == Ok::<_, Seq<char>>((operator, amount)),
        duration_of_text(amount) == Ok::<_, Seq<char>>(age),
    ensures
        predicate_of(token) == Ok::<_, Seq<char>>(PredicateModel::Age(operator, age)),
{
    let lower = text::lowercase(token);
    reveal_strlit("ext:");
    reveal_strlit("type:");
    reveal_strlit("size");
    reveal_strlit("age");
    assert(lower[0] == 'a');
    lemma_other_start(lower, "ext:"@);
    lemma_other_start(lower, "type:"@);
    lemma_other_start(lower, "size"@);
    lemma_after_own_prefix("age"@, rest);
}

/// Any other word is looked for in names, in small letters.
pub proof fn other_words_are_looked_for_in_names(token: Seq<char>)
    requires
        ({
            let lower = text::lowercase(token);
            &&& !("ext:"@.is_prefix_of(lower))
            &&& !("type:"@.is_prefix_of(lower))
            &&& !("size"@.is_prefix_of(lower))
            &&& !("age"@.is_prefix_of(lower))
            &&& lower.len() > 0 ==> lower[0] != '>' && lower[0] != '<' && lower[0] != '='
        }),
    ensures
        predicate_of(token) == Ok::<_, Seq<char>>(PredicateModel::Name(text::lowercase(token))),
{
    let lower = text::lowercase(token);
    lemma_prefix_is_none(lower, "ext:"@);
    lemma_prefix_is_none(lower, "type:"@);
    lemma_prefix_is_none(lower, "size"@);
    lemma_prefix_is_none(lower, "age"@);
}

proof fn lemma_prefix_is_none(value: Seq<char>, prefix: Seq<char>)
    requires
        !prefix.is_prefix_of(value),
    ensures
        after_prefix(value, prefix) is None,
{
}

/// Each word is one condition, in the order of the words, and a word that is
/// none spoils the filter.
pub proof fn each_word_is_one_condition(words: Seq<Seq<char>>, i: int)
    requires
        0 <= i < words.len(),
    ensures
        predicates_of(words) is Ok ==> {
            &&& predicates_of(words)->Ok_0.len() == words.len()
            &&& predicate_of(words[i]) == Ok::<_, Seq<char>>(predicates_of(words)->Ok_0[i])
        },
        predicate_of(words[i]) is Err ==> predicates_of(words) is Err,
    decreases words.len(),
{
    reveal_with_fuel(predicates_of, 2);
    let front = words.drop_last();
    if front.len() > 0 {
        each_word_is_one_condition(
            front,
            if i < front.len() {
                i
            } else {
                0
            },
        );
    }
    if i < front.len() {
        assert(front[i] == words[i]);
    }
}

proof fn lemma_plain_letters(start: Seq<char>, word: Seq<char>, quote: Option<char>)
    requires
        reading_of(start).quote == quote,
        forall|i: int|
            0 <= i < word.len() ==> match quote {
                Some(expected) => #[trigger] word[i] != expected,
                None => word[i] != '\'' && word[i] != '"' && !text::is_white(word[i]),
            },
    ensures
        reading_of(start + word) == (ReadingModel {
            current: reading_of(start).current + word,
            ..reading_of(start)
        }),
    decreases word.len(),
{
    if word.len() == 0 {
        assert(start + word =~= start);
        assert(reading_of(start).current + word =~= reading_of(start).current);
    } else {
        let front = word.drop_last();
        assert forall|i: int|
            0 <= i < front.len() implies match quote {
            Some(expected) => #[trigger] front[i] != expected,
            None => front[i] != '\'' && front[i] != '"' && !text::is_white(front[i]),
        } by {
            assert(front[i] == word[i]);
        }
        lemma_plain_letters(start, front, quote);
        assert((start + word).drop_last() =~= start + front);
        assert((start + word).last() == word.last());
        assert(word[word.len() - 1] == word.last());
        assert(reading_of(start).current + word =~= (reading_of(start).current + front).push(
            word.last(),
        ));
    }
}

/// A word without white space and quotes is read as it stands.
pub proof fn plain_words_are_read_as_they_stand(word: Seq<char>)
    requires
        word.len() > 0,
        forall|i: int|
            0 <= i < word.len() ==> #[trigger] word[i] != '\'' && word[i] != '"' && !text::is_white(
                word[i],
            ),
    ensures
        words_of(word) == Ok::<_, Seq<char>>(seq![word]),
{
    let none = Seq::<char>::empty();
    lemma_plain_letters(none, word, None);
    assert(none + word =~= word);
    assert(Seq::<Seq<char>>::empty().push(word) =~= seq![word]);
}

/// Within quotes every letter but the quote counts, white space too; a quote
/// that is not closed is an error.
pub proof fn quoted_words_keep_their_white_space(word: Seq<char>, quote: char)
    requires
        quote == '\'' || quote == '"',
        word.len() > 0,
        forall|i: int| 0 <= i < word.len() ==> #[trigger] word[i] != quote,
    ensures
        words_of(seq![quote] + word + seq![quote]) == Ok::<_, Seq<char>>(seq![word]),
        words_of(seq![quote] + word) is Err,
{
    let none = Seq::<char>::empty();
    let start = seq![quote];
    reveal_with_fuel(reading_of, 2);
    assert(start.drop_last() =~= none);
    assert(reading_of(start).quote == Some(quote));
    lemma_plain_letters(start, word, Some(quote));
    assert(reading_of(start).current + word =~= word);
    let all = start + word + seq![quote];
    assert(all.drop_last() =~= start + word);
    assert(Seq::<Seq<char>>::empty().push(word) =~= seq![word]);
}

/// White space ends a word.
pub proof fn white_space_ends_a_word(start: Seq<char>, white: char)
    requires
        text::is_white(white),
        white != '\'' && white != '"',
        reading_of(start).quote is None,
    ensures
        ({
            let before = reading_of(start);
            let after = reading_of(start.push(white));
            &&& after.current.len() == 0
            &&& after.quote is None
            &&& before.current.len() > 0 ==> after.words == before.words.push(before.current)
            &&& before.current.len() == 0 ==> after.words == before.words
        }),
{
    assert(start.push(white).drop_last() =~= start);
}

/// An input without words is no filter.
pub proof fn no_words_are_no_filter(input: Seq<char>)
    ensures
        words_of(input) is Err ==> filter_of(input) is Err,
        words_of(input) is Ok && words_of(input)->Ok_0.len() == 0 ==> filter_of(input) == Ok::<
            Option<Seq<PredicateModel>>,
            Seq<char>,
        >(None),
        words_of(input) is Ok && words_of(input)->Ok_0.len() > 0 ==> match predicates_of(
            words_of(input)->Ok_0,
        ) {
            Ok(list) => filter_of(input) == Ok::<_, Seq<char>>(Some(list)),
            Err(message) => filter_of(input) == Err::<Option<Seq<PredicateModel>>, _>(message),
        },
{
}

/// A filter sees a changed path with its name, its extension and category, and
/// the usage that is shown for it.
pub proof fn filters_see_changes_as_they_are(
    path: Seq<u8>,
    usage: UsageStats,
    modified: Option<i64>,
)
    ensures
        ({
            let subject = path_subject(path, usage, modified);
            &&& subject.usage == Some(usage)
            &&& subject.modified == modified
            &&& subject.extension == Some(analytics::normal_extension(path))
            &&& analytics::normal_extension(path) is Some ==> subject.category == Some(
                analytics::extension_category(analytics::normal_extension(path)->0),
            )
            &&& analytics::normal_extension(path) is None ==> subject.category == Some(
                FileCategory::Other,
            )
            &&& path::file_name_of(path) is Some ==> subject.name == text::lowercase(
                text::lossy_text(path::file_name_of(path)->0),
            )
        }),
{
}

} // verus!
