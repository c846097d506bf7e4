use macdirstat::analytics::{category_for_extension, FileCategory, FileRecord};
use macdirstat::filter::{
    parse_duration, parse_predicate, parse_size, tokenize, ComparisonOperator, FilterExpression,
    Predicate,
};
use macdirstat::path::FilePath;
use macdirstat::tree::{FileIdentity, SizeMode, UsageStats};

fn file(name: &str, logical: u64, extension: Option<&str>) -> FileRecord {
    FileRecord {
        path: FilePath::from_text("/tmp").join(&FilePath::from_text(name)),
        usage: UsageStats { logical, physical: logical / 2, files: 1 },
        identity: FileIdentity {
            device: 1,
            inode: 2,
            modified_seconds: 1,
            modified_nanoseconds: 0,
        },
        modified_seconds: 1,
        modified_nanoseconds: 0,
        extension: extension.map(str::to_owned),
        category: category_for_extension(extension),
    }
}

fn chars(text: &str) -> Vec<char> {
    text.chars().collect()
}

#[test]
fn parses_and_applies_combined_predicates() {
    let filter = FilterExpression::parse("photo size>1MiB ext:jpg type:image").unwrap().unwrap();
    assert!(filter.matches_file(
        &file("holiday-photo.jpg", 2 * 1024 * 1024, Some("jpg")),
        SizeMode::Logical
    ));
    assert!(!filter.matches_file(&file("holiday-photo.jpg", 500, Some("jpg")), SizeMode::Logical));
}

#[test]
fn supports_quotes_shorthand_units_and_no_extension() {
    let filter = FilterExpression::parse("\"large file\" >1.5GB ext:none").unwrap().unwrap();
    assert!(filter.matches_file(&file("large file", 1_600_000_000, None), SizeMode::Logical));
}

#[test]
fn rejects_invalid_filters_without_guessing() {
    assert!(FilterExpression::parse("size1GB").is_err());
    assert!(FilterExpression::parse("age>12parsecs").is_err());
    assert!(FilterExpression::parse("type:unknown").is_err());
    assert!(FilterExpression::parse("\"unterminated").is_err());
}

#[test]
fn a_blank_filter_is_no_filter() {
    assert!(FilterExpression::parse("").unwrap().is_none());
    assert!(FilterExpression::parse("  \t ").unwrap().is_none());
}

#[test]
fn sizes_are_read_in_decimal_and_binary_units() {
    for (text, bytes) in [
        ("0", 0),
        ("17", 17),
        ("1b", 1),
        ("1kb", 1_000),
        ("1kib", 1_024),
        ("2mb", 2_000_000),
        ("2mib", 2_097_152),
        ("1.5gb", 1_500_000_000),
        ("0.5gib", 536_870_912),
        ("1tb", 1_000_000_000_000),
        ("1tib", 1_099_511_627_776),
        (".5kb", 500),
        ("2.KB", 2_000),
    ] {
        assert_eq!(parse_size(&chars(text)), Ok(bytes), "{text}");
    }
    for text in ["", "k", "1zb", "1.2.3kb", "-1", "1k"] {
        assert!(parse_size(&chars(text)).is_err(), "{text}");
    }
    assert_eq!(parse_size(&chars("x")).unwrap_err(), "invalid size number \"\"");
    assert_eq!(parse_size(&chars("1zb")).unwrap_err(), "unknown size unit \"zb\"");
}

#[test]
fn ages_are_read_in_seconds_to_years() {
    for (text, seconds) in [
        ("30s", 30),
        ("2m", 120),
        ("1h", 3_600),
        ("1d", 86_400),
        ("2w", 1_209_600),
        ("0.5h", 1_800),
    ] {
        assert_eq!(parse_duration(&chars(text)), Ok(seconds), "{text}");
    }
    assert_eq!(parse_duration(&chars("1y")), Ok(31_536_000));
    assert_eq!(
        parse_duration(&chars("12parsecs")).unwrap_err(),
        "unknown age unit \"parsecs\"; use s, m, h, d, w or y"
    );
}

#[test]
fn words_may_be_quoted() {
    assert_eq!(tokenize("a  b\tc").unwrap(), ["a", "b", "c"]);
    assert_eq!(tokenize("\"a b\" c").unwrap(), ["a b", "c"]);
    assert_eq!(tokenize("'a b'c").unwrap(), ["a bc"]);
    assert!(tokenize("'a b").is_err());
}

#[test]
fn predicates_name_what_they_compare() {
    assert_eq!(
        parse_predicate("size>=1kb"),
        Ok(Predicate::Size(ComparisonOperator::GreaterEqual, 1_000))
    );
    assert_eq!(parse_predicate("<1kb"), Ok(Predicate::Size(ComparisonOperator::Less, 1_000)));
    assert_eq!(
        parse_predicate("age<=1d"),
        Ok(Predicate::Age(ComparisonOperator::LessEqual, 86_400))
    );
    assert_eq!(parse_predicate("ext:JPG"), Ok(Predicate::Extension(Some("jpg".to_owned()))));
    assert_eq!(parse_predicate("ext:none"), Ok(Predicate::Extension(None)));
    assert_eq!(parse_predicate("type:video"), Ok(Predicate::Category(FileCategory::Video)));
    assert_eq!(parse_predicate("Photo"), Ok(Predicate::Name("photo".to_owned())));
}

#[test]
fn two_filters_together_admit_what_both_admit() {
    let both = FilterExpression::parse("a size>5").unwrap().unwrap();
    let first = FilterExpression::parse("a").unwrap().unwrap();
    let second = FilterExpression::parse("size>5").unwrap().unwrap();
    for (name, size) in [("a", 1), ("a", 9), ("b", 1), ("b", 9)] {
        let file = file(name, size, None);
        assert_eq!(
            both.matches_file(&file, SizeMode::Logical),
            first.matches_file(&file, SizeMode::Logical)
                && second.matches_file(&file, SizeMode::Logical)
        );
    }
}

#[test]
fn ages_are_counted_from_the_given_time() {
    let filter = FilterExpression::parse("age>1h").unwrap().unwrap();
    let old = file("a", 1, None);
    assert!(filter.matches_file_at(&old, SizeMode::Logical, 3_602));
    assert!(!filter.matches_file_at(&old, SizeMode::Logical, 3_601));
    let exact = FilterExpression::parse("age=1h").unwrap().unwrap();
    assert!(exact.matches_file_at(&old, SizeMode::Logical, 3_601));
}

#[test]
fn sizes_follow_the_size_mode() {
    let filter = FilterExpression::parse("size=10").unwrap().unwrap();
    let file = file("a", 20, None);
    assert!(!filter.matches_file(&file, SizeMode::Logical));
    assert!(filter.matches_file(&file, SizeMode::Physical));
}
