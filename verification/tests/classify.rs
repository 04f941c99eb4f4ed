use dexy::classify::{
    admit_file, attributes_of, classify_entries, classify_entry, is_hidden, scanned_file,
    Admission, DirEntry, EntryClass, EntryMeta, ScanOptions,
};
use dexy::model::{FileAttributes, FileType, TIMESTAMP_UNAVAILABLE};

fn entry(name: &str, is_dir: bool) -> DirEntry {
    DirEntry { name: name.to_string(), path: format!("/r/{}", name), is_dir }
}

fn meta(size: u64) -> EntryMeta {
    EntryMeta {
        size,
        created: Some(10),
        accessed: Some(20),
        modified: Some(30),
        is_symlink: false,
        is_dir: false,
    }
}

fn options(ignore_empty: bool, include_hidden: bool, load_file_attributes: bool) -> ScanOptions {
    ScanOptions { ignore_empty, include_hidden, load_file_attributes }
}

#[test]
fn default_options_skip_hidden_keep_empty_and_collect_no_attributes() {
    let defaults = ScanOptions::default();
    assert_eq!(defaults, options(false, false, false));
}

#[test]
fn names_beginning_with_a_dot_are_hidden() {
    assert!(is_hidden(".git"));
    assert!(is_hidden("."));
    assert!(is_hidden(".hidden.txt"));
    assert!(!is_hidden("visible"));
    assert!(!is_hidden("not.hidden"));
    assert!(!is_hidden(""));
    assert!(!is_hidden("é.txt"));
}

#[test]
fn hidden_file_is_excluded_unless_hidden_entries_are_included() {
    let hidden = entry(".secret", false);
    assert_eq!(classify_entry(&hidden, &options(false, false, false)), EntryClass::Hidden);
    assert_eq!(classify_entry(&hidden, &options(false, true, false)), EntryClass::Candidate);
}

#[test]
fn hidden_directory_is_excluded_unless_hidden_entries_are_included() {
    let hidden = entry(".cache", true);
    assert_eq!(classify_entry(&hidden, &options(false, false, false)), EntryClass::Hidden);
    assert_eq!(classify_entry(&hidden, &options(false, true, false)), EntryClass::Subdirectory);
}

#[test]
fn visible_entries_are_classified_by_kind() {
    let defaults = ScanOptions::default();
    assert_eq!(classify_entry(&entry("src", true), &defaults), EntryClass::Subdirectory);
    assert_eq!(classify_entry(&entry("a.txt", false), &defaults), EntryClass::Candidate);
}

#[test]
fn a_listing_is_sorted_into_three_classes_in_listing_order() {
    let listing = vec![
        entry("b.txt", false),
        entry(".git", true),
        entry("z", true),
        entry("a.txt", false),
        entry(".env", false),
        entry("d", true),
    ];
    let sorted = classify_entries(listing, &ScanOptions::default());
    assert_eq!(sorted.subdirectories, vec!["/r/z".to_string(), "/r/d".to_string()]);
    assert_eq!(sorted.candidates, vec!["/r/b.txt".to_string(), "/r/a.txt".to_string()]);
    assert_eq!(sorted.hidden, vec!["/r/.git".to_string(), "/r/.env".to_string()]);
}

#[test]
fn a_listing_with_hidden_entries_included_has_none_skipped() {
    let listing = vec![entry(".git", true), entry(".env", false), entry("a", false)];
    let sorted = classify_entries(listing, &options(false, true, false));
    assert_eq!(sorted.subdirectories, vec!["/r/.git".to_string()]);
    assert_eq!(sorted.candidates, vec!["/r/.env".to_string(), "/r/a".to_string()]);
    assert!(sorted.hidden.is_empty());
}

#[test]
fn an_empty_listing_yields_nothing() {
    let sorted = classify_entries(Vec::new(), &ScanOptions::default());
    assert!(sorted.subdirectories.is_empty());
    assert!(sorted.candidates.is_empty());
    assert!(sorted.hidden.is_empty());
}

#[test]
fn empty_file_is_skipped_only_when_empty_files_are_ignored() {
    let empty = meta(0);
    assert_eq!(admit_file(Some(&empty), &options(true, false, false)), Admission::Empty);
    assert_eq!(admit_file(Some(&empty), &options(false, false, false)), Admission::Admit);
}

#[test]
fn file_with_content_is_always_admitted() {
    let full = meta(1);
    assert_eq!(admit_file(Some(&full), &options(true, false, false)), Admission::Admit);
    assert_eq!(admit_file(Some(&full), &options(false, false, false)), Admission::Admit);
}

#[test]
fn broken_link_is_skipped_whatever_the_flags() {
    assert_eq!(admit_file(None, &options(false, false, false)), Admission::BrokenLink);
    assert_eq!(admit_file(None, &options(true, true, true)), Admission::BrokenLink);
}

#[test]
fn attributes_carry_size_timestamps_and_kind() {
    let attributes = attributes_of(&meta(42));
    assert_eq!(
        attributes,
        FileAttributes {
            size: 42,
            created_date: 10,
            accessed_date: 20,
            edit_date: 30,
            file_type: FileType::File,
        }
    );
}

#[test]
fn unavailable_timestamps_become_the_sentinel() {
    let bare = EntryMeta {
        size: 1,
        created: None,
        accessed: None,
        modified: Some(0),
        is_symlink: false,
        is_dir: false,
    };
    let attributes = attributes_of(&bare);
    assert_eq!(TIMESTAMP_UNAVAILABLE, -1);
    assert_eq!(attributes.created_date, -1);
    assert_eq!(attributes.accessed_date, -1);
    assert_eq!(attributes.edit_date, 0);
}

#[test]
fn the_largest_timestamp_is_kept_exactly() {
    let late = EntryMeta {
        size: u64::MAX,
        created: Some(u64::MAX),
        accessed: Some(0),
        modified: Some(1),
        is_symlink: false,
        is_dir: false,
    };
    let attributes = attributes_of(&late);
    assert_eq!(attributes.created_date, 18446744073709551615i128);
    assert_eq!(attributes.size, u64::MAX);
}

#[test]
fn symlink_is_tested_before_directory() {
    let mut m = meta(1);
    m.is_symlink = true;
    m.is_dir = true;
    assert_eq!(attributes_of(&m).file_type, FileType::SymLink);
    m.is_symlink = false;
    assert_eq!(attributes_of(&m).file_type, FileType::Directory);
    m.is_dir = false;
    assert_eq!(attributes_of(&m).file_type, FileType::File);
}

#[test]
fn scanned_file_has_attributes_only_when_they_are_collected() {
    let m = meta(5);
    let without =
        scanned_file("abc".to_string(), "/r/a".to_string(), &m, &options(false, false, false));
    assert_eq!(without.hash, "abc");
    assert_eq!(without.path, "/r/a");
    assert_eq!(without.attributes, None);
    let with =
        scanned_file("abc".to_string(), "/r/a".to_string(), &m, &options(false, false, true));
    assert_eq!(with.attributes, Some(attributes_of(&m)));
}
