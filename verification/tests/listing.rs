use fdupe::hash::FileHash;
use fdupe::index::FileIndex;
use fdupe::item::FileIndexItem;
use fdupe::listing::{confirms, listing_line, other_copies, ListingLine};
use fdupe::path::IndexPath;

fn path(text: &str) -> IndexPath {
    IndexPath::new(text.split('/').map(|part| part.as_bytes().to_vec()).collect())
}

fn file(len: u64) -> FileIndexItem {
    FileIndexItem::File { hash: FileHash { file_len: len, digest_256: [0; 32], digest_512: [0; 64] } }
}

fn sample() -> FileIndex {
    let mut index = FileIndex::new();
    index.record(path("/r"), FileIndexItem::Folder { contents: vec![path("/r/a"), path("/r/b"), path("/r/c")] });
    index.record(path("/r/a"), file(1));
    index.record(path("/r/b"), file(1));
    index.record(path("/r/c"), file(2));
    index.record(path("/r/d"), file(1));
    index
}

fn yes(answer: &str) -> bool {
    let chars: Vec<char> = answer.chars().collect();
    confirms(&chars)
}

#[test]
fn listing_shows_copies_and_entries() {
    let index = sample();
    assert_eq!(listing_line(&index, &file(1), false), Some(ListingLine::File { copies: 3 }));
    assert_eq!(listing_line(&index, &file(2), false), Some(ListingLine::File { copies: 1 }));
    assert_eq!(listing_line(&index, &file(9), false), Some(ListingLine::File { copies: 0 }));
    let folder = index.get(&path("/r")).unwrap();
    assert_eq!(listing_line(&index, folder, false), Some(ListingLine::Folder { entries: 3 }));
}

#[test]
fn listing_of_duplicates_shows_only_files_with_copies() {
    let index = sample();
    assert_eq!(listing_line(&index, &file(1), true), Some(ListingLine::File { copies: 3 }));
    assert_eq!(listing_line(&index, &file(2), true), None);
    let folder = index.get(&path("/r")).unwrap();
    assert_eq!(listing_line(&index, folder, true), None);
}

#[test]
fn other_copies_leave_out_the_file_itself() {
    let index = sample();
    assert_eq!(other_copies(&index, &path("/r/b")), vec![path("/r/a"), path("/r/d")]);
    assert_eq!(other_copies(&index, &path("/r/c")), Vec::<IndexPath>::new());
    assert_eq!(other_copies(&index, &path("/r")), Vec::<IndexPath>::new());
    assert_eq!(other_copies(&index, &path("/nowhere")), Vec::<IndexPath>::new());
}

#[test]
fn a_yes_begins_with_y() {
    assert!(yes("y\n"));
    assert!(yes("Yes\n"));
    assert!(yes("yikes"));
    assert!(!yes("\n"));
    assert!(!yes(""));
    assert!(!yes("n\n"));
    assert!(!yes(" y"));
}
