use fdupe::hash::FileHash;
use fdupe::index::{FileIndex, ScanFailed, ScanOutcome};
use fdupe::item::{EntryKind, FileIndexItem, ListedEntry};
use fdupe::path::IndexPath;
use fdupe::sorted::SortedSet;

fn path(text: &str) -> IndexPath {
    IndexPath::new(text.split('/').map(|part| part.as_bytes().to_vec()).collect())
}

fn hash(len: u64) -> FileHash {
    FileHash { file_len: len, digest_256: [len as u8; 32], digest_512: [len as u8; 64] }
}

fn file(len: u64) -> FileIndexItem {
    FileIndexItem::File { hash: hash(len) }
}

fn folder(contents: &[&str]) -> FileIndexItem {
    FileIndexItem::Folder { contents: contents.iter().map(|text| path(text)).collect() }
}

fn indexed(text: &str, item: FileIndexItem) -> ScanOutcome {
    ScanOutcome::Indexed { path: path(text), item }
}

fn paths_under(index: &FileIndex, hash: &FileHash) -> Vec<IndexPath> {
    let mut all = Vec::new();
    if let Some(paths) = index.paths_of(hash) {
        let mut i = 0;
        while let Some(member) = paths.get(i) {
            all.push(member.clone());
            i += 1;
        }
    }
    all
}

fn all_paths(index: &FileIndex) -> Vec<IndexPath> {
    let mut all = Vec::new();
    let mut i = 0;
    while let Some((path, _)) = index.path_entry(i) {
        all.push(path.clone());
        i += 1;
    }
    all
}

/// Both directions of the agreement between the two maps.
fn assert_consistent(index: &FileIndex) {
    let mut i = 0;
    while let Some((path, item)) = index.path_entry(i) {
        if let FileIndexItem::File { hash } = item {
            assert!(index.paths_of(hash).is_some_and(|paths| paths.contains(path)));
        }
        i += 1;
    }
    let mut j = 0;
    while let Some((hash, paths)) = index.hash_entry(j) {
        let mut k = 0;
        while let Some(path) = paths.get(k) {
            assert_eq!(index.get(path), Some(&FileIndexItem::File { hash: *hash }));
            k += 1;
        }
        j += 1;
    }
}

#[test]
fn empty_index_holds_nothing() {
    let index = FileIndex::new();
    assert_eq!(index.path_count(), 0);
    assert_eq!(index.hash_count(), 0);
    assert!(index.get(&path("/a")).is_none());
    assert!(index.paths_of(&hash(1)).is_none());
    assert_eq!(index.file_instance_count(&hash(1)), 0);
    assert!(index.path_entry(0).is_none());
    assert!(index.hash_entry(0).is_none());
}

#[test]
fn default_index_is_empty() {
    let index = FileIndex::default();
    assert_eq!(index.path_count(), 0);
    assert_eq!(index.hash_count(), 0);
}

#[test]
fn record_puts_a_file_in_both_maps() {
    let mut index = FileIndex::new();
    index.record(path("/r/a"), file(1));
    index.record(path("/r/b"), file(1));
    index.record(path("/r/c"), file(2));
    assert_eq!(index.get(&path("/r/a")), Some(&file(1)));
    assert_eq!(paths_under(&index, &hash(1)), vec![path("/r/a"), path("/r/b")]);
    assert_eq!(index.file_instance_count(&hash(1)), 2);
    assert_eq!(index.file_instance_count(&hash(2)), 1);
    assert_eq!(index.file_instance_count(&hash(3)), 0);
    assert_consistent(&index);
}

#[test]
fn record_replaces_what_stood_at_the_path() {
    let mut index = FileIndex::new();
    index.record(path("/r/a"), file(1));
    index.record(path("/r/a"), file(2));
    assert_eq!(index.get(&path("/r/a")), Some(&file(2)));
    assert_eq!(index.file_instance_count(&hash(1)), 0);
    assert_eq!(paths_under(&index, &hash(2)), vec![path("/r/a")]);
    assert_consistent(&index);
    index.record(path("/r/a"), folder(&[]));
    assert_eq!(index.file_instance_count(&hash(2)), 0);
    assert_eq!(index.path_count(), 1);
    assert_consistent(&index);
}

#[test]
fn folders_are_not_under_any_hash() {
    let mut index = FileIndex::new();
    index.record(path("/r"), folder(&["/r/a"]));
    assert_eq!(index.hash_count(), 0);
    assert_eq!(index.get(&path("/r")), Some(&folder(&["/r/a"])));
}

#[test]
fn paths_come_in_ascending_order() {
    let mut index = FileIndex::new();
    index.record(path("/r/b"), file(1));
    index.record(path("/r"), folder(&["/r/a", "/r/b"]));
    index.record(path("/r/a"), file(2));
    assert_eq!(all_paths(&index), vec![path("/r"), path("/r/a"), path("/r/b")]);
    assert_eq!(index.hash_entry(0).map(|(hash, _)| *hash), Some(hash(1)));
    assert_eq!(index.hash_entry(1).map(|(hash, _)| *hash), Some(hash(2)));
}

#[test]
fn from_folder_builds_the_index_of_a_root() {
    let top = vec![
        ListedEntry { path: path("/r/sub"), kind: EntryKind::Directory },
        ListedEntry { path: path("/r/pipe"), kind: EntryKind::Other },
        ListedEntry { path: path("/r/a"), kind: EntryKind::File },
    ];
    let outcomes = vec![
        indexed("/r/sub", folder(&["/r/sub/b"])),
        indexed("/r/sub/b", file(7)),
        indexed("/r/a", file(7)),
    ];
    let index = FileIndex::from_folder(path("/r"), &top, &outcomes).unwrap();
    assert_eq!(index.get(&path("/r")), Some(&folder(&["/r/a", "/r/sub"])));
    assert_eq!(index.get(&path("/r/sub")), Some(&folder(&["/r/sub/b"])));
    assert_eq!(index.get(&path("/r/a")), Some(&file(7)));
    assert_eq!(paths_under(&index, &hash(7)), vec![path("/r/a"), path("/r/sub/b")]);
    assert_eq!(index.path_count(), 4);
    assert_consistent(&index);
}

#[test]
fn from_folder_is_the_same_whatever_order_the_outcomes_come_in() {
    let top = vec![ListedEntry { path: path("/r/a"), kind: EntryKind::File }];
    let forth = vec![indexed("/r/a", file(1)), indexed("/r/b", file(1)), indexed("/r/c", file(2))];
    let back = vec![indexed("/r/c", file(2)), indexed("/r/b", file(1)), indexed("/r/a", file(1))];
    let one = FileIndex::from_folder(path("/r"), &top, &forth).unwrap();
    let other = FileIndex::from_folder(path("/r"), &top, &back).unwrap();
    assert_eq!(all_paths(&one), all_paths(&other));
    assert_eq!(paths_under(&one, &hash(1)), paths_under(&other, &hash(1)));
}

#[test]
fn from_folder_last_outcome_for_a_path_wins() {
    let outcomes = vec![indexed("/r/a", file(1)), indexed("/r/a", file(2))];
    let index = FileIndex::from_folder(path("/r"), &Vec::new(), &outcomes).unwrap();
    assert_eq!(index.get(&path("/r/a")), Some(&file(2)));
    assert_eq!(index.file_instance_count(&hash(1)), 0);
    assert_consistent(&index);
}

#[test]
fn from_folder_fails_at_the_first_failure() {
    let outcomes = vec![indexed("/r/a", file(1)), ScanOutcome::Failed, indexed("/r/b", file(1)), ScanOutcome::Failed];
    let built = FileIndex::from_folder(path("/r"), &Vec::new(), &outcomes);
    assert_eq!(built.err(), Some(ScanFailed { position: 1 }));
    let first = FileIndex::from_folder(path("/r"), &Vec::new(), &vec![ScanOutcome::Failed]);
    assert_eq!(first.err(), Some(ScanFailed { position: 0 }));
}

#[test]
fn from_folder_of_an_empty_root() {
    let index = FileIndex::from_folder(path("/r"), &Vec::new(), &Vec::new()).unwrap();
    assert_eq!(index.path_count(), 1);
    assert_eq!(index.get(&path("/r")), Some(&folder(&[])));
}

#[test]
fn extend_over_disjoint_paths_is_the_union() {
    let mut left = FileIndex::new();
    left.record(path("/x"), folder(&["/x/a", "/x/b"]));
    left.record(path("/x/a"), file(1));
    left.record(path("/x/b"), file(2));
    let mut right = FileIndex::new();
    right.record(path("/y"), folder(&["/y/a"]));
    right.record(path("/y/a"), file(1));
    right.record(path("/y/c"), file(3));
    let (left_paths, right_paths) = (left.path_count(), right.path_count());
    let (left_ones, right_ones) = (left.file_instance_count(&hash(1)), right.file_instance_count(&hash(1)));
    left.extend(right);
    assert_eq!(left.path_count(), left_paths + right_paths);
    assert_eq!(left.file_instance_count(&hash(1)), left_ones + right_ones);
    assert_eq!(paths_under(&left, &hash(1)), vec![path("/x/a"), path("/y/a")]);
    assert_eq!(paths_under(&left, &hash(2)), vec![path("/x/b")]);
    assert_eq!(paths_under(&left, &hash(3)), vec![path("/y/c")]);
    assert_eq!(left.get(&path("/x")), Some(&folder(&["/x/a", "/x/b"])));
    assert_eq!(left.get(&path("/y/a")), Some(&file(1)));
    assert_eq!(all_paths(&left), vec![path("/x"), path("/x/a"), path("/x/b"), path("/y"), path("/y/a"), path("/y/c")]);
    assert_consistent(&left);
}

#[test]
fn extend_with_an_empty_index_changes_nothing() {
    let mut index = FileIndex::new();
    index.record(path("/x/a"), file(1));
    index.extend(FileIndex::new());
    assert_eq!(all_paths(&index), vec![path("/x/a")]);
    let mut empty = FileIndex::new();
    empty.extend(index);
    assert_eq!(all_paths(&empty), vec![path("/x/a")]);
    assert_eq!(empty.file_instance_count(&hash(1)), 1);
}

#[test]
fn extend_over_a_shared_path_takes_the_later_item_and_keeps_both_hashes() {
    let mut left = FileIndex::new();
    left.record(path("/x/a"), file(1));
    let mut right = FileIndex::new();
    right.record(path("/x/a"), file(2));
    left.extend(right);
    assert_eq!(left.get(&path("/x/a")), Some(&file(2)));
    assert_eq!(paths_under(&left, &hash(1)), vec![path("/x/a")]);
    assert_eq!(paths_under(&left, &hash(2)), vec![path("/x/a")]);
}

#[test]
fn forget_takes_paths_out_of_everything() {
    let mut index = FileIndex::new();
    index.record(path("/r"), folder(&["/r/a", "/r/b"]));
    index.record(path("/r/a"), file(1));
    index.record(path("/r/b"), file(1));
    let mut removed = SortedSet::new();
    removed.insert(path("/r/a"));
    removed.insert(path("/nowhere"));
    index.forget(&removed);
    assert_eq!(all_paths(&index), vec![path("/r"), path("/r/b")]);
    assert_eq!(index.get(&path("/r")), Some(&folder(&["/r/b"])));
    assert_eq!(paths_under(&index, &hash(1)), vec![path("/r/b")]);
    assert_consistent(&index);
}
