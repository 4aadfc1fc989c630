use fdupe::hash::FileHash;
use fdupe::item::{folder_contents, scan_task, EntryKind, FileIndexItem, ListedEntry, ScanTask};
use fdupe::path::IndexPath;
use fdupe::sorted::SortedSet;

fn path(text: &str) -> IndexPath {
    IndexPath::new(text.split('/').map(|part| part.as_bytes().to_vec()).collect())
}

fn listed(text: &str, kind: EntryKind) -> ListedEntry {
    ListedEntry { path: path(text), kind }
}

fn hash(len: u64) -> FileHash {
    FileHash { file_len: len, digest_256: [1; 32], digest_512: [2; 64] }
}

#[test]
fn scan_task_by_kind() {
    assert_eq!(scan_task(EntryKind::File), ScanTask::HashFile);
    assert_eq!(scan_task(EntryKind::Directory), ScanTask::ListFolder);
    assert_eq!(scan_task(EntryKind::Other), ScanTask::Skip);
}

#[test]
fn folder_contents_are_sorted_and_skip_other_kinds() {
    let listing = vec![
        listed("/r/z", EntryKind::File),
        listed("/r/socket", EntryKind::Other),
        listed("/r/a", EntryKind::Directory),
        listed("/r/m", EntryKind::File),
    ];
    assert_eq!(folder_contents(&listing), vec![path("/r/a"), path("/r/m"), path("/r/z")]);
}

#[test]
fn folder_contents_of_nothing() {
    assert_eq!(folder_contents(&Vec::new()), Vec::<IndexPath>::new());
    assert_eq!(folder_contents(&vec![listed("/r/dev", EntryKind::Other)]), Vec::<IndexPath>::new());
}

#[test]
fn folder_contents_keep_an_entry_listed_twice() {
    let listing = vec![listed("/r/b", EntryKind::File), listed("/r/a", EntryKind::File), listed("/r/b", EntryKind::File)];
    assert_eq!(folder_contents(&listing), vec![path("/r/a"), path("/r/b"), path("/r/b")]);
}

#[test]
fn folder_item_from_listing() {
    let item = FileIndexItem::folder(&vec![listed("/r/b", EntryKind::File), listed("/r/a", EntryKind::File)]);
    assert_eq!(item, FileIndexItem::Folder { contents: vec![path("/r/a"), path("/r/b")] });
}

#[test]
fn as_file_and_as_folder() {
    let file = FileIndexItem::File { hash: hash(3) };
    let folder = FileIndexItem::Folder { contents: vec![path("/a")] };
    assert_eq!(file.as_file(), Some(&hash(3)));
    assert!(file.as_folder().is_none());
    assert!(folder.as_file().is_none());
    assert_eq!(folder.as_folder(), Some(&[path("/a")][..]));
}

#[test]
fn item_without_removed_paths() {
    let mut removed = SortedSet::new();
    removed.insert(path("/a/x"));
    let folder = FileIndexItem::Folder { contents: vec![path("/a/w"), path("/a/x"), path("/a/y")] };
    assert_eq!(folder.without(&removed), FileIndexItem::Folder { contents: vec![path("/a/w"), path("/a/y")] });
    let file = FileIndexItem::File { hash: hash(1) };
    assert_eq!(file.without(&removed), file);
}

#[test]
fn duplicate_item_is_equal() {
    let folder = FileIndexItem::Folder { contents: vec![path("/a/w"), path("/a/x")] };
    assert_eq!(folder.duplicate(), folder);
    let file = FileIndexItem::File { hash: hash(1) };
    assert_eq!(file.duplicate(), file);
}
