use fdupe::hash::FileHash;
use fdupe::index::FileIndex;
use fdupe::item::FileIndexItem;
use fdupe::order::{Key, Rank};
use fdupe::path::IndexPath;
use fdupe::resolve::{ByDepth, Policy, Refused};
use std::collections::BTreeSet;

fn path(text: &str) -> IndexPath {
    IndexPath::new(text.split('/').map(|part| part.as_bytes().to_vec()).collect())
}

fn hash(len: u64) -> FileHash {
    FileHash { file_len: len, digest_256: [len as u8; 32], digest_512: [len as u8; 64] }
}

fn file(len: u64) -> FileIndexItem {
    FileIndexItem::File { hash: hash(len) }
}

fn folder(contents: &[&str]) -> FileIndexItem {
    FileIndexItem::Folder { contents: contents.iter().map(|text| path(text)).collect() }
}

fn paths(texts: &[&str]) -> Vec<IndexPath> {
    texts.iter().map(|text| path(text)).collect()
}

fn paths_under(index: &FileIndex, hash: &FileHash) -> Vec<IndexPath> {
    let mut all = Vec::new();
    if let Some(members) = index.paths_of(hash) {
        let mut i = 0;
        while let Some(member) = members.get(i) {
            all.push(member.clone());
            i += 1;
        }
    }
    all
}

fn all_paths(index: &FileIndex) -> Vec<IndexPath> {
    let mut all = Vec::new();
    let mut i = 0;
    while let Some((path, _)) = index.path_entry(i) {
        all.push(path.clone());
        i += 1;
    }
    all
}

/// A disk that holds the given paths and deletes on request, except `locked`.
fn delete_all(disk: &mut BTreeSet<IndexPath>, plan: &[IndexPath], locked: Option<&IndexPath>) -> usize {
    let mut removed = 0;
    for doomed in plan {
        if Some(doomed) == locked {
            break;
        }
        assert!(disk.remove(doomed));
        removed += 1;
    }
    removed
}

#[test]
fn by_depth_orders_shallow_before_deep() {
    let shallow = ByDepth { path: path("/z") };
    let deep = ByDepth { path: path("/a/b") };
    assert_eq!(shallow.compare(&deep), Rank::Before);
    assert_eq!(deep.compare(&shallow), Rank::After);
    let left = ByDepth { path: path("/a/b") };
    let right = ByDepth { path: path("/a/c") };
    assert_eq!(left.compare(&right), Rank::Before);
    assert_eq!(left.compare(&left.duplicate()), Rank::Same);
}

#[test]
fn dedupe_within_scope_keeps_the_shallowest_of_three() {
    let mut index = FileIndex::new();
    index.record(path("/s"), folder(&["/s/a", "/s/d"]));
    index.record(path("/s/a"), file(9));
    index.record(path("/s/d"), folder(&["/s/d/b", "/s/d/e"]));
    index.record(path("/s/d/b"), file(9));
    index.record(path("/s/d/e"), folder(&["/s/d/e/c"]));
    index.record(path("/s/d/e/c"), file(9));
    let mut disk: BTreeSet<IndexPath> = all_paths(&index).into_iter().collect();

    let plan = index.dupes_from_folder(&path("/s"));
    assert_eq!(plan, paths(&["/s/d/e/c", "/s/d/b"]));
    let removed = delete_all(&mut disk, &plan, None);
    assert_eq!(index.remove_dupes_from_folder(&path("/s"), removed), Ok(()));

    assert_eq!(paths_under(&index, &hash(9)), paths(&["/s/a"]));
    assert!(disk.contains(&path("/s/a")));
    assert!(!disk.contains(&path("/s/d/b")));
    assert!(!disk.contains(&path("/s/d/e/c")));
    assert!(index.get(&path("/s/d/b")).is_none());
    assert!(index.get(&path("/s/d/e/c")).is_none());
    assert_eq!(index.get(&path("/s/d")), Some(&folder(&["/s/d/e"])));
    assert_eq!(index.get(&path("/s/d/e")), Some(&folder(&[])));
    assert_eq!(all_paths(&index).into_iter().collect::<BTreeSet<_>>(), disk);
}

#[test]
fn dedupe_within_scope_breaks_ties_by_path_order() {
    let mut index = FileIndex::new();
    index.record(path("/s/b"), file(1));
    index.record(path("/s/a"), file(1));
    index.record(path("/s/c"), file(1));
    assert_eq!(index.dupes_from_folder(&path("/s")), paths(&["/s/c", "/s/b"]));
}

#[test]
fn dedupe_within_scope_leaves_single_copies_and_copies_elsewhere() {
    let mut index = FileIndex::new();
    index.record(path("/s/a"), file(1));
    index.record(path("/t/a"), file(1));
    index.record(path("/t/b"), file(1));
    index.record(path("/s/z"), file(2));
    assert_eq!(index.dupes_from_folder(&path("/s")), Vec::<IndexPath>::new());
    assert_eq!(index.dupes_from_folder(&path("/t")), paths(&["/t/b"]));
    assert_eq!(index.remove_dupes_from_folder(&path("/t"), 1), Ok(()));
    assert_eq!(paths_under(&index, &hash(1)), paths(&["/s/a", "/t/a"]));
}

#[test]
fn dedupe_within_scope_takes_hashes_in_ascending_order() {
    let mut index = FileIndex::new();
    index.record(path("/s/x1"), file(2));
    index.record(path("/s/x2"), file(2));
    index.record(path("/s/y1"), file(1));
    index.record(path("/s/y2"), file(1));
    assert_eq!(index.dupes_from_folder(&path("/s")), paths(&["/s/y2", "/s/x2"]));
    assert_eq!(index.dedupe_plan(Policy::WithinScope, &path("/s")), paths(&["/s/y2", "/s/x2"]));
}

#[test]
fn dedupe_keep_scope_deletes_the_copies_outside() {
    let mut index = FileIndex::new();
    index.record(path("/keep/a"), file(5));
    index.record(path("/other/b"), file(5));
    index.record(path("/third/c"), file(5));
    let mut disk: BTreeSet<IndexPath> = all_paths(&index).into_iter().collect();

    let plan = index.dupes_in_other_folders(&path("/keep"));
    assert_eq!(plan, paths(&["/other/b", "/third/c"]));
    let removed = delete_all(&mut disk, &plan, None);
    assert_eq!(index.remove_dupes_in_other_folders(&path("/keep"), removed), Ok(()));

    assert_eq!(paths_under(&index, &hash(5)), paths(&["/keep/a"]));
    assert!(!disk.contains(&path("/other/b")));
    assert!(!disk.contains(&path("/third/c")));
    assert_eq!(all_paths(&index), paths(&["/keep/a"]));
}

#[test]
fn dedupe_keep_scope_keeps_every_copy_inside() {
    let mut index = FileIndex::new();
    index.record(path("/keep/a"), file(5));
    index.record(path("/keep/b"), file(5));
    index.record(path("/other/c"), file(5));
    assert_eq!(index.dupes_in_other_folders(&path("/keep")), paths(&["/other/c"]));
    assert_eq!(index.remove_dupes_in_other_folders(&path("/keep"), 1), Ok(()));
    assert_eq!(paths_under(&index, &hash(5)), paths(&["/keep/a", "/keep/b"]));
}

#[test]
fn dedupe_keep_scope_leaves_content_without_a_copy_inside() {
    let mut index = FileIndex::new();
    index.record(path("/other/a"), file(1));
    index.record(path("/third/a"), file(1));
    index.record(path("/keep/b"), file(2));
    assert_eq!(index.dupes_in_other_folders(&path("/keep")), Vec::<IndexPath>::new());
    assert_eq!(index.remove_dupes_in_other_folders(&path("/keep"), 0), Ok(()));
    assert_eq!(index.path_count(), 3);
}

#[test]
fn a_refused_deletion_stops_the_resolution() {
    let mut index = FileIndex::new();
    index.record(path("/r"), folder(&["/r/b", "/r/c"]));
    index.record(path("/keep/a"), file(5));
    index.record(path("/r/b"), file(5));
    index.record(path("/r/c"), file(5));
    let mut disk: BTreeSet<IndexPath> = all_paths(&index).into_iter().collect();
    let plan = index.dupes_in_other_folders(&path("/keep"));
    let removed = delete_all(&mut disk, &plan, Some(&path("/r/c")));
    assert_eq!(removed, 1);
    assert_eq!(
        index.remove_dupes_in_other_folders(&path("/keep"), removed),
        Err(Refused { path: path("/r/c") })
    );
    assert_eq!(paths_under(&index, &hash(5)), paths(&["/keep/a", "/r/c"]));
    assert_eq!(index.get(&path("/r")), Some(&folder(&["/r/c"])));
    assert_eq!(all_paths(&index).into_iter().collect::<BTreeSet<_>>(), disk);
}

#[test]
fn nothing_deleted_changes_nothing() {
    let mut index = FileIndex::new();
    index.record(path("/keep/a"), file(5));
    index.record(path("/r/b"), file(5));
    assert_eq!(
        index.remove_dupes_in_other_folders(&path("/keep"), 0),
        Err(Refused { path: path("/r/b") })
    );
    assert_eq!(index.path_count(), 2);
    assert_eq!(index.file_instance_count(&hash(5)), 2);
}

#[test]
fn a_count_beyond_the_plan_settles_the_whole_plan() {
    let mut index = FileIndex::new();
    index.record(path("/keep/a"), file(5));
    index.record(path("/r/b"), file(5));
    assert_eq!(index.remove_dupes_in_other_folders(&path("/keep"), 100), Ok(()));
    assert_eq!(all_paths(&index), paths(&["/keep/a"]));
}

#[test]
fn prune_removes_an_empty_folder_and_cascades_only_on_the_next_call() {
    let mut index = FileIndex::new();
    index.record(path("/s"), folder(&["/s/x"]));
    index.record(path("/s/x"), folder(&["/s/x/y"]));
    index.record(path("/s/x/y"), folder(&[]));
    let mut disk: BTreeSet<IndexPath> = all_paths(&index).into_iter().collect();

    let plan = index.empty_directories(&path("/s"));
    assert_eq!(plan, paths(&["/s/x/y"]));
    let removed = delete_all(&mut disk, &plan, None);
    assert_eq!(index.remove_empty_directories(&path("/s"), removed), Ok(()));
    assert!(index.get(&path("/s/x/y")).is_none());
    assert!(!disk.contains(&path("/s/x/y")));
    assert_eq!(index.get(&path("/s/x")), Some(&folder(&[])));
    assert!(disk.contains(&path("/s/x")));

    let plan = index.empty_directories(&path("/s"));
    assert_eq!(plan, paths(&["/s/x"]));
    let removed = delete_all(&mut disk, &plan, None);
    assert_eq!(index.remove_empty_directories(&path("/s"), removed), Ok(()));
    assert!(index.get(&path("/s/x")).is_none());
    assert!(!disk.contains(&path("/s/x")));
    assert_eq!(index.get(&path("/s")), Some(&folder(&[])));
}

#[test]
fn prune_goes_from_the_last_path_to_the_first_and_stays_in_scope() {
    let mut index = FileIndex::new();
    index.record(path("/s"), folder(&["/s/a", "/s/b", "/s/f"]));
    index.record(path("/s/a"), folder(&[]));
    index.record(path("/s/b"), folder(&[]));
    index.record(path("/s/f"), file(1));
    index.record(path("/t"), folder(&["/t/c"]));
    index.record(path("/t/c"), folder(&[]));
    assert_eq!(index.empty_directories(&path("/s")), paths(&["/s/b", "/s/a"]));
    assert_eq!(index.empty_directories(&path("/t/c")), paths(&["/t/c"]));
    assert_eq!(index.empty_directories(&path("/none")), Vec::<IndexPath>::new());
    assert_eq!(
        index.remove_empty_directories(&path("/s"), 1),
        Err(Refused { path: path("/s/a") })
    );
    assert_eq!(index.get(&path("/s")), Some(&folder(&["/s/a", "/s/f"])));
    assert!(index.get(&path("/t/c")).is_some());
}

#[test]
fn a_folder_emptied_by_dedupe_is_pruned_afterwards() {
    let mut index = FileIndex::new();
    index.record(path("/keep"), folder(&["/keep/a"]));
    index.record(path("/keep/a"), file(5));
    index.record(path("/r"), folder(&["/r/b"]));
    index.record(path("/r/b"), file(5));
    assert_eq!(index.remove_dupes_in_other_folders(&path("/keep"), 1), Ok(()));
    assert_eq!(index.empty_directories(&path("/r")), paths(&["/r"]));
}
