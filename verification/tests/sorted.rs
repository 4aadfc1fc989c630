use fdupe::path::IndexPath;
use fdupe::sorted::{SortedMap, SortedSet};

fn path(text: &str) -> IndexPath {
    IndexPath::new(text.split('/').map(|part| part.as_bytes().to_vec()).collect())
}

fn members(set: &SortedSet<IndexPath>) -> Vec<IndexPath> {
    let mut all = Vec::new();
    let mut i = 0;
    while let Some(member) = set.get(i) {
        all.push(member.clone());
        i += 1;
    }
    all
}

#[test]
fn set_keeps_members_in_order_and_once() {
    let mut set = SortedSet::new();
    assert!(set.insert(path("c")));
    assert!(set.insert(path("a")));
    assert!(set.insert(path("b")));
    assert!(!set.insert(path("a")));
    assert_eq!(set.len(), 3);
    assert_eq!(members(&set), vec![path("a"), path("b"), path("c")]);
    assert!(set.get(3).is_none());
}

#[test]
fn set_contains_and_remove() {
    let mut set = SortedSet::new();
    set.insert(path("a"));
    set.insert(path("b"));
    assert!(set.contains(&path("a")));
    assert!(!set.contains(&path("z")));
    assert!(set.remove(&path("a")));
    assert!(!set.remove(&path("a")));
    assert!(!set.contains(&path("a")));
    assert_eq!(members(&set), vec![path("b")]);
}

#[test]
fn set_union_and_difference() {
    let mut left = SortedSet::new();
    left.insert(path("a"));
    left.insert(path("c"));
    let mut right = SortedSet::new();
    right.insert(path("b"));
    right.insert(path("c"));
    let rest = left.difference(&right);
    assert_eq!(members(&rest), vec![path("a")]);
    left.union_with(&right);
    assert_eq!(members(&left), vec![path("a"), path("b"), path("c")]);
}

#[test]
fn map_insert_get_and_replace() {
    let mut map: SortedMap<IndexPath, u32> = SortedMap::new();
    assert_eq!(map.insert(path("b"), 2), None);
    assert_eq!(map.insert(path("a"), 1), None);
    assert_eq!(map.insert(path("b"), 20), Some(2));
    assert_eq!(map.len(), 2);
    assert_eq!(map.get(&path("a")), Some(&1));
    assert_eq!(map.get(&path("b")), Some(&20));
    assert_eq!(map.get(&path("c")), None);
}

#[test]
fn map_entries_come_in_key_order() {
    let mut map: SortedMap<IndexPath, u32> = SortedMap::new();
    map.insert(path("c"), 3);
    map.insert(path("a"), 1);
    map.insert(path("b"), 2);
    assert_eq!(map.entry(0), Some((&path("a"), &1)));
    assert_eq!(map.entry(1), Some((&path("b"), &2)));
    assert_eq!(map.entry(2), Some((&path("c"), &3)));
    assert_eq!(map.entry(3), None);
    assert_eq!(map.position(&path("b")), Some(1));
    assert_eq!(map.position(&path("z")), None);
}

#[test]
fn map_remove_gives_back_the_value() {
    let mut map: SortedMap<IndexPath, u32> = SortedMap::new();
    map.insert(path("a"), 1);
    map.insert(path("b"), 2);
    map.insert(path("c"), 3);
    assert_eq!(map.remove(&path("b")), Some(2));
    assert_eq!(map.remove(&path("b")), None);
    assert_eq!(map.len(), 2);
    assert_eq!(map.entry(1), Some((&path("c"), &3)));
    assert_eq!(map.get(&path("a")), Some(&1));
}
