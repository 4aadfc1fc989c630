use fdupe::item::EntryKind;
use fdupe::path::IndexPath;
use fdupe::walk::{DeepReadDir, Emit, RootUnreadable, WalkAction, WalkEvent};

fn path(text: &str) -> IndexPath {
    IndexPath::new(text.split('/').map(|part| part.as_bytes().to_vec()).collect())
}

/// An entry of a tree in memory.
struct Node {
    path: IndexPath,
    kind: EntryKind,
    opens: bool,
    entries: Vec<Node>,
}

fn file(text: &str) -> Node {
    Node { path: path(text), kind: EntryKind::File, opens: false, entries: Vec::new() }
}

fn dir(text: &str, entries: Vec<Node>) -> Node {
    Node { path: path(text), kind: EntryKind::Directory, opens: true, entries }
}

fn locked(text: &str, entries: Vec<Node>) -> Node {
    Node { path: path(text), kind: EntryKind::Directory, opens: false, entries }
}

fn count(entries: &[Node]) -> usize {
    entries.iter().map(|node| 1 + count(&node.entries)).sum()
}

/// Runs the walk against the tree, as a caller with real listings would.
fn walk(root: &str, entries: &[Node]) -> Vec<IndexPath> {
    let mut state = DeepReadDir::new(path(root), true).unwrap();
    let mut listings: Vec<(&[Node], usize)> = vec![(entries, 0)];
    let mut emitted = Vec::new();
    let mut last: Option<&Node> = None;
    loop {
        let event = match state.expects() {
            WalkAction::Finished => break,
            WalkAction::Poll => {
                let top = listings.last_mut().unwrap();
                if top.1 < top.0.len() {
                    let node = &top.0[top.1];
                    top.1 += 1;
                    last = Some(node);
                    WalkEvent::Entry { path: node.path.clone(), kind: node.kind }
                } else {
                    listings.pop();
                    WalkEvent::Exhausted
                }
            }
            WalkAction::Open => {
                let node = last.unwrap();
                if node.opens {
                    listings.push((&node.entries, 0));
                    WalkEvent::Opened
                } else {
                    WalkEvent::OpenFailed
                }
            }
        };
        match state.next(event) {
            Emit::Entry => emitted.push(last.unwrap().path.clone()),
            Emit::Error => panic!("no entry of this tree fails"),
            Emit::Nothing => {}
        }
        assert_eq!(state.depth(), listings.len());
    }
    emitted
}

fn sample(sub_opens: bool) -> Vec<Node> {
    let below = vec![file("/r/sub/x"), dir("/r/sub/deep", vec![file("/r/sub/deep/y")]), file("/r/sub/z")];
    vec![
        file("/r/a"),
        if sub_opens { dir("/r/sub", below) } else { locked("/r/sub", below) },
        dir("/r/empty", Vec::new()),
        file("/r/b"),
    ]
}

#[test]
fn walk_emits_every_entry_once_in_pre_order() {
    let tree = sample(true);
    let emitted = walk("/r", &tree);
    assert_eq!(count(&tree), 8);
    assert_eq!(emitted.len(), 8);
    assert_eq!(
        emitted,
        vec![
            path("/r/a"),
            path("/r/sub"),
            path("/r/sub/x"),
            path("/r/sub/deep"),
            path("/r/sub/deep/y"),
            path("/r/sub/z"),
            path("/r/empty"),
            path("/r/b"),
        ]
    );
}

#[test]
fn walk_skips_what_lies_below_a_folder_that_does_not_open() {
    let tree = sample(false);
    let emitted = walk("/r", &tree);
    assert_eq!(emitted, vec![path("/r/a"), path("/r/sub"), path("/r/empty"), path("/r/b")]);
    assert_eq!(emitted.len(), count(&tree) - 4);
}

#[test]
fn walk_of_an_empty_root() {
    assert_eq!(walk("/r", &[]), Vec::<IndexPath>::new());
}

#[test]
fn walk_needs_its_root() {
    assert_eq!(DeepReadDir::new(path("/r"), false).err(), Some(RootUnreadable));
    let walk = DeepReadDir::new(path("/r"), true).ok().unwrap();
    assert_eq!(walk.expects(), WalkAction::Poll);
    assert_eq!(walk.depth(), 1);
}

#[test]
fn walk_passes_on_an_entry_that_failed_and_goes_on() {
    let mut walk = DeepReadDir::new(path("/r"), true).ok().unwrap();
    assert_eq!(walk.next(WalkEvent::EntryFailed), Emit::Error);
    assert_eq!(walk.expects(), WalkAction::Poll);
    assert_eq!(walk.next(WalkEvent::Entry { path: path("/r/a"), kind: EntryKind::File }), Emit::Entry);
    assert_eq!(walk.next(WalkEvent::Entry { path: path("/r/s"), kind: EntryKind::Other }), Emit::Entry);
    assert_eq!(walk.expects(), WalkAction::Poll);
    assert_eq!(walk.next(WalkEvent::Exhausted), Emit::Nothing);
    assert_eq!(walk.expects(), WalkAction::Finished);
    assert_eq!(walk.depth(), 0);
}

#[test]
fn walk_opens_a_folder_before_it_emits_it() {
    let mut walk = DeepReadDir::new(path("/r"), true).ok().unwrap();
    assert_eq!(walk.next(WalkEvent::Entry { path: path("/r/d"), kind: EntryKind::Directory }), Emit::Nothing);
    assert_eq!(walk.expects(), WalkAction::Open);
    assert_eq!(walk.next(WalkEvent::Opened), Emit::Entry);
    assert_eq!(walk.depth(), 2);
    assert_eq!(walk.expects(), WalkAction::Poll);
    assert_eq!(walk.next(WalkEvent::Exhausted), Emit::Nothing);
    assert_eq!(walk.depth(), 1);
}

#[test]
fn walk_ignores_what_it_did_not_ask_for() {
    let mut walk = DeepReadDir::new(path("/r"), true).ok().unwrap();
    assert_eq!(walk.next(WalkEvent::Opened), Emit::Nothing);
    assert_eq!(walk.next(WalkEvent::OpenFailed), Emit::Nothing);
    assert_eq!(walk.depth(), 1);
    walk.next(WalkEvent::Entry { path: path("/r/d"), kind: EntryKind::Directory });
    assert_eq!(walk.next(WalkEvent::Exhausted), Emit::Nothing);
    assert_eq!(walk.expects(), WalkAction::Open);
    assert_eq!(walk.next(WalkEvent::OpenFailed), Emit::Entry);
    assert_eq!(walk.next(WalkEvent::Exhausted), Emit::Nothing);
    assert_eq!(walk.expects(), WalkAction::Finished);
    assert_eq!(walk.next(WalkEvent::Entry { path: path("/r/x"), kind: EntryKind::File }), Emit::Nothing);
    assert_eq!(walk.expects(), WalkAction::Finished);
}
