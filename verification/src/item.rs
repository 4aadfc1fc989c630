//! What the index holds at a path: a file's content hash, or a folder's contents.
use vstd::prelude::*;
use crate::hash::FileHash;
use crate::order::{Key, Rank};
use crate::path::{lemma_path_order, path_lt, IndexPath, PathView};
use crate::sorted::{key_views, SortedSet};

verus! {

/// What kind of thing a directory entry is.
#[derive(Debug, Clone, Copy, PartialEq, Eq, Structural)]
pub enum EntryKind {
    File,
    Directory,
    /// A socket, a device, or anything else that is neither.
    Other,
}

/// One entry of a directory listing.
#[derive(Debug, Clone, PartialEq, Eq)]
pub struct ListedEntry {
    pub path: IndexPath,
    pub kind: EntryKind,
}

/// What is to be done with an entry that the walk of a tree has reached.
#[derive(Debug, Clone, Copy, PartialEq, Eq, Structural)]
pub enum ScanTask {
    /// Read the file and hash its content.
    HashFile,
    /// List the folder's own entries.
    ListFolder,
    /// Leave the entry out of the index.
    Skip,
}

/// An item of the index.
#[derive(Debug, Clone, PartialEq, Eq)]
pub enum FileIndexItem {
    File { hash: FileHash },
    Folder { contents: Vec<IndexPath> },
}

/// An item of the index, as a value.
pub enum ItemView {
    File { hash: FileHash },
    Folder { contents: Seq<PathView> },
}

impl View for FileIndexItem {
    type V = ItemView;

    open spec fn view(&self) -> ItemView {
        match self {
            FileIndexItem::File { hash } => ItemView::File { hash: *hash },
            FileIndexItem::Folder { contents } => ItemView::Folder {
                contents: key_views(contents@),
            },
        }
    }
}

impl ItemView {
    /// The item without any mention of the paths in `removed`: a folder no
    /// longer lists them.
    pub open spec fn without(self, removed: Set<PathView>) -> ItemView {
        match self {
            ItemView::File { hash } => self,
            ItemView::Folder { contents } => ItemView::Folder {
                contents: contents.filter(|path: PathView| !removed.contains(path)),
            },
        }
    }
}

/// Only files and directories are indexed.
pub open spec fn indexable(kind: EntryKind) -> bool {
    kind == EntryKind::File || kind == EntryKind::Directory
}

/// The paths of the indexable entries of a listing, in the listing's order.
pub open spec fn listed_paths(listing: Seq<ListedEntry>) -> Seq<PathView> {
    listing.filter(|entry: ListedEntry| indexable(entry.kind)).map_values(
        |entry: ListedEntry| entry.path@,
    )
}

/// No path of `paths` comes before an earlier one.
pub open spec fn in_order(paths: Seq<PathView>) -> bool {
    forall|i: int, j: int|
        #![trigger paths[i], paths[j]]
        0 <= i < j < paths.len() ==> !path_lt(paths[j], paths[i])
}

/// A multiset of paths has one arrangement in order: two sequences in order
/// with the same items, counted, are the same sequence.
pub proof fn lemma_in_order_unique(s: Seq<PathView>, t: Seq<PathView>)
    requires
        in_order(s),
        in_order(t),
        s.to_multiset() == t.to_multiset(),
    ensures
        s == t,
    decreases s.len(),
{
    s.to_multiset_ensures();
    t.to_multiset_ensures();
    assert(s.len() == t.len());
    if s.len() > 0 {
        let n = s.len() - 1;
        assert(s.contains(s[n]));
        assert(t.contains(t[n]));
        assert(t.to_multiset().count(s[n]) > 0);
        assert(s.to_multiset().count(t[n]) > 0);
        assert(t.contains(s[n]));
        assert(s.contains(t[n]));
        let j = choose|j: int| 0 <= j < t.len() && t[j] == s[n];
        let i = choose|i: int| 0 <= i < s.len() && s[i] == t[n];
        // each last item is no smaller than the other
        assert(!path_lt(t[n], s[n])) by {
            if j < n {
                assert(!path_lt(t[n], t[j]));
            } else {
                lemma_path_order(t[n], t[n], t[n]);
            }
        }
        assert(!path_lt(s[n], t[n])) by {
            if i < n {
                assert(!path_lt(s[n], s[i]));
            } else {
                lemma_path_order(s[n], s[n], s[n]);
            }
        }
        lemma_path_order(s[n], t[n], s[n]);
        assert(s[n] == t[n]);
        assert(s.remove(n) =~= s.drop_last());
        assert(t.remove(n) =~= t.drop_last());
        assert(s.drop_last().to_multiset() =~= t.drop_last().to_multiset());
        assert(in_order(s.drop_last()));
        assert(in_order(t.drop_last()));
        lemma_in_order_unique(s.drop_last(), t.drop_last());
        assert(s =~= s.drop_last().push(s[n]));
        assert(t =~= t.drop_last().push(t[n]));
    } else {
        assert(s =~= t);
    }
}

/// The given paths, arranged in order.
pub open spec fn sorted_paths(paths: Seq<PathView>) -> Seq<PathView> {
    choose|s: Seq<PathView>| in_order(s) && s.to_multiset() == paths.to_multiset()
}

/// What the walk does with an entry of the given kind.
pub fn scan_task(kind: EntryKind) -> (task: ScanTask)
    ensures
        task == match kind {
            EntryKind::File => ScanTask::HashFile,
            EntryKind::Directory => ScanTask::ListFolder,
            EntryKind::Other => ScanTask::Skip,
        },
{
    match kind {
        EntryKind::File => ScanTask::HashFile,
        EntryKind::Directory => ScanTask::ListFolder,
        EntryKind::Other => ScanTask::Skip,
    }
}

/// One more entry of a listing adds its path, where the entry is indexable.
proof fn lemma_listed_paths_step(listing: Seq<ListedEntry>, i: int)
    requires
        0 <= i < listing.len(),
    ensures
        listed_paths(listing.take(i + 1)) == if indexable(listing[i].kind) {
            listed_paths(listing.take(i)).push(listing[i].path@)
        } else {
            listed_paths(listing.take(i))
        },
{
    let keep = |entry: ListedEntry| indexable(entry.kind);
    let path_of = |entry: ListedEntry| entry.path@;
    assert(listing.take(i + 1) =~= listing.take(i).push(listing[i]));
    Seq::lemma_filter_push(listing.take(i), listing[i], keep);
    if indexable(listing[i].kind) {
        assert(listing.take(i).filter(keep).push(listing[i]).map_values(path_of)
            =~= listing.take(i).filter(keep).map_values(path_of).push(listing[i].path@));
    }
}

/// The contents of a folder, from its listing: the paths of the files and
/// directories in it, in ascending order.
pub fn folder_contents(listing: &Vec<ListedEntry>) -> (contents: Vec<IndexPath>)
    ensures
        in_order(key_views(contents@)),
        key_views(contents@).to_multiset() == listed_paths(listing@).to_multiset(),
        key_views(contents@) == sorted_paths(listed_paths(listing@)),
{
    let mut contents: Vec<IndexPath> = Vec::new();
    let mut i: usize = 0;
    assert(listing@.take(0) =~= Seq::<ListedEntry>::empty());
    assert(key_views(contents@) =~= listed_paths(listing@.take(0))) by {
        reveal_with_fuel(Seq::filter, 1);
    }
    while i < listing.len()
        invariant
            i <= listing.len(),
            in_order(key_views(contents@)),
            key_views(contents@).to_multiset() == listed_paths(listing@.take(i as int)).to_multiset(),
        decreases listing.len() - i,
    {
        proof {
            lemma_listed_paths_step(listing@, i as int);
        }
        let entry = &listing[i];
        if entry.kind == EntryKind::File || entry.kind == EntryKind::Directory {
            let ghost before = key_views(contents@);
            let mut at: usize = contents.len();
            let mut searching = true;
            while searching && at > 0
                invariant
                    at <= contents.len(),
                    before == key_views(contents@),
                    forall|j: int| at <= j < before.len() ==> path_lt(entry.path@, #[trigger] before[j]),
                    !searching ==> at > 0 && !path_lt(entry.path@, before[at - 1]),
                decreases at + if searching { 1int } else { 0int },
            {
                match contents[at - 1].compare(&entry.path) {
                    Rank::After => {
                        at -= 1;
                    },
                    _ => {
                        proof {
                            lemma_path_order(entry.path@, before[at - 1], entry.path@);
                        }
                        searching = false;
                    },
                }
            }
            proof {
                assert forall|j: int| 0 <= j < at implies !path_lt(
                    entry.path@,
                    #[trigger] before[j],
                ) by {
                    lemma_path_order(before[j], before[at - 1], before[j]);
                    lemma_path_order(entry.path@, before[j], before[at - 1]);
                }
            }
            contents.insert(at, entry.path.duplicate());
            proof {
                let after = key_views(contents@);
                assert(after =~= before.insert(at as int, entry.path@));
                assert forall|a: int, b: int| 0 <= a < b < after.len() implies !path_lt(
                    after[b],
                    after[a],
                ) by {
                    let a0 = if a < at { a } else { a - 1 };
                    let b0 = if b < at { b } else { b - 1 };
                    if a != at {
                        assert(after[a] == before[a0]);
                    }
                    if b != at {
                        assert(after[b] == before[b0]);
                    }
                    if a == at {
                        lemma_path_order(after[a], after[b], after[a]);
                    }
                }
                vstd::seq_lib::to_multiset_insert(before, at as int, entry.path@);
                vstd::seq_lib::to_multiset_build(
                    listed_paths(listing@.take(i as int)),
                    entry.path@,
                );
            }
        }
        i += 1;
    }
    assert(listing@.take(listing.len() as int) =~= listing@);
    proof {
        lemma_in_order_unique(key_views(contents@), sorted_paths(listed_paths(listing@)));
    }
    contents
}

impl FileIndexItem {
    /// The folder item for a directory with the given listing.
    pub fn folder(listing: &Vec<ListedEntry>) -> (item: FileIndexItem)
        ensures
            item@ == (ItemView::Folder { contents: sorted_paths(listed_paths(listing@)) }),
            in_order(sorted_paths(listed_paths(listing@))),
            sorted_paths(listed_paths(listing@)).to_multiset() == listed_paths(
                listing@,
            ).to_multiset(),
    {
        FileIndexItem::Folder { contents: folder_contents(listing) }
    }

    /// The content hash, where the item is a file.
    pub fn as_file(&self) -> (hash: Option<&FileHash>)
        ensures
            hash == match *self {
                FileIndexItem::File { hash } => Some(&hash),
                FileIndexItem::Folder { .. } => None,
            },
    {
        match self {
            FileIndexItem::File { hash } => Some(hash),
            _ => None,
        }
    }

    /// The contents, where the item is a folder.
    pub fn as_folder(&self) -> (contents: Option<&[IndexPath]>)
        ensures
            match *self {
                FileIndexItem::File { .. } => contents is None,
                FileIndexItem::Folder { contents: held } => contents is Some
                    && contents.unwrap()@ == held@,
            },
    {
        match self {
            FileIndexItem::Folder { contents } => Some(contents.as_slice()),
            _ => None,
        }
    }

    /// A copy of the item without any mention of the paths in `removed`.
    pub fn without(&self, removed: &SortedSet<IndexPath>) -> (rest: FileIndexItem)
        ensures
            rest@ == self@.without(removed@),
    {
        match self {
            FileIndexItem::File { hash } => FileIndexItem::File { hash: *hash },
            FileIndexItem::Folder { contents } => {
                let ghost all = key_views(contents@);
                let ghost keep = |path: PathView| !removed@.contains(path);
                let mut kept: Vec<IndexPath> = Vec::new();
                let mut i: usize = 0;
                proof {
                    assert(all.take(0) =~= Seq::<PathView>::empty());
                    assert(key_views(kept@) =~= all.take(0).filter(keep)) by {
                        reveal_with_fuel(Seq::filter, 1);
                    }
                }
                while i < contents.len()
                    invariant
                        i <= contents.len(),
                        all == key_views(contents@),
                        keep == |path: PathView| !removed@.contains(path),
                        key_views(kept@) == all.take(i as int).filter(keep),
                    decreases contents.len() - i,
                {
                    proof {
                        assert(all.take(i + 1) =~= all.take(i as int).push(all[i as int]));
                        Seq::lemma_filter_push(all.take(i as int), all[i as int], keep);
                    }
                    let ghost before = key_views(kept@);
                    if !removed.contains(&contents[i]) {
                        kept.push(contents[i].duplicate());
                        assert(key_views(kept@) =~= before.push(all[i as int]));
                    }
                    i += 1;
                }
                assert(all.take(contents.len() as int) =~= all);
                FileIndexItem::Folder { contents: kept }
            },
        }
    }

    /// A second item with the same view.
    pub fn duplicate(&self) -> (copy: FileIndexItem)
        ensures
            copy@ == self@,
    {
        match self {
            FileIndexItem::File { hash } => FileIndexItem::File { hash: *hash },
            FileIndexItem::Folder { contents } => {
                let mut copied: Vec<IndexPath> = Vec::new();
                let mut i: usize = 0;
                while i < contents.len()
                    invariant
                        i <= contents.len(),
                        copied@.len() == i,
                        forall|j: int| 0 <= j < i ==> copied@[j]@ == contents@[j]@,
                    decreases contents.len() - i,
                {
                    copied.push(contents[i].duplicate());
                    i += 1;
                }
                assert(key_views(copied@) =~= key_views(contents@));
                FileIndexItem::Folder { contents: copied }
            },
        }
    }
}

} // verus!
