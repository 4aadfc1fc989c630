//! The content index: which paths hold which content, and what is at each path.
use vstd::prelude::*;
use crate::hash::FileHash;
use crate::item::{listed_paths, sorted_paths, FileIndexItem, ItemView, ListedEntry};
use crate::order::Key;
use crate::path::{IndexPath, PathView};
use crate::sorted::{
    ascending, ascending_seq, lemma_ascending_distinct, lemma_map_finite, lemma_set_finite,
    lemma_take_step, SortedMap, SortedSet,
};

verus! {

/// The index as a value: two maps.
pub struct IndexView {
    /// The paths known to hold each content.
    pub hash_to_paths: Map<FileHash, Set<PathView>>,
    /// What the index holds at each path.
    pub paths_to_items: Map<PathView, ItemView>,
}

impl IndexView {
    /// The index that holds nothing.
    pub open spec fn empty() -> IndexView {
        IndexView { hash_to_paths: Map::empty(), paths_to_items: Map::empty() }
    }

    /// The paths known to hold the content `hash`.
    pub open spec fn instances(self, hash: FileHash) -> Set<PathView> {
        instances_in(self.hash_to_paths, hash)
    }

    /// The index says that `path` is a file with content `hash`.
    pub open spec fn is_file(self, path: PathView, hash: FileHash) -> bool {
        self.paths_to_items.contains_key(path) && self.paths_to_items[path] == (ItemView::File {
            hash,
        })
    }

    /// The index holds finitely many hashes and paths, and finitely many paths
    /// under each hash.
    pub open spec fn finite(self) -> bool {
        &&& self.hash_to_paths.dom().finite()
        &&& self.paths_to_items.dom().finite()
        &&& forall|hash: FileHash|
            self.hash_to_paths.contains_key(hash) ==> (#[trigger] self.hash_to_paths[hash]).finite()
    }

    /// The two maps agree: a path stands under a hash exactly when the index
    /// holds, at that path, a file with that hash.
    pub open spec fn consistent(self) -> bool {
        forall|hash: FileHash, path: PathView|
            #![trigger self.instances(hash).contains(path)]
            #![trigger self.is_file(path, hash)]
            self.instances(hash).contains(path) <==> self.is_file(path, hash)
    }

    /// Whatever a folder lists is itself in the index.
    pub open spec fn contents_indexed(self) -> bool {
        forall|folder: PathView, i: int|
            #![trigger self.paths_to_items[folder]->contents[i]]
            self.paths_to_items.contains_key(folder) && self.paths_to_items[folder] is Folder && 0
                <= i < self.paths_to_items[folder]->contents.len()
                ==> self.paths_to_items.contains_key(self.paths_to_items[folder]->contents[i])
    }

    /// The hash map after `path` has left the set of the file that stood there.
    pub open spec fn without_instance(self, path: PathView) -> Map<FileHash, Set<PathView>> {
        if self.paths_to_items.contains_key(path) && self.paths_to_items[path] is File
            && self.hash_to_paths.contains_key(self.paths_to_items[path]->hash) {
            let hash = self.paths_to_items[path]->hash;
            self.hash_to_paths.insert(hash, self.hash_to_paths[hash].remove(path))
        } else {
            self.hash_to_paths
        }
    }

    /// The index after `item` has been put at `path`, in place of what stood there.
    pub open spec fn record(self, path: PathView, item: ItemView) -> IndexView {
        let cleared = IndexView {
            hash_to_paths: self.without_instance(path),
            paths_to_items: self.paths_to_items,
        };
        IndexView {
            hash_to_paths: match item {
                ItemView::File { hash } => cleared.hash_to_paths.insert(
                    hash,
                    cleared.instances(hash).insert(path),
                ),
                ItemView::Folder { .. } => cleared.hash_to_paths,
            },
            paths_to_items: self.paths_to_items.insert(path, item),
        }
    }

    /// The index after the paths in `removed` have left it: they are no longer
    /// paths of the index, no hash holds them, and no folder lists them.
    pub open spec fn forget(self, removed: Set<PathView>) -> IndexView {
        IndexView {
            hash_to_paths: Map::new(
                |hash: FileHash| self.hash_to_paths.contains_key(hash),
                |hash: FileHash| self.hash_to_paths[hash].difference(removed),
            ),
            paths_to_items: Map::new(
                |path: PathView| self.paths_to_items.contains_key(path) && !removed.contains(path),
                |path: PathView| self.paths_to_items[path].without(removed),
            ),
        }
    }

    /// The index after each outcome that was read has been recorded, first to last.
    pub open spec fn record_all(self, outcomes: Seq<ScanOutcome>) -> IndexView
        decreases outcomes.len(),
    {
        if outcomes.len() == 0 {
            self
        } else {
            let before = self.record_all(outcomes.drop_last());
            match outcomes.last() {
                ScanOutcome::Indexed { path, item } => before.record(path@, item@),
                ScanOutcome::Failed => before,
            }
        }
    }

    /// The index of one root: the root's own folder item, then what the scan of
    /// the tree below it gave.
    pub open spec fn built(
        root: PathView,
        top_level: Seq<ListedEntry>,
        outcomes: Seq<ScanOutcome>,
    ) -> IndexView {
        IndexView::empty().record(
            root,
            ItemView::Folder { contents: sorted_paths(listed_paths(top_level)) },
        ).record_all(outcomes)
    }

    /// The union of two indices: under each hash the paths of both, and at each
    /// path the item of `other` where it has one.
    pub open spec fn merge(self, other: IndexView) -> IndexView {
        IndexView {
            hash_to_paths: merged_hashes(self.hash_to_paths, other.hash_to_paths),
            paths_to_items: self.paths_to_items.union_prefer_right(other.paths_to_items),
        }
    }
}

/// What came of scanning one entry of a tree.
#[derive(Debug, Clone, PartialEq, Eq)]
pub enum ScanOutcome {
    /// The entry was read: `item` belongs at `path`.
    Indexed { path: IndexPath, item: FileIndexItem },
    /// The entry could not be read.
    Failed,
}

/// A build that stopped because an entry could not be read.
#[derive(Debug, Clone, Copy, PartialEq, Eq, Structural)]
pub struct ScanFailed {
    /// Where, among the outcomes handed in, the first failure stands.
    pub position: usize,
}

/// The first failure among `outcomes` stands at `position`.
pub open spec fn first_failure_at(outcomes: Seq<ScanOutcome>, position: int) -> bool {
    &&& 0 <= position < outcomes.len()
    &&& outcomes[position] is Failed
    &&& forall|i: int| 0 <= i < position ==> !(#[trigger] outcomes[i] is Failed)
}

/// None of `outcomes` is a failure.
pub open spec fn all_indexed(outcomes: Seq<ScanOutcome>) -> bool {
    forall|i: int| 0 <= i < outcomes.len() ==> !(#[trigger] outcomes[i] is Failed)
}

/// The paths under `hash` in a hash map; none where the map lacks the hash.
pub open spec fn instances_in(map: Map<FileHash, Set<PathView>>, hash: FileHash) -> Set<PathView> {
    if map.contains_key(hash) {
        map[hash]
    } else {
        Set::empty()
    }
}

/// The union of two hash maps, hash by hash.
pub open spec fn merged_hashes(
    a: Map<FileHash, Set<PathView>>,
    b: Map<FileHash, Set<PathView>>,
) -> Map<
    FileHash,
    Set<PathView>,
> {
    Map::new(
        |hash: FileHash| a.contains_key(hash) || b.contains_key(hash),
        |hash: FileHash| instances_in(a, hash).union(instances_in(b, hash)),
    )
}

/// The empty index is consistent.
pub proof fn lemma_empty_consistent()
    ensures
        IndexView::empty().consistent(),
        IndexView::empty().contents_indexed(),
{
}

/// Recording an item keeps the two maps in agreement.
pub proof fn lemma_record_consistent(index: IndexView, path: PathView, item: ItemView)
    requires
        index.consistent(),
    ensures
        index.record(path, item).consistent(),
{
    let after = index.record(path, item);
    assert forall|h: FileHash, p: PathView|
        after.instances(h).contains(p) <==> after.is_file(p, h) by {
        assert(index.instances(h).contains(p) <==> index.is_file(p, h));
        if index.paths_to_items.contains_key(path) && index.paths_to_items[path] is File {
            let h0 = index.paths_to_items[path]->hash;
            assert(index.is_file(path, h0));
            assert(index.instances(h0).contains(path));
        }
        match item {
            ItemView::File { hash } => {
                assert(index.instances(hash).contains(path) <==> index.is_file(path, hash));
            },
            ItemView::Folder { .. } => {},
        }
    }
}

/// Every index that is built of recorded outcomes is consistent.
pub proof fn lemma_built_consistent(
    root: PathView,
    top_level: Seq<ListedEntry>,
    outcomes: Seq<ScanOutcome>,
)
    ensures
        IndexView::built(root, top_level, outcomes).consistent(),
{
    let seeded = IndexView::empty().record(
        root,
        ItemView::Folder { contents: sorted_paths(listed_paths(top_level)) },
    );
    lemma_empty_consistent();
    lemma_record_consistent(
        IndexView::empty(),
        root,
        ItemView::Folder { contents: sorted_paths(listed_paths(top_level)) },
    );
    lemma_record_all_consistent(seeded, outcomes);
}

/// Recording outcomes keeps the two maps in agreement.
pub proof fn lemma_record_all_consistent(index: IndexView, outcomes: Seq<ScanOutcome>)
    requires
        index.consistent(),
    ensures
        index.record_all(outcomes).consistent(),
    decreases outcomes.len(),
{
    if outcomes.len() > 0 {
        lemma_record_all_consistent(index, outcomes.drop_last());
        match outcomes.last() {
            ScanOutcome::Indexed { path, item } => {
                lemma_record_consistent(index.record_all(outcomes.drop_last()), path@, item@);
            },
            ScanOutcome::Failed => {},
        }
    }
}

/// Wherever both indices hold a path and the first holds a file there, the
/// second holds the same file.
pub open spec fn agree_on_files(a: IndexView, b: IndexView) -> bool {
    forall|path: PathView|
        #![trigger b.paths_to_items[path]]
        a.paths_to_items.contains_key(path) && a.paths_to_items[path] is File
            && b.paths_to_items.contains_key(path) ==> b.paths_to_items[path]
            == a.paths_to_items[path]
}

/// The union of two consistent indices is consistent exactly when no path
/// loses its file to a different item of the second index.
pub proof fn lemma_merge_consistent(a: IndexView, b: IndexView)
    requires
        a.consistent(),
        b.consistent(),
    ensures
        a.merge(b).consistent() <==> agree_on_files(a, b),
{
    let m = a.merge(b);
    if agree_on_files(a, b) {
        assert forall|h: FileHash, p: PathView|
            m.instances(h).contains(p) <==> m.is_file(p, h) by {
            assert(a.instances(h).contains(p) <==> a.is_file(p, h));
            assert(b.instances(h).contains(p) <==> b.is_file(p, h));
        }
    } else {
        let p = choose|p: PathView|
            a.paths_to_items.contains_key(p) && a.paths_to_items[p] is File
                && b.paths_to_items.contains_key(p) && #[trigger] b.paths_to_items[p]
                != a.paths_to_items[p];
        let h = a.paths_to_items[p]->hash;
        assert(a.is_file(p, h));
        assert(a.instances(h).contains(p));
        assert(m.instances(h).contains(p));
        assert(!m.is_file(p, h));
    }
}

/// Of two consistent indices with no path in common, the union holds under each
/// hash the paths of both and at each path the item of the one that has it, the
/// counts add up, and it is consistent.
pub proof fn lemma_merge_disjoint(a: IndexView, b: IndexView, hash: FileHash)
    requires
        a.consistent(),
        b.consistent(),
        a.paths_to_items.dom().finite(),
        b.paths_to_items.dom().finite(),
        a.paths_to_items.dom().disjoint(b.paths_to_items.dom()),
    ensures
        a.merge(b).consistent(),
        a.merge(b) == b.merge(a),
        a.merge(b).paths_to_items.dom() == a.paths_to_items.dom().union(b.paths_to_items.dom()),
        a.merge(b).paths_to_items.dom().len() == a.paths_to_items.dom().len()
            + b.paths_to_items.dom().len(),
        forall|path: PathView|
            a.paths_to_items.contains_key(path) ==> a.merge(b).paths_to_items[path]
                == #[trigger] a.paths_to_items[path],
        forall|path: PathView|
            b.paths_to_items.contains_key(path) ==> a.merge(b).paths_to_items[path]
                == #[trigger] b.paths_to_items[path],
        a.merge(b).instances(hash) == a.instances(hash).union(b.instances(hash)),
        a.instances(hash).finite(),
        b.instances(hash).finite(),
        a.merge(b).instances(hash).len() == a.instances(hash).len() + b.instances(hash).len(),
{
    let m = a.merge(b);
    lemma_merge_consistent(a, b);
    assert(m.paths_to_items =~= b.merge(a).paths_to_items);
    assert(m.hash_to_paths =~~= b.merge(a).hash_to_paths);
    assert(m.paths_to_items.dom() =~= a.paths_to_items.dom().union(b.paths_to_items.dom()));
    vstd::set_lib::lemma_set_disjoint_lens(a.paths_to_items.dom(), b.paths_to_items.dom());
    assert(m.instances(hash) =~= a.instances(hash).union(b.instances(hash)));
    lemma_instances_finite(a, hash);
    lemma_instances_finite(b, hash);
    assert(a.instances(hash).disjoint(b.instances(hash))) by {
        assert forall|p: PathView| a.instances(hash).contains(p) implies !b.instances(
            hash,
        ).contains(p) by {
            assert(a.is_file(p, hash));
            assert(b.instances(hash).contains(p) <==> b.is_file(p, hash));
        }
    }
    vstd::set_lib::lemma_set_disjoint_lens(a.instances(hash), b.instances(hash));
}

/// In a consistent index with finitely many paths, each content has finitely
/// many instances, all of them paths of the index.
pub proof fn lemma_instances_finite(index: IndexView, hash: FileHash)
    requires
        index.consistent(),
        index.paths_to_items.dom().finite(),
    ensures
        index.instances(hash).subset_of(index.paths_to_items.dom()),
        index.instances(hash).finite(),
{
    assert forall|p: PathView| index.instances(hash).contains(p) implies index.paths_to_items.dom().contains(
        p,
    ) by {
        assert(index.is_file(p, hash));
    }
    vstd::set_lib::lemma_len_subset(index.instances(hash), index.paths_to_items.dom());
}

/// Forgetting paths keeps the two maps in agreement.
pub proof fn lemma_forget_consistent(index: IndexView, removed: Set<PathView>)
    requires
        index.consistent(),
    ensures
        index.forget(removed).consistent(),
{
    let after = index.forget(removed);
    assert forall|hash: FileHash, path: PathView|
        after.instances(hash).contains(path) <==> after.is_file(path, hash) by {
        assert(index.instances(hash).contains(path) <==> index.is_file(path, hash));
    }
}

/// Forgetting paths leaves no folder with an entry that the index lacks.
pub proof fn lemma_forget_contents_indexed(index: IndexView, removed: Set<PathView>)
    requires
        index.contents_indexed(),
    ensures
        index.forget(removed).contents_indexed(),
{
    let after = index.forget(removed);
    assert forall|folder: PathView, i: int|
        after.paths_to_items.contains_key(folder) && after.paths_to_items[folder] is Folder && 0
            <= i < after.paths_to_items[folder]->contents.len() implies after.paths_to_items.contains_key(
        #[trigger] after.paths_to_items[folder]->contents[i],
    ) by {
        let listed = index.paths_to_items[folder]->contents;
        let keep = |path: PathView| !removed.contains(path);
        let kept = listed.filter(keep);
        assert(after.paths_to_items[folder]->contents == kept);
        listed.lemma_filter_pred(keep, i);
        assert(kept.contains(kept[i]));
        listed.lemma_filter_contains_rev(keep, kept[i]);
        let j = choose|j: int| 0 <= j < listed.len() && listed[j] == kept[i];
        assert(index.paths_to_items.contains_key(index.paths_to_items[folder]->contents[j]));
    }
}

/// An index of files by content and of folders by what they hold.
#[derive(Debug)]
pub struct FileIndex {
    hash_to_paths: SortedMap<FileHash, SortedSet<IndexPath>>,
    paths_to_items: SortedMap<IndexPath, FileIndexItem>,
}

/// The hash map as a value.
pub open spec fn hashes_view(map: Map<FileHash, SortedSet<IndexPath>>) -> Map<
    FileHash,
    Set<PathView>,
> {
    Map::new(|hash: FileHash| map.contains_key(hash), |hash: FileHash| map[hash]@)
}

/// The path map as a value.
pub open spec fn items_view(map: Map<PathView, FileIndexItem>) -> Map<PathView, ItemView> {
    Map::new(|path: PathView| map.contains_key(path), |path: PathView| map[path]@)
}

impl View for FileIndex {
    type V = IndexView;

    closed spec fn view(&self) -> IndexView {
        IndexView {
            hash_to_paths: hashes_view(self.hash_to_paths@),
            paths_to_items: items_view(self.paths_to_items@),
        }
    }
}

/// What an index holds is finite.
pub proof fn lemma_view_finite(index: FileIndex)
    ensures
        index@.finite(),
{
    lemma_map_finite(index.hash_to_paths);
    lemma_map_finite(index.paths_to_items);
    assert(index@.hash_to_paths.dom() =~= index.hash_to_paths@.dom());
    assert(index@.paths_to_items.dom() =~= index.paths_to_items@.dom());
    assert forall|hash: FileHash| index@.hash_to_paths.contains_key(hash) implies (
    #[trigger] index@.hash_to_paths[hash]).finite() by {
        lemma_set_finite(index.hash_to_paths@[hash]);
    }
}

/// Puts `path` under `hash`.
fn add_instance(
    map: &mut SortedMap<FileHash, SortedSet<IndexPath>>,
    hash: FileHash,
    path: IndexPath,
)
    ensures
        hashes_view(final(map)@) == hashes_view(old(map)@).insert(
            hash,
            (if old(map)@.contains_key(hash) {
                old(map)@[hash]@
            } else {
                Set::empty()
            }).insert(path@),
        ),
{
    let mut set = match map.insert(hash, SortedSet::new()) {
        Some(set) => set,
        None => SortedSet::new(),
    };
    set.insert(path);
    map.insert(hash, set);
    assert(hashes_view(map@) =~= hashes_view(old(map)@).insert(
        hash,
        (if old(map)@.contains_key(hash) {
            old(map)@[hash]@
        } else {
            Set::empty()
        }).insert(path@),
    ));
}

/// Takes `path` from under `hash`, where the hash is known.
fn drop_instance(
    map: &mut SortedMap<FileHash, SortedSet<IndexPath>>,
    hash: FileHash,
    path: &IndexPath,
)
    ensures
        hashes_view(final(map)@) == if old(map)@.contains_key(hash) {
            hashes_view(old(map)@).insert(hash, old(map)@[hash]@.remove(path@))
        } else {
            hashes_view(old(map)@)
        },
{
    if map.get(&hash).is_some() {
        let held = map.insert(hash, SortedSet::new());
        let mut set = held.unwrap();
        set.remove(path);
        map.insert(hash, set);
        assert(hashes_view(map@) =~= hashes_view(old(map)@).insert(
            hash,
            old(map)@[hash]@.remove(path@),
        ));
    }
}

impl Default for FileIndex {
    /// The index that holds nothing.
    fn default() -> (index: FileIndex)
        ensures
            index@ == IndexView::empty(),
    {
        FileIndex::new()
    }
}

impl FileIndex {
    /// The index that holds nothing.
    pub fn new() -> (index: FileIndex)
        ensures
            index@ == IndexView::empty(),
    {
        let index = FileIndex { hash_to_paths: SortedMap::new(), paths_to_items: SortedMap::new() };
        assert(index@.hash_to_paths =~= Map::empty());
        assert(index@.paths_to_items =~= Map::empty());
        index
    }

    /// Puts `item` at `path`, in place of what stood there.
    pub fn record(&mut self, path: IndexPath, item: FileIndexItem)
        ensures
            final(self)@ == old(self)@.record(path@, item@),
            old(self)@.consistent() ==> final(self)@.consistent(),
    {
        proof {
            if old(self)@.consistent() {
                lemma_record_consistent(old(self)@, path@, item@);
            }
        }
        let previous: Option<FileHash> = match self.paths_to_items.get(&path) {
            Some(FileIndexItem::File { hash }) => Some(*hash),
            _ => None,
        };
        if let Some(hash) = previous {
            drop_instance(&mut self.hash_to_paths, hash, &path);
        }
        assert(hashes_view(self.hash_to_paths@) == old(self)@.without_instance(path@));
        if let FileIndexItem::File { hash } = &item {
            add_instance(&mut self.hash_to_paths, *hash, path.duplicate());
        }
        self.paths_to_items.insert(path, item);
        assert(self@.paths_to_items =~= old(self)@.paths_to_items.insert(path@, item@));
        assert(self@.hash_to_paths =~= old(self)@.record(path@, item@).hash_to_paths);
    }

    /// Builds the index of one root from what was read of it: the listing of
    /// the root itself, and the outcome of scanning each entry of the tree below
    /// it, in the order in which the outcomes came in. One failure fails the build.
    pub fn from_folder(
        folder_path: IndexPath,
        top_level: &Vec<ListedEntry>,
        outcomes: &Vec<ScanOutcome>,
    ) -> (built: Result<FileIndex, ScanFailed>)
        ensures
            match built {
                Ok(index) => {
                    &&& all_indexed(outcomes@)
                    &&& index@ == IndexView::built(folder_path@, top_level@, outcomes@)
                    &&& index@.consistent()
                },
                Err(failure) => first_failure_at(outcomes@, failure.position as int),
            },
    {
        let mut index = FileIndex::new();
        proof {
            lemma_empty_consistent();
            lemma_record_consistent(
                IndexView::empty(),
                folder_path@,
                ItemView::Folder { contents: sorted_paths(listed_paths(top_level@)) },
            );
        }
        index.record(folder_path, FileIndexItem::folder(top_level));
        let ghost seeded = index@;
        let mut i: usize = 0;
        assert(outcomes@.take(0) =~= Seq::<ScanOutcome>::empty());
        while i < outcomes.len()
            invariant
                i <= outcomes.len(),
                all_indexed(outcomes@.take(i as int)),
                index@ == seeded.record_all(outcomes@.take(i as int)),
                index@.consistent(),
            decreases outcomes.len() - i,
        {
            proof {
                lemma_take_step(outcomes@, i as int);
                assert(outcomes@.take(i + 1).drop_last() =~= outcomes@.take(i as int));
            }
            match &outcomes[i] {
                ScanOutcome::Indexed { path, item } => {
                    proof {
                        lemma_record_consistent(index@, path@, item@);
                    }
                    index.record(path.duplicate(), item.duplicate());
                },
                ScanOutcome::Failed => {
                    assert forall|j: int| 0 <= j < i implies !(#[trigger] outcomes@[j] is Failed) by {
                        assert(outcomes@.take(i as int)[j] == outcomes@[j]);
                    }
                    return Err(ScanFailed { position: i });
                },
            }
            i += 1;
        }
        assert(outcomes@.take(outcomes.len() as int) =~= outcomes@);
        Ok(index)
    }

    /// Takes in everything that `other` holds: under each hash the paths of
    /// both, and at each path the item of `other` where it has one.
    pub fn extend(&mut self, other: FileIndex)
        ensures
            final(self)@ == old(self)@.merge(other@),
            old(self)@.consistent() && other@.consistent() ==> (final(self)@.consistent()
                <==> agree_on_files(old(self)@, other@)),
    {
        proof {
            if old(self)@.consistent() && other@.consistent() {
                lemma_merge_consistent(old(self)@, other@);
            }
        }
        let hash_count = other.hash_to_paths.len();
        let ghost hashes = ascending_seq::<FileHash>(other.hash_to_paths@.dom());
        let ghost theirs = hashes_view(other.hash_to_paths@);
        let mut i: usize = 0;
        proof {
            if hash_count > 0 {
                lemma_take_step(hashes, 0);
            } else {
                assert(hashes.take(0) =~= hashes);
            }
            assert(hashes_view(self.hash_to_paths@) =~~= merged_hashes(
                old(self)@.hash_to_paths,
                theirs.restrict(hashes.take(0).to_set()),
            ));
        }
        while i < hash_count
            invariant
                i <= hash_count,
                hash_count == hashes.len(),
                hashes == ascending_seq::<FileHash>(other.hash_to_paths@.dom()),
                hashes.to_set() == other.hash_to_paths@.dom(),
                ascending::<FileHash>(hashes),
                theirs == hashes_view(other.hash_to_paths@),
                self.paths_to_items == old(self).paths_to_items,
                hashes_view(self.hash_to_paths@) == merged_hashes(
                    old(self)@.hash_to_paths,
                    theirs.restrict(hashes.take(i as int).to_set()),
                ),
            decreases hash_count - i,
        {
            let (hash, paths) = other.hash_to_paths.entry(i).unwrap();
            proof {
                lemma_take_step(hashes, i as int);
            }
            let ghost before = hashes_view(self.hash_to_paths@);
            let mut set = match self.hash_to_paths.insert(*hash, SortedSet::new()) {
                Some(set) => set,
                None => SortedSet::new(),
            };
            set.union_with(paths);
            self.hash_to_paths.insert(*hash, set);
            i += 1;
            proof {
                let done = hashes.take(i as int).to_set();
                assert(hashes_view(self.hash_to_paths@) =~= before.insert(
                    *hash,
                    instances_in(before, *hash).union(paths@),
                ));
                lemma_ascending_distinct::<FileHash>(hashes);
                let earlier = hashes.take(i - 1);
                assert(!earlier.to_set().contains(*hash)) by {
                    if earlier.contains(*hash) {
                        let j = choose|j: int| 0 <= j < earlier.len() && earlier[j] == *hash;
                        assert(hashes[j] == hashes[i - 1]);
                    }
                }
                assert(hashes_view(self.hash_to_paths@) =~~= merged_hashes(
                    old(self)@.hash_to_paths,
                    theirs.restrict(done),
                ));
            }
        }
        proof {
            assert(hashes.take(hash_count as int) =~= hashes);
            assert(theirs.restrict(hashes.to_set()) =~= theirs);
        }
        let path_count = other.paths_to_items.len();
        let ghost paths = ascending_seq::<IndexPath>(other.paths_to_items@.dom());
        let ghost items = items_view(other.paths_to_items@);
        let mut j: usize = 0;
        proof {
            if path_count > 0 {
                lemma_take_step(paths, 0);
            } else {
                assert(paths.take(0) =~= paths);
            }
            assert(items_view(self.paths_to_items@) =~= old(self)@.paths_to_items.union_prefer_right(
                items.restrict(paths.take(0).to_set()),
            ));
        }
        while j < path_count
            invariant
                j <= path_count,
                path_count == paths.len(),
                paths == ascending_seq::<IndexPath>(other.paths_to_items@.dom()),
                paths.to_set() == other.paths_to_items@.dom(),
                items == items_view(other.paths_to_items@),
                hashes_view(self.hash_to_paths@) == merged_hashes(
                    old(self)@.hash_to_paths,
                    other@.hash_to_paths,
                ),
                items_view(self.paths_to_items@) == old(self)@.paths_to_items.union_prefer_right(
                    items.restrict(paths.take(j as int).to_set()),
                ),
            decreases path_count - j,
        {
            let (path, item) = other.paths_to_items.entry(j).unwrap();
            proof {
                lemma_take_step(paths, j as int);
            }
            let ghost before = items_view(self.paths_to_items@);
            self.paths_to_items.insert(path.duplicate(), item.duplicate());
            j += 1;
            proof {
                assert(items_view(self.paths_to_items@) =~= before.insert(path@, item@));
                assert(items_view(self.paths_to_items@)
                    =~= old(self)@.paths_to_items.union_prefer_right(
                    items.restrict(paths.take(j as int).to_set()),
                ));
            }
        }
        proof {
            assert(paths.take(path_count as int) =~= paths);
            assert(items.restrict(paths.to_set()) =~= items);
        }
    }

    /// Takes the paths in `removed` out of the index: out of the paths, out of
    /// the sets under the hashes, and out of the contents of the folders.
    pub fn forget(&mut self, removed: &SortedSet<IndexPath>)
        ensures
            final(self)@ == old(self)@.forget(removed@),
            old(self)@.consistent() ==> final(self)@.consistent(),
            old(self)@.contents_indexed() ==> final(self)@.contents_indexed(),
    {
        proof {
            if old(self)@.consistent() {
                lemma_forget_consistent(old(self)@, removed@);
            }
            if old(self)@.contents_indexed() {
                lemma_forget_contents_indexed(old(self)@, removed@);
            }
        }
        let hash_count = self.hash_to_paths.len();
        let ghost hashes = ascending_seq::<FileHash>(self.hash_to_paths@.dom());
        let ghost ours = hashes_view(self.hash_to_paths@);
        let mut kept_hashes: SortedMap<FileHash, SortedSet<IndexPath>> = SortedMap::new();
        let mut i: usize = 0;
        proof {
            if hash_count > 0 {
                lemma_take_step(hashes, 0);
            } else {
                assert(hashes.take(0) =~= hashes);
            }
            assert(hashes_view(kept_hashes@) =~~= old(self)@.forget(
                removed@,
            ).hash_to_paths.restrict(hashes.take(0).to_set()));
        }
        while i < hash_count
            invariant
                i <= hash_count,
                hash_count == hashes.len(),
                hashes == ascending_seq::<FileHash>(self.hash_to_paths@.dom()),
                hashes.to_set() == self.hash_to_paths@.dom(),
                *self == *old(self),
                hashes_view(kept_hashes@) == old(self)@.forget(removed@).hash_to_paths.restrict(
                    hashes.take(i as int).to_set(),
                ),
            decreases hash_count - i,
        {
            let (hash, paths) = self.hash_to_paths.entry(i).unwrap();
            proof {
                lemma_take_step(hashes, i as int);
            }
            let ghost before = hashes_view(kept_hashes@);
            kept_hashes.insert(*hash, paths.difference(removed));
            i += 1;
            proof {
                assert(hashes_view(kept_hashes@) =~= before.insert(
                    *hash,
                    paths@.difference(removed@),
                ));
                assert(hashes_view(kept_hashes@) =~~= old(self)@.forget(
                    removed@,
                ).hash_to_paths.restrict(hashes.take(i as int).to_set()));
            }
        }
        proof {
            assert(hashes.take(hash_count as int) =~= hashes);
            assert(hashes_view(kept_hashes@) =~~= old(self)@.forget(removed@).hash_to_paths);
        }
        let path_count = self.paths_to_items.len();
        let ghost paths = ascending_seq::<IndexPath>(self.paths_to_items@.dom());
        let mut kept_items: SortedMap<IndexPath, FileIndexItem> = SortedMap::new();
        let mut j: usize = 0;
        proof {
            if path_count > 0 {
                lemma_take_step(paths, 0);
            } else {
                assert(paths.take(0) =~= paths);
            }
            assert(items_view(kept_items@) =~= old(self)@.forget(
                removed@,
            ).paths_to_items.restrict(paths.take(0).to_set()));
        }
        while j < path_count
            invariant
                j <= path_count,
                path_count == paths.len(),
                paths == ascending_seq::<IndexPath>(self.paths_to_items@.dom()),
                paths.to_set() == self.paths_to_items@.dom(),
                *self == *old(self),
                items_view(kept_items@) == old(self)@.forget(removed@).paths_to_items.restrict(
                    paths.take(j as int).to_set(),
                ),
            decreases path_count - j,
        {
            let (path, item) = self.paths_to_items.entry(j).unwrap();
            proof {
                lemma_take_step(paths, j as int);
            }
            let ghost before = items_view(kept_items@);
            if !removed.contains(path) {
                kept_items.insert(path.duplicate(), item.without(removed));
                assert(items_view(kept_items@) =~= before.insert(path@, item@.without(removed@)));
            }
            j += 1;
            proof {
                assert(items_view(kept_items@) =~= old(self)@.forget(
                    removed@,
                ).paths_to_items.restrict(paths.take(j as int).to_set()));
            }
        }
        proof {
            assert(paths.take(path_count as int) =~= paths);
            assert(items_view(kept_items@) =~= old(self)@.forget(removed@).paths_to_items);
        }
        self.hash_to_paths = kept_hashes;
        self.paths_to_items = kept_items;
    }

    /// The number of paths in the index.
    pub fn path_count(&self) -> (n: usize)
        ensures
            self@.paths_to_items.dom().finite(),
            n == self@.paths_to_items.dom().len(),
            n == ascending_seq::<IndexPath>(self@.paths_to_items.dom()).len(),
            ascending::<IndexPath>(ascending_seq::<IndexPath>(self@.paths_to_items.dom())),
            ascending_seq::<IndexPath>(self@.paths_to_items.dom()).to_set()
                == self@.paths_to_items.dom(),
    {
        assert(self@.paths_to_items.dom() =~= self.paths_to_items@.dom());
        self.paths_to_items.len()
    }

    /// The path at `position` among the paths of the index in ascending order,
    /// and the item at it, if the index has that many paths.
    pub fn path_entry(&self, position: usize) -> (entry: Option<(&IndexPath, &FileIndexItem)>)
        ensures
            match entry {
                Some((path, item)) => {
                    &&& position < ascending_seq::<IndexPath>(self@.paths_to_items.dom()).len()
                    &&& path@ == ascending_seq::<IndexPath>(
                        self@.paths_to_items.dom(),
                    )[position as int]
                    &&& self@.paths_to_items.contains_key(path@)
                    &&& item@ == self@.paths_to_items[path@]
                },
                None => position >= ascending_seq::<IndexPath>(self@.paths_to_items.dom()).len(),
            },
    {
        assert(self@.paths_to_items.dom() =~= self.paths_to_items@.dom());
        self.paths_to_items.entry(position)
    }

    /// The number of hashes in the index.
    pub fn hash_count(&self) -> (n: usize)
        ensures
            self@.hash_to_paths.dom().finite(),
            n == self@.hash_to_paths.dom().len(),
            n == ascending_seq::<FileHash>(self@.hash_to_paths.dom()).len(),
            ascending::<FileHash>(ascending_seq::<FileHash>(self@.hash_to_paths.dom())),
            ascending_seq::<FileHash>(self@.hash_to_paths.dom()).to_set()
                == self@.hash_to_paths.dom(),
    {
        assert(self@.hash_to_paths.dom() =~= self.hash_to_paths@.dom());
        self.hash_to_paths.len()
    }

    /// The hash at `position` among the hashes of the index in ascending order,
    /// and the paths under it, if the index has that many hashes.
    pub fn hash_entry(&self, position: usize) -> (entry: Option<(&FileHash, &SortedSet<IndexPath>)>)
        ensures
            match entry {
                Some((hash, paths)) => {
                    &&& position < ascending_seq::<FileHash>(self@.hash_to_paths.dom()).len()
                    &&& *hash == ascending_seq::<FileHash>(
                        self@.hash_to_paths.dom(),
                    )[position as int]
                    &&& self@.hash_to_paths.contains_key(*hash)
                    &&& paths@ == self@.hash_to_paths[*hash]
                },
                None => position >= ascending_seq::<FileHash>(self@.hash_to_paths.dom()).len(),
            },
    {
        assert(self@.hash_to_paths.dom() =~= self.hash_to_paths@.dom());
        self.hash_to_paths.entry(position)
    }

    /// What the index holds at `path`.
    pub fn get(&self, path: &IndexPath) -> (item: Option<&FileIndexItem>)
        ensures
            match item {
                Some(item) => self@.paths_to_items.contains_key(path@)
                    && self@.paths_to_items[path@] == item@,
                None => !self@.paths_to_items.contains_key(path@),
            },
    {
        self.paths_to_items.get(path)
    }

    /// The paths known to hold the content `hash`, if the index knows the hash.
    pub fn paths_of(&self, hash: &FileHash) -> (paths: Option<&SortedSet<IndexPath>>)
        ensures
            match paths {
                Some(paths) => self@.hash_to_paths.contains_key(*hash) && self@.hash_to_paths[*hash]
                    == paths@,
                None => !self@.hash_to_paths.contains_key(*hash),
            },
    {
        self.hash_to_paths.get(hash)
    }

    /// The number of paths known to hold the content `hash`.
    pub fn file_instance_count(&self, hash: &FileHash) -> (count: usize)
        ensures
            self@.instances(*hash).finite(),
            count == self@.instances(*hash).len(),
    {
        match self.hash_to_paths.get(hash) {
            Some(paths) => paths.len(),
            None => 0,
        }
    }
}

} // verus!
