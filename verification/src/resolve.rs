//! Duplicate resolution: which paths a policy deletes, and what the index is
//! once the disk has deleted them.
//!
//! The index never touches the disk. For each policy one function lists the
//! paths to delete, in the order in which to delete them, and a second one takes
//! from the index those that the caller reports as deleted. The list is fixed
//! when the call begins: what a deletion changes is not looked at again.
use vstd::prelude::*;
use crate::hash::FileHash;
use crate::index::{
    lemma_forget_consistent, lemma_forget_contents_indexed, FileIndex, IndexView,
};
use crate::item::FileIndexItem;
use crate::order::{Key, Rank};
use crate::path::{lemma_path_order, path_lt, within, IndexPath, PathView};
use crate::sorted::{ascending_seq, key_views, lemma_take_step, SortedSet};

verus! {

/// Paths by depth: fewer components first, and among paths of one depth the
/// order of paths.
pub open spec fn shallower(a: PathView, b: PathView) -> bool {
    a.len() < b.len() || (a.len() == b.len() && path_lt(a, b))
}

/// The order by depth is a strict total order.
pub proof fn lemma_shallower_order(a: PathView, b: PathView, c: PathView)
    ensures
        !shallower(a, a),
        shallower(a, b) && shallower(b, c) ==> shallower(a, c),
        shallower(a, b) || a == b || shallower(b, a),
{
    lemma_path_order(a, b, c);
}

/// A path that is ordered by depth.
pub struct ByDepth {
    pub path: IndexPath,
}

impl View for ByDepth {
    type V = PathView;

    open spec fn view(&self) -> PathView {
        self.path@
    }
}

impl Key for ByDepth {
    open spec fn key_lt(a: PathView, b: PathView) -> bool {
        shallower(a, b)
    }

    proof fn lemma_key_order(a: PathView, b: PathView, c: PathView) {
        lemma_shallower_order(a, b, c);
    }

    fn compare(&self, other: &ByDepth) -> (rank: Rank) {
        if self.path.depth() < other.path.depth() {
            Rank::Before
        } else if other.path.depth() < self.path.depth() {
            Rank::After
        } else {
            self.path.compare(&other.path)
        }
    }

    fn duplicate(&self) -> (copy: ByDepth) {
        ByDepth { path: self.path.duplicate() }
    }
}

/// The paths that are not within `scope`.
pub open spec fn outside(scope: PathView) -> spec_fn(PathView) -> bool {
    |path: PathView| !within(path, scope)
}

/// The paths that are within `scope`.
pub open spec fn inside(scope: PathView) -> spec_fn(PathView) -> bool {
    |path: PathView| within(path, scope)
}

/// One of `paths` is within `scope`.
pub open spec fn reaches(paths: Set<PathView>, scope: PathView) -> bool {
    exists|path: PathView| paths.contains(path) && #[trigger] within(path, scope)
}

/// The rule by which copies of one content are deleted.
#[derive(Debug, Clone, Copy, PartialEq, Eq, Structural)]
pub enum Policy {
    /// Where a copy lies within the scope, delete the copies outside it.
    KeepScope,
    /// Of the copies within the scope keep the shallowest, and delete the others.
    WithinScope,
}

/// What `KeepScope` deletes of the copies `paths` of one content: where there
/// are two copies or more and one of them lies within `scope`, every copy
/// outside it, in ascending order.
pub open spec fn copies_elsewhere(paths: Set<PathView>, scope: PathView) -> Seq<PathView> {
    if paths.len() > 1 && reaches(paths, scope) {
        ascending_seq::<IndexPath>(paths).filter(outside(scope))
    } else {
        Seq::empty()
    }
}

/// What `WithinScope` deletes of the copies `paths` of one content: where two
/// copies or more lie within `scope`, all of these but the first by depth, the
/// deepest first.
pub open spec fn copies_within(paths: Set<PathView>, scope: PathView) -> Seq<PathView> {
    let by_depth = ascending_seq::<ByDepth>(paths.filter(inside(scope)));
    if by_depth.len() >= 2 {
        by_depth.skip(1).reverse()
    } else {
        Seq::empty()
    }
}

/// What `policy` deletes of the copies `paths` of one content.
pub open spec fn doomed_copies(policy: Policy, paths: Set<PathView>, scope: PathView) -> Seq<
    PathView,
> {
    match policy {
        Policy::KeepScope => copies_elsewhere(paths, scope),
        Policy::WithinScope => copies_within(paths, scope),
    }
}

/// What `policy` deletes under each of `hashes`, one hash after the other.
pub open spec fn doomed_under(
    index: IndexView,
    policy: Policy,
    scope: PathView,
    hashes: Seq<FileHash>,
) -> Seq<PathView> {
    hashes.map_values(
        |hash: FileHash| doomed_copies(policy, index.hash_to_paths[hash], scope),
    ).flatten()
}

/// What `policy` deletes: the hashes are taken in ascending order.
pub open spec fn dedupe_plan(index: IndexView, policy: Policy, scope: PathView) -> Seq<PathView> {
    doomed_under(index, policy, scope, ascending_seq::<FileHash>(index.hash_to_paths.dom()))
}

/// The folders within `scope` that list nothing.
pub open spec fn empty_folder_within(
    index: IndexView,
    scope: PathView,
) -> spec_fn(PathView) -> bool {
    |path: PathView|
        within(path, scope) && index.paths_to_items.contains_key(path)
            && index.paths_to_items[path] is Folder && index.paths_to_items[path]->contents.len()
            == 0
}

/// What pruning deletes: of the paths of the index in descending order, the
/// folders within `scope` that list nothing.
pub open spec fn prune_plan(index: IndexView, scope: PathView) -> Seq<PathView> {
    ascending_seq::<IndexPath>(index.paths_to_items.dom()).reverse().filter(
        empty_folder_within(index, scope),
    )
}

/// The index after the disk has deleted the first `removed` paths of `plan`,
/// or all of them where the plan is shorter.
pub open spec fn settled(index: IndexView, plan: Seq<PathView>, removed: int) -> IndexView {
    index.forget(plan.take(if removed < plan.len() { removed } else { plan.len() as int }).to_set())
}

/// A deletion that the disk refused.
#[derive(Debug, Clone, PartialEq, Eq)]
pub struct Refused {
    /// The first path of the plan that was not deleted.
    pub path: IndexPath,
}

/// What a resolution returns for a plan of which the disk deleted the first
/// `removed` paths: success where that is all of them, else the path at which
/// it stopped.
pub open spec fn resolved(done: Result<(), Refused>, plan: Seq<PathView>, removed: int) -> bool {
    match done {
        Ok(()) => removed >= plan.len(),
        Err(refused) => 0 <= removed < plan.len() && refused.path@ == plan[removed],
    }
}

/// A resolution keeps both invariants of the index, however many of the
/// planned deletions the disk took.
pub proof fn lemma_settled_keeps_invariants(index: IndexView, plan: Seq<PathView>, removed: int)
    ensures
        index.consistent() ==> settled(index, plan, removed).consistent(),
        index.contents_indexed() ==> settled(index, plan, removed).contents_indexed(),
{
    let gone = plan.take(if removed < plan.len() { removed } else { plan.len() as int }).to_set();
    if index.consistent() {
        lemma_forget_consistent(index, gone);
    }
    if index.contents_indexed() {
        lemma_forget_contents_indexed(index, gone);
    }
}

/// One more hash adds what the policy deletes of its copies.
proof fn lemma_doomed_under_step(
    index: IndexView,
    policy: Policy,
    scope: PathView,
    hashes: Seq<FileHash>,
    i: int,
)
    requires
        0 <= i < hashes.len(),
    ensures
        doomed_under(index, policy, scope, hashes.take(i + 1)) == doomed_under(
            index,
            policy,
            scope,
            hashes.take(i),
        ) + doomed_copies(policy, index.hash_to_paths[hashes[i]], scope),
        doomed_under(index, policy, scope, hashes.take(0)) == Seq::<PathView>::empty(),
{
    let f = |hash: FileHash| doomed_copies(policy, index.hash_to_paths[hash], scope);
    assert(hashes.take(i + 1).map_values(f) =~= hashes.take(i).map_values(f).push(f(hashes[i])));
    hashes.take(i).map_values(f).lemma_flatten_push(f(hashes[i]));
    assert(hashes.take(0).map_values(f) =~= Seq::<Seq<PathView>>::empty());
}

/// Appends what `KeepScope` deletes of `paths`.
fn push_copies_elsewhere(plan: &mut Vec<IndexPath>, paths: &SortedSet<IndexPath>, scope: &IndexPath)
    ensures
        key_views(final(plan)@) == key_views(old(plan)@) + copies_elsewhere(paths@, scope@),
{
    let n = paths.len();
    let ghost members = ascending_seq::<IndexPath>(paths@);
    let mut found = false;
    let mut i: usize = 0;
    while i < n && !found
        invariant
            i <= n,
            n == members.len(),
            members == ascending_seq::<IndexPath>(paths@),
            members.to_set() == paths@,
            found ==> reaches(paths@, scope@),
            !found ==> forall|j: int| 0 <= j < i ==> !within(#[trigger] members[j], scope@),
        decreases n - i + if found { 0int } else { 1int },
    {
        let member = paths.get(i).unwrap();
        if member.starts_with(scope) {
            assert(paths@.contains(members[i as int]));
            found = true;
        } else {
            i += 1;
        }
    }
    if !found {
        assert(!reaches(paths@, scope@)) by {
            if reaches(paths@, scope@) {
                let p = choose|p: PathView| paths@.contains(p) && #[trigger] within(p, scope@);
                assert(members.contains(p));
            }
        }
    }
    if n > 1 && found {
        let mut j: usize = 0;
        proof {
            assert(members.take(0) =~= Seq::<PathView>::empty());
            assert(members.take(0).filter(outside(scope@)) =~= Seq::<PathView>::empty()) by {
                reveal_with_fuel(Seq::filter, 1);
            }
            assert(key_views(plan@) =~= key_views(old(plan)@) + members.take(0).filter(
                outside(scope@),
            ));
        }
        while j < n
            invariant
                j <= n,
                n == members.len(),
                members == ascending_seq::<IndexPath>(paths@),
                key_views(plan@) == key_views(old(plan)@) + members.take(j as int).filter(
                    outside(scope@),
                ),
            decreases n - j,
        {
            let member = paths.get(j).unwrap();
            proof {
                lemma_take_step(members, j as int);
                Seq::lemma_filter_push(members.take(j as int), members[j as int], outside(scope@));
            }
            let ghost before = key_views(plan@);
            if !member.starts_with(scope) {
                plan.push(member.duplicate());
                assert(key_views(plan@) =~= before.push(member@));
            }
            j += 1;
            assert(key_views(plan@) =~= key_views(old(plan)@) + members.take(j as int).filter(
                outside(scope@),
            ));
        }
        assert(members.take(n as int) =~= members);
    } else {
        assert(key_views(plan@) =~= key_views(old(plan)@) + Seq::<PathView>::empty());
    }
}

/// Appends what `WithinScope` deletes of `paths`.
fn push_copies_within(plan: &mut Vec<IndexPath>, paths: &SortedSet<IndexPath>, scope: &IndexPath)
    ensures
        key_views(final(plan)@) == key_views(old(plan)@) + copies_within(paths@, scope@),
{
    let n = paths.len();
    let ghost members = ascending_seq::<IndexPath>(paths@);
    let mut candidates: SortedSet<ByDepth> = SortedSet::new();
    let mut i: usize = 0;
    proof {
        assert(members.take(0) =~= Seq::<PathView>::empty());
        assert(candidates@ =~= members.take(0).to_set().filter(inside(scope@)));
    }
    while i < n
        invariant
            i <= n,
            n == members.len(),
            members == ascending_seq::<IndexPath>(paths@),
            members.to_set() == paths@,
            candidates@ == members.take(i as int).to_set().filter(inside(scope@)),
        decreases n - i,
    {
        let member = paths.get(i).unwrap();
        proof {
            lemma_take_step(members, i as int);
        }
        if member.starts_with(scope) {
            candidates.insert(ByDepth { path: member.duplicate() });
        }
        i += 1;
        assert(candidates@ =~= members.take(i as int).to_set().filter(inside(scope@)));
    }
    assert(members.take(n as int) =~= members);
    let count = candidates.len();
    let ghost by_depth = ascending_seq::<ByDepth>(candidates@);
    if count >= 2 {
        let ghost doomed = by_depth.skip(1).reverse();
        let mut k: usize = count - 1;
        assert(key_views(plan@) =~= key_views(old(plan)@) + doomed.take(0));
        while k > 0
            invariant
                k < count,
                count == by_depth.len(),
                count >= 2,
                by_depth == ascending_seq::<ByDepth>(candidates@),
                doomed == by_depth.skip(1).reverse(),
                key_views(plan@) == key_views(old(plan)@) + doomed.take(count - 1 - k),
            decreases k,
        {
            let candidate = candidates.get(k).unwrap();
            let ghost before = key_views(plan@);
            plan.push(candidate.path.duplicate());
            proof {
                let t = count - 1 - k;
                assert(doomed[t] == by_depth.skip(1)[by_depth.skip(1).len() - 1 - t]);
                assert(doomed.take(t + 1) =~= doomed.take(t).push(doomed[t]));
                assert(key_views(plan@) =~= before.push(candidate@));
            }
            k -= 1;
            assert(key_views(plan@) =~= key_views(old(plan)@) + doomed.take(count - 1 - k));
        }
        assert(doomed.take(count - 1) =~= doomed);
    } else {
        assert(key_views(plan@) =~= key_views(old(plan)@) + Seq::<PathView>::empty());
    }
}

impl FileIndex {
    /// The paths that `policy` deletes, in the order in which to delete them.
    pub fn dedupe_plan(&self, policy: Policy, scope: &IndexPath) -> (plan: Vec<IndexPath>)
        ensures
            key_views(plan@) == dedupe_plan(self@, policy, scope@),
    {
        let n = self.hash_count();
        let ghost hashes = ascending_seq::<FileHash>(self@.hash_to_paths.dom());
        let mut plan: Vec<IndexPath> = Vec::new();
        let mut i: usize = 0;
        proof {
            if n > 0 {
                lemma_doomed_under_step(self@, policy, scope@, hashes, 0);
            } else {
                assert(hashes.take(0) =~= hashes);
                assert(hashes.map_values(
                    |hash: FileHash| doomed_copies(policy, self@.hash_to_paths[hash], scope@),
                ) =~= Seq::<Seq<PathView>>::empty());
            }
            assert(key_views(plan@) =~= Seq::<PathView>::empty());
        }
        while i < n
            invariant
                i <= n,
                n == hashes.len(),
                hashes == ascending_seq::<FileHash>(self@.hash_to_paths.dom()),
                key_views(plan@) == doomed_under(self@, policy, scope@, hashes.take(i as int)),
            decreases n - i,
        {
            let (hash, paths) = self.hash_entry(i).unwrap();
            proof {
                lemma_doomed_under_step(self@, policy, scope@, hashes, i as int);
            }
            match policy {
                Policy::KeepScope => push_copies_elsewhere(&mut plan, paths, scope),
                Policy::WithinScope => push_copies_within(&mut plan, paths, scope),
            }
            i += 1;
        }
        assert(hashes.take(n as int) =~= hashes);
        plan
    }

    /// The copies that are deleted so that `except` keeps its files: of each
    /// content with a copy within `except`, the copies outside it.
    pub fn dupes_in_other_folders(&self, except: &IndexPath) -> (plan: Vec<IndexPath>)
        ensures
            key_views(plan@) == dedupe_plan(self@, Policy::KeepScope, except@),
    {
        self.dedupe_plan(Policy::KeepScope, except)
    }

    /// The copies that are deleted within `folder`: of each content with two
    /// copies or more within it, all of these but the shallowest.
    pub fn dupes_from_folder(&self, folder: &IndexPath) -> (plan: Vec<IndexPath>)
        ensures
            key_views(plan@) == dedupe_plan(self@, Policy::WithinScope, folder@),
    {
        self.dedupe_plan(Policy::WithinScope, folder)
    }

    /// The folders that pruning deletes: those within `starting_with` that list
    /// nothing, the later path first.
    pub fn empty_directories(&self, starting_with: &IndexPath) -> (plan: Vec<IndexPath>)
        ensures
            key_views(plan@) == prune_plan(self@, starting_with@),
    {
        let n = self.path_count();
        let ghost paths = ascending_seq::<IndexPath>(self@.paths_to_items.dom());
        let ghost descending = paths.reverse();
        let ghost wanted = empty_folder_within(self@, starting_with@);
        let mut plan: Vec<IndexPath> = Vec::new();
        let mut k: usize = n;
        proof {
            assert(descending.take(0) =~= Seq::<PathView>::empty());
            assert(key_views(plan@) =~= descending.take(0).filter(wanted)) by {
                reveal_with_fuel(Seq::filter, 1);
            }
        }
        while k > 0
            invariant
                k <= n,
                n == paths.len(),
                paths == ascending_seq::<IndexPath>(self@.paths_to_items.dom()),
                descending == paths.reverse(),
                wanted == empty_folder_within(self@, starting_with@),
                key_views(plan@) == descending.take(n - k).filter(wanted),
            decreases k,
        {
            let (path, item) = self.path_entry(k - 1).unwrap();
            proof {
                let t = n - k;
                assert(descending[t] == paths[k - 1]);
                assert(descending.take(t + 1) =~= descending.take(t).push(descending[t]));
                Seq::lemma_filter_push(descending.take(t), descending[t], wanted);
            }
            let ghost before = key_views(plan@);
            let empty = match item {
                FileIndexItem::Folder { contents } => contents.len() == 0,
                FileIndexItem::File { .. } => false,
            };
            if empty && path.starts_with(starting_with) {
                plan.push(path.duplicate());
                assert(key_views(plan@) =~= before.push(path@));
            }
            k -= 1;
        }
        assert(descending.take(n as int) =~= descending);
        plan
    }

    /// Takes out of the index the first `removed` paths of `plan`.
    fn settle(&mut self, plan: Vec<IndexPath>, removed: usize) -> (done: Result<(), Refused>)
        ensures
            final(self)@ == settled(old(self)@, key_views(plan@), removed as int),
            resolved(done, key_views(plan@), removed as int),
            old(self)@.consistent() ==> final(self)@.consistent(),
            old(self)@.contents_indexed() ==> final(self)@.contents_indexed(),
    {
        proof {
            lemma_settled_keeps_invariants(old(self)@, key_views(plan@), removed as int);
        }
        let ghost views = key_views(plan@);
        let limit = if removed < plan.len() { removed } else { plan.len() };
        let mut gone: SortedSet<IndexPath> = SortedSet::new();
        let mut i: usize = 0;
        proof {
            assert(views.take(0) =~= Seq::<PathView>::empty());
            assert(gone@ =~= views.take(0).to_set());
        }
        while i < limit
            invariant
                i <= limit <= plan.len(),
                views == key_views(plan@),
                gone@ == views.take(i as int).to_set(),
            decreases limit - i,
        {
            proof {
                lemma_take_step(views, i as int);
            }
            gone.insert(plan[i].duplicate());
            i += 1;
        }
        self.forget(&gone);
        if removed < plan.len() {
            Err(Refused { path: plan[removed].duplicate() })
        } else {
            Ok(())
        }
    }

    /// Settles the index after the caller has deleted, in order, the copies
    /// that `dupes_in_other_folders` lists for `except`, and the disk took the
    /// first `removed` of them.
    pub fn remove_dupes_in_other_folders(
        &mut self,
        except: &IndexPath,
        removed: usize,
    ) -> (done: Result<(), Refused>)
        ensures
            final(self)@ == settled(
                old(self)@,
                dedupe_plan(old(self)@, Policy::KeepScope, except@),
                removed as int,
            ),
            resolved(done, dedupe_plan(old(self)@, Policy::KeepScope, except@), removed as int),
            old(self)@.consistent() ==> final(self)@.consistent(),
            old(self)@.contents_indexed() ==> final(self)@.contents_indexed(),
    {
        let plan = self.dedupe_plan(Policy::KeepScope, except);
        self.settle(plan, removed)
    }

    /// Settles the index after the caller has deleted, in order, the copies
    /// that `dupes_from_folder` lists for `folder`, and the disk took the first
    /// `removed` of them.
    pub fn remove_dupes_from_folder(
        &mut self,
        folder: &IndexPath,
        removed: usize,
    ) -> (done: Result<(), Refused>)
        ensures
            final(self)@ == settled(
                old(self)@,
                dedupe_plan(old(self)@, Policy::WithinScope, folder@),
                removed as int,
            ),
            resolved(done, dedupe_plan(old(self)@, Policy::WithinScope, folder@), removed as int),
            old(self)@.consistent() ==> final(self)@.consistent(),
            old(self)@.contents_indexed() ==> final(self)@.contents_indexed(),
    {
        let plan = self.dedupe_plan(Policy::WithinScope, folder);
        self.settle(plan, removed)
    }

    /// Settles the index after the caller has deleted, in order, the folders
    /// that `empty_directories` lists for `starting_with`, and the disk took the
    /// first `removed` of them.
    pub fn remove_empty_directories(
        &mut self,
        starting_with: &IndexPath,
        removed: usize,
    ) -> (done: Result<(), Refused>)
        ensures
            final(self)@ == settled(
                old(self)@,
                prune_plan(old(self)@, starting_with@),
                removed as int,
            ),
            resolved(done, prune_plan(old(self)@, starting_with@), removed as int),
            old(self)@.consistent() ==> final(self)@.consistent(),
            old(self)@.contents_indexed() ==> final(self)@.contents_indexed(),
    {
        let plan = self.empty_directories(starting_with);
        self.settle(plan, removed)
    }
}

} // verus!
