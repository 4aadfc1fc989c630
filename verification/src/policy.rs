//! What each resolution leaves of a consistent index, once the disk has taken
//! every deletion of its plan.
use vstd::prelude::*;
use crate::hash::FileHash;
use crate::index::IndexView;
use crate::order::Key;
use crate::path::{within, IndexPath, PathView};
use crate::resolve::{
    copies_elsewhere, copies_within, dedupe_plan, doomed_copies, empty_folder_within, inside,
    outside, prune_plan, reaches, settled, shallower, ByDepth, Policy,
};
use crate::sorted::{ascending_seq, lemma_ascending_distinct, lemma_ascending_seq};

verus! {

/// A value is in a concatenation of sequences exactly when it is in one of them.
pub proof fn lemma_flatten_contains<A>(parts: Seq<Seq<A>>, value: A)
    ensures
        parts.flatten().contains(value) <==> exists|i: int|
            0 <= i < parts.len() && (#[trigger] parts[i]).contains(value),
    decreases parts.len(),
{
    if parts.len() == 0 {
        assert(parts.flatten() =~= Seq::<A>::empty());
    } else {
        let front = parts.drop_last();
        let last = parts.last();
        let n = parts.len() - 1;
        assert(parts =~= front.push(last));
        front.lemma_flatten_push(last);
        lemma_flatten_contains(front, value);
        let joined = front.flatten();
        assert(parts.flatten() =~= joined + last);
        if parts.flatten().contains(value) {
            let k = choose|k: int| 0 <= k < (joined + last).len() && (joined + last)[k] == value;
            if k < joined.len() {
                assert(joined[k] == value);
                let i = choose|i: int| 0 <= i < front.len() && (#[trigger] front[i]).contains(value);
                assert(parts[i].contains(value));
            } else {
                assert(last[k - joined.len()] == value);
                assert(parts[n].contains(value));
            }
        }
        if exists|i: int| 0 <= i < parts.len() && (#[trigger] parts[i]).contains(value) {
            let i = choose|i: int| 0 <= i < parts.len() && (#[trigger] parts[i]).contains(value);
            if i < n {
                assert(front[i].contains(value));
                let k = choose|k: int| 0 <= k < joined.len() && joined[k] == value;
                assert((joined + last)[k] == value);
            } else {
                let k = choose|k: int| 0 <= k < last.len() && last[k] == value;
                assert((joined + last)[joined.len() + k] == value);
            }
        }
    }
}

/// A path is in the plan of a policy exactly when the policy deletes it among
/// the copies of some content.
pub proof fn lemma_plan_member(index: IndexView, policy: Policy, scope: PathView, path: PathView)
    requires
        index.finite(),
    ensures
        dedupe_plan(index, policy, scope).contains(path) <==> exists|hash: FileHash|
            index.hash_to_paths.contains_key(hash) && #[trigger] doomed_copies(
                policy,
                index.hash_to_paths[hash],
                scope,
            ).contains(path),
{
    let hashes = ascending_seq::<FileHash>(index.hash_to_paths.dom());
    lemma_ascending_seq::<FileHash>(index.hash_to_paths.dom());
    let doomed = |hash: FileHash| doomed_copies(policy, index.hash_to_paths[hash], scope);
    let parts = hashes.map_values(doomed);
    lemma_flatten_contains(parts, path);
    if dedupe_plan(index, policy, scope).contains(path) {
        let i = choose|i: int| 0 <= i < parts.len() && (#[trigger] parts[i]).contains(path);
        assert(hashes.to_set().contains(hashes[i]));
        assert(doomed_copies(policy, index.hash_to_paths[hashes[i]], scope).contains(path));
    }
    if exists|hash: FileHash|
        index.hash_to_paths.contains_key(hash) && #[trigger] doomed_copies(
            policy,
            index.hash_to_paths[hash],
            scope,
        ).contains(path) {
        let hash = choose|hash: FileHash|
            index.hash_to_paths.contains_key(hash) && #[trigger] doomed_copies(
                policy,
                index.hash_to_paths[hash],
                scope,
            ).contains(path);
        assert(hashes.to_set().contains(hash));
        let i = choose|i: int| 0 <= i < hashes.len() && hashes[i] == hash;
        assert(parts[i].contains(path));
    }
}

/// Of the copies of one content, keeping the scope deletes exactly those
/// outside the scope, and only where there are two copies or more and one lies
/// within the scope.
pub proof fn lemma_copies_elsewhere_member(paths: Set<PathView>, scope: PathView, path: PathView)
    requires
        paths.finite(),
    ensures
        copies_elsewhere(paths, scope).contains(path) <==> paths.len() > 1 && reaches(paths, scope)
            && paths.contains(path) && !within(path, scope),
{
    let members = ascending_seq::<IndexPath>(paths);
    lemma_ascending_seq::<IndexPath>(paths);
    let kept = members.filter(outside(scope));
    if kept.contains(path) {
        let i = choose|i: int| 0 <= i < kept.len() && kept[i] == path;
        members.lemma_filter_pred(outside(scope), i);
        members.lemma_filter_contains_rev(outside(scope), path);
        assert(members.to_set().contains(path));
    }
    if paths.contains(path) && !within(path, scope) {
        assert(members.to_set().contains(path));
        let i = choose|i: int| 0 <= i < members.len() && members[i] == path;
        members.lemma_filter_contains(outside(scope), i);
    }
}

/// The copy that resolution within a scope keeps: of the given copies the one
/// with the fewest components, and among those the first in the order of paths.
pub open spec fn shallowest(copies: Set<PathView>) -> PathView {
    ascending_seq::<ByDepth>(copies)[0]
}

/// The shallowest of a set of copies is one of them, and comes by depth before
/// every other.
pub proof fn lemma_shallowest(copies: Set<PathView>)
    requires
        copies.finite(),
        copies.len() > 0,
    ensures
        copies.contains(shallowest(copies)),
        forall|other: PathView|
            copies.contains(other) && other != shallowest(copies) ==> #[trigger] shallower(
                shallowest(copies),
                other,
            ),
{
    let by_depth = ascending_seq::<ByDepth>(copies);
    lemma_ascending_seq::<ByDepth>(copies);
    assert(by_depth.to_set().contains(by_depth[0]));
    assert forall|other: PathView|
        copies.contains(other) && other != shallowest(copies) implies #[trigger] shallower(
        shallowest(copies),
        other,
    ) by {
        assert(by_depth.to_set().contains(other));
        let j = choose|j: int| 0 <= j < by_depth.len() && by_depth[j] == other;
        assert(ByDepth::key_lt(by_depth[0], by_depth[j]));
    }
}

/// Of the copies of one content, resolution within a scope deletes exactly
/// those within the scope other than the shallowest of them, and only where two
/// copies or more lie within the scope.
pub proof fn lemma_copies_within_member(paths: Set<PathView>, scope: PathView, path: PathView)
    requires
        paths.finite(),
    ensures
        paths.filter(inside(scope)).finite(),
        copies_within(paths, scope).contains(path) <==> paths.filter(inside(scope)).len() >= 2
            && paths.contains(path) && within(path, scope) && path != shallowest(
            paths.filter(inside(scope)),
        ),
{
    let candidates = paths.filter(inside(scope));
    paths.lemma_len_filter(inside(scope));
    let by_depth = ascending_seq::<ByDepth>(candidates);
    lemma_ascending_seq::<ByDepth>(candidates);
    lemma_ascending_distinct::<ByDepth>(by_depth);
    if by_depth.len() >= 2 {
        let n = by_depth.len() as int;
        let rest = by_depth.skip(1);
        let doomed = rest.reverse();
        if doomed.contains(path) {
            let t = choose|t: int| 0 <= t < doomed.len() && doomed[t] == path;
            assert(doomed[t] == rest[rest.len() - 1 - t]);
            assert(by_depth[n - 1 - t] == path);
            assert(by_depth.to_set().contains(by_depth[n - 1 - t]));
        }
        if candidates.contains(path) && path != by_depth[0] {
            assert(by_depth.to_set().contains(path));
            let j = choose|j: int| 0 <= j < by_depth.len() && by_depth[j] == path;
            assert(doomed[n - 1 - j] == rest[rest.len() - 1 - (n - 1 - j)]);
            assert(doomed[n - 1 - j] == path);
        }
    }
}

/// What keeping a scope leaves under a hash of a consistent index, once every
/// deletion is done: where the content has two copies or more and one of them
/// within the scope, exactly its copies within the scope; else all its copies.
pub proof fn lemma_keep_scope_leaves(index: IndexView, scope: PathView, hash: FileHash)
    requires
        index.finite(),
        index.consistent(),
    ensures
        ({
            let plan = dedupe_plan(index, Policy::KeepScope, scope);
            let copies = index.instances(hash);
            settled(index, plan, plan.len() as int).instances(hash) == if copies.len() > 1
                && reaches(copies, scope) {
                copies.filter(inside(scope))
            } else {
                copies
            }
        }),
{
    let plan = dedupe_plan(index, Policy::KeepScope, scope);
    let copies = index.instances(hash);
    let after = settled(index, plan, plan.len() as int);
    assert(plan.take(plan.len() as int) =~= plan);
    let left = if copies.len() > 1 && reaches(copies, scope) {
        copies.filter(inside(scope))
    } else {
        copies
    };
    assert forall|path: PathView| after.instances(hash).contains(path) <==> left.contains(
        path,
    ) by {
        lemma_plan_member(index, Policy::KeepScope, scope, path);
        if copies.contains(path) {
            assert(index.is_file(path, hash));
            lemma_copies_elsewhere_member(copies, scope, path);
            if plan.contains(path) {
                let other = choose|other: FileHash|
                    index.hash_to_paths.contains_key(other) && #[trigger] doomed_copies(
                        Policy::KeepScope,
                        index.hash_to_paths[other],
                        scope,
                    ).contains(path);
                lemma_copies_elsewhere_member(index.hash_to_paths[other], scope, path);
                assert(index.instances(other).contains(path));
                assert(index.is_file(path, other));
            }
            if copies.len() > 1 && reaches(copies, scope) && !within(path, scope) {
                assert(doomed_copies(Policy::KeepScope, index.hash_to_paths[hash], scope).contains(
                    path,
                ));
            }
        }
    }
    assert(after.instances(hash) =~= left);
}

/// What resolution within a scope leaves under a hash of a consistent index,
/// once every deletion is done: where two copies or more lie within the scope,
/// the copies outside it and the shallowest of those within; else all copies.
pub proof fn lemma_within_scope_leaves(index: IndexView, scope: PathView, hash: FileHash)
    requires
        index.finite(),
        index.consistent(),
    ensures
        ({
            let plan = dedupe_plan(index, Policy::WithinScope, scope);
            let copies = index.instances(hash);
            let candidates = copies.filter(inside(scope));
            settled(index, plan, plan.len() as int).instances(hash) == if candidates.len() >= 2 {
                copies.filter(outside(scope)).insert(shallowest(candidates))
            } else {
                copies
            }
        }),
{
    let plan = dedupe_plan(index, Policy::WithinScope, scope);
    let copies = index.instances(hash);
    let candidates = copies.filter(inside(scope));
    let after = settled(index, plan, plan.len() as int);
    assert(plan.take(plan.len() as int) =~= plan);
    let left = if candidates.len() >= 2 {
        copies.filter(outside(scope)).insert(shallowest(candidates))
    } else {
        copies
    };
    copies.lemma_len_filter(inside(scope));
    if candidates.len() >= 2 {
        lemma_shallowest(candidates);
    }
    assert forall|path: PathView| after.instances(hash).contains(path) <==> left.contains(
        path,
    ) by {
        lemma_plan_member(index, Policy::WithinScope, scope, path);
        if copies.contains(path) {
            assert(index.is_file(path, hash));
            lemma_copies_within_member(copies, scope, path);
            if plan.contains(path) {
                let other = choose|other: FileHash|
                    index.hash_to_paths.contains_key(other) && #[trigger] doomed_copies(
                        Policy::WithinScope,
                        index.hash_to_paths[other],
                        scope,
                    ).contains(path);
                lemma_copies_within_member(index.hash_to_paths[other], scope, path);
                assert(index.instances(other).contains(path));
                assert(index.is_file(path, other));
            }
            if candidates.len() >= 2 && within(path, scope) && path != shallowest(candidates) {
                assert(doomed_copies(
                    Policy::WithinScope,
                    index.hash_to_paths[hash],
                    scope,
                ).contains(path));
            }
        }
    }
    assert(after.instances(hash) =~= left);
}

/// What pruning leaves of the paths of an index, once every deletion is done:
/// every path but the folders within the scope that listed nothing when the
/// call began. A folder that only the call itself emptied is still there.
pub proof fn lemma_prune_leaves(index: IndexView, scope: PathView, path: PathView)
    requires
        index.finite(),
    ensures
        ({
            let plan = prune_plan(index, scope);
            settled(index, plan, plan.len() as int).paths_to_items.contains_key(path)
                <==> index.paths_to_items.contains_key(path) && !empty_folder_within(index, scope)(
                path,
            )
        }),
{
    let plan = prune_plan(index, scope);
    let wanted = empty_folder_within(index, scope);
    assert(plan.take(plan.len() as int) =~= plan);
    let paths = ascending_seq::<IndexPath>(index.paths_to_items.dom());
    lemma_ascending_seq::<IndexPath>(index.paths_to_items.dom());
    let descending = paths.reverse();
    if plan.contains(path) {
        let i = choose|i: int| 0 <= i < plan.len() && plan[i] == path;
        descending.lemma_filter_pred(wanted, i);
    }
    if index.paths_to_items.contains_key(path) && wanted(path) {
        assert(paths.to_set().contains(path));
        let j = choose|j: int| 0 <= j < paths.len() && paths[j] == path;
        assert(descending[paths.len() - 1 - j] == path);
        descending.lemma_filter_contains(wanted, paths.len() - 1 - j);
    }
}

} // verus!
