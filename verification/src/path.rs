//! Paths as sequences of components, ordered component by component.
use vstd::prelude::*;
use crate::order::{
    agree_before, bytes_lt, compare_bytes, lemma_bytes_order, lemma_lex_irreflexive,
    lemma_lex_total, lemma_lex_transitive, lex_lt, lex_lt_at, strict_total_order, Key, Rank,
};

verus! {

/// What a path is to the index: its components, first to last, each a byte string.
pub type PathView = Seq<Seq<u8>>;

/// A path of the index.
///
/// The components are held apart, so that `a/b` comes directly before its
/// descendants and before `a-b`, whatever bytes the names hold. An absolute path
/// starts with an empty component.
#[derive(Debug, Clone, PartialEq, Eq, PartialOrd, Ord, Hash)]
pub struct IndexPath {
    pub components: Vec<Vec<u8>>,
}

impl View for IndexPath {
    type V = PathView;

    open spec fn view(&self) -> PathView {
        Seq::new(self.components@.len(), |i: int| self.components@[i]@)
    }
}

/// The order of two components.
pub open spec fn component_lt() -> spec_fn(Seq<u8>, Seq<u8>) -> bool {
    |x: Seq<u8>, y: Seq<u8>| bytes_lt(x, y)
}

/// Paths in order: the first differing component decides, by its bytes, and a
/// path comes before everything below it.
pub open spec fn path_lt(a: PathView, b: PathView) -> bool {
    lex_lt(a, b, component_lt())
}

/// `path` is `scope` or lies below it.
pub open spec fn within(path: PathView, scope: PathView) -> bool {
    scope.is_prefix_of(path)
}

/// The order of components is a strict total order.
proof fn lemma_component_order()
    ensures
        strict_total_order(component_lt()),
{
    let lt = component_lt();
    assert forall|a: Seq<u8>| !#[trigger] lt(a, a) by {
        lemma_bytes_order(a, a, a);
    }
    assert forall|a: Seq<u8>, b: Seq<u8>, c: Seq<u8>| #[trigger]
        lt(a, b) && #[trigger] lt(b, c) implies lt(a, c) by {
        lemma_bytes_order(a, b, c);
    }
    assert forall|a: Seq<u8>, b: Seq<u8>| #[trigger] lt(a, b) || a == b || lt(b, a) by {
        lemma_bytes_order(a, b, b);
    }
}

/// The order of paths is a strict total order.
pub proof fn lemma_path_order(a: PathView, b: PathView, c: PathView)
    ensures
        !path_lt(a, a),
        path_lt(a, b) && path_lt(b, c) ==> path_lt(a, c),
        path_lt(a, b) || a == b || path_lt(b, a),
{
    lemma_component_order();
    lemma_lex_irreflexive(a, component_lt());
    lemma_lex_total(a, b, component_lt());
    if path_lt(a, b) && path_lt(b, c) {
        lemma_lex_transitive(a, b, c, component_lt());
    }
}

/// A path comes before everything strictly below it.
pub proof fn lemma_ancestor_first(dir: PathView, path: PathView)
    requires
        within(path, dir),
        path != dir,
    ensures
        path_lt(dir, path),
{
    assert(dir.len() < path.len()) by {
        if dir.len() == path.len() {
            assert(path.subrange(0, dir.len() as int) =~= path);
        }
    }
    assert forall|j: int| 0 <= j < dir.len() implies dir[j] == path[j] by {
        assert(dir[j] == path.subrange(0, dir.len() as int)[j]);
    }
    assert(lex_lt_at(dir, path, component_lt(), dir.len() as int));
}

/// What lies below a directory is not interrupted: a path between the directory
/// and one of its descendants is itself below the directory.
pub proof fn lemma_descendants_adjacent(dir: PathView, between: PathView, path: PathView)
    requires
        within(path, dir),
        path_lt(dir, between),
        path_lt(between, path),
    ensures
        within(between, dir),
{
    let lt = component_lt();
    let i = choose|i: int| lex_lt_at(dir, between, lt, i);
    let j = choose|j: int| lex_lt_at(between, path, lt, j);
    assert forall|k: int| 0 <= k < dir.len() implies dir[k] == path[k] by {
        assert(dir[k] == path.subrange(0, dir.len() as int)[k]);
    }
    if i < dir.len() {
        // `between` is above `dir` at `i`, where `path` still equals `dir`.
        lemma_bytes_order(dir[i], between[i], path[i]);
        if j < i {
            lemma_bytes_order(between[j], path[j], path[j]);
        } else if j > i {
        } else {
            lemma_bytes_order(between[i], path[i], dir[i]);
        }
        assert(false);
    }
    assert(dir =~= between.subrange(0, dir.len() as int));
}

impl IndexPath {
    /// The path with the given components.
    pub fn new(components: Vec<Vec<u8>>) -> (path: IndexPath)
        ensures
            path.components == components,
    {
        IndexPath { components }
    }

    /// The number of components.
    pub fn depth(&self) -> (n: usize)
        ensures
            n == self@.len(),
    {
        self.components.len()
    }

    /// Whether this path is `base` or lies below it.
    pub fn starts_with(&self, base: &IndexPath) -> (inside: bool)
        ensures
            inside == within(self@, base@),
    {
        if base.components.len() > self.components.len() {
            return false;
        }
        let mut i: usize = 0;
        while i < base.components.len()
            invariant
                base.components.len() <= self.components.len(),
                agree_before(base@, self@, i as int),
            decreases base.components.len() - i,
        {
            let rank = compare_bytes(self.components[i].as_slice(), base.components[i].as_slice());
            if rank != Rank::Same {
                assert(base@[i as int] != self@.subrange(0, base@.len() as int)[i as int]);
                return false;
            }
            i += 1;
        }
        assert(base@ =~= self@.subrange(0, base@.len() as int));
        true
    }
}

impl Key for IndexPath {
    open spec fn key_lt(a: PathView, b: PathView) -> bool {
        path_lt(a, b)
    }

    proof fn lemma_key_order(a: PathView, b: PathView, c: PathView) {
        lemma_path_order(a, b, c);
    }

    fn compare(&self, other: &IndexPath) -> (rank: Rank) {
        let mut i: usize = 0;
        while i < self.components.len() && i < other.components.len()
            invariant
                agree_before(self@, other@, i as int),
            decreases self.components.len() - i,
        {
            let rank = compare_bytes(self.components[i].as_slice(), other.components[i].as_slice());
            match rank {
                Rank::Before => {
                    assert(lex_lt_at(self@, other@, component_lt(), i as int));
                    return Rank::Before;
                },
                Rank::After => {
                    assert(lex_lt_at(other@, self@, component_lt(), i as int));
                    return Rank::After;
                },
                Rank::Same => {},
            }
            i += 1;
        }
        if i < other.components.len() {
            assert(lex_lt_at(self@, other@, component_lt(), i as int));
            Rank::Before
        } else if i < self.components.len() {
            assert(lex_lt_at(other@, self@, component_lt(), i as int));
            Rank::After
        } else {
            assert(self@ =~= other@);
            Rank::Same
        }
    }

    fn duplicate(&self) -> (copy: IndexPath) {
        let mut components: Vec<Vec<u8>> = Vec::new();
        let mut i: usize = 0;
        while i < self.components.len()
            invariant
                i <= self.components.len(),
                components@.len() == i,
                forall|j: int| 0 <= j < i ==> components@[j]@ == self.components@[j]@,
            decreases self.components.len() - i,
        {
            let component = self.components[i].clone();
            assert(component@ =~= self.components@[i as int]@);
            components.push(component);
            i += 1;
        }
        let copy = IndexPath { components };
        assert(copy@ =~= self@);
        copy
    }
}

} // verus!
