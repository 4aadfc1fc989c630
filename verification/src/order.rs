//! Total orders: the lexicographic order on sequences, and keys that carry one.
use vstd::prelude::*;

verus! {

/// How one value stands to another in a total order.
#[derive(Clone, Copy, Debug, PartialEq, Eq, Structural)]
pub enum Rank {
    Before,
    Same,
    After,
}

/// `lt` is irreflexive, transitive, and relates every two distinct values.
pub open spec fn strict_total_order<T>(lt: spec_fn(T, T) -> bool) -> bool {
    &&& forall|a: T| !#[trigger] lt(a, a)
    &&& forall|a: T, b: T, c: T| #[trigger] lt(a, b) && #[trigger] lt(b, c) ==> lt(a, c)
    &&& forall|a: T, b: T| #[trigger] lt(a, b) || a == b || lt(b, a)
}

/// `a` and `b` hold the same items at every index below `i`.
pub open spec fn agree_before<T>(a: Seq<T>, b: Seq<T>, i: int) -> bool {
    &&& 0 <= i <= a.len()
    &&& i <= b.len()
    &&& forall|j: int| 0 <= j < i ==> a[j] == b[j]
}

/// `a` and `b` first differ at index `i`, and there `a` is the smaller: it has
/// ended, or its item comes before that of `b`.
pub open spec fn lex_lt_at<T>(a: Seq<T>, b: Seq<T>, lt: spec_fn(T, T) -> bool, i: int) -> bool {
    &&& agree_before(a, b, i)
    &&& i < b.len()
    &&& (i == a.len() || lt(a[i], b[i]))
}

/// The lexicographic order that `lt` induces on sequences.
pub open spec fn lex_lt<T>(a: Seq<T>, b: Seq<T>, lt: spec_fn(T, T) -> bool) -> bool {
    exists|i: int| lex_lt_at(a, b, lt, i)
}

/// No sequence comes before itself.
pub proof fn lemma_lex_irreflexive<T>(a: Seq<T>, lt: spec_fn(T, T) -> bool)
    requires
        strict_total_order(lt),
    ensures
        !lex_lt(a, a, lt),
{
}

/// The lexicographic order is transitive.
pub proof fn lemma_lex_transitive<T>(a: Seq<T>, b: Seq<T>, c: Seq<T>, lt: spec_fn(T, T) -> bool)
    requires
        strict_total_order(lt),
        lex_lt(a, b, lt),
        lex_lt(b, c, lt),
    ensures
        lex_lt(a, c, lt),
{
    let i = choose|i: int| lex_lt_at(a, b, lt, i);
    let j = choose|j: int| lex_lt_at(b, c, lt, j);
    if i < j {
        assert(lex_lt_at(a, c, lt, i));
    } else if j < i {
        assert(lex_lt_at(a, c, lt, j));
    } else {
        assert(lex_lt_at(a, c, lt, i));
    }
}

/// Two sequences that agree before `i` are equal, or one comes before the other.
proof fn lemma_lex_total_from<T>(a: Seq<T>, b: Seq<T>, lt: spec_fn(T, T) -> bool, i: int)
    requires
        strict_total_order(lt),
        agree_before(a, b, i),
    ensures
        lex_lt(a, b, lt) || a == b || lex_lt(b, a, lt),
    decreases a.len() - i,
{
    if i == a.len() {
        if i == b.len() {
            assert(a =~= b);
        } else {
            assert(lex_lt_at(a, b, lt, i));
        }
    } else if i == b.len() {
        assert(lex_lt_at(b, a, lt, i));
    } else if a[i] == b[i] {
        lemma_lex_total_from(a, b, lt, i + 1);
    } else if lt(a[i], b[i]) {
        assert(lex_lt_at(a, b, lt, i));
    } else {
        assert(lt(b[i], a[i]));
        assert(lex_lt_at(b, a, lt, i));
    }
}

/// Of two different sequences one comes before the other.
pub proof fn lemma_lex_total<T>(a: Seq<T>, b: Seq<T>, lt: spec_fn(T, T) -> bool)
    requires
        strict_total_order(lt),
    ensures
        lex_lt(a, b, lt) || a == b || lex_lt(b, a, lt),
{
    lemma_lex_total_from(a, b, lt, 0);
}

/// The order of two bytes by their value.
pub open spec fn byte_lt() -> spec_fn(u8, u8) -> bool {
    |x: u8, y: u8| x < y
}

/// Byte strings in lexicographic order: the first differing byte decides, and a
/// proper prefix comes first.
pub open spec fn bytes_lt(a: Seq<u8>, b: Seq<u8>) -> bool {
    lex_lt(a, b, byte_lt())
}

/// Lexicographic order of byte strings is a strict total order.
pub proof fn lemma_bytes_order(a: Seq<u8>, b: Seq<u8>, c: Seq<u8>)
    ensures
        !bytes_lt(a, a),
        bytes_lt(a, b) && bytes_lt(b, c) ==> bytes_lt(a, c),
        bytes_lt(a, b) || a == b || bytes_lt(b, a),
{
    assert(strict_total_order(byte_lt()));
    lemma_lex_irreflexive(a, byte_lt());
    lemma_lex_total(a, b, byte_lt());
    if bytes_lt(a, b) && bytes_lt(b, c) {
        lemma_lex_transitive(a, b, c, byte_lt());
    }
}

/// What `rank` claims of `a` and `b` under the strict order `lt`.
pub open spec fn ranks<T>(rank: Rank, a: T, b: T, lt: spec_fn(T, T) -> bool) -> bool {
    match rank {
        Rank::Before => lt(a, b),
        Rank::Same => a == b,
        Rank::After => lt(b, a),
    }
}

/// Compares two byte strings lexicographically.
pub fn compare_bytes(a: &[u8], b: &[u8]) -> (rank: Rank)
    ensures
        ranks(rank, a@, b@, |x: Seq<u8>, y: Seq<u8>| bytes_lt(x, y)),
{
    let mut i: usize = 0;
    while i < a.len() && i < b.len()
        invariant
            agree_before(a@, b@, i as int),
        decreases a.len() - i,
    {
        if a[i] < b[i] {
            assert(lex_lt_at(a@, b@, byte_lt(), i as int));
            return Rank::Before;
        }
        if b[i] < a[i] {
            assert(lex_lt_at(b@, a@, byte_lt(), i as int));
            return Rank::After;
        }
        i += 1;
    }
    if i < b.len() {
        assert(lex_lt_at(a@, b@, byte_lt(), i as int));
        Rank::Before
    } else if i < a.len() {
        assert(lex_lt_at(b@, a@, byte_lt(), i as int));
        Rank::After
    } else {
        assert(a@ =~= b@);
        Rank::Same
    }
}

/// A type whose values are ordered, through their views, by a strict total order
/// that executable code can decide.
pub trait Key: View + Sized {
    /// The order, on views.
    spec fn key_lt(a: Self::V, b: Self::V) -> bool;

    /// `key_lt` is a strict total order.
    proof fn lemma_key_order(a: Self::V, b: Self::V, c: Self::V)
        ensures
            !Self::key_lt(a, a),
            Self::key_lt(a, b) && Self::key_lt(b, c) ==> Self::key_lt(a, c),
            Self::key_lt(a, b) || a == b || Self::key_lt(b, a),
    ;

    /// Decides how `self` stands to `other`.
    fn compare(&self, other: &Self) -> (rank: Rank)
        ensures
            ranks(rank, self@, other@, |a: Self::V, b: Self::V| Self::key_lt(a, b)),
    ;

    /// A second value with the same view.
    fn duplicate(&self) -> (copy: Self)
        ensures
            copy@ == self@,
    ;
}

} // verus!
