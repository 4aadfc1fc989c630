//! Sets and maps kept as sorted vectors.
use vstd::prelude::*;
use crate::order::{Key, Rank};

verus! {

/// The views of `keys`, in the same order.
pub open spec fn key_views<K: Key>(keys: Seq<K>) -> Seq<K::V> {
    Seq::new(keys.len(), |i: int| keys[i]@)
}

/// Every item of `s` comes before every later one.
pub open spec fn ascending<K: Key>(s: Seq<K::V>) -> bool {
    forall|i: int, j: int| #![trigger s[i], s[j]] 0 <= i < j < s.len() ==> K::key_lt(s[i], s[j])
}

/// `key` belongs at index `i` of the ascending `keys`: what stands before
/// comes before it, and what stands from there on comes after it.
pub open spec fn fits_at<K: Key>(keys: Seq<K::V>, key: K::V, i: int) -> bool {
    &&& 0 <= i <= keys.len()
    &&& forall|j: int| 0 <= j < i ==> K::key_lt(#[trigger] keys[j], key)
    &&& forall|j: int| i <= j < keys.len() ==> K::key_lt(key, #[trigger] keys[j])
}

/// Where `key` stands among the ascending `keys`: `Ok` with its index where it
/// occurs, `Err` with the index at which it would have to be inserted.
pub open spec fn located<K: Key>(keys: Seq<K::V>, key: K::V, at: Result<usize, usize>) -> bool {
    match at {
        Ok(i) => i < keys.len() && keys[i as int] == key,
        Err(i) => fits_at::<K>(keys, key, i as int),
    }
}

/// Finds `key` among sorted `keys` by bisection.
fn locate<K: Key>(keys: &Vec<K>, key: &K) -> (at: Result<usize, usize>)
    requires
        ascending::<K>(key_views(keys@)),
    ensures
        located::<K>(key_views(keys@), key@, at),
{
    let ghost views = key_views(keys@);
    let mut low: usize = 0;
    let mut high: usize = keys.len();
    while low < high
        invariant
            low <= high <= keys.len(),
            views == key_views(keys@),
            ascending::<K>(views),
            forall|j: int| 0 <= j < low ==> K::key_lt(#[trigger] views[j], key@),
            forall|j: int| high <= j < views.len() ==> K::key_lt(key@, #[trigger] views[j]),
        decreases high - low,
    {
        let mid = low + (high - low) / 2;
        match keys[mid].compare(key) {
            Rank::Same => {
                return Ok(mid);
            },
            Rank::Before => {
                assert forall|j: int| 0 <= j < mid + 1 implies K::key_lt(
                    #[trigger] views[j],
                    key@,
                ) by {
                    K::lemma_key_order(views[j], views[mid as int], key@);
                }
                low = mid + 1;
            },
            Rank::After => {
                assert forall|j: int| mid <= j < views.len() implies K::key_lt(
                    key@,
                    #[trigger] views[j],
                ) by {
                    K::lemma_key_order(key@, views[mid as int], views[j]);
                }
                high = mid;
            },
        }
    }
    Err(low)
}

/// A key that belongs between the keys is not among them.
pub proof fn lemma_located_absent<K: Key>(keys: Seq<K::V>, key: K::V, i: int)
    requires
        fits_at::<K>(keys, key, i),
    ensures
        !keys.contains(key),
{
    K::lemma_key_order(key, key, key);
}

/// An ascending sequence holds nothing twice.
pub proof fn lemma_ascending_distinct<K: Key>(s: Seq<K::V>)
    requires
        ascending::<K>(s),
    ensures
        s.no_duplicates(),
        s.to_set().finite(),
        s.to_set().len() == s.len(),
{
    assert forall|i: int, j: int| 0 <= i < s.len() && 0 <= j < s.len() && i != j implies s[i]
        != s[j] by {
        K::lemma_key_order(s[i], s[i], s[i]);
    }
    s.unique_seq_to_set();
}

/// Inserting a key where it belongs keeps the order, and adds the key to the
/// members.
pub proof fn lemma_insert_ascending<K: Key>(s: Seq<K::V>, i: int, key: K::V)
    requires
        ascending::<K>(s),
        fits_at::<K>(s, key, i),
    ensures
        ascending::<K>(s.insert(i, key)),
        s.insert(i, key).to_set() == s.to_set().insert(key),
{
    let t = s.insert(i, key);
    assert forall|a: int, b: int| 0 <= a < b < t.len() implies K::key_lt(t[a], t[b]) by {
        let a0 = if a < i { a } else { a - 1 };
        let b0 = if b < i { b } else { b - 1 };
        if a != i {
            assert(t[a] == s[a0]);
        }
        if b != i {
            assert(t[b] == s[b0]);
        }
    }
    assert forall|k: K::V| t.to_set().contains(k) <==> s.to_set().insert(key).contains(k) by {
        if t.contains(k) {
            let a = choose|a: int| 0 <= a < t.len() && t[a] == k;
            if a < i {
                assert(s[a] == k);
            } else if a > i {
                assert(s[a - 1] == k);
            }
        }
        if s.contains(k) {
            let a = choose|a: int| 0 <= a < s.len() && s[a] == k;
            if a < i {
                assert(t[a] == k);
            } else {
                assert(t[a + 1] == k);
            }
        }
        if k == key {
            assert(t[i] == k);
        }
    }
    assert(t.to_set() =~= s.to_set().insert(key));
}

/// Removing the key at an index keeps the order, and takes the key from the
/// members.
pub proof fn lemma_remove_ascending<K: Key>(s: Seq<K::V>, i: int)
    requires
        ascending::<K>(s),
        0 <= i < s.len(),
    ensures
        ascending::<K>(s.remove(i)),
        s.remove(i).to_set() == s.to_set().remove(s[i]),
{
    let t = s.remove(i);
    lemma_ascending_distinct::<K>(s);
    assert forall|a: int, b: int| 0 <= a < b < t.len() implies K::key_lt(t[a], t[b]) by {
        let a0 = if a < i { a } else { a + 1 };
        let b0 = if b < i { b } else { b + 1 };
        assert(t[a] == s[a0]);
        assert(t[b] == s[b0]);
    }
    assert forall|k: K::V| t.to_set().contains(k) <==> s.to_set().remove(s[i]).contains(k) by {
        if t.contains(k) {
            let a = choose|a: int| 0 <= a < t.len() && t[a] == k;
            let a0 = if a < i { a } else { a + 1 };
            assert(s[a0] == k);
        }
        if s.contains(k) && k != s[i] {
            let a = choose|a: int| 0 <= a < s.len() && s[a] == k;
            if a < i {
                assert(t[a] == k);
            } else {
                assert(t[a - 1] == k);
            }
        }
    }
    assert(t.to_set() =~= s.to_set().remove(s[i]));
}

/// A finite set has one ascending enumeration: two ascending sequences with
/// the same members are the same sequence.
pub proof fn lemma_ascending_unique<K: Key>(s: Seq<K::V>, t: Seq<K::V>)
    requires
        ascending::<K>(s),
        ascending::<K>(t),
        s.to_set() == t.to_set(),
    ensures
        s == t,
    decreases s.len(),
{
    lemma_ascending_distinct::<K>(s);
    lemma_ascending_distinct::<K>(t);
    if s.len() > 0 {
        let n = s.len() - 1;
        assert(t.to_set().contains(s[n]));
        assert(s.to_set().contains(t[n]));
        let j = choose|j: int| 0 <= j < t.len() && t[j] == s[n];
        let i = choose|i: int| 0 <= i < s.len() && s[i] == t[n];
        if j < n {
            K::lemma_key_order(t[j], t[n], s[n]);
            K::lemma_key_order(t[n], s[n], t[n]);
            assert(false);
        }
        lemma_remove_ascending::<K>(s, n);
        lemma_remove_ascending::<K>(t, n);
        assert(s.remove(n) =~= s.drop_last());
        assert(t.remove(n) =~= t.drop_last());
        lemma_ascending_unique::<K>(s.drop_last(), t.drop_last());
        assert(s =~= s.drop_last().push(s[n]));
        assert(t =~= t.drop_last().push(t[n]));
    } else {
        assert(s =~= t);
    }
}

/// The members of a prefix: one more item of the sequence is one more member.
pub proof fn lemma_take_step<T>(s: Seq<T>, i: int)
    requires
        0 <= i < s.len(),
    ensures
        s.take(i + 1) == s.take(i).push(s[i]),
        s.take(i + 1).to_set() == s.take(i).to_set().insert(s[i]),
        s.take(0).to_set() == Set::<T>::empty(),
        s.take(s.len() as int) == s,
{
    assert(s.take(i + 1) =~= s.take(i).push(s[i]));
    assert(s.take(s.len() as int) =~= s);
    assert(s.take(0).to_set() =~= Set::<T>::empty());
    let t = s.take(i + 1);
    assert forall|x: T| t.to_set().contains(x) <==> s.take(i).to_set().insert(s[i]).contains(
        x,
    ) by {
        if t.contains(x) {
            let j = choose|j: int| 0 <= j < t.len() && t[j] == x;
            if j < i {
                assert(s.take(i)[j] == x);
            }
        }
        if s.take(i).contains(x) {
            let j = choose|j: int| 0 <= j < i && s.take(i)[j] == x;
            assert(t[j] == x);
        }
        assert(t[i] == s[i]);
    }
    assert(t.to_set() =~= s.take(i).to_set().insert(s[i]));
}

/// The members of a finite set in ascending order.
pub open spec fn ascending_seq<K: Key>(set: Set<K::V>) -> Seq<K::V> {
    choose|s: Seq<K::V>| ascending::<K>(s) && s.to_set() == set
}

/// A key that is not among ascending keys belongs at some index between them.
pub proof fn lemma_fits_somewhere<K: Key>(keys: Seq<K::V>, key: K::V) -> (i: int)
    requires
        ascending::<K>(keys),
        !keys.contains(key),
    ensures
        fits_at::<K>(keys, key, i),
    decreases keys.len(),
{
    if keys.len() == 0 {
        0
    } else {
        let n = keys.len() - 1;
        assert(keys[n] != key);
        K::lemma_key_order(keys[n], key, key);
        if K::key_lt(keys[n], key) {
            assert forall|j: int| 0 <= j < keys.len() implies K::key_lt(#[trigger] keys[j], key) by {
                K::lemma_key_order(keys[j], keys[n], key);
            }
            keys.len() as int
        } else {
            assert forall|j: int| 0 <= j < n implies keys.drop_last()[j] != key by {
                assert(keys[j] != key);
            }
            let i = lemma_fits_somewhere::<K>(keys.drop_last(), key);
            assert forall|j: int| 0 <= j < i implies K::key_lt(#[trigger] keys[j], key) by {
                assert(keys.drop_last()[j] == keys[j]);
            }
            assert forall|j: int| i <= j < keys.len() implies K::key_lt(key, #[trigger] keys[j]) by {
                if j < n {
                    assert(keys.drop_last()[j] == keys[j]);
                }
            }
            i
        }
    }
}

/// A finite set has an ascending enumeration, and `ascending_seq` is it.
pub proof fn lemma_ascending_seq<K: Key>(set: Set<K::V>)
    requires
        set.finite(),
    ensures
        ascending::<K>(ascending_seq::<K>(set)),
        ascending_seq::<K>(set).to_set() == set,
        ascending_seq::<K>(set).len() == set.len(),
    decreases set.len(),
{
    if set.len() == 0 {
        let none = Seq::<K::V>::empty();
        assert(none.to_set() =~= set);
    } else {
        let key = set.choose();
        lemma_ascending_seq::<K>(set.remove(key));
        let rest = ascending_seq::<K>(set.remove(key));
        assert(!rest.contains(key)) by {
            if rest.contains(key) {
                assert(rest.to_set().contains(key));
            }
        }
        let i = lemma_fits_somewhere::<K>(rest, key);
        lemma_insert_ascending::<K>(rest, i, key);
        assert(rest.insert(i, key).to_set() =~= set);
    }
    lemma_ascending_distinct::<K>(ascending_seq::<K>(set));
}

/// A finite set of keys, held in ascending order.
#[derive(Debug)]
pub struct SortedSet<K: Key> {
    keys: Vec<K>,
}

impl<K: Key> View for SortedSet<K> {
    type V = Set<K::V>;

    closed spec fn view(&self) -> Set<K::V> {
        key_views(self.keys@).to_set()
    }
}

/// A sorted set has finitely many members.
pub proof fn lemma_set_finite<K: Key>(set: SortedSet<K>)
    ensures
        set@.finite(),
{
    vstd::seq_lib::seq_to_set_is_finite(key_views(set.keys@));
}

impl<K: Key> SortedSet<K> {
    /// The members stand in ascending order.
    #[verifier::type_invariant]
    spec fn sorted(self) -> bool {
        ascending::<K>(key_views(self.keys@))
    }

    /// The empty set.
    pub fn new() -> (set: Self)
        ensures
            set@ == Set::<K::V>::empty(),
    {
        let set = SortedSet { keys: Vec::new() };
        assert(set@ =~= Set::<K::V>::empty());
        set
    }

    /// The number of members.
    pub fn len(&self) -> (n: usize)
        ensures
            self@.finite(),
            n == self@.len(),
            n == ascending_seq::<K>(self@).len(),
            ascending::<K>(ascending_seq::<K>(self@)),
            ascending_seq::<K>(self@).to_set() == self@,
    {
        proof {
            use_type_invariant(self);
            lemma_ascending_distinct::<K>(key_views(self.keys@));
            let s = ascending_seq::<K>(self@);
            lemma_ascending_unique::<K>(s, key_views(self.keys@));
        }
        self.keys.len()
    }

    /// The member at `index` of the ascending enumeration, if there are that many.
    pub fn get(&self, index: usize) -> (key: Option<&K>)
        ensures
            match key {
                Some(key) => index < ascending_seq::<K>(self@).len() && key@ == ascending_seq::<K>(
                    self@,
                )[index as int],
                None => index >= ascending_seq::<K>(self@).len(),
            },
    {
        proof {
            use_type_invariant(self);
            let s = ascending_seq::<K>(self@);
            lemma_ascending_unique::<K>(s, key_views(self.keys@));
        }
        if index < self.keys.len() {
            Some(&self.keys[index])
        } else {
            None
        }
    }

    /// Whether `key` is a member.
    pub fn contains(&self, key: &K) -> (found: bool)
        ensures
            found == self@.contains(key@),
    {
        proof {
            use_type_invariant(self);
        }
        match locate(&self.keys, key) {
            Ok(i) => {
                assert(key_views(self.keys@)[i as int] == key@);
                true
            },
            Err(i) => {
                proof {
                    lemma_located_absent::<K>(key_views(self.keys@), key@, i as int);
                }
                false
            },
        }
    }

    /// Adds `key`; says whether it was new.
    pub fn insert(&mut self, key: K) -> (added: bool)
        ensures
            final(self)@ == old(self)@.insert(key@),
            added == !old(self)@.contains(key@),
    {
        proof {
            use_type_invariant(&*self);
        }
        let ghost before = key_views(self.keys@);
        match locate(&self.keys, &key) {
            Ok(i) => {
                assert(before[i as int] == key@);
                assert(self@ =~= self@.insert(key@));
                false
            },
            Err(i) => {
                let mut keys = Vec::new();
                std::mem::swap(&mut keys, &mut self.keys);
                keys.insert(i, key);
                proof {
                    lemma_located_absent::<K>(before, key@, i as int);
                    lemma_insert_ascending::<K>(before, i as int, key@);
                    assert(key_views(keys@) =~= before.insert(i as int, key@));
                }
                self.keys = keys;
                true
            },
        }
    }

    /// Adds every member of `other`.
    pub fn union_with(&mut self, other: &SortedSet<K>)
        ensures
            final(self)@ == old(self)@.union(other@),
    {
        let n = other.len();
        let ghost members = ascending_seq::<K>(other@);
        let mut i: usize = 0;
        proof {
            if n > 0 {
                lemma_take_step(members, 0);
            } else {
                assert(members.take(0) =~= members);
            }
            assert(self@ =~= self@.union(members.take(0).to_set()));
        }
        while i < n
            invariant
                i <= n,
                n == members.len(),
                members == ascending_seq::<K>(other@),
                members.to_set() == other@,
                self@ == old(self)@.union(members.take(i as int).to_set()),
            decreases n - i,
        {
            let member = other.get(i).unwrap();
            proof {
                lemma_take_step(members, i as int);
            }
            self.insert(member.duplicate());
            i += 1;
            assert(self@ =~= old(self)@.union(members.take(i as int).to_set()));
        }
        proof {
            assert(members.take(n as int) =~= members);
        }
    }

    /// The members that are not members of `other`.
    pub fn difference(&self, other: &SortedSet<K>) -> (rest: SortedSet<K>)
        ensures
            rest@ == self@.difference(other@),
    {
        let n = self.len();
        let ghost members = ascending_seq::<K>(self@);
        let mut rest = SortedSet::new();
        let mut i: usize = 0;
        proof {
            if n > 0 {
                lemma_take_step(members, 0);
            } else {
                assert(members.take(0) =~= members);
            }
            assert(rest@ =~= members.take(0).to_set().difference(other@));
        }
        while i < n
            invariant
                i <= n,
                n == members.len(),
                members == ascending_seq::<K>(self@),
                members.to_set() == self@,
                rest@ == members.take(i as int).to_set().difference(other@),
            decreases n - i,
        {
            let member = self.get(i).unwrap();
            proof {
                lemma_take_step(members, i as int);
            }
            if !other.contains(member) {
                rest.insert(member.duplicate());
            }
            i += 1;
            assert(rest@ =~= members.take(i as int).to_set().difference(other@));
        }
        proof {
            assert(members.take(n as int) =~= members);
        }
        rest
    }

    /// Takes `key` out; says whether it was a member.
    pub fn remove(&mut self, key: &K) -> (removed: bool)
        ensures
            final(self)@ == old(self)@.remove(key@),
            removed == old(self)@.contains(key@),
    {
        proof {
            use_type_invariant(&*self);
        }
        let ghost before = key_views(self.keys@);
        match locate(&self.keys, key) {
            Ok(i) => {
                let mut keys = Vec::new();
                std::mem::swap(&mut keys, &mut self.keys);
                keys.remove(i);
                proof {
                    assert(before[i as int] == key@);
                    lemma_remove_ascending::<K>(before, i as int);
                    assert(key_views(keys@) =~= before.remove(i as int));
                }
                self.keys = keys;
                true
            },
            Err(i) => {
                proof {
                    lemma_located_absent::<K>(before, key@, i as int);
                    assert(self@ =~= self@.remove(key@));
                }
                false
            },
        }
    }
}

/// The keys and the values of a map, index by index.
#[derive(Debug)]
struct Columns<K, V> {
    keys: Vec<K>,
    values: Vec<V>,
}

/// A finite map, held as a vector of keys in ascending order and a vector of
/// their values.
#[derive(Debug)]
pub struct SortedMap<K: Key, V> {
    columns: Columns<K, V>,
}

/// The map that takes each of `keys` to the value at the same index.
spec fn paired<K: Key, V>(keys: Seq<K::V>, values: Seq<V>) -> Map<K::V, V> {
    Map::new(|k: K::V| keys.contains(k), |k: K::V| values[keys.index_of(k)])
}

/// Over ascending keys the pairing has the keys as its domain, and takes each
/// key to the value at its index.
proof fn lemma_paired<K: Key, V>(keys: Seq<K::V>, values: Seq<V>)
    requires
        ascending::<K>(keys),
        keys.len() == values.len(),
    ensures
        paired::<K, V>(keys, values).dom() == keys.to_set(),
        forall|i: int|
            0 <= i < keys.len() ==> #[trigger] paired::<K, V>(keys, values)[keys[i]] == values[i],
{
    lemma_ascending_distinct::<K>(keys);
    assert(paired::<K, V>(keys, values).dom() =~= keys.to_set());
    assert forall|i: int| 0 <= i < keys.len() implies #[trigger] paired::<K, V>(
        keys,
        values,
    )[keys[i]] == values[i] by {
        let j = keys.index_of(keys[i]);
        assert(keys[j] == keys[i]);
    }
}

impl<K: Key, V> View for SortedMap<K, V> {
    type V = Map<K::V, V>;

    closed spec fn view(&self) -> Map<K::V, V> {
        paired::<K, V>(key_views(self.columns.keys@), self.columns.values@)
    }
}

/// A sorted map has finitely many keys.
pub proof fn lemma_map_finite<K: Key, V>(map: SortedMap<K, V>)
    ensures
        map@.dom().finite(),
{
    let keys = key_views(map.columns.keys@);
    vstd::seq_lib::seq_to_set_is_finite(keys);
    assert(map@.dom() =~= keys.to_set());
}

impl<K: Key, V> SortedMap<K, V> {
    /// The keys stand in ascending order, each with its value.
    #[verifier::type_invariant]
    spec fn sorted(self) -> bool {
        &&& ascending::<K>(key_views(self.columns.keys@))
        &&& self.columns.keys@.len() == self.columns.values@.len()
    }

    /// The empty map.
    pub fn new() -> (map: Self)
        ensures
            map@ == Map::<K::V, V>::empty(),
    {
        let map = SortedMap { columns: Columns { keys: Vec::new(), values: Vec::new() } };
        assert(map@ =~= Map::<K::V, V>::empty());
        map
    }

    /// The number of keys.
    pub fn len(&self) -> (n: usize)
        ensures
            self@.dom().finite(),
            n == self@.dom().len(),
            n == ascending_seq::<K>(self@.dom()).len(),
            ascending::<K>(ascending_seq::<K>(self@.dom())),
            ascending_seq::<K>(self@.dom()).to_set() == self@.dom(),
    {
        proof {
            use_type_invariant(self);
            let keys = key_views(self.columns.keys@);
            lemma_paired::<K, V>(keys, self.columns.values@);
            lemma_ascending_distinct::<K>(keys);
            lemma_ascending_unique::<K>(ascending_seq::<K>(self@.dom()), keys);
        }
        self.columns.keys.len()
    }

    /// The key at `index` of the ascending enumeration of the keys, and its
    /// value, if there are that many keys.
    pub fn entry(&self, index: usize) -> (entry: Option<(&K, &V)>)
        ensures
            match entry {
                Some((key, value)) => {
                    &&& index < ascending_seq::<K>(self@.dom()).len()
                    &&& key@ == ascending_seq::<K>(self@.dom())[index as int]
                    &&& self@.contains_key(key@)
                    &&& *value == self@[key@]
                },
                None => index >= ascending_seq::<K>(self@.dom()).len(),
            },
    {
        proof {
            use_type_invariant(self);
            let keys = key_views(self.columns.keys@);
            lemma_paired::<K, V>(keys, self.columns.values@);
            lemma_ascending_unique::<K>(ascending_seq::<K>(self@.dom()), keys);
        }
        if index < self.columns.keys.len() {
            assert(key_views(self.columns.keys@)[index as int] == self.columns.keys@[index as int]@);
            assert(key_views(self.columns.keys@).contains(self.columns.keys@[index as int]@));
            Some((&self.columns.keys[index], &self.columns.values[index]))
        } else {
            None
        }
    }

    /// Where `key` stands in the ascending enumeration of the keys, if it is one.
    pub fn position(&self, key: &K) -> (index: Option<usize>)
        ensures
            match index {
                Some(i) => {
                    &&& self@.contains_key(key@)
                    &&& i < ascending_seq::<K>(self@.dom()).len()
                    &&& ascending_seq::<K>(self@.dom())[i as int] == key@
                },
                None => !self@.contains_key(key@),
            },
    {
        proof {
            use_type_invariant(self);
            let keys = key_views(self.columns.keys@);
            lemma_paired::<K, V>(keys, self.columns.values@);
            lemma_ascending_unique::<K>(ascending_seq::<K>(self@.dom()), keys);
        }
        match locate(&self.columns.keys, key) {
            Ok(i) => {
                assert(key_views(self.columns.keys@)[i as int] == key@);
                Some(i)
            },
            Err(i) => {
                proof {
                    lemma_located_absent::<K>(key_views(self.columns.keys@), key@, i as int);
                }
                None
            },
        }
    }

    /// The value of `key`, if it is a key.
    pub fn get(&self, key: &K) -> (value: Option<&V>)
        ensures
            match value {
                Some(value) => self@.contains_key(key@) && *value == self@[key@],
                None => !self@.contains_key(key@),
            },
    {
        proof {
            use_type_invariant(self);
            lemma_paired::<K, V>(key_views(self.columns.keys@), self.columns.values@);
        }
        match locate(&self.columns.keys, key) {
            Ok(i) => {
                assert(key_views(self.columns.keys@)[i as int] == key@);
                Some(&self.columns.values[i])
            },
            Err(i) => {
                proof {
                    lemma_located_absent::<K>(key_views(self.columns.keys@), key@, i as int);
                }
                None
            },
        }
    }

    /// Gives `key` the value `value`; returns the value that it had.
    pub fn insert(&mut self, key: K, value: V) -> (previous: Option<V>)
        ensures
            final(self)@ == old(self)@.insert(key@, value),
            previous == if old(self)@.contains_key(key@) {
                Some(old(self)@[key@])
            } else {
                None
            },
    {
        proof {
            use_type_invariant(&*self);
        }
        let ghost keys_before = key_views(self.columns.keys@);
        let ghost values_before = self.columns.values@;
        proof {
            lemma_paired::<K, V>(keys_before, values_before);
        }
        let mut columns = Columns { keys: Vec::new(), values: Vec::new() };
        std::mem::swap(&mut columns, &mut self.columns);
        match locate(&columns.keys, &key) {
            Ok(i) => {
                let mut held = value;
                std::mem::swap(&mut held, &mut columns.values[i]);
                proof {
                    assert(keys_before[i as int] == key@);
                    lemma_paired::<K, V>(keys_before, columns.values@);
                    assert(paired::<K, V>(keys_before, columns.values@) =~= paired::<K, V>(
                        keys_before,
                        values_before,
                    ).insert(key@, value)) by {
                        assert forall|k: K::V| keys_before.contains(k) implies #[trigger] paired::<
                            K,
                            V,
                        >(keys_before, columns.values@)[k] == paired::<K, V>(
                            keys_before,
                            values_before,
                        ).insert(key@, value)[k] by {
                            let j = keys_before.index_of(k);
                            assert(keys_before[j] == k);
                            lemma_ascending_distinct::<K>(keys_before);
                        }
                    }
                }
                self.columns = columns;
                Some(held)
            },
            Err(i) => {
                columns.keys.insert(i, key);
                columns.values.insert(i, value);
                proof {
                    let keys_after = key_views(columns.keys@);
                    lemma_located_absent::<K>(keys_before, key@, i as int);
                    lemma_insert_ascending::<K>(keys_before, i as int, key@);
                    assert(keys_after =~= keys_before.insert(i as int, key@));
                    lemma_paired::<K, V>(keys_after, columns.values@);
                    assert(paired::<K, V>(keys_after, columns.values@) =~= paired::<K, V>(
                        keys_before,
                        values_before,
                    ).insert(key@, value)) by {
                        assert forall|k: K::V| keys_after.contains(k) implies #[trigger] paired::<
                            K,
                            V,
                        >(keys_after, columns.values@)[k] == paired::<K, V>(
                            keys_before,
                            values_before,
                        ).insert(key@, value)[k] by {
                            let j = keys_after.index_of(k);
                            assert(keys_after[j] == k);
                            if j < i {
                                assert(keys_before[j] == k);
                            } else if j > i {
                                assert(keys_before[j - 1] == k);
                            }
                        }
                    }
                }
                self.columns = columns;
                None
            },
        }
    }

    /// Takes `key` out; returns the value that it had.
    pub fn remove(&mut self, key: &K) -> (previous: Option<V>)
        ensures
            final(self)@ == old(self)@.remove(key@),
            previous == if old(self)@.contains_key(key@) {
                Some(old(self)@[key@])
            } else {
                None
            },
    {
        proof {
            use_type_invariant(&*self);
        }
        let ghost keys_before = key_views(self.columns.keys@);
        let ghost values_before = self.columns.values@;
        proof {
            lemma_paired::<K, V>(keys_before, values_before);
        }
        let mut columns = Columns { keys: Vec::new(), values: Vec::new() };
        std::mem::swap(&mut columns, &mut self.columns);
        match locate(&columns.keys, key) {
            Ok(i) => {
                columns.keys.remove(i);
                let held = columns.values.remove(i);
                proof {
                    let keys_after = key_views(columns.keys@);
                    assert(keys_before[i as int] == key@);
                    lemma_remove_ascending::<K>(keys_before, i as int);
                    assert(keys_after =~= keys_before.remove(i as int));
                    lemma_paired::<K, V>(keys_after, columns.values@);
                    assert(paired::<K, V>(keys_after, columns.values@) =~= paired::<K, V>(
                        keys_before,
                        values_before,
                    ).remove(key@)) by {
                        assert forall|k: K::V| keys_after.contains(k) implies #[trigger] paired::<
                            K,
                            V,
                        >(keys_after, columns.values@)[k] == paired::<K, V>(
                            keys_before,
                            values_before,
                        ).remove(key@)[k] by {
                            let j = keys_after.index_of(k);
                            let j0 = if j < i { j } else { j + 1 };
                            assert(keys_after[j] == k);
                            assert(keys_before[j0] == k);
                            lemma_ascending_distinct::<K>(keys_before);
                            assert(paired::<K, V>(keys_after, columns.values@)[keys_after[j]]
                                == columns.values@[j]);
                            assert(paired::<K, V>(keys_before, values_before)[keys_before[j0]]
                                == values_before[j0]);
                        }
                    }
                }
                self.columns = columns;
                Some(held)
            },
            Err(i) => {
                proof {
                    lemma_located_absent::<K>(keys_before, key@, i as int);
                    assert(paired::<K, V>(keys_before, values_before) =~= paired::<K, V>(
                        keys_before,
                        values_before,
                    ).remove(key@));
                }
                self.columns = columns;
                None
            },
        }
    }
}

} // verus!
