//! # Collections that read the same way twice
//!
//! A report that lists something twice has to list it the same way twice, so
//! what a record holds is kept in the order of its own keys and never in the
//! order of a hash or of arrival. [`OrderedMap`] and [`OrderedSet`] are sorted
//! vectors with that as their invariant, and are modelled as the map or the set
//! they hold. [`Distinct`] is for what has no order worth giving it: each item
//! once, oldest first.

use vstd::prelude::*;

verus! {

/// A value that can be told from another and has a model to be told by.
pub trait Same: Sized {
    /// What a value of this type says, which is all that telling two apart looks at.
    type Model;

    /// What this value says.
    spec fn model(&self) -> Self::Model;

    /// Whether two values say the same.
    fn same(&self, other: &Self) -> (result: bool)
        ensures
            result == (self.model() == other.model()),
    ;

    /// Another value that says the same.
    fn copied(&self) -> (result: Self)
        ensures
            result.model() == self.model(),
    ;
}

/// A value with a total order on what it says.
pub trait Ordered: Same {
    /// The strict order.
    spec fn before(a: Self::Model, b: Self::Model) -> bool;

    /// Of two models one comes first, or they are the same, and only one of the three.
    proof fn order_is_total(a: Self::Model, b: Self::Model)
        ensures
            Self::before(a, b) || Self::before(b, a) || a == b,
            !(Self::before(a, b) && Self::before(b, a)),
            !Self::before(a, a),
    ;

    /// What comes before something comes before all that follows it.
    proof fn order_is_transitive(a: Self::Model, b: Self::Model, c: Self::Model)
        requires
            Self::before(a, b),
            Self::before(b, c),
        ensures
            Self::before(a, c),
    ;

    /// Whether this value comes before another.
    fn precedes(&self, other: &Self) -> (result: bool)
        ensures
            result == Self::before(self.model(), other.model()),
    ;
}

/// A map that keeps its keys in order.
#[derive(Debug, PartialEq, Eq, Hash)]
pub struct OrderedMap<K: Ordered, V> {
    entries: Vec<(K, V)>,
}

/// Whether entries stand in the order of their keys, each key once.
pub open spec fn in_order<K: Ordered, V>(entries: Seq<(K, V)>) -> bool {
    forall|i: int, j: int|
        0 <= i < j < entries.len() ==> K::before(
            (#[trigger] entries[i]).0.model(),
            (#[trigger] entries[j]).0.model(),
        )
}

/// Where a key stands among entries, or -1 if it does not.
pub open spec fn place_of<K: Ordered, V>(entries: Seq<(K, V)>, key: K::Model) -> int {
    if exists|i: int| 0 <= i < entries.len() && (#[trigger] entries[i]).0.model() == key {
        choose|i: int| 0 <= i < entries.len() && (#[trigger] entries[i]).0.model() == key
    } else {
        -1
    }
}

/// What entries map each key to.
pub open spec fn mapping<K: Ordered, V>(entries: Seq<(K, V)>) -> Map<K::Model, V> {
    Map::new(
        |key: K::Model| place_of(entries, key) >= 0,
        |key: K::Model| entries[place_of(entries, key)].1,
    )
}

/// The keys of entries, in the order they stand in.
pub open spec fn keys_of<K: Ordered, V>(entries: Seq<(K, V)>) -> Seq<K::Model> {
    entries.map(|i: int, e: (K, V)| e.0.model())
}

/// Every entry of a list in order is found where it stands.
pub proof fn lemma_place<K: Ordered, V>(entries: Seq<(K, V)>, i: int)
    requires
        in_order(entries),
        0 <= i < entries.len(),
    ensures
        place_of(entries, entries[i].0.model()) == i,
        mapping(entries).dom().contains(entries[i].0.model()),
        mapping(entries)[entries[i].0.model()] == entries[i].1,
{
    let key = entries[i].0.model();
    let p = place_of(entries, key);
    assert(entries[i].0.model() == key);
    assert(0 <= p < entries.len() && entries[p].0.model() == key);
    if p != i {
        K::order_is_total(key, key);
        assert(K::before(entries[if p < i { p } else { i }].0.model(), entries[if p < i {
            i
        } else {
            p
        }].0.model()));
    }
}

proof fn lemma_absent<K: Ordered, V>(entries: Seq<(K, V)>, key: K::Model)
    requires
        forall|i: int| 0 <= i < entries.len() ==> (#[trigger] entries[i]).0.model() != key,
    ensures
        !mapping(entries).dom().contains(key),
{
}

/// The keys are the domain of the map, each of them once.
proof fn lemma_keys<K: Ordered, V>(entries: Seq<(K, V)>)
    requires
        in_order(entries),
    ensures
        keys_of(entries).no_duplicates(),
        keys_of(entries).to_set() == mapping(entries).dom(),
        mapping(entries).dom().finite(),
        mapping(entries).dom().len() == entries.len(),
{
    let keys = keys_of(entries);
    assert forall|i: int, j: int| 0 <= i < keys.len() && 0 <= j < keys.len() && i
        != j implies keys[i] != keys[j] by {
        K::order_is_total(keys[i], keys[i]);
        if i < j {
            assert(K::before(entries[i].0.model(), entries[j].0.model()));
        } else {
            assert(K::before(entries[j].0.model(), entries[i].0.model()));
        }
    }
    keys.unique_seq_to_set();
    assert forall|key: K::Model| keys.to_set().contains(key) <==> mapping(
        entries,
    ).dom().contains(key) by {
        if keys.contains(key) {
            let i = choose|i: int| 0 <= i < keys.len() && keys[i] == key;
            lemma_place(entries, i);
        }
        if mapping(entries).dom().contains(key) {
            let p = place_of(entries, key);
            assert(keys[p] == key);
        }
    }
    assert(keys.to_set() =~= mapping(entries).dom());
}

impl<K: Ordered, V> OrderedMap<K, V> {
    /// What each key is mapped to.
    pub closed spec fn view(&self) -> Map<K::Model, V> {
        mapping(self.entries@)
    }

    /// The entries, in the order of their keys.
    pub closed spec fn listed(&self) -> Seq<(K, V)> {
        self.entries@
    }

    #[verifier::type_invariant]
    spec fn sorted(self) -> bool {
        in_order(self.entries@)
    }

    /// An empty map.
    pub fn new() -> (map: Self)
        ensures
            map@ == Map::<K::Model, V>::empty(),
            map.listed().len() == 0,
    {
        let map = Self { entries: Vec::new() };
        assert(map@ =~= Map::<K::Model, V>::empty());
        map
    }

    /// What the order of the list says: it holds each key once, in the keys' own
    /// order, beside what it is mapped to.
    pub open spec fn is_listing(&self) -> bool {
        &&& in_order(self.listed())
        &&& self@ == mapping(self.listed())
        &&& keys_of(self.listed()).to_set() == self@.dom()
        &&& keys_of(self.listed()).no_duplicates()
        &&& self@.dom().finite()
        &&& self@.dom().len() == self.listed().len()
    }

    /// How many keys are held.
    pub fn len(&self) -> (len: usize)
        ensures
            len == self@.dom().len(),
            len == self.listed().len(),
            self.is_listing(),
    {
        proof {
            use_type_invariant(self);
            lemma_keys(self.entries@);
        }
        self.entries.len()
    }

    /// Whether no key is held.
    pub fn is_empty(&self) -> (empty: bool)
        ensures
            empty == (self@ == Map::<K::Model, V>::empty()),
            empty == (self.listed().len() == 0),
    {
        proof {
            use_type_invariant(self);
            if self.entries@.len() > 0 {
                lemma_place(self.entries@, 0);
            } else {
                assert(self@ =~= Map::<K::Model, V>::empty());
            }
        }
        self.entries.len() == 0
    }

    /// The `i`th entry in the order of the keys.
    pub fn at(&self, i: usize) -> (entry: &(K, V))
        requires
            i < self.listed().len(),
        ensures
            *entry == self.listed()[i as int],
            self.is_listing(),
            self@.dom().contains(entry.0.model()),
            self@[entry.0.model()] == entry.1,
    {
        proof {
            use_type_invariant(self);
            lemma_place(self.entries@, i as int);
            lemma_keys(self.entries@);
        }
        &self.entries[i]
    }

    /// The values, in the order of their keys.
    pub fn values(&self) -> (values: Vec<&V>)
        ensures
            values@.len() == self.listed().len(),
            forall|i: int| 0 <= i < values@.len() ==> *#[trigger] values@[i] == self.listed()[i].1,
            self.is_listing(),
    {
        let n: usize = self.len();
        let mut values: Vec<&V> = Vec::new();
        let mut i: usize = 0;
        while i < n
            invariant
                n == self.listed().len(),
                i <= n,
                values@.len() == i,
                forall|j: int| 0 <= j < i ==> *#[trigger] values@[j] == self.listed()[j].1,
            decreases n - i,
        {
            values.push(&self.at(i).1);
            i = i + 1;
        }
        values
    }

    /// How many keys come before `key`.
    fn rank(&self, key: &K) -> (at: usize)
        ensures
            at <= self.entries@.len(),
            forall|i: int| 0 <= i < at ==> K::before((#[trigger] self.entries@[i]).0.model(), key.model()),
            forall|i: int|
                at <= i < self.entries@.len() ==> !K::before(
                    (#[trigger] self.entries@[i]).0.model(),
                    key.model(),
                ),
    {
        proof {
            use_type_invariant(self);
        }
        let mut low: usize = 0;
        let mut high: usize = self.entries.len();
        while low < high
            invariant
                in_order(self.entries@),
                low <= high <= self.entries@.len(),
                forall|i: int|
                    0 <= i < low ==> K::before((#[trigger] self.entries@[i]).0.model(), key.model()),
                forall|i: int|
                    high <= i < self.entries@.len() ==> !K::before(
                        (#[trigger] self.entries@[i]).0.model(),
                        key.model(),
                    ),
            decreases high - low,
        {
            let middle: usize = low + (high - low) / 2;
            let ghost m = self.entries@[middle as int].0.model();
            if self.entries[middle].0.precedes(key) {
                proof {
                    assert forall|i: int| 0 <= i < middle + 1 implies K::before(
                        (#[trigger] self.entries@[i]).0.model(),
                        key.model(),
                    ) by {
                        if i < middle {
                            K::order_is_transitive(self.entries@[i].0.model(), m, key.model());
                        }
                    }
                }
                low = middle + 1;
            } else {
                proof {
                    assert forall|i: int| middle <= i < self.entries@.len() implies !K::before(
                        (#[trigger] self.entries@[i]).0.model(),
                        key.model(),
                    ) by {
                        if i > middle && K::before(self.entries@[i].0.model(), key.model()) {
                            K::order_is_transitive(m, self.entries@[i].0.model(), key.model());
                        }
                    }
                }
                high = middle;
            }
        }
        low
    }

    /// Where `key` stands, if it is held.
    fn place(&self, key: &K) -> (at: Option<usize>)
        ensures
            match at {
                Some(i) => i < self.entries@.len() && self.entries@[i as int].0.model()
                    == key.model(),
                None => forall|i: int|
                    0 <= i < self.entries@.len() ==> (#[trigger] self.entries@[i]).0.model()
                        != key.model(),
            },
    {
        let at: usize = self.rank(key);
        proof {
            use_type_invariant(self);
            K::order_is_total(key.model(), key.model());
        }
        if at < self.entries.len() && self.entries[at].0.same(key) {
            Some(at)
        } else {
            proof {
                assert forall|i: int| 0 <= i < self.entries@.len() implies (
                #[trigger] self.entries@[i]).0.model() != key.model() by {
                    if i > at && self.entries@[i].0.model() == key.model() {
                        let m = self.entries@[at as int].0.model();
                        assert(K::before(m, self.entries@[i].0.model()));
                    }
                }
            }
            None
        }
    }

    /// Whether `key` is held.
    pub fn contains_key(&self, key: &K) -> (held: bool)
        ensures
            held == self@.dom().contains(key.model()),
    {
        proof {
            use_type_invariant(self);
        }
        match self.place(key) {
            Some(i) => {
                proof {
                    lemma_place(self.entries@, i as int);
                }
                true
            },
            None => {
                proof {
                    lemma_absent(self.entries@, key.model());
                }
                false
            },
        }
    }

    /// What `key` is mapped to.
    pub fn get(&self, key: &K) -> (value: Option<&V>)
        ensures
            match value {
                Some(v) => self@.dom().contains(key.model()) && self@[key.model()] == *v,
                None => !self@.dom().contains(key.model()),
            },
    {
        proof {
            use_type_invariant(self);
        }
        match self.place(key) {
            Some(i) => {
                proof {
                    lemma_place(self.entries@, i as int);
                }
                Some(&self.entries[i].1)
            },
            None => {
                proof {
                    lemma_absent(self.entries@, key.model());
                }
                None
            },
        }
    }

    /// Maps `key` to `value`, handing back what it was mapped to before.
    pub fn insert(&mut self, key: K, value: V) -> (before: Option<V>)
        ensures
            final(self)@ == old(self)@.insert(key.model(), value),
            match before {
                Some(v) => old(self)@.dom().contains(key.model()) && old(self)@[key.model()] == v,
                None => !old(self)@.dom().contains(key.model()),
            },
            final(self)@.dom().finite(),
            final(self)@.dom().len() == old(self)@.dom().len() + if before is None {
                1nat
            } else {
                0nat
            },
    {
        proof {
            use_type_invariant(&*self);
            lemma_keys(self.entries@);
        }
        let ghost old_entries = self.entries@;
        let ghost k = key.model();
        let at: usize = self.rank(&key);
        let found = at < self.entries.len() && self.entries[at].0.same(&key);
        let mut entries: Vec<(K, V)> = Vec::new();
        std::mem::swap(&mut entries, &mut self.entries);
        proof {
            K::order_is_total(k, k);
        }
        let before = if found {
            let (_, was) = entries.remove(at);
            entries.insert(at, (key, value));
            Some(was)
        } else {
            entries.insert(at, (key, value));
            None
        };
        proof {
            if found {
                assert(entries@ =~= old_entries.update(at as int, (key, value)));
                lemma_place(old_entries, at as int);
            } else {
                assert(entries@ =~= old_entries.insert(at as int, (key, value)));
                assert forall|i: int| at <= i < old_entries.len() implies K::before(
                    k,
                    (#[trigger] old_entries[i]).0.model(),
                ) by {
                    K::order_is_total(k, old_entries[i].0.model());
                    if i > at {
                        K::order_is_total(k, old_entries[at as int].0.model());
                        K::order_is_transitive(
                            k,
                            old_entries[at as int].0.model(),
                            old_entries[i].0.model(),
                        );
                    }
                }
                assert forall|i: int| 0 <= i < old_entries.len() implies (
                #[trigger] old_entries[i]).0.model() != k by {
                    K::order_is_total(k, old_entries[i].0.model());
                }
                lemma_absent(old_entries, k);
            }
            assert(in_order(entries@));
            lemma_inserted(old_entries, entries@, at as int, found);
            lemma_keys(entries@);
        }
        self.entries = entries;
        before
    }

    /// Forgets `key`, handing back what it was mapped to.
    pub fn remove(&mut self, key: &K) -> (before: Option<V>)
        ensures
            final(self)@ == old(self)@.remove(key.model()),
            match before {
                Some(v) => old(self)@.dom().contains(key.model()) && old(self)@[key.model()] == v,
                None => !old(self)@.dom().contains(key.model()),
            },
            final(self)@.dom().finite(),
            final(self)@.dom().len() == old(self)@.dom().len() - if before is Some {
                1int
            } else {
                0int
            },
    {
        proof {
            use_type_invariant(&*self);
            lemma_keys(self.entries@);
        }
        let ghost old_entries = self.entries@;
        match self.place(key) {
            None => {
                proof {
                    lemma_absent(old_entries, key.model());
                    assert(self@.remove(key.model()) =~= self@);
                }
                None
            },
            Some(at) => {
                let mut entries: Vec<(K, V)> = Vec::new();
                std::mem::swap(&mut entries, &mut self.entries);
                let (_, was) = entries.remove(at);
                proof {
                    lemma_place(old_entries, at as int);
                    assert(entries@ =~= old_entries.remove(at as int));
                    assert(in_order(entries@));
                    lemma_removed(old_entries, entries@, at as int);
                    lemma_keys(entries@);
                }
                self.entries = entries;
                Some(was)
            },
        }
    }
}

impl<K: Ordered, V: Clone> Clone for OrderedMap<K, V> {
    fn clone(&self) -> (result: Self)
        ensures
            result@.dom() == self@.dom(),
            forall|key: K::Model|
                self@.dom().contains(key) ==> cloned(self@[key], #[trigger] result@[key]),
    {
        proof {
            use_type_invariant(self);
        }
        let mut entries: Vec<(K, V)> = Vec::new();
        let mut i: usize = 0;
        while i < self.entries.len()
            invariant
                i <= self.entries@.len(),
                entries@.len() == i,
                forall|j: int|
                    0 <= j < i ==> (#[trigger] entries@[j]).0.model()
                        == self.entries@[j].0.model() && cloned(self.entries@[j].1, entries@[j].1),
            decreases self.entries@.len() - i,
        {
            let entry = &self.entries[i];
            entries.push((entry.0.copied(), entry.1.clone()));
            i = i + 1;
        }
        proof {
            assert(keys_of(entries@) =~= keys_of(self.entries@));
            assert(in_order(entries@)) by {
                assert forall|i: int, j: int| 0 <= i < j < entries@.len() implies K::before(
                    (#[trigger] entries@[i]).0.model(),
                    (#[trigger] entries@[j]).0.model(),
                ) by {
                    assert(K::before(self.entries@[i].0.model(), self.entries@[j].0.model()));
                }
            }
            lemma_keys(entries@);
            lemma_keys(self.entries@);
            assert forall|key: K::Model| self@.dom().contains(key) implies cloned(
                self@[key],
                #[trigger] mapping(entries@)[key],
            ) by {
                let p = place_of(self.entries@, key);
                lemma_place(self.entries@, p);
                assert(entries@[p].0.model() == key);
                lemma_place(entries@, p);
            }
        }
        Self { entries }
    }
}

proof fn lemma_inserted<K: Ordered, V>(
    old_entries: Seq<(K, V)>,
    entries: Seq<(K, V)>,
    at: int,
    found: bool,
)
    requires
        in_order(old_entries),
        in_order(entries),
        0 <= at < entries.len(),
        found ==> at < old_entries.len() && entries == old_entries.update(at, entries[at])
            && old_entries[at].0.model() == entries[at].0.model(),
        !found ==> at <= old_entries.len() && entries == old_entries.insert(at, entries[at]),
    ensures
        mapping(entries) == mapping(old_entries).insert(entries[at].0.model(), entries[at].1),
{
    let k = entries[at].0.model();
    let v = entries[at].1;
    let after = mapping(old_entries).insert(k, v);
    lemma_place(entries, at);
    assert forall|key: K::Model| mapping(entries).dom().contains(key) <==> after.dom().contains(
        key,
    ) by {
        if mapping(entries).dom().contains(key) && key != k {
            let p = place_of(entries, key);
            let q = if found || p < at { p } else { p - 1 };
            assert(old_entries[q] == entries[p]);
            lemma_place(old_entries, q);
        }
        if mapping(old_entries).dom().contains(key) {
            let q = place_of(old_entries, key);
            let p = if found || q < at { q } else { q + 1 };
            if !(found && q == at) {
                assert(old_entries[q] == entries[p]);
            }
            lemma_place(entries, p);
        }
    }
    assert forall|key: K::Model| mapping(entries).dom().contains(key) implies mapping(entries)[key]
        == after[key] by {
        if key != k {
            let p = place_of(entries, key);
            let q = if found || p < at { p } else { p - 1 };
            assert(old_entries[q] == entries[p]);
            lemma_place(old_entries, q);
        }
    }
    assert(mapping(entries) =~= after);
}

proof fn lemma_removed<K: Ordered, V>(old_entries: Seq<(K, V)>, entries: Seq<(K, V)>, at: int)
    requires
        in_order(old_entries),
        in_order(entries),
        0 <= at < old_entries.len(),
        entries == old_entries.remove(at),
    ensures
        mapping(entries) == mapping(old_entries).remove(old_entries[at].0.model()),
{
    let k = old_entries[at].0.model();
    let after = mapping(old_entries).remove(k);
    lemma_place(old_entries, at);
    assert forall|key: K::Model| mapping(entries).dom().contains(key) <==> after.dom().contains(
        key,
    ) by {
        if mapping(entries).dom().contains(key) {
            let p = place_of(entries, key);
            let q = if p < at { p } else { p + 1 };
            assert(old_entries[q] == entries[p]);
            lemma_place(old_entries, q);
        }
        if after.dom().contains(key) {
            let q = place_of(old_entries, key);
            let p = if q < at { q } else { q - 1 };
            assert(old_entries[q] == entries[p]);
            lemma_place(entries, p);
        }
    }
    assert forall|key: K::Model| mapping(entries).dom().contains(key) implies mapping(entries)[key]
        == after[key] by {
        let p = place_of(entries, key);
        let q = if p < at { p } else { p + 1 };
        assert(old_entries[q] == entries[p]);
        lemma_place(old_entries, q);
    }
    assert(mapping(entries) =~= after);
}

/// A set that keeps its items in order.
#[derive(Debug, PartialEq, Eq, Hash)]
pub struct OrderedSet<K: Ordered> {
    map: OrderedMap<K, ()>,
}

impl<K: Ordered> OrderedSet<K> {
    /// What the set holds.
    pub closed spec fn view(&self) -> Set<K::Model> {
        self.map@.dom()
    }

    /// What the set holds, in order.
    pub closed spec fn listed(&self) -> Seq<K::Model> {
        keys_of(self.map.listed())
    }

    /// What the order of the list says: it holds each item once, in order.
    pub open spec fn is_listing(&self) -> bool {
        &&& forall|i: int, j: int|
            0 <= i < j < self.listed().len() ==> K::before(
                #[trigger] self.listed()[i],
                #[trigger] self.listed()[j],
            )
        &&& self.listed().no_duplicates()
        &&& self.listed().to_set() == self@
        &&& self@.finite()
        &&& self@.len() == self.listed().len()
    }

    /// An empty set.
    pub fn new() -> (set: Self)
        ensures
            set@ == Set::<K::Model>::empty(),
    {
        let set = Self { map: OrderedMap::new() };
        assert(set@ =~= Set::<K::Model>::empty());
        set
    }

    /// How many items are held.
    pub fn len(&self) -> (len: usize)
        ensures
            len == self@.len(),
            len == self.listed().len(),
            self.is_listing(),
    {
        self.map.len()
    }

    /// Whether nothing is held.
    pub fn is_empty(&self) -> (empty: bool)
        ensures
            empty == (self@ == Set::<K::Model>::empty()),
            empty == (self.listed().len() == 0),
    {
        let n: usize = self.len();
        proof {
            if n == 0 {
                assert(self@ =~= Set::<K::Model>::empty());
            }
        }
        n == 0
    }

    /// Whether `item` is held.
    pub fn contains(&self, item: &K) -> (held: bool)
        ensures
            held == self@.contains(item.model()),
    {
        self.map.contains_key(item)
    }

    /// The `i`th item in order.
    pub fn at(&self, i: usize) -> (item: &K)
        requires
            i < self.listed().len(),
        ensures
            item.model() == self.listed()[i as int],
            self.is_listing(),
            self@.contains(item.model()),
    {
        let n: usize = self.len();
        &self.map.at(i).0
    }

    /// The items, in order.
    pub fn items(&self) -> (items: Vec<&K>)
        ensures
            items@.len() == self.listed().len(),
            forall|i: int|
                0 <= i < items@.len() ==> (#[trigger] items@[i]).model() == self.listed()[i],
            self.is_listing(),
    {
        let n: usize = self.len();
        let mut items: Vec<&K> = Vec::new();
        let mut i: usize = 0;
        while i < n
            invariant
                n == self.listed().len(),
                i <= n,
                items@.len() == i,
                forall|j: int| 0 <= j < i ==> (#[trigger] items@[j]).model() == self.listed()[j],
            decreases n - i,
        {
            items.push(self.at(i));
            i = i + 1;
        }
        items
    }

    /// Adds `item`, and says whether it was not held before.
    pub fn insert(&mut self, item: K) -> (is_new: bool)
        ensures
            final(self)@ == old(self)@.insert(item.model()),
            is_new == !old(self)@.contains(item.model()),
            final(self)@.finite(),
            final(self)@.len() == old(self)@.len() + if is_new {
                1nat
            } else {
                0nat
            },
    {
        let before = self.map.insert(item, ());
        assert(self@ =~= old(self)@.insert(item.model()));
        before.is_none()
    }

    /// Adds what another set holds.
    pub fn absorb(&mut self, other: &OrderedSet<K>)
        ensures
            final(self)@ == old(self)@.union(other@),
    {
        let ghost here = self@;
        let n: usize = other.len();
        let mut i: usize = 0;
        while i < n
            invariant
                n == other.listed().len(),
                i <= n,
                self@ == here.union(other.listed().take(i as int).to_set()),
            decreases n - i,
        {
            let item = other.at(i).copied();
            self.insert(item);
            proof {
                let (was, now) = (other.listed().take(i as int), other.listed().take(i + 1));
                assert(now =~= was.push(item.model()));
                lemma_pushed(was, item.model());
                assert(self@ =~= here.union(now.to_set()));
            }
            i = i + 1;
        }
        proof {
            assert(other.listed().take(n as int) =~= other.listed());
        }
    }
}

/// What a list holds once one item more stands at its end.
proof fn lemma_pushed<A>(s: Seq<A>, x: A)
    ensures
        s.push(x).to_set() == s.to_set().insert(x),
{
    assert forall|y: A| #[trigger] s.push(x).to_set().contains(y) == s.to_set().insert(x).contains(
        y,
    ) by {
        assert(s.push(x)[s.len() as int] == x);
        if s.contains(y) {
            let j = choose|j: int| 0 <= j < s.len() && s[j] == y;
            assert(s.push(x)[j] == y);
        }
        if s.push(x).contains(y) && y != x {
            let j = choose|j: int| 0 <= j < s.push(x).len() && s.push(x)[j] == y;
            assert(s[j] == y);
        }
    }
    assert(s.push(x).to_set() =~= s.to_set().insert(x));
}

impl<K: Ordered> Clone for OrderedSet<K> {
    fn clone(&self) -> (result: Self)
        ensures
            result@ == self@,
    {
        Self { map: self.map.clone() }
    }
}

/// Items each held once, oldest first.
#[derive(Debug)]
pub struct Distinct<T: Same> {
    items: Vec<T>,
}

impl<T: Same> Distinct<T> {
    /// What is held.
    pub closed spec fn view(&self) -> Set<T::Model> {
        self.listed().to_set()
    }

    /// What is held, oldest first.
    pub closed spec fn listed(&self) -> Seq<T::Model> {
        self.items@.map(|i: int, item: T| item.model())
    }

    #[verifier::type_invariant]
    spec fn each_once(self) -> bool {
        self.listed().no_duplicates()
    }

    /// Nothing.
    pub fn new() -> (set: Self)
        ensures
            set@ == Set::<T::Model>::empty(),
    {
        let set = Self { items: Vec::new() };
        assert(set@ =~= Set::<T::Model>::empty());
        set
    }

    /// How many items are held.
    pub fn len(&self) -> (len: usize)
        ensures
            len == self@.len(),
            len == self.listed().len(),
            self.listed().no_duplicates(),
            self.listed().to_set() == self@,
    {
        proof {
            use_type_invariant(self);
            self.listed().unique_seq_to_set();
        }
        self.items.len()
    }

    /// Whether nothing is held.
    pub fn is_empty(&self) -> (empty: bool)
        ensures
            empty == (self@ == Set::<T::Model>::empty()),
    {
        let n: usize = self.len();
        proof {
            if n == 0 {
                assert(self@ =~= Set::<T::Model>::empty());
            } else {
                assert(self@.contains(self.listed()[0]));
            }
        }
        n == 0
    }

    /// The `i`th item, oldest first.
    pub fn at(&self, i: usize) -> (item: &T)
        requires
            i < self.listed().len(),
        ensures
            item.model() == self.listed()[i as int],
            self@.contains(item.model()),
    {
        assert(self.listed().contains(self.listed()[i as int]));
        &self.items[i]
    }

    /// Whether `item` is held.
    pub fn contains(&self, item: &T) -> (held: bool)
        ensures
            held == self@.contains(item.model()),
    {
        let mut i: usize = 0;
        while i < self.items.len()
            invariant
                i <= self.items@.len(),
                forall|j: int| 0 <= j < i ==> self.listed()[j] != item.model(),
            decreases self.items@.len() - i,
        {
            if self.items[i].same(item) {
                assert(self.listed()[i as int] == item.model());
                return true;
            }
            i = i + 1;
        }
        assert(!self.listed().contains(item.model()));
        false
    }

    /// Adds `item`, and says whether it was not held before.
    pub fn insert(&mut self, item: T) -> (is_new: bool)
        ensures
            final(self)@ == old(self)@.insert(item.model()),
            is_new == !old(self)@.contains(item.model()),
    {
        proof {
            use_type_invariant(&*self);
        }
        let ghost before = self.listed();
        if self.contains(&item) {
            assert(self@ =~= old(self)@.insert(item.model()));
            false
        } else {
            let mut items: Vec<T> = Vec::new();
            std::mem::swap(&mut items, &mut self.items);
            items.push(item);
            proof {
                let after = items@.map(|i: int, item: T| item.model());
                assert(after =~= before.push(item.model()));
                assert(!before.contains(item.model()));
                assert(after.no_duplicates());
                assert forall|m: T::Model| after.to_set().contains(m) <==> before.to_set().insert(
                    item.model(),
                ).contains(m) by {
                    if before.contains(m) {
                        let j = choose|j: int| 0 <= j < before.len() && before[j] == m;
                        assert(after[j] == m);
                    }
                    assert(after[before.len() as int] == item.model());
                }
                assert(after.to_set() =~= before.to_set().insert(item.model()));
            }
            self.items = items;
            true
        }
    }

    /// Adds what another holds.
    pub fn absorb(&mut self, other: &Distinct<T>)
        ensures
            final(self)@ == old(self)@.union(other@),
    {
        let ghost here = self@;
        let n: usize = other.len();
        let mut i: usize = 0;
        while i < n
            invariant
                n == other.listed().len(),
                i <= n,
                self@ == here.union(other.listed().take(i as int).to_set()),
            decreases n - i,
        {
            let item = other.at(i).copied();
            self.insert(item);
            proof {
                let (was, now) = (other.listed().take(i as int), other.listed().take(i + 1));
                assert(now =~= was.push(item.model()));
                lemma_pushed(was, item.model());
                assert(self@ =~= here.union(now.to_set()));
            }
            i = i + 1;
        }
        proof {
            assert(other.listed().take(n as int) =~= other.listed());
        }
    }
}

impl<T: Same> Clone for Distinct<T> {
    fn clone(&self) -> (result: Self)
        ensures
            result@ == self@,
            result.listed() == self.listed(),
    {
        proof {
            use_type_invariant(self);
        }
        let mut items: Vec<T> = Vec::new();
        let mut i: usize = 0;
        while i < self.items.len()
            invariant
                i <= self.items@.len(),
                items@.len() == i,
                forall|j: int|
                    0 <= j < i ==> (#[trigger] items@[j]).model() == self.items@[j].model(),
            decreases self.items@.len() - i,
        {
            items.push(self.items[i].copied());
            i = i + 1;
        }
        proof {
            assert(items@.map(|i: int, item: T| item.model()) =~= self.listed());
        }
        Self { items }
    }
}

// ---------------------------------------------------------------------------
// Putting a list in order by a number each item has
// ---------------------------------------------------------------------------

/// A list with one item more, after every item whose number is no greater.
pub open spec fn placed<A>(s: Seq<A>, x: A, key: spec_fn(A) -> int) -> Seq<A>
    decreases s.len(),
{
    if s.len() == 0 || key(s.last()) <= key(x) {
        s.push(x)
    } else {
        placed(s.drop_last(), x, key).push(s.last())
    }
}

/// A list in ascending order of its items' numbers, items of one number in the
/// order they were in.
pub open spec fn in_key_order<A>(s: Seq<A>, key: spec_fn(A) -> int) -> Seq<A>
    decreases s.len(),
{
    if s.len() == 0 {
        s
    } else {
        placed(in_key_order(s.drop_last(), key), s.last(), key)
    }
}

/// Whether a list ascends by its items' numbers.
pub open spec fn ascends<A>(s: Seq<A>, key: spec_fn(A) -> int) -> bool {
    forall|i: int, j: int| 0 <= i <= j < s.len() ==> key(#[trigger] s[i]) <= key(#[trigger] s[j])
}

/// Where an item is placed.
pub proof fn lemma_placed_at<A>(s: Seq<A>, x: A, key: spec_fn(A) -> int, at: int)
    requires
        0 <= at <= s.len(),
        at > 0 ==> key(s[at - 1]) <= key(x),
        forall|i: int| at <= i < s.len() ==> key(#[trigger] s[i]) > key(x),
    ensures
        placed(s, x, key) == s.insert(at, x),
    decreases s.len(),
{
    if at == s.len() {
        assert(s.insert(at, x) =~= s.push(x));
    } else {
        assert(key(s[s.len() - 1]) > key(x));
        lemma_placed_at(s.drop_last(), x, key, at);
        assert(s.drop_last().insert(at, x).push(s.last()) =~= s.insert(at, x));
    }
}

/// Placing an item keeps what a list holds, and the order it ascends in.
pub proof fn lemma_placed<A>(s: Seq<A>, x: A, key: spec_fn(A) -> int)
    ensures
        placed(s, x, key).to_multiset() == s.to_multiset().insert(x),
        placed(s, x, key).len() == s.len() + 1,
        ascends(s, key) ==> ascends(placed(s, x, key), key),
    decreases s.len(),
{
    broadcast use vstd::seq_lib::group_to_multiset_ensures;

    if s.len() == 0 || key(s.last()) <= key(x) {
        assert forall|i: int, j: int| ascends(s, key) && 0 <= i <= j < s.push(x).len() implies key(
            #[trigger] s.push(x)[i],
        ) <= key(#[trigger] s.push(x)[j]) by {
            if j == s.len() && i < j {
                assert(key(s[i]) <= key(s[s.len() - 1]));
            }
        }
    } else {
        let before = s.drop_last();
        let inner = placed(before, x, key);
        let all = inner.push(s.last());
        lemma_placed(before, x, key);
        assert(before.push(s.last()) =~= s);
        assert(all.to_multiset() =~= s.to_multiset().insert(x));
        if ascends(s, key) {
            assert forall|i: int, j: int| 0 <= i <= j < before.len() implies key(
                #[trigger] before[i],
            ) <= key(#[trigger] before[j]) by {
                assert(key(s[i]) <= key(s[j]));
            }
            assert forall|i: int| 0 <= i < inner.len() implies key(#[trigger] inner[i]) <= key(
                s.last(),
            ) by {
                assert(inner.to_multiset().contains(inner[i]));
                if inner[i] != x {
                    assert(before.to_multiset().contains(inner[i]));
                    assert(before.contains(inner[i]));
                    let k = choose|k: int| 0 <= k < before.len() && before[k] == inner[i];
                    assert(key(s[k]) <= key(s[s.len() - 1]));
                }
            }
            assert forall|i: int, j: int| 0 <= i <= j < all.len() implies key(#[trigger] all[i])
                <= key(#[trigger] all[j]) by {
                if j < inner.len() {
                    assert(key(inner[i]) <= key(inner[j]));
                }
            }
        }
    }
}

/// Putting a list in order keeps what it holds, and what it holds ascends.
pub proof fn lemma_in_key_order<A>(s: Seq<A>, key: spec_fn(A) -> int)
    ensures
        in_key_order(s, key).to_multiset() == s.to_multiset(),
        in_key_order(s, key).len() == s.len(),
        ascends(in_key_order(s, key), key),
    decreases s.len(),
{
    broadcast use vstd::seq_lib::group_to_multiset_ensures;

    if s.len() > 0 {
        lemma_in_key_order(s.drop_last(), key);
        lemma_placed(in_key_order(s.drop_last(), key), s.last(), key);
        assert(s.drop_last().push(s.last()) =~= s);
    }
}

} // verus!
