use std::collections::hash_map::Keys;
use std::collections::{HashMap, HashSet};
use std::hash::Hash;
use vstd::prelude::*;
use vstd::std_specs::hash::obeys_key_model;
use vstd::std_specs::iter::IteratorSpec;

verus! {

/// The values that the model `bag` holds for `key`: the empty set where the
/// key is absent.
pub open spec fn values_in<K, V>(bag: Map<K, Set<V>>, key: K) -> Set<V> {
    if bag.contains_key(key) {
        bag[key]
    } else {
        Set::empty()
    }
}

/// The model of a bag after `value` was inserted under `key`.
pub open spec fn with_pair<K, V>(bag: Map<K, Set<V>>, key: K, value: V) -> Map<K, Set<V>> {
    bag.insert(key, values_in(bag, key).insert(value))
}

/// Every key of the model `bag` has at least one value.
pub open spec fn no_empty_entry<K, V>(bag: Map<K, Set<V>>) -> bool {
    forall|k: K| #[trigger] bag.contains_key(k) ==> exists|v: V| bag[k].contains(v)
}

/// What an insertion does to the model: the key is there afterwards, with the
/// value among its values, and no other key is touched.
pub proof fn lemma_insert_adds_pair<K, V>(bag: Map<K, Set<V>>, key: K, value: V)
    ensures
        with_pair(bag, key, value).dom() == bag.dom().insert(key),
        values_in(with_pair(bag, key, value), key) == values_in(bag, key).insert(value),
        forall|other: K|
            other != key ==> #[trigger] values_in(with_pair(bag, key, value), other) == values_in(
                bag,
                other,
            ),
        no_empty_entry(bag) ==> no_empty_entry(with_pair(bag, key, value)),
{
    let after = with_pair(bag, key, value);
    assert(after.dom() =~= bag.dom().insert(key));
    if no_empty_entry(bag) {
        assert forall|k: K| #[trigger] after.contains_key(k) implies exists|v: V|
            after[k].contains(v) by {
            if k == key {
                assert(after[k].contains(value));
            } else {
                assert(bag.contains_key(k));
                let v = choose|v: V| bag[k].contains(v);
                assert(after[k].contains(v));
            }
        }
    }
}

/// Inserting a pair that is there already changes nothing: a value is
/// associated with a key once, however often it is inserted.
pub proof fn lemma_insert_twice<K, V>(bag: Map<K, Set<V>>, key: K, value: V)
    ensures
        with_pair(with_pair(bag, key, value), key, value) == with_pair(bag, key, value),
{
    let once = with_pair(bag, key, value);
    let twice = with_pair(once, key, value);
    assert(values_in(once, key).insert(value) =~= values_in(once, key));
    assert(twice =~= once);
}

/// Keys or values of the type `T` are hashed and compared as the model of
/// hash tables in `vstd` has it. The integer types are, among others. What
/// this module says of a bag holds for such keys and values.
pub open spec fn hashes_well<T>() -> bool {
    obeys_key_model::<T>()
}

/// A map from keys to sets of values: every value inserted under a key is
/// associated with that key, and inserting the same pair again changes nothing.
#[derive(Debug)]
pub struct KeyedBag<K: Eq + Hash, V: Eq + Hash> {
    /// The sets of values, by key. No key is held with an empty set.
    container: HashMap<K, HashSet<V>>,
    /// What `get` hands out for a key that was never inserted.
    empty_set: HashSet<V>,
}

impl<K: Eq + Hash, V: Eq + Hash> KeyedBag<K, V> {
    /// The set of values of each key that has any.
    pub closed spec fn view(&self) -> Map<K, Set<V>> {
        Map::new(|k: K| self.container@.contains_key(k), |k: K| self.container@[k]@)
    }

    #[verifier::type_invariant]
    spec fn wf(&self) -> bool {
        &&& self.empty_set@ =~= Set::<V>::empty()
        &&& hashes_well::<K>() && hashes_well::<V>() ==> forall|k: K| #[trigger]
            self.container@.contains_key(k) ==> exists|v: V| self.container@[k]@.contains(v)
    }

    /// A bag holds no key without a value.
    proof fn lemma_no_empty_entry(&self)
        requires
            self.wf(),
            hashes_well::<K>(),
            hashes_well::<V>(),
        ensures
            no_empty_entry(self@),
    {
        assert forall|k: K| #[trigger] self@.contains_key(k) implies exists|v: V|
            self@[k].contains(v) by {
            assert(self.container@.contains_key(k));
            let v = choose|v: V| self.container@[k]@.contains(v);
            assert(self@[k].contains(v));
        }
    }

    /// Creates a bag without keys.
    pub fn new() -> (bag: Self)
        ensures
            bag@ == Map::<K, Set<V>>::empty(),
    {
        let bag = KeyedBag { container: HashMap::new(), empty_set: HashSet::new() };
        assert(bag@ =~= Map::<K, Set<V>>::empty());
        bag
    }

    /// Associates `value` with `key`. A pair that is already there stays once.
    pub fn insert(&mut self, key: K, value: V)
        ensures
            hashes_well::<K>() && hashes_well::<V>() ==> final(self)@ == with_pair(
                old(self)@,
                key,
                value,
            ) && no_empty_entry(final(self)@),
    {
        proof {
            use_type_invariant(&*self);
        }
        let mut container = HashMap::new();
        std::mem::swap(&mut container, &mut self.container);
        let ghost before = container@;
        let values = container.entry(key).or_insert(HashSet::new());
        values.insert(value);
        proof {
            if hashes_well::<K>() && hashes_well::<V>() {
                let grown = (if before.contains_key(key) {
                    before[key]@
                } else {
                    Set::<V>::empty()
                }).insert(value);
                assert(container@.dom() =~= before.dom().insert(key));
                assert(container@[key]@ == grown);
                assert(container@[key]@.contains(value));
                assert forall|k: K| #[trigger] container@.contains_key(k) implies exists|v: V|
                    container@[k]@.contains(v) by {
                    if k != key {
                        assert(before.contains_key(k) && container@[k] == before[k]);
                    }
                }
            }
        }
        self.container = container;
        proof {
            if hashes_well::<K>() && hashes_well::<V>() {
                assert(self@ =~= with_pair(old(self)@, key, value));
                self.lemma_no_empty_entry();
            }
        }
    }

    /// The values associated with `key`: the empty set where there are none.
    pub fn get(&self, key: &K) -> (values: &HashSet<V>)
        ensures
            hashes_well::<K>() ==> values@ == values_in(self@, *key),
            hashes_well::<K>() && hashes_well::<V>() ==> no_empty_entry(self@),
    {
        proof {
            use_type_invariant(self);
            if hashes_well::<K>() && hashes_well::<V>() {
                self.lemma_no_empty_entry();
            }
        }
        match self.container.get(key) {
            None => &self.empty_set,
            Some(value) => value,
        }
    }

    /// The keys that have a value, each once, in no particular order.
    pub fn keys(&self) -> (keys: Keys<'_, K, HashSet<V>>)
        ensures
            hashes_well::<K>() ==> {
                &&& keys.remaining().unref().to_set() == self@.dom()
                &&& keys.remaining().no_duplicates()
                &&& keys.decrease() is Some
                &&& keys.initial_value_relation(&keys)
            },
            hashes_well::<K>() && hashes_well::<V>() ==> no_empty_entry(self@),
    {
        proof {
            use_type_invariant(self);
            if hashes_well::<K>() && hashes_well::<V>() {
                self.lemma_no_empty_entry();
            }
        }
        self.container.keys()
    }
}

/// Some element of `set`, and none only where the set is empty. Which one
/// it is is not said: it is the element where the set has exactly one.
pub fn first_from<T: Eq + Hash>(set: &HashSet<T>) -> (first: Option<&T>)
    requires
        hashes_well::<T>(),
    ensures
        match first {
            Some(element) => set@.contains(*element),
            None => set@ == Set::<T>::empty(),
        },
{
    let elements = set.iter();
    let ghost all = elements.remaining();
    for element in it: elements
        invariant
            it.seq() == all,
            all.unref().to_set() == set@,
            it.index() == 0,
    {
        proof {
            assert(all.unref()[0] == *element);
            assert(all.unref().to_set().contains(*element));
        }
        return Some(element);
    }
    proof {
        assert(all.unref() =~= Seq::<T>::empty());
        assert(set@ =~= Set::<T>::empty());
    }
    None
}

} // verus!
