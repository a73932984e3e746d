//! A map from text to text that remembers the order in which its keys came.

use vstd::hash_map::StringHashMap;
use vstd::prelude::*;

verus! {

/// `key` is the key of the pair at position `i`.
pub open spec fn key_at(pairs: Seq<(Seq<char>, Seq<char>)>, key: Seq<char>, i: int) -> bool {
    0 <= i < pairs.len() && pairs[i].0 == key
}

/// `key` is the key of some pair.
pub open spec fn has_key(pairs: Seq<(Seq<char>, Seq<char>)>, key: Seq<char>) -> bool {
    exists|i: int| key_at(pairs, key, i)
}

/// No key occurs twice.
pub open spec fn distinct_keys(pairs: Seq<(Seq<char>, Seq<char>)>) -> bool {
    forall|i: int, j: int|
        0 <= i < j < pairs.len() ==> (#[trigger] pairs[i]).0 != (#[trigger] pairs[j]).0
}

/// The map that a list of pairs stands for.
pub open spec fn as_map(pairs: Seq<(Seq<char>, Seq<char>)>) -> Map<Seq<char>, Seq<char>> {
    Map::new(
        |key: Seq<char>| has_key(pairs, key),
        |key: Seq<char>| pairs[choose|i: int| key_at(pairs, key, i)].1,
    )
}

/// The pairs after `key` was given `value`: in its old place if it was there,
/// at the end if it is new.
pub open spec fn with_pair(
    pairs: Seq<(Seq<char>, Seq<char>)>,
    key: Seq<char>,
    value: Seq<char>,
) -> Seq<(Seq<char>, Seq<char>)> {
    if has_key(pairs, key) {
        pairs.update(choose|i: int| key_at(pairs, key, i), (key, value))
    } else {
        pairs.push((key, value))
    }
}

/// Where keys are distinct, the pair at a position is the key's entry in the map.
pub proof fn lemma_pair_in_map(pairs: Seq<(Seq<char>, Seq<char>)>, i: int)
    requires
        distinct_keys(pairs),
        0 <= i < pairs.len(),
    ensures
        as_map(pairs).contains_key(pairs[i].0),
        as_map(pairs)[pairs[i].0] == pairs[i].1,
{
    let key = pairs[i].0;
    assert(key_at(pairs, key, i));
    let k = choose|k: int| key_at(pairs, key, k);
    assert(k == i) by {
        if k < i {
            assert(pairs[k].0 != pairs[i].0);
        }
        if i < k {
            assert(pairs[i].0 != pairs[k].0);
        }
    }
}

/// Giving a key a value keeps keys distinct and is insertion into the map.
pub proof fn lemma_with_pair(
    pairs: Seq<(Seq<char>, Seq<char>)>,
    key: Seq<char>,
    value: Seq<char>,
)
    requires
        distinct_keys(pairs),
    ensures
        distinct_keys(with_pair(pairs, key, value)),
        as_map(with_pair(pairs, key, value)) == as_map(pairs).insert(key, value),
{
    let next = with_pair(pairs, key, value);
    if has_key(pairs, key) {
        let at = choose|i: int| key_at(pairs, key, i);
        assert(key_at(pairs, key, at));
        assert(forall|i: int| 0 <= i < pairs.len() ==> (#[trigger] next[i]).0 == pairs[i].0);
    } else {
        assert forall|i: int| 0 <= i < pairs.len() implies (#[trigger] next[i]).0 != key by {
            assert(!key_at(pairs, key, i));
        }
    }
    assert(distinct_keys(next)) by {
        assert forall|i: int, j: int| 0 <= i < j < next.len() implies (#[trigger] next[i]).0 != (
        #[trigger] next[j]).0 by {
            if has_key(pairs, key) {
                assert(pairs[i].0 != pairs[j].0);
            } else if j < pairs.len() {
                assert(pairs[i].0 != pairs[j].0);
            }
        }
    }
    assert forall|k: Seq<char>|
        as_map(next).contains_key(k) == #[trigger] as_map(pairs).insert(key, value).contains_key(
            k,
        ) by {
        if has_key(next, k) {
            let i = choose|i: int| key_at(next, k, i);
            if i < pairs.len() {
                assert(key_at(pairs, k, i));
            }
        }
        if has_key(pairs, k) {
            let i = choose|i: int| key_at(pairs, k, i);
            assert(key_at(next, k, i));
        }
        if k == key {
            if has_key(pairs, key) {
                let i = choose|i: int| key_at(pairs, key, i);
                assert(key_at(next, key, i));
            } else {
                assert(key_at(next, key, pairs.len() as int));
            }
        }
    }
    assert forall|k: Seq<char>| #[trigger] as_map(next).contains_key(k) implies as_map(next)[k]
        == as_map(pairs).insert(key, value)[k] by {
        let i = choose|i: int| key_at(next, k, i);
        lemma_pair_in_map(next, i);
        if k == key {
            if has_key(pairs, key) {
                let at = choose|j: int| key_at(pairs, key, j);
                assert(key_at(pairs, key, at));
                lemma_pair_in_map(next, at);
            } else {
                lemma_pair_in_map(next, pairs.len() as int);
            }
        } else {
            assert(key_at(pairs, k, i));
            lemma_pair_in_map(pairs, i);
        }
    }
    assert(as_map(next) =~= as_map(pairs).insert(key, value));
}

/// A map from text to text. Its view is the map; `pairs` also gives the order
/// in which the keys first came.
pub struct NameMap {
    index: StringHashMap<usize>,
    entries: Vec<(String, String)>,
}

impl View for NameMap {
    type V = Map<Seq<char>, Seq<char>>;

    open spec fn view(&self) -> Map<Seq<char>, Seq<char>> {
        as_map(self.pairs())
    }
}

impl NameMap {
    /// The pairs in the order in which their keys first came.
    pub closed spec fn pairs(self) -> Seq<(Seq<char>, Seq<char>)> {
        self.entries@.map_values(|e: (String, String)| (e.0@, e.1@))
    }

    /// The index gives the place of every key, and of nothing else.
    #[verifier::type_invariant]
    spec fn indexed(self) -> bool {
        &&& forall|i: int|
            0 <= i < self.entries@.len() ==> {
                &&& self.index@.contains_key((#[trigger] self.entries@[i]).0@)
                &&& self.index@[self.entries@[i].0@] == i
            }
        &&& forall|key: Seq<char>| #[trigger]
            self.index@.contains_key(key) ==> {
                &&& self.index@[key] < self.entries@.len()
                &&& self.entries@[self.index@[key] as int].0@ == key
            }
    }

    proof fn lemma_distinct(self)
        requires
            self.indexed(),
        ensures
            distinct_keys(self.pairs()),
    {
        assert forall|i: int, j: int| 0 <= i < j < self.pairs().len() implies (
        #[trigger] self.pairs()[i]).0 != (#[trigger] self.pairs()[j]).0 by {
            assert(self.index@[self.entries@[i].0@] == i);
            assert(self.index@[self.entries@[j].0@] == j);
        }
    }

    /// The empty map.
    pub fn new() -> (m: NameMap)
        ensures
            m.pairs() == Seq::<(Seq<char>, Seq<char>)>::empty(),
            m@ == Map::<Seq<char>, Seq<char>>::empty(),
    {
        let m = NameMap { index: StringHashMap::new(), entries: Vec::new() };
        assert(m.pairs() =~= Seq::empty());
        assert(m@ =~= Map::empty());
        m
    }

    /// The number of keys.
    pub fn len(&self) -> (n: usize)
        ensures
            n == self.pairs().len(),
            distinct_keys(self.pairs()),
    {
        proof {
            use_type_invariant(self);
            self.lemma_distinct();
        }
        self.entries.len()
    }

    /// The key at a position.
    pub fn key(&self, i: usize) -> (k: &String)
        requires
            i < self.pairs().len(),
        ensures
            k@ == self.pairs()[i as int].0,
    {
        &self.entries[i].0
    }

    /// The value of the key at a position.
    pub fn value(&self, i: usize) -> (v: &String)
        requires
            i < self.pairs().len(),
        ensures
            v@ == self.pairs()[i as int].1,
    {
        &self.entries[i].1
    }

    /// Whether `key` has a value.
    pub fn contains_key(&self, key: &str) -> (yes: bool)
        ensures
            yes == self@.contains_key(key@),
    {
        match self.get(key) {
            Some(_) => true,
            None => false,
        }
    }

    /// The value of `key`.
    pub fn get(&self, key: &str) -> (value: Option<&String>)
        ensures
            match value {
                Some(v) => self@.contains_key(key@) && self@[key@] == v@,
                None => !self@.contains_key(key@),
            },
    {
        proof {
            use_type_invariant(self);
            self.lemma_distinct();
        }
        match self.index.get(key) {
            Some(i) => {
                proof {
                    lemma_pair_in_map(self.pairs(), *i as int);
                }
                Some(&self.entries[*i].1)
            },
            None => {
                proof {
                    if has_key(self.pairs(), key@) {
                        let i = choose|i: int| key_at(self.pairs(), key@, i);
                        assert(self.entries@[i].0@ == key@);
                    }
                }
                None
            },
        }
    }

    /// Gives `key` a value, in place of the one that it may have had.
    pub fn insert(&mut self, key: String, value: String)
        ensures
            final(self)@ == old(self)@.insert(key@, value@),
            final(self).pairs() == with_pair(old(self).pairs(), key@, value@),
    {
        proof {
            use_type_invariant(&*self);
            self.lemma_distinct();
            lemma_with_pair(self.pairs(), key@, value@);
        }
        let ghost before = *self;
        let mut taken = NameMap::new();
        core::mem::swap(self, &mut taken);
        let NameMap { mut index, mut entries } = taken;
        match index.get(key.as_str()) {
            Some(place) => {
                let i: usize = *place;
                proof {
                    assert(before.entries@[i as int].0@ == key@);
                    assert(key_at(before.pairs(), key@, i as int));
                    let at = choose|j: int| key_at(before.pairs(), key@, j);
                    assert(key_at(before.pairs(), key@, at));
                    assert(before.index@[before.entries@[at].0@] == at);
                }
                entries.set(i, (key, value));
                *self = NameMap { index, entries };
            },
            None => {
                proof {
                    if has_key(before.pairs(), key@) {
                        let i = choose|i: int| key_at(before.pairs(), key@, i);
                        assert(before.entries@[i].0@ == key@);
                    }
                }
                let i = entries.len();
                index.insert(key.clone(), i);
                entries.push((key, value));
                *self = NameMap { index, entries };
            },
        }
        assert(self.pairs() =~= with_pair(before.pairs(), key@, value@));
    }
}

impl Clone for NameMap {
    fn clone(&self) -> (m: NameMap)
        ensures
            m.pairs() == self.pairs(),
            m@ == self@,
    {
        let mut m = NameMap::new();
        let n = self.len();
        for i in 0..n
            invariant
                n == self.pairs().len(),
                distinct_keys(self.pairs()),
                m.pairs() == self.pairs().take(i as int),
        {
            proof {
                let done = self.pairs().take(i as int);
                assert forall|j: int| !key_at(done, self.pairs()[i as int].0, j) by {
                    if 0 <= j < i {
                        assert(done[j] == self.pairs()[j]);
                        assert(self.pairs()[j].0 != self.pairs()[i as int].0);
                    }
                }
            }
            m.insert(self.key(i).clone(), self.value(i).clone());
            assert(m.pairs() =~= self.pairs().take(i + 1));
        }
        assert(self.pairs().take(n as int) =~= self.pairs());
        m
    }
}

// ---------------------------------------------------------------------------
// Laws

/// The map has exactly the keys of the pairs.
pub proof fn keys_are_those_of_pairs(pairs: Seq<(Seq<char>, Seq<char>)>, key: Seq<char>)
    ensures
        as_map(pairs).contains_key(key) <==> exists|i: int|
            0 <= i < pairs.len() && (#[trigger] pairs[i]).0 == key,
{
    if has_key(pairs, key) {
        let i = choose|i: int| key_at(pairs, key, i);
        assert(pairs[i].0 == key);
    }
    if exists|i: int| 0 <= i < pairs.len() && (#[trigger] pairs[i]).0 == key {
        let i = choose|i: int| 0 <= i < pairs.len() && (#[trigger] pairs[i]).0 == key;
        assert(key_at(pairs, key, i));
    }
}

/// A new key comes last; a known one keeps its place, and the others keep their
/// places and values.
pub proof fn pairs_keep_their_places(
    pairs: Seq<(Seq<char>, Seq<char>)>,
    key: Seq<char>,
    value: Seq<char>,
)
    ensures
        !(exists|i: int| 0 <= i < pairs.len() && (#[trigger] pairs[i]).0 == key) ==> with_pair(
            pairs,
            key,
            value,
        ) == pairs.push((key, value)),
        (exists|i: int| 0 <= i < pairs.len() && (#[trigger] pairs[i]).0 == key) ==> with_pair(
            pairs,
            key,
            value,
        ).len() == pairs.len(),
        forall|i: int|
            0 <= i < pairs.len() ==> (#[trigger] with_pair(pairs, key, value)[i]).0 == pairs[i].0
                && (pairs[i].0 != key ==> with_pair(pairs, key, value)[i].1 == pairs[i].1),
{
    keys_are_those_of_pairs(pairs, key);
    if has_key(pairs, key) {
        let at = choose|i: int| key_at(pairs, key, i);
        assert(key_at(pairs, key, at));
    }
}

} // verus!
