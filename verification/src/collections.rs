//! Finite maps and sets keyed by strings, held in vectors in insertion order.

use vstd::prelude::*;

use crate::text::text_eq;

verus! {

/// Whether no two strings of `keys` hold the same text.
pub open spec fn distinct(keys: Seq<String>) -> bool {
    forall|i: int, j: int| 0 <= i < j < keys.len() ==> keys[i]@ != keys[j]@
}

/// The set of the texts of `keys`.
pub open spec fn text_set(keys: Seq<String>) -> Set<Seq<char>> {
    Set::new(|k: Seq<char>| exists|i: int| 0 <= i < keys.len() && keys[i]@ == k)
}

/// The position of the text `k` in `keys`.
pub open spec fn index_of(keys: Seq<String>, k: Seq<char>) -> int {
    choose|i: int| 0 <= i < keys.len() && keys[i]@ == k
}

/// The texts of `keys`, in order.
pub open spec fn texts(keys: Seq<String>) -> Seq<Seq<char>> {
    keys.map_values(|s: String| s@)
}

/// In a sequence of distinct strings, the position of a text is where it stands.
pub proof fn lemma_index_of(keys: Seq<String>, i: int)
    requires
        distinct(keys),
        0 <= i < keys.len(),
    ensures
        index_of(keys, keys[i]@) == i,
{
    let j = index_of(keys, keys[i]@);
    assert(0 <= j < keys.len() && keys[j]@ == keys[i]@);
}

/// Distinct strings have as many texts as there are strings.
pub proof fn lemma_text_set_len(keys: Seq<String>)
    requires
        distinct(keys),
    ensures
        text_set(keys).finite(),
        text_set(keys).len() == keys.len(),
    decreases keys.len(),
{
    if keys.len() == 0 {
        assert(text_set(keys) =~= Set::<Seq<char>>::empty());
    } else {
        let rest = keys.drop_last();
        assert(distinct(rest)) by {
            assert forall|i: int, j: int| 0 <= i < j < rest.len() implies rest[i]@ != rest[j]@ by {
                assert(rest[i] == keys[i] && rest[j] == keys[j]);
            }
        }
        lemma_text_set_len(rest);
        assert(text_set(keys) =~= text_set(rest).insert(keys.last()@)) by {
            assert forall|k: Seq<char>| text_set(rest).contains(k) implies #[trigger] text_set(keys).contains(k) by {
                let i = choose|i: int| 0 <= i < rest.len() && rest[i]@ == k;
                assert(keys[i] == rest[i]);
            }
            assert forall|k: Seq<char>| #[trigger] text_set(keys).contains(k) implies text_set(rest).contains(k)
                || k == keys.last()@ by {
                let i = choose|i: int| 0 <= i < keys.len() && keys[i]@ == k;
                if i < rest.len() {
                    assert(keys[i] == rest[i]);
                }
            }
        }
        assert(!text_set(rest).contains(keys.last()@)) by {
            if text_set(rest).contains(keys.last()@) {
                let i = choose|i: int| 0 <= i < rest.len() && rest[i]@ == keys.last()@;
                assert(keys[i] == rest[i]);
            }
        }
    }
}

/// A finite set of strings, each held once, in insertion order.
pub struct StrSet {
    items: Vec<String>,
}

impl StrSet {
    #[verifier::type_invariant]
    spec fn inv(self) -> bool {
        distinct(self.items@)
    }

    /// The strings held, in insertion order.
    pub closed spec fn items(self) -> Seq<String> {
        self.items@
    }

    /// The set of texts held.
    pub open spec fn view(self) -> Set<Seq<char>> {
        text_set(self.items())
    }

    /// The empty set.
    pub fn new() -> (s: Self)
        ensures
            s.view() == Set::<Seq<char>>::empty(),
            s.items().len() == 0,
    {
        let s = StrSet { items: Vec::new() };
        assert(s.view() =~= Set::<Seq<char>>::empty());
        s
    }

    /// The number of strings held; also states that they are distinct.
    pub fn len(&self) -> (n: usize)
        ensures
            n == self.items().len(),
            distinct(self.items()),
    {
        proof { use_type_invariant(self); }
        self.items.len()
    }

    /// The `i`-th string in insertion order.
    pub fn item_at(&self, i: usize) -> (s: &String)
        requires
            i < self.items().len(),
        ensures
            *s == self.items()[i as int],
    {
        &self.items[i]
    }

    fn position(&self, key: &str) -> (r: Option<usize>)
        ensures
            match r {
                Some(i) => i < self.items@.len() && self.items@[i as int]@ == key@,
                None => !self.view().contains(key@),
            },
    {
        let mut i: usize = 0;
        while i < self.items.len()
            invariant
                i <= self.items@.len(),
                forall|j: int| 0 <= j < i ==> self.items@[j]@ != key@,
            decreases self.items@.len() - i,
        {
            if text_eq(self.items[i].as_str(), key) {
                return Some(i);
            }
            i = i + 1;
        }
        None
    }

    /// Whether the text of `key` is held.
    pub fn contains(&self, key: &str) -> (r: bool)
        ensures
            r == self.view().contains(key@),
    {
        self.position(key).is_some()
    }

    /// Adds the text of `key`; a text already held stays where it was.
    pub fn insert(&mut self, key: &str)
        ensures
            final(self).view() == old(self).view().insert(key@),
            old(self).view().contains(key@) ==> final(self).items() == old(self).items(),
            !old(self).view().contains(key@) ==> final(self).items().len() == old(self).items().len() + 1
                && final(self).items().drop_last() == old(self).items()
                && final(self).items().last()@ == key@,
    {
        proof { use_type_invariant(&*self); }
        if self.position(key).is_none() {
            let mut items: Vec<String> = Vec::new();
            std::mem::swap(&mut items, &mut self.items);
            items.push(key.to_owned());
            self.items = items;
            assert(self.items@.drop_last() =~= old(self).items@);
            assert(self.view() =~= old(self).view().insert(key@)) by {
                assert(self.items@.last()@ == key@);
                assert(forall|j: int| 0 <= j < old(self).items@.len() ==> self.items@[j] == old(self).items@[j]);
            }
        } else {
            assert(self.view() =~= old(self).view().insert(key@));
        }
    }

    /// Removes the text of `key`, if held; the others keep their order.
    pub fn remove(&mut self, key: &str)
        ensures
            final(self).view() == old(self).view().remove(key@),
    {
        proof { use_type_invariant(&*self); }
        match self.position(key) {
            Some(i) => {
                let mut items: Vec<String> = Vec::new();
                std::mem::swap(&mut items, &mut self.items);
                let ghost before = items@;
                items.remove(i);
                assert(distinct(items@)) by {
                    assert forall|a: int, b: int| 0 <= a < b < items@.len() implies items@[a]@ != items@[b]@ by {
                        let a0 = if a < i { a } else { a + 1 };
                        let b0 = if b < i { b } else { b + 1 };
                        assert(items@[a] == before[a0]);
                        assert(items@[b] == before[b0]);
                    }
                }
                self.items = items;
                assert(self.view() =~= old(self).view().remove(key@)) by {
                    assert forall|k: Seq<char>| self.view().contains(k) implies old(self).view().remove(key@).contains(k) by {
                        let j = choose|j: int| 0 <= j < self.items@.len() && self.items@[j]@ == k;
                        let j0 = if j < i { j } else { j + 1 };
                        assert(self.items@[j] == before[j0]);
                    }
                    assert forall|k: Seq<char>| old(self).view().remove(key@).contains(k) implies self.view().contains(k) by {
                        let j = choose|j: int| 0 <= j < before.len() && before[j]@ == k;
                        assert(j != i);
                        let j1 = if j < i { j } else { j - 1 };
                        assert(self.items@[j1] == before[j]);
                    }
                }
            },
            None => {
                assert(self.view() =~= old(self).view().remove(key@));
            },
        }
    }

    /// A copy of the strings held, in insertion order.
    pub fn to_vec(&self) -> (v: Vec<String>)
        ensures
            v@ == self.items(),
            distinct(v@),
    {
        proof { use_type_invariant(self); }
        self.items.clone()
    }
}

/// A finite map from strings to values, each key held once, in insertion order.
#[verifier::reject_recursive_types(T)]
pub struct StrMap<T> {
    keys: Vec<String>,
    vals: Vec<T>,
}

impl<T> StrMap<T> {
    #[verifier::type_invariant]
    spec fn inv(self) -> bool {
        &&& self.keys@.len() == self.vals@.len()
        &&& distinct(self.keys@)
    }

    /// The keys held, in insertion order.
    pub closed spec fn keys(self) -> Seq<String> {
        self.keys@
    }

    /// The values held, in the order of their keys.
    pub closed spec fn values(self) -> Seq<T> {
        self.vals@
    }

    /// The map from the text of each key to its value.
    pub open spec fn view(self) -> Map<Seq<char>, T> {
        Map::new(
            |k: Seq<char>| text_set(self.keys()).contains(k),
            |k: Seq<char>| self.values()[index_of(self.keys(), k)],
        )
    }

    /// The empty map.
    pub fn new() -> (m: Self)
        ensures
            m.view() == Map::<Seq<char>, T>::empty(),
            m.keys().len() == 0,
            m.values().len() == 0,
    {
        let m = StrMap { keys: Vec::new(), vals: Vec::new() };
        assert(m.view() =~= Map::<Seq<char>, T>::empty());
        m
    }

    /// The number of entries; also states how the entries make up the map.
    pub fn len(&self) -> (n: usize)
        ensures
            n == self.keys().len(),
            n == self.values().len(),
            distinct(self.keys()),
            self.view().dom() == text_set(self.keys()),
            forall|i: int| 0 <= i < n ==> #[trigger] self.view()[self.keys()[i]@] == self.values()[i],
    {
        proof {
            use_type_invariant(self);
            assert forall|i: int| 0 <= i < self.keys@.len() implies #[trigger] self.view()[self.keys()[i]@]
                == self.values()[i] by {
                lemma_index_of(self.keys@, i);
            }
        }
        self.keys.len()
    }

    /// The key of the `i`-th entry.
    pub fn key_at(&self, i: usize) -> (k: &String)
        requires
            i < self.keys().len(),
        ensures
            *k == self.keys()[i as int],
    {
        proof { use_type_invariant(self); }
        &self.keys[i]
    }

    /// The value of the `i`-th entry.
    pub fn value_at(&self, i: usize) -> (v: &T)
        requires
            i < self.keys().len(),
        ensures
            *v == self.values()[i as int],
    {
        proof { use_type_invariant(self); }
        &self.vals[i]
    }

    /// The position of the entry whose key has the text of `key`.
    pub fn find(&self, key: &str) -> (r: Option<usize>)
        ensures
            match r {
                Some(i) => i < self.keys().len() && self.keys()[i as int]@ == key@,
                None => !self.view().contains_key(key@),
            },
    {
        let mut i: usize = 0;
        while i < self.keys.len()
            invariant
                i <= self.keys@.len(),
                forall|j: int| 0 <= j < i ==> self.keys@[j]@ != key@,
            decreases self.keys@.len() - i,
        {
            if text_eq(self.keys[i].as_str(), key) {
                return Some(i);
            }
            i = i + 1;
        }
        None
    }

    /// Whether the text of `key` is a key.
    pub fn contains_key(&self, key: &str) -> (r: bool)
        ensures
            r == self.view().contains_key(key@),
    {
        self.find(key).is_some()
    }

    /// The value of `key`, if it is a key.
    pub fn get(&self, key: &str) -> (r: Option<&T>)
        ensures
            match r {
                Some(v) => self.view().contains_key(key@) && *v == self.view()[key@],
                None => !self.view().contains_key(key@),
            },
    {
        proof { use_type_invariant(self); }
        match self.find(key) {
            Some(i) => {
                proof { lemma_index_of(self.keys@, i as int); }
                Some(&self.vals[i])
            },
            None => None,
        }
    }

    /// Removes the entry of `key`, if any, and gives back its value; the other
    /// entries keep their order.
    pub fn remove(&mut self, key: &str) -> (r: Option<T>)
        ensures
            final(self).view() == old(self).view().remove(key@),
            match r {
                Some(v) => old(self).view().contains_key(key@) && v == old(self).view()[key@],
                None => !old(self).view().contains_key(key@),
            },
    {
        proof { use_type_invariant(&*self); }
        let mut taken = StrMap { keys: Vec::new(), vals: Vec::new() };
        std::mem::swap(&mut taken, self);
        let StrMap { keys: mut keys, vals: mut vals } = taken;
        let ghost ok = keys@;
        let ghost ov = vals@;
        match position_in(&keys, key) {
            Some(i) => {
                keys.remove(i);
                let v = vals.remove(i);
                assert(distinct(keys@)) by {
                    assert forall|a: int, b: int| 0 <= a < b < keys@.len() implies keys@[a]@ != keys@[b]@ by {
                        let a0 = if a < i { a } else { a + 1 };
                        let b0 = if b < i { b } else { b + 1 };
                        assert(keys@[a] == ok[a0]);
                        assert(keys@[b] == ok[b0]);
                    }
                }
                *self = StrMap { keys, vals };
                proof {
                    lemma_index_of(ok, i as int);
                    assert forall|k: Seq<char>| #[trigger] text_set(self.keys@).contains(k) implies text_set(ok).contains(k)
                        && k != key@ && self.view()[k] == old(self).view()[k] by {
                        let j = choose|j: int| 0 <= j < self.keys@.len() && self.keys@[j]@ == k;
                        let j0 = if j < i { j } else { j + 1 };
                        assert(self.keys@[j] == ok[j0]);
                        lemma_index_of(self.keys@, j);
                        lemma_index_of(ok, j0);
                    }
                    assert forall|k: Seq<char>| #[trigger] text_set(ok).contains(k) && k != key@ implies text_set(
                        self.keys@,
                    ).contains(k) by {
                        let j = choose|j: int| 0 <= j < ok.len() && ok[j]@ == k;
                        assert(j != i);
                        let j1 = if j < i { j } else { j - 1 };
                        assert(self.keys@[j1] == ok[j]);
                    }
                    assert(self.view() =~= old(self).view().remove(key@));
                }
                Some(v)
            },
            None => {
                *self = StrMap { keys, vals };
                assert(self.view() =~= old(self).view().remove(key@));
                None
            },
        }
    }

    /// Sets the value of `key`; a key already held keeps its place, a new one goes last.
    pub fn insert(&mut self, key: &str, value: T)
        ensures
            final(self).view() == old(self).view().insert(key@, value),
            old(self).view().contains_key(key@) ==> final(self).keys() == old(self).keys(),
            !old(self).view().contains_key(key@) ==> final(self).keys().len() == old(self).keys().len() + 1
                && final(self).keys().drop_last() == old(self).keys()
                && final(self).keys().last()@ == key@,
            old(self).view().contains_key(key@) ==> final(self).values() == old(self).values().update(
                index_of(old(self).keys(), key@),
                value,
            ),
            !old(self).view().contains_key(key@) ==> final(self).values() == old(self).values().push(value),
    {
        proof { use_type_invariant(&*self); }
        let mut taken = StrMap { keys: Vec::new(), vals: Vec::new() };
        std::mem::swap(&mut taken, self);
        let StrMap { keys: mut keys, vals: mut vals } = taken;
        let ghost old_keys = keys@;
        let ghost old_vals = vals@;
        match position_in(&keys, key) {
            Some(i) => {
                proof { lemma_index_of(old_keys, i as int); }
                vals.set(i, value);
                *self = StrMap { keys, vals };
                assert(self.view() =~= old(self).view().insert(key@, value)) by {
                    lemma_index_of(old_keys, i as int);
                    assert forall|k: Seq<char>| #[trigger] text_set(old_keys).contains(k) && k != key@
                        implies self.view()[k] == old(self).view()[k] by {
                        let j = index_of(old_keys, k);
                        assert(j != i);
                    }
                }
            },
            None => {
                keys.push(key.to_owned());
                vals.push(value);
                assert(keys@.drop_last() =~= old_keys);
                assert(distinct(keys@)) by {
                    assert forall|a: int, b: int| 0 <= a < b < keys@.len() implies keys@[a]@ != keys@[b]@ by {
                        if b == old_keys.len() {
                            assert(keys@[a] == old_keys[a]);
                        } else {
                            assert(keys@[a] == old_keys[a]);
                            assert(keys@[b] == old_keys[b]);
                        }
                    }
                }
                *self = StrMap { keys, vals };
                assert(self.view() =~= old(self).view().insert(key@, value)) by {
                    let n = old_keys.len() as int;
                    assert(self.keys@[n]@ == key@);
                    lemma_index_of(self.keys@, n);
                    assert forall|k: Seq<char>| text_set(old_keys).contains(k) implies #[trigger] self.view()[k]
                        == old(self).view()[k] by {
                        let j = index_of(old_keys, k);
                        assert(self.keys@[j] == old_keys[j]);
                        lemma_index_of(self.keys@, j);
                    }
                    assert forall|k: Seq<char>| #[trigger] text_set(self.keys@).contains(k) implies
                        text_set(old_keys).contains(k) || k == key@ by {
                        let j = choose|j: int| 0 <= j < self.keys@.len() && self.keys@[j]@ == k;
                        if j < n {
                            assert(self.keys@[j] == old_keys[j]);
                        }
                    }
                    assert forall|k: Seq<char>| text_set(old_keys).contains(k) implies
                        #[trigger] text_set(self.keys@).contains(k) by {
                        let j = index_of(old_keys, k);
                        assert(self.keys@[j] == old_keys[j]);
                    }
                }
            },
        }
    }
}

fn position_in(keys: &Vec<String>, key: &str) -> (r: Option<usize>)
    ensures
        match r {
            Some(i) => i < keys@.len() && keys@[i as int]@ == key@,
            None => forall|j: int| 0 <= j < keys@.len() ==> keys@[j]@ != key@,
        },
{
    let mut i: usize = 0;
    while i < keys.len()
        invariant
            i <= keys@.len(),
            forall|j: int| 0 <= j < i ==> keys@[j]@ != key@,
        decreases keys@.len() - i,
    {
        if text_eq(keys[i].as_str(), key) {
            return Some(i);
        }
        i = i + 1;
    }
    None
}

} // verus!
