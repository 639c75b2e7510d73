//! A map keyed by text that remembers the order of its keys.

use crate::text::same_text;
use vstd::prelude::*;

verus! {

/// A map from text to values. The keys are kept in the order in which they were
/// first inserted; inserting under a known key replaces its value.
pub struct TextMap<V> {
    keys: Vec<String>,
    values: Vec<V>,
}

spec fn keys_distinct(keys: Seq<String>) -> bool {
    forall|i: int, j: int| 0 <= i < j < keys.len() ==> (#[trigger] keys[i])@ != (#[trigger] keys[j])@
}

spec fn key_position(keys: Seq<String>, key: Seq<char>) -> int {
    choose|i: int| 0 <= i < keys.len() && (#[trigger] keys[i])@ == key
}

spec fn has_key(keys: Seq<String>, key: Seq<char>) -> bool {
    exists|i: int| 0 <= i < keys.len() && (#[trigger] keys[i])@ == key
}

/// Whether `order` lists the keys of a map, each once.
pub open spec fn lists_keys<V>(order: Seq<Seq<char>>, map: Map<Seq<char>, V>) -> bool {
    &&& order.no_duplicates()
    &&& forall|k: Seq<char>| #[trigger] map.dom().contains(k) <==> order.contains(k)
}

impl<V> View for TextMap<V> {
    type V = Map<Seq<char>, V>;

    closed spec fn view(&self) -> Map<Seq<char>, V> {
        Map::new(
            |k: Seq<char>| has_key(self.keys@, k),
            |k: Seq<char>| self.values@[key_position(self.keys@, k)],
        )
    }
}

impl<V> TextMap<V> {
    #[verifier::type_invariant]
    spec fn inv(self) -> bool {
        keys_distinct(self.keys@) && self.keys@.len() == self.values@.len()
    }

    /// The keys in the order in which they were first inserted.
    pub closed spec fn order(self) -> Seq<Seq<char>> {
        self.keys@.map_values(|k: String| k@)
    }

    /// A map without entries.
    pub fn new() -> (r: TextMap<V>)
        ensures
            r@ == Map::<Seq<char>, V>::empty(),
            r.order() == Seq::<Seq<char>>::empty(),
    {
        let r = TextMap { keys: Vec::new(), values: Vec::new() };
        proof {
            assert(r@ =~= Map::empty());
            assert(r.order() =~= Seq::empty());
        }
        r
    }

    fn position(&self, key: &str) -> (r: Option<usize>)
        ensures
            match r {
                Some(i) => i < self.keys@.len() && self.keys@[i as int]@ == key@,
                None => !has_key(self.keys@, key@),
            },
    {
        let mut i: usize = 0;
        while i < self.keys.len()
            invariant
                i <= self.keys@.len(),
                forall|k: int| 0 <= k < i ==> (#[trigger] self.keys@[k])@ != key@,
            decreases self.keys@.len() - i,
        {
            if same_text(self.keys[i].as_str(), key) {
                return Some(i);
            }
            i += 1;
        }
        None
    }

    /// The value under `key`.
    pub fn get(&self, key: &str) -> (r: Option<&V>)
        ensures
            match r {
                Some(v) => self@.dom().contains(key@) && self@[key@] == *v,
                None => !self@.dom().contains(key@),
            },
    {
        proof {
            use_type_invariant(self);
        }
        match self.position(key) {
            Some(i) => {
                proof {
                    assert(has_key(self.keys@, key@));
                    lemma_position(self.keys@, i as int);
                }
                Some(&self.values[i])
            },
            None => None,
        }
    }

    /// Put a value under a key.
    pub fn insert(&mut self, key: String, value: V)
        ensures
            final(self)@ == old(self)@.insert(key@, value),
            final(self).order() == (if old(self)@.dom().contains(key@) {
                old(self).order()
            } else {
                old(self).order().push(key@)
            }),
    {
        proof {
            use_type_invariant(&*self);
        }
        let found = self.position(key.as_str());
        let ghost before = self@;
        let ghost name = key@;
        let mut fresh: TextMap<V> = TextMap { keys: Vec::new(), values: Vec::new() };
        std::mem::swap(&mut fresh, self);
        let TextMap { mut keys, mut values } = fresh;
        let ghost old_keys = keys@;
        let ghost old_values = values@;
        match found {
            Some(i) => {
                values.set(i, value);
                proof {
                    assert(has_key(old_keys, name));
                    lemma_position(old_keys, i as int);
                }
            },
            None => {
                keys.push(key);
                values.push(value);
            },
        }
        proof {
            if found is None {
                assert(keys@.drop_last() =~= old_keys);
            }
            lemma_view_insert(old_keys, old_values, keys@, values@, name, value, found);
        }
        *self = TextMap { keys, values };
        proof {
            assert(self@ =~= before.insert(name, value));
            if found is None {
                assert(self.order() =~= old(self).order().push(name));
            }
        }
    }

    /// Whether the map has no entry.
    pub fn is_empty(&self) -> (r: bool)
        ensures
            r == (self@ == Map::<Seq<char>, V>::empty()),
    {
        if self.keys.len() == 0 {
            proof {
                assert(self@ =~= Map::empty());
            }
            true
        } else {
            proof {
                assert(has_key(self.keys@, self.keys@[0]@));
                assert(self@.dom().contains(self.keys@[0]@));
            }
            false
        }
    }

    /// The number of keys.
    pub fn len(&self) -> (n: usize)
        ensures
            n == self.order().len(),
            lists_keys(self.order(), self@),
    {
        proof {
            use_type_invariant(self);
            let order = self.order();
            assert forall|i: int, j: int|
                0 <= i < order.len() && 0 <= j < order.len() && i != j implies order[i]
                != order[j] by {
                if i < j {
                    assert(self.keys@[i]@ != self.keys@[j]@);
                } else {
                    assert(self.keys@[j]@ != self.keys@[i]@);
                }
            }
            assert forall|k: Seq<char>| #[trigger]
                self@.dom().contains(k) <==> order.contains(k) by {
                if has_key(self.keys@, k) {
                    let i = key_position(self.keys@, k);
                    assert(self.keys@[i]@ == k);
                    assert(order[i] == k);
                }
                if order.contains(k) {
                    let i = choose|i: int| 0 <= i < order.len() && order[i] == k;
                    assert(self.keys@[i]@ == k);
                }
            }
        }
        self.keys.len()
    }

    /// The `i`th key.
    pub fn key_at(&self, i: usize) -> (r: &str)
        requires
            i < self.order().len(),
        ensures
            r@ == self.order()[i as int],
            self@.dom().contains(r@),
    {
        proof {
            assert(has_key(self.keys@, self.keys@[i as int]@));
        }
        self.keys[i].as_str()
    }

    /// The value under the `i`th key.
    pub fn value_at(&self, i: usize) -> (r: &V)
        requires
            i < self.order().len(),
        ensures
            *r == self@[self.order()[i as int]],
    {
        proof {
            use_type_invariant(self);
            lemma_position(self.keys@, i as int);
            assert(has_key(self.keys@, self.keys@[i as int]@));
        }
        &self.values[i]
    }

}

proof fn lemma_position(keys: Seq<String>, i: int)
    requires
        keys_distinct(keys),
        0 <= i < keys.len(),
    ensures
        key_position(keys, keys[i]@) == i,
{
    let p = key_position(keys, keys[i]@);
    assert(keys[i]@ == keys[i]@);
    assert(0 <= p < keys.len() && keys[p]@ == keys[i]@);
    if p < i {
        assert(keys[p]@ != keys[i]@);
    } else if i < p {
        assert(keys[i]@ != keys[p]@);
    }
}

proof fn lemma_view_insert<V>(
    old_keys: Seq<String>,
    old_values: Seq<V>,
    keys: Seq<String>,
    values: Seq<V>,
    name: Seq<char>,
    value: V,
    found: Option<usize>,
)
    requires
        keys_distinct(old_keys),
        old_keys.len() == old_values.len(),
        match found {
            Some(i) => i < old_keys.len() && old_keys[i as int]@ == name && keys == old_keys
                && values == old_values.update(i as int, value),
            None => !has_key(old_keys, name) && keys.len() == old_keys.len() + 1
                && keys.drop_last() == old_keys && keys.last()@ == name && values
                == old_values.push(value),
        },
    ensures
        keys_distinct(keys),
        forall|k: Seq<char>| has_key(keys, k) <==> (k == name || has_key(old_keys, k)),
        values[key_position(keys, name)] == value,
        forall|k: Seq<char>|
            has_key(old_keys, k) && k != name ==> values[key_position(keys, k)]
                == #[trigger] old_values[key_position(old_keys, k)],
{
    assert forall|i: int, j: int| 0 <= i < j < keys.len() implies (#[trigger] keys[i])@ != (
    #[trigger] keys[j])@ by {
        if found is None {
            assert(keys[i] == old_keys[i]);
            if j < old_keys.len() {
                assert(keys[j] == old_keys[j]);
            }
        }
    }
    let at = match found {
        Some(i) => i as int,
        None => keys.len() - 1,
    };
    assert(keys[at]@ == name);
    lemma_position(keys, at);
    assert forall|k: Seq<char>| has_key(keys, k) <==> (k == name || has_key(old_keys, k)) by {
        if has_key(keys, k) {
            let i = key_position(keys, k);
            assert(keys[i]@ == k);
            if i < old_keys.len() {
                assert(old_keys[i]@ == k);
            }
        }
        if has_key(old_keys, k) {
            let i = key_position(old_keys, k);
            assert(old_keys[i]@ == k);
            assert(keys[i]@ == k);
        }
    }
    assert forall|k: Seq<char>| has_key(old_keys, k) && k != name implies values[key_position(
        keys,
        k,
    )] == #[trigger] old_values[key_position(old_keys, k)] by {
        let i = key_position(old_keys, k);
        assert(old_keys[i]@ == k);
        assert(keys[i]@ == k);
        lemma_position(keys, i);
    }
}

/// What is inserted is found under its key, and every other key finds what it found
/// before.
pub proof fn law_an_inserted_value_is_found<V>(
    map: &mut TextMap<V>,
    key: String,
    value: V,
    asked: &str,
    before: Option<&V>,
    after: Option<&V>,
)
    requires
        call_ensures(TextMap::<V>::insert, (map, key, value), ()),
        call_ensures(TextMap::<V>::get, (&*map, asked), before),
        call_ensures(TextMap::<V>::get, (&*final(map), asked), after),
    ensures
        asked@ == key@ ==> after == Some(&value),
        asked@ != key@ ==> after == before,
{
}

} // verus!
