//! A map from text labels to values that remembers the order in which its
//! labels first came in.

use vstd::hash_map::StringHashMap;
use vstd::prelude::*;

verus! {

/// A hash map keyed by strings, together with its keys in the order of their
/// first insertion. Its view is the map from each label's characters to the
/// value stored under it.
#[verifier::reject_recursive_types(V)]
pub struct LabelMap<V> {
    entries: StringHashMap<V>,
    order: Vec<String>,
}

impl<V> View for LabelMap<V> {
    type V = Map<Seq<char>, V>;

    closed spec fn view(&self) -> Map<Seq<char>, V> {
        self.entries@
    }
}

impl<V> LabelMap<V> {
    /// The labels in the order of their first insertion.
    pub closed spec fn labels(&self) -> Seq<Seq<char>> {
        Seq::new(self.order@.len(), |i: int| self.order@[i]@)
    }

    /// No label is listed twice, and the labels listed are the keys of the
    /// map.
    pub open spec fn well_formed(&self) -> bool {
        &&& self.labels().no_duplicates()
        &&& forall|k: Seq<char>| self@.contains_key(k) <==> self.labels().contains(k)
    }

    /// The empty map.
    pub fn new() -> (m: Self)
        ensures
            m.well_formed(),
            m@ == Map::<Seq<char>, V>::empty(),
            m.labels() == Seq::<Seq<char>>::empty(),
    {
        let m = LabelMap { entries: StringHashMap::new(), order: Vec::new() };
        assert(m.labels() =~= Seq::<Seq<char>>::empty());
        m
    }

    /// Stores `value` under `key`, in place of what was stored there before.
    /// A new key goes to the end of the labels; a known one keeps its place.
    pub fn insert(&mut self, key: String, value: V)
        requires
            old(self).well_formed(),
        ensures
            final(self).well_formed(),
            final(self)@ == old(self)@.insert(key@, value),
            final(self).labels() == if old(self)@.contains_key(key@) {
                old(self).labels()
            } else {
                old(self).labels().push(key@)
            },
    {
        let ghost before = self.labels();
        let known = self.entries.contains_key(key.as_str());
        if !known {
            self.order.push(key.clone());
            assert(self.labels() =~= before.push(key@));
        } else {
            assert(self.labels() =~= before);
        }
        self.entries.insert(key, value);
        proof {
            let after = self.labels();
            if !known {
                assert forall|i: int, j: int|
                    0 <= i < after.len() && 0 <= j < after.len() && i != j implies after[i]
                    != after[j] by {
                    if i < before.len() {
                        assert(before.contains(before[i]));
                    }
                    if j < before.len() {
                        assert(before.contains(before[j]));
                    }
                }
            }
            assert forall|k: Seq<char>| self@.contains_key(k) <==> after.contains(k) by {
                if known {
                } else {
                    if before.contains(k) {
                        let i = choose|i: int| 0 <= i < before.len() && before[i] == k;
                        assert(after[i] == k);
                    }
                    if k == key@ {
                        assert(after[before.len() as int] == k);
                    }
                }
            }
        }
    }

    /// The value stored under `key`, if there is one.
    pub fn get(&self, key: &str) -> (r: Option<&V>)
        ensures
            match r {
                Some(v) => self@.contains_key(key@) && *v == self@[key@],
                None => !self@.contains_key(key@),
            },
    {
        self.entries.get(key)
    }

    /// Whether something is stored under `key`.
    pub fn contains_key(&self, key: &str) -> (r: bool)
        ensures
            r == self@.contains_key(key@),
    {
        self.entries.contains_key(key)
    }

    /// The number of labels.
    pub fn len(&self) -> (n: usize)
        ensures
            n == self.labels().len(),
    {
        self.order.len()
    }

    /// The label at position `i` in the order of first insertion.
    pub fn label_at(&self, i: usize) -> (r: Option<&String>)
        ensures
            match r {
                Some(s) => i < self.labels().len() && s@ == self.labels()[i as int],
                None => i >= self.labels().len(),
            },
    {
        if i < self.order.len() {
            Some(&self.order[i])
        } else {
            None
        }
    }
}

} // verus!
