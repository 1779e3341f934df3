//! The key-value store that `SET` writes and `GET` reads.

use vstd::prelude::*;
use vstd::slice::slice_to_vec;

verus! {

/// A map from byte-string keys to byte-string values.
pub struct Store {
    entries: Vec<(Vec<u8>, Vec<u8>)>,
}

/// Whether two byte strings are equal.
pub fn bytes_equal(a: &[u8], b: &[u8]) -> (r: bool)
    ensures
        r == (a@ == b@),
{
    if a.len() != b.len() {
        return false;
    }
    let mut i: usize = 0;
    while i < a.len()
        invariant
            a@.len() == b@.len(),
            i <= a@.len(),
            forall|j: int| 0 <= j < i ==> a@[j] == b@[j],
        decreases a@.len() - i,
    {
        if a[i] != b[i] {
            return false;
        }
        i = i + 1;
    }
    assert(a@ =~= b@);
    true
}

impl Store {
    /// No key occurs twice.
    #[verifier::type_invariant]
    spec fn keys_distinct(self) -> bool {
        forall|i: int, j: int|
            0 <= i < self.entries@.len() && 0 <= j < self.entries@.len() && i != j
                ==> #[trigger] self.entries@[i].0@ != #[trigger] self.entries@[j].0@
    }

    spec fn has_key(self, k: Seq<u8>) -> bool {
        exists|i: int| 0 <= i < self.entries@.len() && #[trigger] self.entries@[i].0@ == k
    }

    spec fn index_of(self, k: Seq<u8>) -> int {
        choose|i: int| 0 <= i < self.entries@.len() && #[trigger] self.entries@[i].0@ == k
    }

    /// The map that the store holds.
    pub closed spec fn contents(self) -> Map<Seq<u8>, Seq<u8>> {
        Map::new(|k: Seq<u8>| self.has_key(k), |k: Seq<u8>| self.entries@[self.index_of(k)].1@)
    }

    proof fn lemma_lookup(self, i: int)
        requires
            self.keys_distinct(),
            0 <= i < self.entries@.len(),
        ensures
            self.contents().contains_key(self.entries@[i].0@),
            self.contents()[self.entries@[i].0@] == self.entries@[i].1@,
    {
        let k = self.entries@[i].0@;
        assert(self.has_key(k));
        let j = self.index_of(k);
        assert(self.entries@[j].0@ == k);
    }
}

impl View for Store {
    type V = Map<Seq<u8>, Seq<u8>>;

    open spec fn view(&self) -> Map<Seq<u8>, Seq<u8>> {
        self.contents()
    }
}

/// An empty store.
pub fn new_store() -> (s: Store)
    ensures
        s@ == Map::<Seq<u8>, Seq<u8>>::empty(),
{
    let s = Store { entries: Vec::new() };
    assert(s.contents() =~= Map::<Seq<u8>, Seq<u8>>::empty());
    s
}

impl Store {
    /// The position of `key` among the entries.
    fn find(&self, key: &[u8]) -> (r: Option<usize>)
        requires
            self.keys_distinct(),
        ensures
            match r {
                Some(i) => i < self.entries@.len() && self.entries@[i as int].0@ == key@,
                None => !self.has_key(key@),
            },
    {
        let mut i: usize = 0;
        while i < self.entries.len()
            invariant
                i <= self.entries@.len(),
                forall|j: int| 0 <= j < i ==> #[trigger] self.entries@[j].0@ != key@,
            decreases self.entries@.len() - i,
        {
            if bytes_equal(self.entries[i].0.as_slice(), key) {
                return Some(i);
            }
            i = i + 1;
        }
        None
    }

    /// The value stored under `key`, if any.
    pub fn get(&self, key: &[u8]) -> (r: Option<Vec<u8>>)
        ensures
            match r {
                Some(v) => self@.contains_key(key@) && v@ == self@[key@],
                None => !self@.contains_key(key@),
            },
    {
        proof {
            use_type_invariant(self);
        }
        match self.find(key) {
            Some(i) => {
                proof {
                    self.lemma_lookup(i as int);
                }
                Some(slice_to_vec(self.entries[i].1.as_slice()))
            },
            None => None,
        }
    }

    /// Stores `value` under `key`, replacing what was there.
    pub fn set(&mut self, key: Vec<u8>, value: Vec<u8>)
        ensures
            final(self)@ == old(self)@.insert(key@, value@),
    {
        proof {
            use_type_invariant(&*self);
        }
        let ghost before = *self;
        let found = self.find(key.as_slice());
        let mut entries: Vec<(Vec<u8>, Vec<u8>)> = Vec::new();
        std::mem::swap(&mut entries, &mut self.entries);
        let ghost k = key@;
        let ghost v = value@;
        match found {
            Some(i) => {
                entries.set(i, (key, value));
            },
            None => {
                entries.push((key, value));
            },
        }
        self.entries = entries;
        proof {
            let after = *self;
            assert forall|q: Seq<u8>| #[trigger] after.contents().contains_key(q) == before.contents().insert(k, v).contains_key(q) by {
                if before.has_key(q) {
                    let j = before.index_of(q);
                    assert(after.entries@[j].0@ == q || q == k);
                    if after.entries@[j].0@ == q {
                        assert(after.has_key(q));
                    } else {
                        after.lemma_lookup(after.entries@.len() - 1);
                    }
                }
                if after.has_key(q) {
                    let j = after.index_of(q);
                    if q != k {
                        assert(before.entries@[j].0@ == q);
                    }
                }
                if q == k {
                    match found {
                        Some(i) => after.lemma_lookup(i as int),
                        None => after.lemma_lookup(after.entries@.len() - 1),
                    }
                }
            }
            assert forall|q: Seq<u8>| #[trigger] after.contents().contains_key(q) implies after.contents()[q]
                == before.contents().insert(k, v)[q] by {
                let j = after.index_of(q);
                after.lemma_lookup(j);
                if q != k {
                    assert(before.entries@[j] == after.entries@[j]);
                    before.lemma_lookup(j);
                }
            }
            assert(after.contents() =~= before.contents().insert(k, v));
        }
    }
}

} // verus!
