use vstd::prelude::*;

verus! {

/// A set of 128-bit identifiers (asset handles, render resources, window ids).
pub struct KeySet {
    keys: Vec<u128>,
}

impl View for KeySet {
    type V = Set<u128>;

    closed spec fn view(&self) -> Set<u128> {
        Set::new(|k: u128| self.keys@.contains(k))
    }
}

impl KeySet {
    /// The empty set.
    pub fn new() -> (s: Self)
        ensures
            s@ == Set::<u128>::empty(),
    {
        let s = KeySet { keys: Vec::new() };
        assert(s@ =~= Set::<u128>::empty());
        s
    }

    /// Whether `key` is in the set.
    pub fn contains(&self, key: u128) -> (r: bool)
        ensures
            r == self@.contains(key),
    {
        let mut i: usize = 0;
        while i < self.keys.len()
            invariant
                0 <= i <= self.keys.len(),
                forall|j: int| 0 <= j < i ==> self.keys@[j] != key,
            decreases self.keys.len() - i,
        {
            if self.keys[i] == key {
                return true;
            }
            i = i + 1;
        }
        proof {
            if self.keys@.contains(key) {
                let j = choose|j: int| 0 <= j < self.keys@.len() && self.keys@[j] == key;
                assert(self.keys@[j] == key);
            }
        }
        false
    }

    /// Adds `key`; a key already present is kept once.
    pub fn insert(&mut self, key: u128)
        ensures
            final(self)@ == old(self)@.insert(key),
    {
        let ghost before = self.keys@;
        if !self.contains(key) {
            self.keys.push(key);
        }
        proof {
            assert forall|k: u128| self.keys@.contains(k) <==> (before.contains(k) || k == key) by {
                if self.keys@.contains(k) {
                    let j = choose|j: int| 0 <= j < self.keys@.len() && self.keys@[j] == k;
                    if j < before.len() {
                        assert(before[j] == k);
                    }
                }
                if before.contains(k) {
                    let j = choose|j: int| 0 <= j < before.len() && before[j] == k;
                    assert(self.keys@[j] == k);
                }
                if k == key && !before.contains(k) {
                    assert(self.keys@[before.len() as int] == k);
                }
            }
            assert(self@ =~= Set::new(|k: u128| before.contains(k)).insert(key));
        }
    }
}

/// A set of pairs of 128-bit identifiers (a bind group and a resource set).
pub struct PairSet {
    pairs: Vec<(u128, u128)>,
}

impl View for PairSet {
    type V = Set<(u128, u128)>;

    closed spec fn view(&self) -> Set<(u128, u128)> {
        Set::new(|p: (u128, u128)| self.pairs@.contains(p))
    }
}

impl PairSet {
    /// The empty set.
    pub fn new() -> (s: Self)
        ensures
            s@ == Set::<(u128, u128)>::empty(),
    {
        let s = PairSet { pairs: Vec::new() };
        assert(s@ =~= Set::<(u128, u128)>::empty());
        s
    }

    /// Whether the pair `(a, b)` is in the set.
    pub fn contains(&self, a: u128, b: u128) -> (r: bool)
        ensures
            r == self@.contains((a, b)),
    {
        let mut i: usize = 0;
        while i < self.pairs.len()
            invariant
                0 <= i <= self.pairs.len(),
                forall|j: int| 0 <= j < i ==> self.pairs@[j] != (a, b),
            decreases self.pairs.len() - i,
        {
            if self.pairs[i].0 == a && self.pairs[i].1 == b {
                return true;
            }
            i = i + 1;
        }
        proof {
            if self.pairs@.contains((a, b)) {
                let j = choose|j: int| 0 <= j < self.pairs@.len() && self.pairs@[j] == (a, b);
                assert(self.pairs@[j] == (a, b));
            }
        }
        false
    }

    /// Adds the pair `(a, b)`; a pair already present is kept once.
    pub fn insert(&mut self, a: u128, b: u128)
        ensures
            final(self)@ == old(self)@.insert((a, b)),
    {
        let ghost before = self.pairs@;
        if !self.contains(a, b) {
            self.pairs.push((a, b));
        }
        proof {
            assert forall|k: (u128, u128)| self.pairs@.contains(k) <==> (before.contains(k) || k
                == (a, b)) by {
                if self.pairs@.contains(k) {
                    let j = choose|j: int| 0 <= j < self.pairs@.len() && self.pairs@[j] == k;
                    if j < before.len() {
                        assert(before[j] == k);
                    }
                }
                if before.contains(k) {
                    let j = choose|j: int| 0 <= j < before.len() && before[j] == k;
                    assert(self.pairs@[j] == k);
                }
                if k == (a, b) && !before.contains(k) {
                    assert(self.pairs@[before.len() as int] == k);
                }
            }
            assert(self@ =~= Set::new(|k: (u128, u128)| before.contains(k)).insert((a, b)));
        }
    }
}

} // verus!
