//! A store that keeps its pairs in memory only and persists nothing.
use vstd::prelude::*;

verus! {

/// A key-value store of strings held in memory.
pub struct KvStore {
    pairs: Vec<(String, String)>,
}

impl View for KvStore {
    type V = Map<Seq<char>, Seq<char>>;

    closed spec fn view(&self) -> Map<Seq<char>, Seq<char>> {
        Map::new(
            |k: Seq<char>| exists|i: int| 0 <= i < self.pairs.len() && #[trigger] self.pairs@[i].0@ == k,
            |k: Seq<char>|
                self.pairs@[choose|i: int|
                    0 <= i < self.pairs.len() && #[trigger] self.pairs@[i].0@ == k].1@,
        )
    }
}

impl KvStore {
    /// No key appears twice.
    pub closed spec fn wf(&self) -> bool {
        forall|i: int, j: int|
            0 <= i < self.pairs.len() && 0 <= j < self.pairs.len() && #[trigger] self.pairs@[i].0@
                == #[trigger] self.pairs@[j].0@ ==> i == j
    }

    proof fn lemma_at(&self, i: int)
        requires
            self.wf(),
            0 <= i < self.pairs.len(),
        ensures
            self@.contains_key(self.pairs@[i].0@),
            self@[self.pairs@[i].0@] == self.pairs@[i].1@,
    {
        let k = self.pairs@[i].0@;
        assert(self@.contains_key(k));
        let j = choose|j: int| 0 <= j < self.pairs.len() && #[trigger] self.pairs@[j].0@ == k;
        assert(self.pairs@[j].0@ == self.pairs@[i].0@);
    }

    fn find(&self, key: &String) -> (r: Option<usize>)
        ensures
            r matches Some(i) ==> i < self.pairs.len() && self.pairs@[i as int].0@ == key@,
            r is None ==> forall|i: int| 0 <= i < self.pairs.len() ==> self.pairs@[i].0@ != key@,
    {
        let mut i: usize = 0;
        while i < self.pairs.len()
            invariant
                i <= self.pairs.len(),
                forall|j: int| 0 <= j < i ==> self.pairs@[j].0@ != key@,
            decreases self.pairs.len() - i,
        {
            if self.pairs[i].0 == *key {
                return Some(i);
            }
            i = i + 1;
        }
        None
    }

    /// Creates an empty store.
    pub fn new() -> (r: KvStore)
        ensures
            r.wf(),
            r@ == Map::<Seq<char>, Seq<char>>::empty(),
    {
        let r = KvStore { pairs: Vec::new() };
        assert(r@ =~= Map::<Seq<char>, Seq<char>>::empty());
        r
    }

    /// Sets the value of a key, overwriting any earlier value.
    pub fn set(&mut self, key: String, val: String)
        requires
            old(self).wf(),
        ensures
            final(self).wf(),
            final(self)@ == old(self)@.insert(key@, val@),
    {
        let ghost old_self = *self;
        let ghost k = key@;
        let ghost v = val@;
        match self.find(&key) {
            Some(i) => {
                self.pairs.set(i, (key, val));
                proof {
                    assert forall|a: int| 0 <= a < self.pairs.len() && a != i implies #[trigger] self.pairs@[a] == old_self.pairs@[a] by {}
                    assert forall|a: int, b: int|
                        0 <= a < self.pairs.len() && 0 <= b < self.pairs.len() && #[trigger] self.pairs@[a].0@
                            == #[trigger] self.pairs@[b].0@ implies a == b by {
                        assert(old_self.pairs@[a].0@ == self.pairs@[a].0@);
                        assert(old_self.pairs@[b].0@ == self.pairs@[b].0@);
                    }
                    assert forall|kk: Seq<char>| #[trigger] self@.contains_key(kk) == old_self@.insert(k, v).contains_key(kk) by {
                        if old_self@.contains_key(kk) {
                            let j = choose|j: int| 0 <= j < old_self.pairs.len() && #[trigger] old_self.pairs@[j].0@ == kk;
                            assert(self.pairs@[j].0@ == kk);
                        }
                        if self@.contains_key(kk) {
                            let j = choose|j: int| 0 <= j < self.pairs.len() && #[trigger] self.pairs@[j].0@ == kk;
                            assert(old_self.pairs@[j].0@ == kk);
                        }
                    }
                    assert forall|kk: Seq<char>| #[trigger] self@.contains_key(kk) implies self@[kk] == old_self@.insert(k, v)[kk] by {
                        let j = choose|j: int| 0 <= j < self.pairs.len() && #[trigger] self.pairs@[j].0@ == kk;
                        self.lemma_at(j);
                        if j != i {
                            old_self.lemma_at(j);
                        }
                    }
                    assert(self@ =~= old_self@.insert(k, v));
                }
            },
            None => {
                self.pairs.push((key, val));
                proof {
                    let n = old_self.pairs.len() as int;
                    assert forall|a: int| 0 <= a < n implies #[trigger] self.pairs@[a] == old_self.pairs@[a] by {}
                    assert forall|kk: Seq<char>| #[trigger] self@.contains_key(kk) == old_self@.insert(k, v).contains_key(kk) by {
                        if old_self@.contains_key(kk) {
                            let j = choose|j: int| 0 <= j < old_self.pairs.len() && #[trigger] old_self.pairs@[j].0@ == kk;
                            assert(self.pairs@[j].0@ == kk);
                        }
                        if kk == k {
                            assert(self.pairs@[n].0@ == kk);
                        }
                        if self@.contains_key(kk) && kk != k {
                            let j = choose|j: int| 0 <= j < self.pairs.len() && #[trigger] self.pairs@[j].0@ == kk;
                            assert(old_self.pairs@[j].0@ == kk);
                        }
                    }
                    assert forall|kk: Seq<char>| #[trigger] self@.contains_key(kk) implies self@[kk] == old_self@.insert(k, v)[kk] by {
                        let j = choose|j: int| 0 <= j < self.pairs.len() && #[trigger] self.pairs@[j].0@ == kk;
                        self.lemma_at(j);
                        if j != n {
                            old_self.lemma_at(j);
                        }
                    }
                    assert(self@ =~= old_self@.insert(k, v));
                }
            },
        }
    }

    /// Gets the value of a key, or `None` where it has none.
    pub fn get(&self, key: String) -> (r: Option<String>)
        requires
            self.wf(),
        ensures
            self@.contains_key(key@) ==> (r matches Some(v) && v@ == self@[key@]),
            !self@.contains_key(key@) ==> r is None,
    {
        match self.find(&key) {
            Some(i) => {
                proof {
                    self.lemma_at(i as int);
                }
                Some(self.pairs[i].1.clone())
            },
            None => None,
        }
    }

    /// Removes a key; a key without a value is left as it is.
    pub fn remove(&mut self, key: String)
        requires
            old(self).wf(),
        ensures
            final(self).wf(),
            final(self)@ == old(self)@.remove(key@),
    {
        let ghost old_self = *self;
        let ghost k = key@;
        match self.find(&key) {
            Some(i) => {
                self.pairs.remove(i);
                proof {
                    let ii = i as int;
                    assert forall|a: int| 0 <= a < self.pairs.len() implies #[trigger] self.pairs@[a] == old_self.pairs@[if a < ii { a } else { a + 1 }] by {}
                    assert forall|a: int, b: int|
                        0 <= a < self.pairs.len() && 0 <= b < self.pairs.len() && #[trigger] self.pairs@[a].0@
                            == #[trigger] self.pairs@[b].0@ implies a == b by {
                        assert(old_self.pairs@[if a < ii { a } else { a + 1 }].0@ == self.pairs@[a].0@);
                        assert(old_self.pairs@[if b < ii { b } else { b + 1 }].0@ == self.pairs@[b].0@);
                    }
                    assert forall|kk: Seq<char>| #[trigger] self@.contains_key(kk) == old_self@.remove(k).contains_key(kk) by {
                        if old_self@.contains_key(kk) && kk != k {
                            let j = choose|j: int| 0 <= j < old_self.pairs.len() && #[trigger] old_self.pairs@[j].0@ == kk;
                            if j < ii {
                                assert(self.pairs@[j].0@ == kk);
                            } else {
                                assert(j != ii);
                                assert(self.pairs@[j - 1].0@ == kk);
                            }
                        }
                        if self@.contains_key(kk) {
                            let j = choose|j: int| 0 <= j < self.pairs.len() && #[trigger] self.pairs@[j].0@ == kk;
                            let oj = if j < ii { j } else { j + 1 };
                            assert(old_self.pairs@[oj].0@ == kk);
                            assert(oj != ii);
                        }
                    }
                    assert forall|kk: Seq<char>| #[trigger] self@.contains_key(kk) implies self@[kk] == old_self@.remove(k)[kk] by {
                        let j = choose|j: int| 0 <= j < self.pairs.len() && #[trigger] self.pairs@[j].0@ == kk;
                        self.lemma_at(j);
                        old_self.lemma_at(if j < ii { j } else { j + 1 });
                    }
                    assert(self@ =~= old_self@.remove(k));
                }
            },
            None => {
                proof {
                    assert forall|kk: Seq<char>| #[trigger] self@.contains_key(kk) implies kk != k by {
                        let j = choose|j: int| 0 <= j < self.pairs.len() && #[trigger] self.pairs@[j].0@ == kk;
                    }
                    assert(self@ =~= old_self@.remove(k));
                }
            },
        }
    }
}

} // verus!
