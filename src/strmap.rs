//! A map from strings to strings, kept as a list of distinct keys.
use vstd::prelude::*;
use vstd::string::*;

verus! {

/// Keys and values side by side; no key occurs twice.
pub struct StrMap {
    keys: Vec<String>,
    vals: Vec<String>,
}

/// The position of `k` among `keys`, when it occurs.
pub open spec fn key_at(keys: Seq<String>, k: Seq<char>, i: int) -> bool {
    0 <= i < keys.len() && keys[i]@ == k
}

impl View for StrMap {
    type V = Map<Seq<char>, Seq<char>>;

    closed spec fn view(&self) -> Map<Seq<char>, Seq<char>> {
        Map::new(
            |k: Seq<char>| exists|i: int| key_at(self.keys@, k, i),
            |k: Seq<char>| self.vals@[choose|i: int| key_at(self.keys@, k, i)]@,
        )
    }
}

impl StrMap {
    pub closed spec fn wf(&self) -> bool {
        &&& self.keys@.len() == self.vals@.len()
        &&& forall|i: int, j: int|
            0 <= i < self.keys@.len() && 0 <= j < self.keys@.len() && i != j ==> self.keys@[i]@
                != self.keys@[j]@
    }

    proof fn lemma_entry(&self, i: int)
        requires
            self.wf(),
            0 <= i < self.keys@.len(),
        ensures
            self@.contains_key(self.keys@[i]@),
            self@[self.keys@[i]@] == self.vals@[i]@,
    {
        let k = self.keys@[i]@;
        assert(key_at(self.keys@, k, i));
        let j = choose|j: int| key_at(self.keys@, k, j);
        assert(j == i);
    }

    pub fn new() -> (r: StrMap)
        ensures
            r.wf(),
            r@ == Map::<Seq<char>, Seq<char>>::empty(),
    {
        let r = StrMap { keys: Vec::new(), vals: Vec::new() };
        assert(r@ =~= Map::<Seq<char>, Seq<char>>::empty());
        r
    }

    pub fn len(&self) -> (r: usize)
        requires
            self.wf(),
        ensures
            r == self@.dom().len(),
    {
        proof {
            self.lemma_len();
        }
        self.keys.len()
    }

    proof fn lemma_len(&self)
        requires
            self.wf(),
        ensures
            self@.dom().len() == self.keys@.len(),
        decreases self.keys@.len(),
    {
        let ks = self.keys@.map_values(|s: String| s@);
        assert(self@.dom() =~= ks.to_set()) by {
            assert forall|k: Seq<char>| self@.dom().contains(k) implies ks.to_set().contains(k) by {
                let i = choose|i: int| key_at(self.keys@, k, i);
                assert(ks[i] == k);
            }
            assert forall|k: Seq<char>| ks.to_set().contains(k) implies self@.dom().contains(k) by {
                let i = choose|i: int| 0 <= i < ks.len() && ks[i] == k;
                assert(key_at(self.keys@, k, i));
            }
        }
        assert(ks.no_duplicates());
        ks.unique_seq_to_set();
    }

    /// The position of `key`, if it is present.
    fn find(&self, key: &String) -> (r: Option<usize>)
        requires
            self.wf(),
        ensures
            match r {
                Some(i) => key_at(self.keys@, key@, i as int),
                None => !self@.contains_key(key@),
            },
    {
        let mut i: usize = 0;
        while i < self.keys.len()
            invariant
                self.wf(),
                i <= self.keys@.len(),
                forall|j: int| 0 <= j < i ==> self.keys@[j]@ != key@,
            decreases self.keys@.len() - i,
        {
            if self.keys[i] == *key {
                return Some(i);
            }
            i = i + 1;
        }
        None
    }

    /// The value stored under `key`.
    pub fn get(&self, key: &String) -> (r: Option<&String>)
        requires
            self.wf(),
        ensures
            match r {
                Some(v) => self@.contains_key(key@) && self@[key@] == v@,
                None => !self@.contains_key(key@),
            },
    {
        match self.find(key) {
            Some(i) => {
                proof {
                    self.lemma_entry(i as int);
                }
                Some(&self.vals[i])
            },
            None => None,
        }
    }

    /// Takes out the entry at position `i`.
    fn take_at(&mut self, i: usize) -> (r: (String, String))
        requires
            old(self).wf(),
            i < old(self).keys@.len(),
        ensures
            final(self).wf(),
            r.0@ == old(self).keys@[i as int]@,
            r.1@ == old(self)@[r.0@],
            final(self)@ == old(self)@.remove(r.0@),
    {
        proof {
            self.lemma_entry(i as int);
        }
        let ghost before = *self;
        let k = self.keys.swap_remove(i);
        let v = self.vals.swap_remove(i);
        proof {
            let n = before.keys@.len();
            assert forall|a: int| 0 <= a < self.keys@.len() implies (self.keys@[a] == (if a == i {
                before.keys@[n - 1]
            } else {
                before.keys@[a]
            }) && self.vals@[a] == (if a == i {
                before.vals@[n - 1]
            } else {
                before.vals@[a]
            })) by {}
            assert forall|a: int| 0 <= a < self.keys@.len() implies self.keys@[a]@ != k@ by {}
            assert forall|x: Seq<char>|
                #![auto]
                self@.contains_key(x) == before@.remove(k@).contains_key(x) by {
                if self@.contains_key(x) {
                    let a = choose|a: int| key_at(self.keys@, x, a);
                    if a == i {
                        assert(key_at(before.keys@, x, n - 1));
                    } else {
                        assert(key_at(before.keys@, x, a));
                    }
                }
                if before@.remove(k@).contains_key(x) {
                    let b = choose|b: int| key_at(before.keys@, x, b);
                    if b == n - 1 {
                        assert(key_at(self.keys@, x, i as int));
                    } else {
                        assert(b != i);
                        assert(key_at(self.keys@, x, b));
                    }
                }
            }
            assert forall|x: Seq<char>| #[trigger]
                self@.contains_key(x) implies self@[x] == before@[x] by {
                let a = choose|a: int| key_at(self.keys@, x, a);
                self.lemma_entry(a);
                if a == i {
                    before.lemma_entry(n - 1);
                } else {
                    before.lemma_entry(a);
                }
            }
            assert(self@ =~= before@.remove(k@));
        }
        (k, v)
    }

    /// Adds an entry for a key that is not present.
    fn push_new(&mut self, key: String, value: String)
        requires
            old(self).wf(),
            !old(self)@.contains_key(key@),
        ensures
            final(self).wf(),
            final(self)@ == old(self)@.insert(key@, value@),
    {
        let ghost before = *self;
        let ghost k = key@;
        let ghost v = value@;
        self.keys.push(key);
        self.vals.push(value);
        proof {
            let n = before.keys@.len();
            assert forall|a: int| 0 <= a < n implies before.keys@[a]@ != k by {
                before.lemma_entry(a);
            }
            assert forall|x: Seq<char>|
                #![auto]
                self@.contains_key(x) == before@.insert(k, v).contains_key(x) by {
                if self@.contains_key(x) {
                    let a = choose|a: int| key_at(self.keys@, x, a);
                    if a < n {
                        assert(key_at(before.keys@, x, a));
                    }
                }
                if before@.contains_key(x) {
                    let b = choose|b: int| key_at(before.keys@, x, b);
                    assert(key_at(self.keys@, x, b));
                }
                if x == k {
                    assert(key_at(self.keys@, x, n as int));
                }
            }
            assert forall|x: Seq<char>| #[trigger]
                self@.contains_key(x) implies self@[x] == before@.insert(k, v)[x] by {
                let a = choose|a: int| key_at(self.keys@, x, a);
                self.lemma_entry(a);
                if a < n {
                    before.lemma_entry(a);
                }
            }
            assert(self@ =~= before@.insert(k, v));
        }
    }

    /// Stores `value` under `key`, replacing any earlier value.
    pub fn insert(&mut self, key: String, value: String)
        requires
            old(self).wf(),
        ensures
            final(self).wf(),
            final(self)@ == old(self)@.insert(key@, value@),
    {
        match self.find(&key) {
            Some(i) => {
                let _ = self.take_at(i);
                self.push_new(key, value);
                proof {
                    assert(final(self)@ =~= old(self)@.insert(key@, value@));
                }
            },
            None => {
                self.push_new(key, value);
            },
        }
    }

    /// Appends a space and `fragment` to the value under `key`, which starts
    /// out empty when the key is absent.
    pub fn append_spaced(&mut self, key: &String, fragment: &str)
        requires
            old(self).wf(),
        ensures
            final(self).wf(),
            final(self)@ == old(self)@.insert(
                key@,
                (if old(self)@.contains_key(key@) {
                    old(self)@[key@]
                } else {
                    Seq::<char>::empty()
                }) + seq![' '] + fragment@,
            ),
    {
        let ghost prev = if self@.contains_key(key@) {
            self@[key@]
        } else {
            Seq::<char>::empty()
        };
        let mut text = match self.find(key) {
            Some(i) => {
                let (_, v) = self.take_at(i);
                v
            },
            None => {
                proof {
                    assert(self@ =~= old(self)@.remove(key@));
                }
                String::new()
            },
        };
        proof {
            reveal_strlit(" ");
            assert(" "@ =~= seq![' ']);
        }
        text.append(" ");
        text.append(fragment);
        assert(text@ =~= prev + seq![' '] + fragment@);
        self.push_new(key.clone(), text);
        proof {
            assert(self@ =~= old(self)@.insert(key@, prev + seq![' '] + fragment@));
        }
    }

    /// Takes the entry for `key` out of the map, returning its value.
    pub fn remove(&mut self, key: &String) -> (r: Option<String>)
        requires
            old(self).wf(),
        ensures
            final(self).wf(),
            final(self)@ == old(self)@.remove(key@),
            match r {
                Some(v) => old(self)@.contains_key(key@) && v@ == old(self)@[key@],
                None => !old(self)@.contains_key(key@),
            },
    {
        match self.find(key) {
            Some(i) => {
                let (_, v) = self.take_at(i);
                Some(v)
            },
            None => {
                proof {
                    assert(final(self)@ =~= old(self)@.remove(key@));
                }
                None
            },
        }
    }

    /// The entries, in no particular order: each key of the map once, with
    /// its value.
    pub fn entries(&self) -> (r: Vec<(String, String)>)
        requires
            self.wf(),
        ensures
            r@.len() == self@.dom().len(),
            forall|i: int|
                0 <= i < r@.len() ==> self@.contains_key(#[trigger] r@[i].0@) && self@[r@[i].0@]
                    == r@[i].1@,
            forall|i: int, j: int|
                0 <= i < r@.len() && 0 <= j < r@.len() && i != j ==> r@[i].0@ != r@[j].0@,
            forall|k: Seq<char>|
                #[trigger] self@.contains_key(k) ==> exists|i: int|
                    0 <= i < r@.len() && r@[i].0@ == k,
    {
        proof {
            self.lemma_len();
        }
        let mut out: Vec<(String, String)> = Vec::new();
        let mut i: usize = 0;
        while i < self.keys.len()
            invariant
                self.wf(),
                i <= self.keys@.len(),
                out@.len() == i,
                forall|j: int|
                    0 <= j < out@.len() ==> (#[trigger] out@[j]).0@ == self.keys@[j]@
                        && out@[j].1@ == self.vals@[j]@,
            decreases self.keys@.len() - i,
        {
            out.push((self.keys[i].clone(), self.vals[i].clone()));
            i = i + 1;
        }
        proof {
            assert forall|j: int| 0 <= j < out@.len() implies self@.contains_key(
                #[trigger] out@[j].0@,
            ) && self@[out@[j].0@] == out@[j].1@ by {
                self.lemma_entry(j);
            }
            assert forall|k: Seq<char>| #[trigger]
                self@.contains_key(k) implies exists|i: int|
                0 <= i < out@.len() && out@[i].0@ == k by {
                let i = choose|i: int| key_at(self.keys@, k, i);
                assert(out@[i].0@ == k);
            }
        }
        out
    }
}

} // verus!
