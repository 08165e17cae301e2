use vstd::prelude::*;
use vstd::set_lib::lemma_subset_equality;

verus! {

/// String properties of a node or an edge: each key maps to one value.
#[derive(Debug)]
pub struct Properties {
    entries: Vec<(String, String)>,
}

pub open spec fn entry_key(p: (String, String)) -> Seq<char> {
    p.0@
}

impl View for Properties {
    type V = Map<Seq<char>, Seq<char>>;

    closed spec fn view(&self) -> Map<Seq<char>, Seq<char>> {
        Map::new(
            |k: Seq<char>| self.keys().contains(k),
            |k: Seq<char>| self.entries@[self.keys().index_of(k)].1@,
        )
    }
}

impl Properties {
    /// The keys, in the order in which they were first inserted.
    pub closed spec fn keys(&self) -> Seq<Seq<char>> {
        self.entries@.map_values(|p: (String, String)| entry_key(p))
    }

    /// Well-formed: no key stands twice.
    pub closed spec fn wf(&self) -> bool {
        self.keys().no_duplicates()
    }

    proof fn lemma_entry(&self, i: int)
        requires
            self.wf(),
            0 <= i < self.entries@.len(),
        ensures
            self@.contains_key(self.entries@[i].0@),
            self@[self.entries@[i].0@] == self.entries@[i].1@,
    {
        let k = self.entries@[i].0@;
        assert(self.keys()[i] == k);
        let j = self.keys().index_of(k);
        assert(self.keys()[j] == k);
    }

    proof fn lemma_dom(&self)
        requires
            self.wf(),
        ensures
            self@.dom() == self.keys().to_set(),
            self@.dom().finite(),
            self@.dom().len() == self.entries@.len(),
    {
        assert(self@.dom() =~= self.keys().to_set());
        self.keys().unique_seq_to_set();
    }

    /// No properties.
    pub fn new() -> (p: Properties)
        ensures
            p.wf(),
            p@ == Map::<Seq<char>, Seq<char>>::empty(),
            p.keys() == Seq::<Seq<char>>::empty(),
    {
        let p = Properties { entries: Vec::new() };
        assert(p@ =~= Map::<Seq<char>, Seq<char>>::empty());
        assert(p.keys() =~= Seq::<Seq<char>>::empty());
        p
    }

    /// The number of keys.
    pub fn len(&self) -> (n: usize)
        requires
            self.wf(),
        ensures
            n == self@.dom().len(),
            n == self.keys().len(),
    {
        proof {
            self.lemma_dom();
        }
        self.entries.len()
    }

    fn find(&self, key: &String) -> (r: Option<usize>)
        requires
            self.wf(),
        ensures
            match r {
                Some(i) => i < self.entries@.len() && self.entries@[i as int].0@ == key@,
                None => !self@.contains_key(key@),
            },
    {
        let mut i: usize = 0;
        while i < self.entries.len()
            invariant
                i <= self.entries.len(),
                forall|j: int| 0 <= j < i ==> self.keys()[j] != key@,
            decreases self.entries.len() - i,
        {
            if self.entries[i].0 == *key {
                return Some(i);
            }
            assert(self.keys()[i as int] == self.entries@[i as int].0@);
            i = i + 1;
        }
        None
    }

    /// The value stored under `key`.
    pub fn get(&self, key: &String) -> (r: Option<&String>)
        requires
            self.wf(),
        ensures
            match r {
                Some(v) => self@.contains_key(key@) && self@[key@] == v@,
                None => !self@.contains_key(key@),
            },
    {
        match self.find(key) {
            Some(i) => {
                proof {
                    self.lemma_entry(i as int);
                }
                Some(&self.entries[i].1)
            },
            None => None,
        }
    }

    /// Stores `value` under `key`, replacing an earlier value.
    pub fn insert(&mut self, key: String, value: String)
        requires
            old(self).wf(),
        ensures
            final(self).wf(),
            final(self)@ == old(self)@.insert(key@, value@),
            final(self).keys() == (if old(self)@.contains_key(key@) {
                old(self).keys()
            } else {
                old(self).keys().push(key@)
            }),
    {
        let ghost before = *self;
        let ghost k = key@;
        let ghost v = value@;
        match self.find(&key) {
            Some(i) => {
                proof {
                    before.lemma_entry(i as int);
                }
                self.entries.set(i, (key, value));
                assert(self.keys() =~= before.keys());
                assert(self.keys()[i as int] == k);
                assert(self@ =~= before@.insert(k, v)) by {
                    assert forall|x: Seq<char>| #[trigger] self@.contains_key(x) implies self@[x] == before@.insert(k, v)[x] by {
                        let j = self.keys().index_of(x);
                        if x == k {
                            self.lemma_entry(i as int);
                        } else {
                            before.lemma_entry(j);
                            assert(j != i);
                        }
                    }
                }
            },
            None => {
                self.entries.push((key, value));
                assert(self.keys() =~= before.keys().push(k));
                assert(!before.keys().contains(k));
                assert(self.wf());
                assert(self.keys()[self.entries@.len() - 1] == k);
                assert forall|x: Seq<char>| #[trigger] before@.contains_key(x) implies self@.contains_key(x) by {
                    let j = before.keys().index_of(x);
                    assert(self.keys()[j] == x);
                }
                assert(self@ =~= before@.insert(k, v)) by {
                    assert forall|x: Seq<char>| #[trigger] self@.contains_key(x) implies self@[x] == before@.insert(k, v)[x] by {
                        let j = self.keys().index_of(x);
                        if x == k {
                            self.lemma_entry(self.entries@.len() - 1);
                        } else {
                            assert(self.keys()[j] == x);
                            assert(j < before.entries@.len());
                            assert(before.keys()[j] == x);
                            before.lemma_entry(j);
                            self.lemma_entry(j);
                        }
                    }
                }
            },
        }
    }

    /// The key and value at position `i`, in the order of first insertion.
    pub fn entry(&self, i: usize) -> (r: (&String, &String))
        requires
            self.wf(),
            i < self@.dom().len(),
        ensures
            r.0@ == self.keys()[i as int],
            self@.contains_key(r.0@),
            self@[r.0@] == r.1@,
    {
        proof {
            self.lemma_dom();
            self.lemma_entry(i as int);
        }
        (&self.entries[i].0, &self.entries[i].1)
    }

    /// Whether both hold the same keys with the same values.
    pub fn same_as(&self, other: &Properties) -> (r: bool)
        requires
            self.wf(),
            other.wf(),
        ensures
            r == (self@ == other@),
    {
        proof {
            self.lemma_dom();
            other.lemma_dom();
        }
        if self.entries.len() != other.entries.len() {
            return false;
        }
        let mut i: usize = 0;
        while i < self.entries.len()
            invariant
                self.wf(),
                other.wf(),
                i <= self.entries.len(),
                forall|j: int|
                    0 <= j < i ==> #[trigger] other@.contains_key(self.entries@[j].0@)
                        && other@[self.entries@[j].0@] == self.entries@[j].1@,
            decreases self.entries.len() - i,
        {
            proof {
                self.lemma_entry(i as int);
            }
            match other.get(&self.entries[i].0) {
                Some(v) => {
                    if !(*v == self.entries[i].1) {
                        return false;
                    }
                    assert(other@.contains_key(self.entries@[i as int].0@));
                    assert(other@[self.entries@[i as int].0@] == self.entries@[i as int].1@);
                },
                None => {
                    return false;
                },
            }
            assert forall|j: int|
                0 <= j < i + 1 implies #[trigger] other@.contains_key(self.entries@[j].0@)
                    && other@[self.entries@[j].0@] == self.entries@[j].1@ by {
                if j == i {
                } else {
                    assert(0 <= j < i);
                }
            }
            i = i + 1;
        }
        proof {
            assert forall|k: Seq<char>| #[trigger] self@.contains_key(k) implies other@.contains_key(k)
                && other@[k] == self@[k] by {
                let j = self.keys().index_of(k);
                self.lemma_entry(j);
            }
            lemma_subset_equality(self@.dom(), other@.dom());
            assert(self@ =~= other@);
        }
        true
    }

    /// A copy holding the same keys and values.
    pub fn duplicate(&self) -> (r: Properties)
        requires
            self.wf(),
        ensures
            r.wf(),
            r@ == self@,
            r.keys() == self.keys(),
    {
        let mut entries: Vec<(String, String)> = Vec::new();
        let mut i: usize = 0;
        while i < self.entries.len()
            invariant
                i <= self.entries.len(),
                entries@.len() == i,
                forall|j: int|
                    0 <= j < i ==> #[trigger] entries@[j].0@ == self.entries@[j].0@
                        && entries@[j].1@ == self.entries@[j].1@,
            decreases self.entries.len() - i,
        {
            let k = self.entries[i].0.clone();
            let v = self.entries[i].1.clone();
            entries.push((k, v));
            i = i + 1;
        }
        let r = Properties { entries };
        assert(r.keys() =~= self.keys());
        assert(r@ =~= self@);
        r
    }
}

} // verus!
