use vstd::prelude::*;

verus! {

/// Where the current record of a key lies: its segment, the byte offset at
/// which the record starts, and the length of its value.
#[derive(Clone, Copy, Debug, PartialEq, Eq, Structural)]
pub struct KeyDirValue {
    pub file_id: u64,
    pub value_posi: usize,
    pub value_sz: u32,
}

/// Whether two byte strings are equal.
pub fn bytes_eq(a: &[u8], b: &[u8]) -> (r: bool)
    ensures
        r == (a@ == b@),
{
    if a.len() != b.len() {
        return false;
    }
    let mut i: usize = 0;
    while i < a.len()
        invariant
            i <= a@.len(),
            a@.len() == b@.len(),
            forall|j: int| 0 <= j < i ==> a@[j] == b@[j],
        decreases a@.len() - i,
    {
        if a[i] != b[i] {
            return false;
        }
        i = i + 1;
    }
    assert(a@ =~= b@);
    true
}

/// The in-memory index: for each key, the location of its current record.
/// Keys are held once each, in no particular order.
pub struct KeyDir {
    keys: Vec<Vec<u8>>,
    vals: Vec<KeyDirValue>,
    map: Ghost<Map<Seq<u8>, KeyDirValue>>,
}

impl KeyDir {
    /// The index as a map from key bytes to locations.
    pub closed spec fn view(&self) -> Map<Seq<u8>, KeyDirValue> {
        self.map@
    }

    /// The keys in the order they are held.
    pub closed spec fn keys(&self) -> Seq<Seq<u8>> {
        Seq::new(self.keys@.len(), |i: int| self.keys@[i]@)
    }

    /// Every key of the map is held at some position, and every position
    /// holds a key of the map.
    pub proof fn lemma_keys(&self)
        requires
            self.wf(),
        ensures
            forall|k: Seq<u8>| #[trigger]
                self.view().contains_key(k) ==> exists|i: int| 0 <= i < self.keys().len() && self.keys()[i] == k,
            forall|i: int| 0 <= i < self.keys().len() ==> #[trigger] self.view().contains_key(self.keys()[i]),
    {
        assert forall|k: Seq<u8>| #[trigger] self.view().contains_key(k) implies exists|i: int|
            0 <= i < self.keys().len() && self.keys()[i] == k by {
            let i = choose|i: int| 0 <= i < self.keys@.len() && self.keys@[i]@ == k;
            assert(self.keys()[i] == k);
        }
        assert forall|i: int| 0 <= i < self.keys().len() implies #[trigger] self.view().contains_key(self.keys()[i]) by {
            assert(self.map@.contains_key(self.keys@[i]@));
        }
    }

    /// Number of keys held.
    pub fn num_keys(&self) -> (r: usize)
        requires
            self.wf(),
        ensures
            r == self.keys().len(),
    {
        self.keys.len()
    }

    /// The key held at position `i` and its location.
    pub fn entry_at(&self, i: usize) -> (r: (Vec<u8>, KeyDirValue))
        requires
            self.wf(),
            i < self.keys().len(),
        ensures
            r.0@ == self.keys()[i as int],
            self.view().contains_key(r.0@),
            r.1 == self.view()[r.0@],
    {
        let k = self.keys[i].clone();
        assert(self.map@.contains_key(self.keys@[i as int]@));
        (k, self.vals[i])
    }

    /// The two vectors hold the map's pairs, each key once.
    pub closed spec fn wf(&self) -> bool {
        &&& self.keys@.len() == self.vals@.len()
        &&& forall|i: int|
            0 <= i < self.keys@.len() ==> #[trigger] self.map@.contains_key(self.keys@[i]@)
                && self.map@[self.keys@[i]@] == self.vals@[i]
        &&& forall|k: Seq<u8>|
            #[trigger] self.map@.contains_key(k) ==> exists|i: int|
                0 <= i < self.keys@.len() && self.keys@[i]@ == k
        &&& forall|i: int, j: int|
            0 <= i < self.keys@.len() && 0 <= j < self.keys@.len() && i != j
                ==> self.keys@[i]@ != self.keys@[j]@
    }

    pub fn new() -> (r: KeyDir)
        ensures
            r.wf(),
            r.view() == Map::<Seq<u8>, KeyDirValue>::empty(),
    {
        KeyDir { keys: Vec::new(), vals: Vec::new(), map: Ghost(Map::empty()) }
    }

    fn find(&self, key: &[u8]) -> (r: Option<usize>)
        requires
            self.wf(),
        ensures
            match r {
                Some(i) => i < self.keys@.len() && self.keys@[i as int]@ == key@,
                None => !self.view().contains_key(key@),
            },
    {
        let mut i: usize = 0;
        while i < self.keys.len()
            invariant
                self.wf(),
                i <= self.keys@.len(),
                forall|j: int| 0 <= j < i ==> self.keys@[j]@ != key@,
            decreases self.keys@.len() - i,
        {
            if bytes_eq(self.keys[i].as_slice(), key) {
                return Some(i);
            }
            i = i + 1;
        }
        None
    }

    /// The location held for `key`, if any.
    pub fn get(&self, key: &[u8]) -> (r: Option<KeyDirValue>)
        requires
            self.wf(),
        ensures
            r == (if self.view().contains_key(key@) {
                Some(self.view()[key@])
            } else {
                None::<KeyDirValue>
            }),
    {
        match self.find(key) {
            Some(i) => Some(self.vals[i]),
            None => None,
        }
    }

    /// Points `key` at `val`, replacing what was held for it.
    pub fn insert(&mut self, key: Vec<u8>, val: KeyDirValue)
        requires
            old(self).wf(),
        ensures
            final(self).wf(),
            final(self).view() == old(self).view().insert(key@, val),
            old(self).view().contains_key(key@) ==> final(self).keys() == old(self).keys(),
    {
        let ghost k = key@;
        match self.find(key.as_slice()) {
            Some(i) => {
                self.vals.set(i, val);
                self.map = Ghost(self.map@.insert(k, val));
                assert forall|kk: Seq<u8>| #[trigger] self.map@.contains_key(kk) implies exists|j: int|
                    0 <= j < self.keys@.len() && self.keys@[j]@ == kk by {
                    if kk != k {
                        assert(old(self).map@.contains_key(kk));
                        let j = choose|j: int| 0 <= j < old(self).keys@.len() && old(self).keys@[j]@ == kk;
                        assert(self.keys@[j]@ == kk);
                    } else {
                        assert(self.keys@[i as int]@ == kk);
                    }
                }
                assert forall|a: int|
                    0 <= a < self.keys@.len() implies #[trigger] self.map@.contains_key(self.keys@[a]@)
                        && self.map@[self.keys@[a]@] == self.vals@[a] by {
                    if a != i {
                        assert(old(self).keys@[a]@ != k);
                        assert(old(self).map@.contains_key(old(self).keys@[a]@));
                    }
                }
            },
            None => {
                self.keys.push(key);
                self.vals.push(val);
                self.map = Ghost(self.map@.insert(k, val));
                let ghost n = self.keys@.len() - 1;
                assert forall|kk: Seq<u8>| #[trigger] self.map@.contains_key(kk) implies exists|j: int|
                    0 <= j < self.keys@.len() && self.keys@[j]@ == kk by {
                    if kk != k {
                        assert(old(self).map@.contains_key(kk));
                        let j = choose|j: int| 0 <= j < old(self).keys@.len() && old(self).keys@[j]@ == kk;
                        assert(self.keys@[j]@ == kk);
                    } else {
                        assert(self.keys@[n]@ == kk);
                    }
                }
                assert forall|i: int|
                    0 <= i < self.keys@.len() implies #[trigger] self.map@.contains_key(self.keys@[i]@)
                        && self.map@[self.keys@[i]@] == self.vals@[i] by {
                    if i < n {
                        assert(old(self).map@.contains_key(old(self).keys@[i]@));
                    }
                }
            },
        }
    }

    /// Forgets `key`.
    pub fn remove(&mut self, key: &[u8])
        requires
            old(self).wf(),
        ensures
            final(self).wf(),
            final(self).view() == old(self).view().remove(key@),
    {
        match self.find(key) {
            Some(i) => {
                let ghost k = key@;
                let ghost last = (self.keys@.len() - 1) as int;
                self.keys.swap_remove(i);
                self.vals.swap_remove(i);
                self.map = Ghost(self.map@.remove(k));
                assert forall|kk: Seq<u8>| #[trigger] self.map@.contains_key(kk) implies exists|j: int|
                    0 <= j < self.keys@.len() && self.keys@[j]@ == kk by {
                    assert(old(self).map@.contains_key(kk));
                    let j = choose|j: int| 0 <= j < old(self).keys@.len() && old(self).keys@[j]@ == kk;
                    if j == last {
                        assert(self.keys@[i as int]@ == kk);
                    } else {
                        assert(j != i);
                        assert(self.keys@[j]@ == kk);
                    }
                }
                assert forall|a: int|
                    0 <= a < self.keys@.len() implies #[trigger] self.map@.contains_key(self.keys@[a]@)
                        && self.map@[self.keys@[a]@] == self.vals@[a] by {
                    let oa = if a == i { last } else { a };
                    assert(self.keys@[a] == old(self).keys@[oa]);
                    assert(self.vals@[a] == old(self).vals@[oa]);
                    assert(oa != i);
                    assert(old(self).keys@[oa]@ != k);
                    assert(old(self).map@.contains_key(old(self).keys@[oa]@));
                }
                assert forall|a: int, b: int|
                    0 <= a < self.keys@.len() && 0 <= b < self.keys@.len() && a != b
                    implies self.keys@[a]@ != self.keys@[b]@ by {
                    let oa = if a == i { last } else { a };
                    let ob = if b == i { last } else { b };
                    assert(self.keys@[a] == old(self).keys@[oa]);
                    assert(self.keys@[b] == old(self).keys@[ob]);
                }
            },
            None => {
                assert(self.map@.remove(key@) =~= self.map@);
            },
        }
    }
}

} // verus!
