use vstd::prelude::*;

use crate::address::{bytes_equal, copy_bytes};

verus! {

/// Whether no two entries of `entries` share a key.
pub open spec fn keys_distinct<V>(entries: Seq<(Vec<u8>, V)>) -> bool {
    forall|i: int, j: int|
        0 <= i < entries.len() && 0 <= j < entries.len() && i != j ==> #[trigger] entries[i].0@
            != #[trigger] entries[j].0@
}

/// Whether `k` is the key of some entry of `entries`.
pub open spec fn has_key<V>(entries: Seq<(Vec<u8>, V)>, k: Seq<u8>) -> bool {
    exists|i: int| 0 <= i < entries.len() && #[trigger] entries[i].0@ == k
}

/// The map that a list of entries with distinct keys stands for.
pub open spec fn entries_map<V>(entries: Seq<(Vec<u8>, V)>) -> Map<Seq<u8>, V> {
    Map::new(
        |k: Seq<u8>| has_key(entries, k),
        |k: Seq<u8>| entries[choose|i: int| 0 <= i < entries.len() && #[trigger] entries[i].0@ == k].1,
    )
}

/// With distinct keys, the entry at `i` gives the map's value for its key.
pub proof fn lemma_entry_in_map<V>(entries: Seq<(Vec<u8>, V)>, i: int)
    requires
        keys_distinct(entries),
        0 <= i < entries.len(),
    ensures
        entries_map(entries).contains_key(entries[i].0@),
        entries_map(entries)[entries[i].0@] == entries[i].1,
{
    let k = entries[i].0@;
    assert(has_key(entries, k));
    let j = choose|j: int| 0 <= j < entries.len() && #[trigger] entries[j].0@ == k;
    assert(0 <= j < entries.len() && entries[j].0@ == k);
    if j != i {
        assert(entries[i].0@ != entries[j].0@);
    }
}

/// A map from byte strings to values, kept as a list of entries whose keys
/// are distinct.
pub struct BytesMap<V> {
    entries: Vec<(Vec<u8>, V)>,
}

impl<V> View for BytesMap<V> {
    type V = Map<Seq<u8>, V>;

    closed spec fn view(&self) -> Map<Seq<u8>, V> {
        entries_map(self.entries@)
    }
}

impl<V> BytesMap<V> {
    #[verifier::type_invariant]
    spec fn inv(&self) -> bool {
        keys_distinct(self.entries@)
    }

    /// The number of entries.
    pub closed spec fn size(&self) -> nat {
        self.entries@.len()
    }

    /// The key of the entry at position `i`.
    pub closed spec fn key_at_spec(&self, i: int) -> Seq<u8> {
        self.entries@[i].0@
    }

    /// The empty map.
    pub fn new() -> (m: Self)
        ensures
            m@ == Map::<Seq<u8>, V>::empty(),
            m.size() == 0,
    {
        let m = BytesMap { entries: Vec::new() };
        assert(m@ =~= Map::<Seq<u8>, V>::empty());
        m
    }

    /// The position of the entry whose key is `key`, if there is one.
    fn position(&self, key: &[u8]) -> (r: Option<usize>)
        ensures
            r matches Some(i) ==> i < self.entries@.len() && self.entries@[i as int].0@ == key@,
            r is None ==> !has_key(self.entries@, key@),
    {
        let mut i: usize = 0;
        while i < self.entries.len()
            invariant
                i <= self.entries@.len(),
                forall|j: int| 0 <= j < i ==> #[trigger] self.entries@[j].0@ != key@,
            decreases self.entries@.len() - i,
        {
            if bytes_equal(self.entries[i].0.as_slice(), key) {
                return Some(i);
            }
            i += 1;
        }
        None
    }

    /// The value stored under `key`.
    pub fn get(&self, key: &[u8]) -> (r: Option<&V>)
        ensures
            r matches Some(v) ==> self@.contains_key(key@) && *v == self@[key@],
            r is None ==> !self@.contains_key(key@),
    {
        proof {
            use_type_invariant(self);
        }
        match self.position(key) {
            Some(i) => {
                proof {
                    lemma_entry_in_map(self.entries@, i as int);
                }
                Some(&self.entries[i].1)
            },
            None => None,
        }
    }

    /// Whether a value is stored under `key`.
    pub fn contains_key(&self, key: &[u8]) -> (r: bool)
        ensures
            r == self@.contains_key(key@),
    {
        self.get(key).is_some()
    }

    /// Stores `value` under `key`, replacing what was stored there.
    pub fn set(&mut self, key: Vec<u8>, value: V)
        ensures
            final(self)@ == old(self)@.insert(key@, value),
    {
        proof {
            use_type_invariant(&*self);
        }
        let ghost old_entries = self.entries@;
        let pos = self.position(key.as_slice());
        let ghost k = key@;
        let mut entries: Vec<(Vec<u8>, V)> = Vec::new();
        std::mem::swap(&mut entries, &mut self.entries);
        assert(entries@ == old_entries);
        match pos {
            Some(i) => {
                entries.remove(i);
                entries.insert(i, (key, value));
                assert(entries@ =~= old_entries.update(i as int, (entries@[i as int].0, value)));
                proof {
                    let ne = entries@;
                    assert(keys_distinct(ne)) by {
                        assert forall|a: int, b: int|
                            0 <= a < ne.len() && 0 <= b < ne.len() && a != b implies #[trigger] ne[a].0@
                            != #[trigger] ne[b].0@ by {
                            if a != i && b != i {
                                assert(ne[a] == old_entries[a] && ne[b] == old_entries[b]);
                            } else if a == i {
                                assert(old_entries[i as int].0@ != old_entries[b].0@);
                            } else {
                                assert(old_entries[i as int].0@ != old_entries[a].0@);
                            }
                        }
                    }
                    assert(entries_map(ne) =~= entries_map(old_entries).insert(k, value)) by {
                        lemma_entry_in_map(ne, i as int);
                        assert forall|x: Seq<u8>| #[trigger]
                            entries_map(ne).contains_key(x) <==> entries_map(
                                old_entries,
                            ).insert(k, value).contains_key(x) by {
                            if has_key(ne, x) {
                                let j = choose|j: int| 0 <= j < ne.len() && #[trigger] ne[j].0@ == x;
                                if j != i {
                                    assert(old_entries[j].0@ == x);
                                }
                            }
                            if has_key(old_entries, x) {
                                let j = choose|j: int|
                                    0 <= j < old_entries.len() && #[trigger] old_entries[j].0@ == x;
                                if j != i {
                                    assert(ne[j].0@ == x);
                                } else {
                                    assert(ne[i as int].0@ == x);
                                }
                            }
                        }
                        assert forall|x: Seq<u8>| #[trigger]
                            entries_map(ne).contains_key(x) implies entries_map(ne)[x] == entries_map(
                                old_entries,
                            ).insert(k, value)[x] by {
                            let j = choose|j: int| 0 <= j < ne.len() && #[trigger] ne[j].0@ == x;
                            lemma_entry_in_map(ne, j);
                            if j != i {
                                assert(old_entries[j] == ne[j]);
                                lemma_entry_in_map(old_entries, j);
                            }
                        }
                    }
                }
            },
            None => {
                entries.push((key, value));
                proof {
                    let ne = entries@;
                    assert(ne =~= old_entries.push(ne[old_entries.len() as int]));
                    assert(keys_distinct(ne)) by {
                        assert forall|a: int, b: int|
                            0 <= a < ne.len() && 0 <= b < ne.len() && a != b implies #[trigger] ne[a].0@
                            != #[trigger] ne[b].0@ by {
                            let n = old_entries.len() as int;
                            if a != n && b != n {
                                assert(ne[a] == old_entries[a] && ne[b] == old_entries[b]);
                            } else if a == n {
                                assert(ne[b] == old_entries[b]);
                                assert(old_entries[b].0@ != k);
                            } else {
                                assert(ne[a] == old_entries[a]);
                                assert(old_entries[a].0@ != k);
                            }
                        }
                    }
                    assert(entries_map(ne) =~= entries_map(old_entries).insert(k, value)) by {
                        let n = old_entries.len() as int;
                        lemma_entry_in_map(ne, n);
                        assert forall|x: Seq<u8>| #[trigger]
                            entries_map(ne).contains_key(x) <==> entries_map(
                                old_entries,
                            ).insert(k, value).contains_key(x) by {
                            if has_key(ne, x) {
                                let j = choose|j: int| 0 <= j < ne.len() && #[trigger] ne[j].0@ == x;
                                if j != n {
                                    assert(old_entries[j].0@ == x);
                                }
                            }
                            if has_key(old_entries, x) {
                                let j = choose|j: int|
                                    0 <= j < old_entries.len() && #[trigger] old_entries[j].0@ == x;
                                assert(ne[j].0@ == x);
                            }
                        }
                        assert forall|x: Seq<u8>| #[trigger]
                            entries_map(ne).contains_key(x) implies entries_map(ne)[x] == entries_map(
                                old_entries,
                            ).insert(k, value)[x] by {
                            let j = choose|j: int| 0 <= j < ne.len() && #[trigger] ne[j].0@ == x;
                            lemma_entry_in_map(ne, j);
                            if j != n {
                                assert(old_entries[j] == ne[j]);
                                lemma_entry_in_map(old_entries, j);
                            }
                        }
                    }
                }
            },
        }
        self.entries = entries;
    }

    /// Removes what is stored under `key`, and hands it back.
    pub fn remove(&mut self, key: &[u8]) -> (r: Option<V>)
        ensures
            final(self)@ == old(self)@.remove(key@),
            r matches Some(v) ==> old(self)@.contains_key(key@) && v == old(self)@[key@],
            r is None ==> !old(self)@.contains_key(key@),
    {
        proof {
            use_type_invariant(&*self);
        }
        let ghost old_entries = self.entries@;
        let ghost k = key@;
        match self.position(key) {
            None => {
                proof {
                    assert(entries_map(old_entries).remove(k) =~= entries_map(old_entries));
                }
                None
            },
            Some(i) => {
                proof {
                    lemma_entry_in_map(old_entries, i as int);
                }
                let mut entries: Vec<(Vec<u8>, V)> = Vec::new();
                std::mem::swap(&mut entries, &mut self.entries);
                let (_, v) = entries.remove(i);
                proof {
                    let ne = entries@;
                    assert(ne =~= old_entries.remove(i as int));
                    assert forall|j: int| 0 <= j < ne.len() implies #[trigger] ne[j] == old_entries[
                        if j < i {
                            j
                        } else {
                            j + 1
                        }
                    ] by {}
                    assert(keys_distinct(ne)) by {
                        assert forall|a: int, b: int|
                            0 <= a < ne.len() && 0 <= b < ne.len() && a != b implies #[trigger] ne[a].0@
                            != #[trigger] ne[b].0@ by {
                            let a2 = if a < i {
                                a
                            } else {
                                a + 1
                            };
                            let b2 = if b < i {
                                b
                            } else {
                                b + 1
                            };
                            assert(ne[a] == old_entries[a2]);
                            assert(ne[b] == old_entries[b2]);
                            assert(old_entries[a2].0@ != old_entries[b2].0@);
                        }
                    }
                    assert(entries_map(ne) =~= entries_map(old_entries).remove(k)) by {
                        assert forall|x: Seq<u8>| #[trigger]
                            entries_map(ne).contains_key(x) <==> entries_map(
                                old_entries,
                            ).remove(k).contains_key(x) by {
                            if has_key(ne, x) {
                                let j = choose|j: int| 0 <= j < ne.len() && #[trigger] ne[j].0@ == x;
                                let j2 = if j < i {
                                    j
                                } else {
                                    j + 1
                                };
                                assert(ne[j] == old_entries[j2]);
                                assert(old_entries[j2].0@ == x);
                                assert(j2 != i);
                                assert(old_entries[i as int].0@ != old_entries[j2].0@);
                            }
                            if has_key(old_entries, x) && x != k {
                                let j = choose|j: int|
                                    0 <= j < old_entries.len() && #[trigger] old_entries[j].0@ == x;
                                assert(j != i);
                                if j < i {
                                    assert(ne[j] == old_entries[j]);
                                    assert(ne[j].0@ == x);
                                } else {
                                    assert(ne[j - 1] == old_entries[j]);
                                    assert(ne[j - 1].0@ == x);
                                }
                            }
                        }
                        assert forall|x: Seq<u8>| #[trigger]
                            entries_map(ne).contains_key(x) implies entries_map(ne)[x]
                            == entries_map(old_entries).remove(k)[x] by {
                            let j = choose|j: int| 0 <= j < ne.len() && #[trigger] ne[j].0@ == x;
                            lemma_entry_in_map(ne, j);
                            let j2 = if j < i {
                                j
                            } else {
                                j + 1
                            };
                            assert(ne[j] == old_entries[j2]);
                            lemma_entry_in_map(old_entries, j2);
                        }
                    }
                }
                self.entries = entries;
                Some(v)
            },
        }
    }

    /// The number of entries; every stored key is at a position below it.
    pub fn len(&self) -> (n: usize)
        ensures
            n == self.size(),
            forall|k: Seq<u8>|
                self@.contains_key(k) ==> exists|i: int| 0 <= i < n && #[trigger] self.key_at_spec(i) == k,
    {
        proof {
            assert forall|k: Seq<u8>| self@.contains_key(k) implies exists|i: int|
                0 <= i < self.size() && #[trigger] self.key_at_spec(i) == k by {
                let i = choose|i: int| 0 <= i < self.entries@.len() && #[trigger] self.entries@[i].0@ == k;
                assert(self.key_at_spec(i) == k);
            }
        }
        self.entries.len()
    }

    /// The entry at position `i`, in the order in which keys were first stored.
    pub fn entry_at(&self, i: usize) -> (r: (&Vec<u8>, &V))
        requires
            i < self.size(),
        ensures
            r.0@ == self.key_at_spec(i as int),
            self@.contains_key(r.0@),
            self@[r.0@] == *r.1,
    {
        proof {
            use_type_invariant(self);
            lemma_entry_in_map(self.entries@, i as int);
        }
        (&self.entries[i].0, &self.entries[i].1)
    }
}

impl<V: Copy> BytesMap<V> {
    /// A copy of the map.
    pub fn copy(&self) -> (m: Self)
        ensures
            m@ == self@,
    {
        proof {
            use_type_invariant(self);
        }
        let n = self.entries.len();
        let mut entries: Vec<(Vec<u8>, V)> = Vec::new();
        let mut i: usize = 0;
        while i < n
            invariant
                n == self.entries@.len(),
                i <= n,
                entries@.len() == i,
                forall|j: int|
                    0 <= j < i ==> (#[trigger] entries@[j]).0@ == self.entries@[j].0@ && entries@[j].1
                        == self.entries@[j].1,
            decreases n - i,
        {
            let key = copy_bytes(self.entries[i].0.as_slice());
            entries.push((key, self.entries[i].1));
            i += 1;
        }
        let m = BytesMap { entries };
        proof {
            let a = m.entries@;
            let b = self.entries@;
            assert(keys_distinct(a)) by {
                assert forall|x: int, y: int|
                    0 <= x < a.len() && 0 <= y < a.len() && x != y implies #[trigger] a[x].0@
                    != #[trigger] a[y].0@ by {
                    assert(b[x].0@ != b[y].0@);
                }
            }
            assert forall|k: Seq<u8>| #[trigger] has_key(a, k) <==> has_key(b, k) by {
                if has_key(a, k) {
                    let j = choose|j: int| 0 <= j < a.len() && #[trigger] a[j].0@ == k;
                    assert(b[j].0@ == k);
                }
                if has_key(b, k) {
                    let j = choose|j: int| 0 <= j < b.len() && #[trigger] b[j].0@ == k;
                    assert(a[j].0@ == k);
                }
            }
            assert forall|k: Seq<u8>| has_key(a, k) implies #[trigger] entries_map(a)[k] == entries_map(
                b,
            )[k] by {
                let j = choose|j: int| 0 <= j < a.len() && #[trigger] a[j].0@ == k;
                lemma_entry_in_map(a, j);
                lemma_entry_in_map(b, j);
            }
            assert(entries_map(a) =~= entries_map(b));
        }
        m
    }
}

} // verus!
