//! The replacement table: unique keys, each with one value, kept in the
//! order in which each key first appeared.
use vstd::prelude::*;
use vstd::slice::slice_to_vec;

verus! {

/// One key and its value, as bytes.
pub type Pair = (Seq<u8>, Seq<u8>);

/// No key appears twice.
pub open spec fn keys_unique(e: Seq<Pair>) -> bool {
    forall|i: int, j: int| 0 <= i < j < e.len() ==> e[i].0 != e[j].0
}

/// `k` is one of the keys.
pub open spec fn has_key(e: Seq<Pair>, k: Seq<u8>) -> bool {
    exists|i: int| 0 <= i < e.len() && e[i].0 == k
}

/// The value of `k`, if `k` is a key.
pub open spec fn lookup(e: Seq<Pair>, k: Seq<u8>) -> Option<Seq<u8>> {
    if has_key(e, k) {
        Some(e[choose|i: int| 0 <= i < e.len() && e[i].0 == k].1)
    } else {
        None
    }
}

/// Sets the value of `k`: a key already present keeps its place and takes
/// the new value; a new key goes last.
pub open spec fn table_insert(e: Seq<Pair>, k: Seq<u8>, v: Seq<u8>) -> Seq<Pair> {
    if has_key(e, k) {
        e.update(choose|i: int| 0 <= i < e.len() && e[i].0 == k, (k, v))
    } else {
        e.push((k, v))
    }
}

/// Under unique keys, the index that `lookup` and `table_insert` pick is the
/// one that holds the key.
pub proof fn lemma_key_index(e: Seq<Pair>, k: Seq<u8>, i: int)
    requires
        keys_unique(e),
        0 <= i < e.len(),
        e[i].0 == k,
    ensures
        has_key(e, k),
        (choose|j: int| 0 <= j < e.len() && e[j].0 == k) == i,
{
    let j = choose|j: int| 0 <= j < e.len() && e[j].0 == k;
    assert(0 <= j < e.len() && e[j].0 == k);
    if j < i {
        assert(e[j].0 != e[i].0);
    } else if i < j {
        assert(e[i].0 != e[j].0);
    }
}

/// Inserting keeps the keys unique, and the new value is the one looked up.
pub proof fn lemma_insert(e: Seq<Pair>, k: Seq<u8>, v: Seq<u8>)
    requires
        keys_unique(e),
    ensures
        keys_unique(table_insert(e, k, v)),
        lookup(table_insert(e, k, v), k) == Some(v),
        forall|k2: Seq<u8>| k2 != k ==> lookup(#[trigger] table_insert(e, k, v), k2) == lookup(e, k2),
{
    let t = table_insert(e, k, v);
    if has_key(e, k) {
        let i = choose|i: int| 0 <= i < e.len() && e[i].0 == k;
        assert(t.len() == e.len());
        lemma_key_index(t, k, i);
        assert forall|k2: Seq<u8>| k2 != k implies lookup(t, k2) == lookup(e, k2) by {
            if has_key(e, k2) {
                let j = choose|j: int| 0 <= j < e.len() && e[j].0 == k2;
                lemma_key_index(t, k2, j);
            } else if has_key(t, k2) {
                let j = choose|j: int| 0 <= j < t.len() && t[j].0 == k2;
                assert(e[j].0 == k2);
            }
        }
    } else {
        assert(keys_unique(t));
        lemma_key_index(t, k, e.len() as int);
        assert forall|k2: Seq<u8>| k2 != k implies lookup(t, k2) == lookup(e, k2) by {
            if has_key(e, k2) {
                let j = choose|j: int| 0 <= j < e.len() && e[j].0 == k2;
                lemma_key_index(e, k2, j);
                lemma_key_index(t, k2, j);
            } else if has_key(t, k2) {
                let j = choose|j: int| 0 <= j < t.len() && t[j].0 == k2;
                assert(e[j].0 == k2);
            }
        }
    }
}

/// Whether two byte strings are equal.
pub fn bytes_eq(a: &[u8], b: &[u8]) -> (r: bool)
    ensures
        r == (a@ == b@),
{
    if a.len() != b.len() {
        return false;
    }
    let mut i: usize = 0;
    while i < a.len()
        invariant
            a@.len() == b@.len(),
            i <= a@.len(),
            forall|j: int| 0 <= j < i ==> a@[j] == b@[j],
        decreases a@.len() - i,
    {
        if a[i] != b[i] {
            return false;
        }
        i = i + 1;
    }
    assert(a@ =~= b@);
    true
}

/// A replacement table: each key at most once, with its value.
pub struct Table {
    entries: Vec<(Vec<u8>, Vec<u8>)>,
}

impl View for Table {
    type V = Seq<Pair>;

    closed spec fn view(&self) -> Seq<Pair> {
        self.entries@.map_values(|e: (Vec<u8>, Vec<u8>)| (e.0@, e.1@))
    }
}

impl Table {
    /// The table's invariant: no key appears twice.
    pub open spec fn wf(&self) -> bool {
        keys_unique(self@)
    }

    /// An empty table.
    pub fn new() -> (t: Table)
        ensures
            t.wf(),
            t@ == Seq::<Pair>::empty(),
    {
        let t = Table { entries: Vec::new() };
        assert(t@ =~= Seq::<Pair>::empty());
        t
    }

    /// The number of keys.
    pub fn len(&self) -> (n: usize)
        ensures
            n == self@.len(),
    {
        self.entries.len()
    }

    /// The key of the `i`-th entry.
    pub fn key_at(&self, i: usize) -> (k: &[u8])
        requires
            i < self@.len(),
        ensures
            k@ == self@[i as int].0,
    {
        self.entries[i].0.as_slice()
    }

    /// The value of the `i`-th entry.
    pub fn value_at(&self, i: usize) -> (v: &[u8])
        requires
            i < self@.len(),
        ensures
            v@ == self@[i as int].1,
    {
        self.entries[i].1.as_slice()
    }

    /// The index of `key`, if it is a key of the table.
    fn position(&self, key: &[u8]) -> (r: Option<usize>)
        requires
            self.wf(),
        ensures
            match r {
                Some(i) => i < self@.len() && self@[i as int].0 == key@,
                None => !has_key(self@, key@),
            },
    {
        let mut i: usize = 0;
        while i < self.entries.len()
            invariant
                i <= self@.len(),
                self@.len() == self.entries@.len(),
                forall|j: int| 0 <= j < i ==> self@[j].0 != key@,
            decreases self@.len() - i,
        {
            if bytes_eq(self.entries[i].0.as_slice(), key) {
                return Some(i);
            }
            i = i + 1;
        }
        None
    }

    /// The value of `key`, if it is a key of the table.
    pub fn get(&self, key: &[u8]) -> (r: Option<Vec<u8>>)
        requires
            self.wf(),
        ensures
            match r {
                Some(v) => lookup(self@, key@) == Some(v@),
                None => lookup(self@, key@) is None,
            },
    {
        match self.position(key) {
            Some(i) => {
                proof {
                    lemma_key_index(self@, key@, i as int);
                }
                Some(slice_to_vec(self.entries[i].1.as_slice()))
            },
            None => None,
        }
    }

    /// Sets the value of `key` to `value`, replacing any earlier value.
    pub fn insert(&mut self, key: Vec<u8>, value: Vec<u8>)
        requires
            old(self).wf(),
        ensures
            final(self).wf(),
            final(self)@ == table_insert(old(self)@, key@, value@),
    {
        proof {
            lemma_insert(self@, key@, value@);
        }
        let ghost k = key@;
        let ghost v = value@;
        match self.position(key.as_slice()) {
            Some(i) => {
                proof {
                    lemma_key_index(self@, k, i as int);
                }
                self.entries.set(i, (key, value));
                assert(self@ =~= table_insert(old(self)@, k, v));
            },
            None => {
                self.entries.push((key, value));
                assert(self@ =~= table_insert(old(self)@, k, v));
            },
        }
    }
}

} // verus!
