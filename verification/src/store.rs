//! The shared store that all maps opened on it write through.
//!
//! The store keeps the committed raw entries, the single cross-map physical
//! write batch, and the atomic-depth counter. Entries are held with unique
//! keys; the physical batch is an ordered sequence of put and delete
//! operations that `write` applies atomically, in order.

use vstd::prelude::*;

verus! {

/// One queued physical operation: a raw key with `Some(value)` for a put or
/// `None` for a delete.
pub type RawOp = (Vec<u8>, Option<Vec<u8>>);

/// The view of a queued physical operation.
pub type RawOpView = (Seq<u8>, Option<Seq<u8>>);

/// The view of an optional raw value.
pub open spec fn opt_bytes_view(v: Option<Vec<u8>>) -> Option<Seq<u8>> {
    match v {
        Some(b) => Some(b@),
        None => None,
    }
}

/// The views of a sequence of raw entries.
pub open spec fn raw_entries_view(s: Seq<(Vec<u8>, Vec<u8>)>) -> Seq<(Seq<u8>, Seq<u8>)> {
    s.map_values(|p: (Vec<u8>, Vec<u8>)| (p.0@, p.1@))
}

/// The views of a sequence of queued physical operations.
pub open spec fn raw_ops_view(s: Seq<RawOp>) -> Seq<RawOpView> {
    s.map_values(|p: RawOp| (p.0@, opt_bytes_view(p.1)))
}

/// The contents described by a sequence of raw entries, later entries winning.
pub open spec fn entries_map(s: Seq<(Seq<u8>, Seq<u8>)>) -> Map<Seq<u8>, Seq<u8>>
    decreases s.len(),
{
    if s.len() == 0 {
        Map::empty()
    } else {
        entries_map(s.drop_last()).insert(s.last().0, s.last().1)
    }
}

/// The contents after applying a sequence of physical operations in order.
pub open spec fn apply_ops(m: Map<Seq<u8>, Seq<u8>>, ops: Seq<RawOpView>) -> Map<Seq<u8>, Seq<u8>>
    decreases ops.len(),
{
    if ops.len() == 0 {
        m
    } else {
        let rest = apply_ops(m, ops.drop_last());
        match ops.last().1 {
            Some(v) => rest.insert(ops.last().0, v),
            None => rest.remove(ops.last().0),
        }
    }
}

/// A key of `entries_map(s)` is exactly a key that occurs in `s`.
pub proof fn lemma_entries_map_domain(s: Seq<(Seq<u8>, Seq<u8>)>, k: Seq<u8>)
    ensures
        entries_map(s).contains_key(k) <==> exists|i: int| 0 <= i < s.len() && s[i].0 == k,
    decreases s.len(),
{
    if s.len() > 0 {
        lemma_entries_map_domain(s.drop_last(), k);
        if entries_map(s).contains_key(k) && s.last().0 != k {
            let i = choose|i: int| 0 <= i < s.drop_last().len() && s.drop_last()[i].0 == k;
            assert(s[i].0 == k);
        }
        if exists|i: int| 0 <= i < s.len() && s[i].0 == k {
            let i = choose|i: int| 0 <= i < s.len() && s[i].0 == k;
            if i < s.len() - 1 {
                assert(s.drop_last()[i].0 == k);
            }
        }
    }
}

/// With unique keys, the entry at any index gives the mapped value.
pub proof fn lemma_entries_map_index(s: Seq<(Seq<u8>, Seq<u8>)>, i: int)
    requires
        forall|x: int, y: int| 0 <= x < y < s.len() ==> s[x].0 != s[y].0,
        0 <= i < s.len(),
    ensures
        entries_map(s).contains_key(s[i].0),
        entries_map(s)[s[i].0] == s[i].1,
    decreases s.len(),
{
    if i == s.len() - 1 {
        lemma_entries_map_domain(s, s[i].0);
    } else {
        lemma_entries_map_index(s.drop_last(), i);
        assert(s.drop_last()[i] == s[i]);
    }
}

/// Removing the entry at index `i` removes exactly its key from the contents.
pub proof fn lemma_entries_map_remove(s: Seq<(Seq<u8>, Seq<u8>)>, i: int)
    requires
        forall|x: int, y: int| 0 <= x < y < s.len() ==> s[x].0 != s[y].0,
        0 <= i < s.len(),
    ensures
        entries_map(s.remove(i)) == entries_map(s).remove(s[i].0),
    decreases s.len(),
{
    if i == s.len() - 1 {
        assert(s.remove(i) =~= s.drop_last());
        lemma_entries_map_domain(s.drop_last(), s[i].0);
        assert(entries_map(s.drop_last()) =~= entries_map(s).remove(s[i].0));
    } else {
        lemma_entries_map_remove(s.drop_last(), i);
        assert(s.remove(i).drop_last() =~= s.drop_last().remove(i));
        assert(s.remove(i).last() == s.last());
        assert(entries_map(s.remove(i)) =~= entries_map(s).remove(s[i].0));
    }
}

/// Two stores with the same committed entries are well-formed together.
pub proof fn lemma_same_entries_wf(a: Store, b: Store)
    requires
        a.wf(),
        a.raw_entries() == b.raw_entries(),
    ensures
        b.wf(),
{
    assert forall|x: int, y: int|
        0 <= x < y < b.raw_entries().len() implies b.raw_entries()[x].0 != b.raw_entries()[y].0 by {
        assert(a.raw_entries()[x].0 != a.raw_entries()[y].0);
    }
}

/// The shared store: committed entries, the cross-map physical write batch,
/// and the number of currently active atomic scopes.
pub struct Store {
    /// The committed raw entries, with unique keys.
    pub entries: Vec<(Vec<u8>, Vec<u8>)>,
    /// The physical write batch accumulated by finishing maps.
    pub batch: Vec<RawOp>,
    /// The number of `start_atomic` calls not yet paired with a finish.
    pub depth: usize,
}

impl Store {
    /// The view of the committed entries.
    pub open spec fn raw_entries(self) -> Seq<(Seq<u8>, Seq<u8>)> {
        raw_entries_view(self.entries@)
    }

    /// The committed contents, as a map from raw keys to raw values.
    pub open spec fn contents(self) -> Map<Seq<u8>, Seq<u8>> {
        entries_map(self.raw_entries())
    }

    /// The view of the pending physical write batch.
    pub open spec fn batch_ops(self) -> Seq<RawOpView> {
        raw_ops_view(self.batch@)
    }

    /// The committed entries hold each key at most once.
    pub open spec fn wf(self) -> bool {
        forall|x: int, y: int|
            0 <= x < y < self.raw_entries().len() ==> self.raw_entries()[x].0
                != self.raw_entries()[y].0
    }

    /// Opens a fresh, empty store.
    pub fn open() -> (r: Store)
        ensures
            r.wf(),
            r.contents() == Map::<Seq<u8>, Seq<u8>>::empty(),
            r.entries@.len() == 0,
            r.batch_ops() == Seq::<RawOpView>::empty(),
            r.batch@.len() == 0,
            r.depth == 0,
    {
        let r = Store { entries: Vec::new(), batch: Vec::new(), depth: 0 };
        proof {
            assert(r.raw_entries() =~= Seq::<(Seq<u8>, Seq<u8>)>::empty());
            assert(r.batch_ops() =~= Seq::<RawOpView>::empty());
        }
        r
    }

    /// Finds the index of a committed entry with the given key, if any.
    fn find_entry(&self, key: &Vec<u8>) -> (r: Option<usize>)
        ensures
            r matches Some(i) ==> i < self.raw_entries().len() && self.raw_entries()[i as int].0
                == key@,
            r is None ==> forall|i: int|
                0 <= i < self.raw_entries().len() ==> self.raw_entries()[i].0 != key@,
    {
        let n = self.entries.len();
        for i in 0..n
            invariant
                n == self.raw_entries().len(),
                forall|j: int| 0 <= j < i ==> self.raw_entries()[j].0 != key@,
            decreases n - i,
        {
            if bytes_eq(&self.entries[i].0, key) {
                return Some(i);
            }
        }
        None
    }

    /// A point read of the committed contents.
    pub fn get(&self, key: &Vec<u8>) -> (r: Option<Vec<u8>>)
        requires
            self.wf(),
        ensures
            r matches Some(v) ==> self.contents().contains_key(key@) && v@ == self.contents()[key@],
            r is None ==> !self.contents().contains_key(key@),
    {
        match self.find_entry(key) {
            Some(i) => {
                proof {
                    lemma_entries_map_index(self.raw_entries(), i as int);
                }
                Some(clone_bytes(&self.entries[i].1))
            },
            None => {
                proof {
                    lemma_entries_map_domain(self.raw_entries(), key@);
                }
                None
            },
        }
    }

    /// A standalone committed write, bypassing the batch layer.
    pub fn put(&mut self, key: Vec<u8>, value: Vec<u8>)
        requires
            old(self).wf(),
        ensures
            final(self).wf(),
            final(self).contents() == old(self).contents().insert(key@, value@),
            final(self).batch == old(self).batch,
            final(self).depth == old(self).depth,
    {
        proof {
            lemma_entries_map_domain(self.raw_entries(), key@);
        }
        let ghost pre = self.raw_entries();
        match self.find_entry(&key) {
            Some(i) => {
                proof {
                    lemma_entries_map_remove(pre, i as int);
                }
                let _ = self.entries.remove(i);
                proof {
                    assert(self.raw_entries() =~= pre.remove(i as int));
                }
            },
            None => {},
        }
        let ghost mid = self.raw_entries();
        self.entries.push((key, value));
        proof {
            assert(self.raw_entries() =~= mid.push((key@, value@)));
            assert(self.raw_entries().drop_last() =~= mid);
            assert(final(self).contents() =~= old(self).contents().insert(key@, value@));
        }
    }

    /// A standalone committed delete, bypassing the batch layer.
    pub fn delete(&mut self, key: &Vec<u8>)
        requires
            old(self).wf(),
        ensures
            final(self).wf(),
            final(self).contents() == old(self).contents().remove(key@),
            final(self).batch == old(self).batch,
            final(self).depth == old(self).depth,
    {
        let ghost pre = self.raw_entries();
        match self.find_entry(key) {
            Some(i) => {
                proof {
                    lemma_entries_map_remove(pre, i as int);
                }
                let _ = self.entries.remove(i);
                proof {
                    assert(self.raw_entries() =~= pre.remove(i as int));
                }
            },
            None => {
                proof {
                    lemma_entries_map_domain(pre, key@);
                    assert(old(self).contents() =~= old(self).contents().remove(key@));
                }
            },
        }
    }

    /// Applies the pending physical batch to the committed contents, in order,
    /// atomically from the callers' point of view, and leaves the batch empty.
    pub fn write(&mut self)
        requires
            old(self).wf(),
        ensures
            final(self).wf(),
            final(self).contents() == apply_ops(old(self).contents(), old(self).batch_ops()),
            final(self).batch@.len() == 0,
            final(self).depth == old(self).depth,
    {
        let ghost all_ops = self.batch_ops();
        let mut ops = self.batch.split_off(0);
        proof {
            assert(self.batch_ops() =~= Seq::<RawOpView>::empty());
            assert(raw_ops_view(ops@) =~= all_ops);
            assert(self.raw_entries() == old(self).raw_entries());
            assert(all_ops.take(0) =~= Seq::<RawOpView>::empty());
        }
        let n = ops.len();
        let mut i: usize = 0;
        while i < n
            invariant
                self.wf(),
                n == ops@.len(),
                i <= n,
                all_ops == raw_ops_view(ops@),
                self.contents() == apply_ops(old(self).contents(), all_ops.take(i as int)),
                self.batch@.len() == 0,
                self.depth == old(self).depth,
            decreases n - i,
        {
            proof {
                assert(all_ops.take(i + 1).drop_last() =~= all_ops.take(i as int));
                assert(all_ops.take(i + 1).last() == all_ops[i as int]);
            }
            let op = &ops[i];
            match &op.1 {
                Some(v) => {
                    let kc = clone_bytes(&op.0);
                    let vc = clone_bytes(v);
                    self.put(kc, vc);
                },
                None => {
                    self.delete(&op.0);
                },
            }
            i = i + 1;
        }
        proof {
            assert(all_ops.take(n as int) =~= all_ops);
        }
    }
}

/// Compares two byte strings.
pub fn bytes_eq(a: &Vec<u8>, b: &Vec<u8>) -> (r: bool)
    ensures
        r <==> a@ == b@,
{
    if a.len() != b.len() {
        proof {
            assert(a@.len() != b@.len());
        }
        return false;
    }
    let n = a.len();
    for i in 0..n
        invariant
            n == a@.len(),
            n == b@.len(),
            forall|j: int| 0 <= j < i ==> a@[j] == b@[j],
        decreases n - i,
    {
        if a[i] != b[i] {
            return false;
        }
    }
    proof {
        assert(a@ =~= b@);
    }
    true
}

/// Copies a byte string.
pub fn clone_bytes(v: &Vec<u8>) -> (r: Vec<u8>)
    ensures
        r@ == v@,
{
    let n = v.len();
    let mut r: Vec<u8> = Vec::new();
    for i in 0..n
        invariant
            n == v@.len(),
            r@ == v@.take(i as int),
        decreases n - i,
    {
        r.push(v[i]);
        proof {
            assert(r@ =~= v@.take(i + 1));
        }
    }
    proof {
        assert(v@.take(n as int) =~= v@);
    }
    r
}

/// Tests whether a raw key starts with the given prefix.
pub fn has_prefix(raw: &Vec<u8>, prefix: &Vec<u8>) -> (r: bool)
    ensures
        r <==> (raw@.len() >= prefix@.len() && raw@.take(prefix@.len() as int) == prefix@),
{
    if raw.len() < prefix.len() {
        return false;
    }
    let n = prefix.len();
    for i in 0..n
        invariant
            n == prefix@.len(),
            raw@.len() >= n,
            forall|j: int| 0 <= j < i ==> raw@[j] == prefix@[j],
        decreases n - i,
    {
        if raw[i] != prefix[i] {
            proof {
                assert(raw@.take(n as int)[i as int] != prefix@[i as int]);
            }
            return false;
        }
    }
    proof {
        assert(raw@.take(n as int) =~= prefix@);
    }
    true
}

} // verus!
