//! One prefix-scoped typed map over the shared store.
//!
//! A map holds its own pending operation log and checkpoint stack. Between
//! `start_atomic` and `finish_atomic` every insert and remove is queued in the
//! pending log; `finish_atomic` deduplicates the log (last write wins, first
//! occurrence keeps its place), encodes it, and appends it to the shared
//! physical batch, which is written to the store when the outermost scope
//! finishes.

use vstd::prelude::*;

use crate::MapError;
use crate::codec::{key_bytes, value_bytes, decoded_value, encode_key, encode_value, decode_value, decode_key};
use crate::store::{Store, RawOpView, apply_ops, clone_bytes, has_prefix};

verus! {

/// One pending operation, viewed: a key with `Some(value)` for a scheduled
/// insert or `None` for a scheduled delete.
pub type PendingView = Seq<(u64, Option<Seq<char>>)>;

/// The view of an optional string value.
pub open spec fn opt_str_view(v: Option<String>) -> Option<Seq<char>> {
    match v {
        Some(s) => Some(s@),
        None => None,
    }
}

/// The views of a sequence of pending operations.
pub open spec fn pending_ops_view(s: Seq<(u64, Option<String>)>) -> PendingView {
    s.map_values(|p: (u64, Option<String>)| (p.0, opt_str_view(p.1)))
}

/// The last pending operation recorded for a key, if any.
pub open spec fn last_entry(p: PendingView, k: u64) -> Option<Option<Seq<char>>>
    decreases p.len(),
{
    if p.len() == 0 {
        None
    } else if p.last().0 == k {
        Some(p.last().1)
    } else {
        last_entry(p.drop_last(), k)
    }
}

/// The first index holding a key, or -1 when the key does not occur.
pub open spec fn find_key(p: PendingView, k: u64) -> int
    decreases p.len(),
{
    if p.len() == 0 {
        -1
    } else if p[0].0 == k {
        0
    } else {
        let r = find_key(p.drop_first(), k);
        if r < 0 {
            -1
        } else {
            r + 1
        }
    }
}

/// Replaces the value at a key's place if the key occurs, else appends.
pub open spec fn upsert(p: PendingView, k: u64, v: Option<Seq<char>>) -> PendingView {
    let i = find_key(p, k);
    if i >= 0 {
        p.update(i, (k, v))
    } else {
        p.push((k, v))
    }
}

/// The pending log after deduplication: one entry per key, holding its last
/// value, at the place of the key's first occurrence.
pub open spec fn dedup(p: PendingView) -> PendingView
    decreases p.len(),
{
    if p.len() == 0 {
        Seq::empty()
    } else {
        upsert(dedup(p.drop_last()), p.last().0, p.last().1)
    }
}

/// The physical operations that committing a deduplicated log appends: each
/// key is prefixed with the map's context, each value encoded.
pub open spec fn enc_ops(ctx: Seq<u8>, d: PendingView) -> Seq<RawOpView> {
    d.map_values(
        |e: (u64, Option<Seq<char>>)|
            (
                ctx + key_bytes(e.0),
                match e.1 {
                    Some(s) => Some(value_bytes(s)),
                    None => None,
                },
            ),
    )
}

/// A point read of raw contents at a map's prefixed key.
pub open spec fn raw_lookup(c: Map<Seq<u8>, Seq<u8>>, ctx: Seq<u8>, k: u64) -> Option<Seq<u8>> {
    if c.contains_key(ctx + key_bytes(k)) {
        Some(c[ctx + key_bytes(k)])
    } else {
        None
    }
}

/// Whether a raw key starts with the given context.
pub open spec fn ctx_prefixed(ctx: Seq<u8>, raw: Seq<u8>) -> bool {
    raw.len() >= ctx.len() && raw.take(ctx.len() as int) == ctx
}

/// The views of a sequence of decoded items.
pub open spec fn items_view(s: Seq<(u64, String)>) -> Seq<(u64, Seq<char>)> {
    s.map_values(|p: (u64, String)| (p.0, p.1@))
}

/// The views of a sequence of strings.
pub open spec fn strings_view(s: Seq<String>) -> Seq<Seq<char>> {
    s.map_values(|v: String| v@)
}

/// One prefix-scoped typed map. All maps opened on one store share its
/// physical batch and depth counter; each holds its own pending log.
pub struct DataMap {
    /// The four-byte key prefix assigned at open.
    pub context: Vec<u8>,
    /// Whether an atomic batch is in progress on this map.
    pub in_progress: bool,
    /// The pending operation log of the active batch.
    pub pending: Vec<(u64, Option<String>)>,
    /// The checkpoint stack: lengths of `pending` captured at checkpoints.
    pub checkpoints: Vec<usize>,
}

impl DataMap {
    /// The map's key prefix.
    pub open spec fn ctx(self) -> Seq<u8> {
        self.context@
    }

    /// The view of the pending operation log.
    pub open spec fn pending_view(self) -> PendingView {
        pending_ops_view(self.pending@)
    }

    /// The map's internal invariant: the context is the four-byte prefix, the
    /// checkpoint stack is monotone and bounded by the pending length, and an
    /// idle map holds no pending work.
    pub open spec fn wf(self) -> bool {
        &&& self.context@.len() == 4
        &&& forall|i: int|
            0 <= i < self.checkpoints@.len() ==> self.checkpoints@[i] <= self.pending@.len()
        &&& forall|i: int, j: int|
            0 <= i <= j < self.checkpoints@.len() ==> self.checkpoints@[i] <= self.checkpoints@[j]
        &&& !self.in_progress ==> self.pending@.len() == 0 && self.checkpoints@.len() == 0
    }

    /// The committed value bytes under this map's prefix for a key, if any.
    pub open spec fn confirmed_raw(self, store: Store, k: u64) -> Option<Seq<u8>> {
        raw_lookup(store.contents(), self.ctx(), k)
    }

    /// What a speculative read sees for a key: the last pending operation when
    /// the batch touches the key, the committed state otherwise.
    pub open spec fn speculative_raw(self, store: Store, k: u64) -> Option<Seq<u8>> {
        if self.in_progress {
            match last_entry(self.pending_view(), k) {
                Some(Some(v)) => Some(value_bytes(v)),
                Some(None) => None,
                None => self.confirmed_raw(store, k),
            }
        } else {
            self.confirmed_raw(store, k)
        }
    }

    /// Whether every committed raw key under this map's prefix carries a
    /// well-formed key and a decodable value.
    pub open spec fn scan_ok(self, store: Store) -> bool {
        forall|raw: Seq<u8>|
            #[trigger] store.contents().contains_key(raw) && ctx_prefixed(self.ctx(), raw)
                ==> raw.len() == self.ctx().len() + 8 && decoded_value(store.contents()[raw])
                is Some
    }

    /// What a full decoded scan of this map's prefix returns: one item per
    /// committed key under the prefix, carrying its decoded value, with no key
    /// repeated, in the order of the store's committed entries.
    pub open spec fn confirmed_items_ok(self, store: Store, items: Seq<(u64, Seq<char>)>) -> bool {
        &&& forall|t: int|
            0 <= t < items.len() ==> ((#[trigger] self.confirmed_raw(store, items[t].0)) matches Some(b)
                && decoded_value(b) == Some(items[t].1))
        &&& forall|k: u64|
            (#[trigger] self.confirmed_raw(store, k)) is Some ==> exists|t: int|
                0 <= t < items.len() && items[t].0 == k
        &&& forall|t1: int, t2: int| 0 <= t1 < t2 < items.len() ==> items[t1].0 != items[t2].0
        &&& forall|t1: int, t2: int|
            0 <= t1 < t2 < items.len() ==> raw_key_index(
                store.raw_entries(),
                self.ctx() + key_bytes(items[t1].0),
            ) < raw_key_index(store.raw_entries(), self.ctx() + key_bytes(items[t2].0))
    }

    /// The length the next rewind truncates the pending log to.
    pub open spec fn rewind_target(self) -> int {
        if self.checkpoints@.len() > 0 {
            self.checkpoints@.last() as int
        } else {
            0
        }
    }

    /// Opens the map identified by `(network_id, map_id)`. Two maps on one
    /// store must never share this pair.
    pub fn open(network_id: u16, map_id: u16) -> (r: DataMap)
        ensures
            r.wf(),
            r.ctx() == crate::context_bytes(network_id, map_id),
            !r.in_progress,
            r.pending@.len() == 0,
            r.checkpoints@.len() == 0,
    {
        DataMap {
            context: crate::make_context(network_id, map_id),
            in_progress: false,
            pending: Vec::new(),
            checkpoints: Vec::new(),
        }
    }

    /// The raw key for a typed key: the map's context followed by the key's
    /// little-endian bytes.
    pub fn create_prefixed_key(&self, key: u64) -> (r: Vec<u8>)
        ensures
            r@ == self.ctx() + key_bytes(key),
    {
        let mut raw = clone_bytes(&self.context);
        let mut kb = encode_key(key);
        raw.append(&mut kb);
        raw
    }

    /// Whether an atomic batch is currently in progress on this map.
    pub fn is_atomic_in_progress(&self) -> (r: bool)
        ensures
            r == self.in_progress,
    {
        self.in_progress
    }

    /// Begins an atomic batch: further inserts and removes are queued until
    /// `finish_atomic`. The pending log and the shared physical batch must be
    /// empty; starting a map that is already in progress is a design error and
    /// is excluded.
    pub fn start_atomic(&mut self, store: &mut Store)
        requires
            old(self).wf(),
            old(store).wf(),
            !old(self).in_progress,
            old(store).batch@.len() == 0,
            old(store).depth < usize::MAX,
        ensures
            final(self).wf(),
            final(store).wf(),
            final(self).context == old(self).context,
            final(self).in_progress,
            final(self).pending == old(self).pending,
            final(self).checkpoints == old(self).checkpoints,
            final(self).pending@.len() == 0,
            final(self).checkpoints@.len() == 0,
            final(store).entries == old(store).entries,
            final(store).batch == old(store).batch,
            final(store).depth == old(store).depth + 1,
    {
        self.in_progress = true;
        store.depth = store.depth + 1;
        proof {
            crate::store::lemma_same_entries_wf(*old(store), *store);
        }
    }

    /// Records the current pending length, so that a later `atomic_rewind`
    /// rolls all later operations back to this point.
    pub fn atomic_checkpoint(&mut self)
        requires
            old(self).wf(),
            old(self).in_progress,
        ensures
            final(self).wf(),
            final(self).context == old(self).context,
            final(self).in_progress == old(self).in_progress,
            final(self).pending == old(self).pending,
            final(self).checkpoints@ == old(self).checkpoints@.push(old(self).pending@.len() as usize),
    {
        let n = self.pending.len();
        self.checkpoints.push(n);
    }

    /// Removes the latest checkpoint without rewinding; a no-op when no
    /// checkpoint is recorded.
    pub fn clear_latest_checkpoint(&mut self)
        requires
            old(self).wf(),
        ensures
            final(self).wf(),
            final(self).context == old(self).context,
            final(self).in_progress == old(self).in_progress,
            final(self).pending == old(self).pending,
            old(self).checkpoints@.len() > 0 ==> final(self).checkpoints@ == old(self).checkpoints@.drop_last(),
            old(self).checkpoints@.len() == 0 ==> final(self).checkpoints@ == old(self).checkpoints@,
    {
        let _ = self.checkpoints.pop();
    }

    /// Rolls the pending log back to the latest checkpoint (or to empty when
    /// none is recorded) and pops that checkpoint.
    pub fn atomic_rewind(&mut self)
        requires
            old(self).wf(),
        ensures
            final(self).wf(),
            final(self).context == old(self).context,
            final(self).in_progress == old(self).in_progress,
            final(self).pending@ == old(self).pending@.take(old(self).rewind_target()),
            old(self).checkpoints@.len() > 0 ==> final(self).checkpoints@ == old(self).checkpoints@.drop_last(),
            old(self).checkpoints@.len() == 0 ==> final(self).checkpoints@ == old(self).checkpoints@,
    {
        let checkpoint = match self.checkpoints.pop() {
            Some(c) => c,
            None => 0,
        };
        self.pending.truncate(checkpoint);
    }

    /// Abandons the current atomic batch: clears the pending log and the
    /// checkpoint stack, leaves the map idle, and discards the shared
    /// physical batch and depth.
    pub fn abort_atomic(&mut self, store: &mut Store)
        requires
            old(self).wf(),
            old(store).wf(),
        ensures
            final(self).wf(),
            final(store).wf(),
            final(self).context == old(self).context,
            !final(self).in_progress,
            final(self).pending@.len() == 0,
            final(self).checkpoints@.len() == 0,
            final(store).entries == old(store).entries,
            final(store).batch@.len() == 0,
            final(store).depth == 0,
    {
        self.pending.clear();
        self.checkpoints.clear();
        self.in_progress = false;
        store.batch.clear();
        store.depth = 0;
        proof {
            crate::store::lemma_same_entries_wf(*old(store), *store);
        }
    }

    /// Inserts a key-value pair: queued in the pending log while a batch is in
    /// progress, written directly to the store otherwise.
    pub fn insert(&mut self, store: &mut Store, key: u64, value: String) -> (r: Result<
        (),
        MapError,
    >)
        requires
            old(self).wf(),
            old(store).wf(),
        ensures
            r is Ok,
            final(self).wf(),
            final(store).wf(),
            final(self).context == old(self).context,
            final(self).in_progress == old(self).in_progress,
            final(self).checkpoints == old(self).checkpoints,
            old(self).in_progress ==> final(self).pending@ == old(self).pending@.push(
                (key, Some(value)),
            ) && *final(store) == *old(store),
            !old(self).in_progress ==> final(self).pending == old(self).pending
                && final(store).batch == old(store).batch && final(store).depth == old(store).depth
                && final(store).contents() == old(store).contents().insert(
                old(self).ctx() + key_bytes(key),
                value_bytes(value@),
            ) && decoded_value(value_bytes(value@)) == Some(value@),
    {
        if self.is_atomic_in_progress() {
            self.pending.push((key, Some(value)));
            Ok(())
        } else {
            let raw_key = self.create_prefixed_key(key);
            let raw_value = match encode_value(&value) {
                Ok(b) => b,
                Err(_) => {
                    proof {
                        assert(false);
                    }
                    Vec::new()
                },
            };
            store.put(raw_key, raw_value);
            Ok(())
        }
    }

    /// Removes a key: queued in the pending log while a batch is in progress,
    /// deleted directly from the store otherwise.
    pub fn remove(&mut self, store: &mut Store, key: u64) -> (r: Result<(), MapError>)
        requires
            old(self).wf(),
            old(store).wf(),
        ensures
            final(self).wf(),
            final(store).wf(),
            final(self).context == old(self).context,
            final(self).in_progress == old(self).in_progress,
            final(self).checkpoints == old(self).checkpoints,
            r is Ok,
            old(self).in_progress ==> final(self).pending@ == old(self).pending@.push((key, None))
                && *final(store) == *old(store),
            !old(self).in_progress ==> final(self).pending == old(self).pending && final(store).batch == old(store).batch && final(store).depth == old(store).depth && final(store).contents() == old(store).contents().remove(old(self).ctx() + key_bytes(key)),
    {
        if self.is_atomic_in_progress() {
            self.pending.push((key, None));
            Ok(())
        } else {
            let raw_key = self.create_prefixed_key(key);
            store.delete(&raw_key);
            Ok(())
        }
    }

    /// Finds the index of the last pending operation on a key, if any.
    fn last_pending_index(&self, key: u64) -> (r: Option<usize>)
        ensures
            r matches Some(i) ==> i < self.pending@.len() && self.pending_view()[i as int].0 == key
                && last_entry(self.pending_view(), key) == Some(
                self.pending_view()[i as int].1,
            ),
            r is None ==> last_entry(self.pending_view(), key) is None,
    {
        let mut i = self.pending.len();
        while i > 0
            invariant
                i <= self.pending@.len(),
                forall|j: int|
                    i <= j < self.pending_view().len() ==> self.pending_view()[j].0 != key,
            decreases i,
        {
            i = i - 1;
            if self.pending[i].0 == key {
                proof {
                    lemma_last_entry_at(self.pending_view(), key, i as int);
                }
                return Some(i);
            }
        }
        proof {
            lemma_last_entry_none(self.pending_view(), key);
        }
        None
    }

    /// The last pending operation for a key: `Some(Some(v))` for a scheduled
    /// insert, `Some(None)` for a scheduled delete, `None` when the active
    /// batch does not touch the key or no batch is in progress.
    pub fn get_pending(&self, key: u64) -> (r: Option<Option<String>>)
        ensures
            !self.in_progress ==> r is None,
            self.in_progress ==> match r {
                Some(v) => last_entry(self.pending_view(), key) == Some(opt_str_view(v)),
                None => last_entry(self.pending_view(), key) is None,
            },
    {
        if !self.is_atomic_in_progress() {
            return None;
        }
        match self.last_pending_index(key) {
            Some(i) => match &self.pending[i].1 {
                Some(s) => Some(Some(s.clone())),
                None => Some(None),
            },
            None => None,
        }
    }

    /// The committed raw value bytes for a key, consulting the store only.
    pub fn get_raw(&self, store: &Store, key: u64) -> (r: Option<Vec<u8>>)
        requires
            store.wf(),
        ensures
            crate::store::opt_bytes_view(r) == self.confirmed_raw(*store, key),
    {
        let raw_key = self.create_prefixed_key(key);
        store.get(&raw_key)
    }

    /// Whether the key exists in the committed state, ignoring any pending
    /// operations.
    pub fn contains_key_confirmed(&self, store: &Store, key: u64) -> (r: Result<bool, MapError>)
        requires
            store.wf(),
        ensures
            r == Ok::<bool, MapError>(self.confirmed_raw(*store, key) is Some),
    {
        Ok(self.get_raw(store, key).is_some())
    }

    /// Whether the key exists once pending operations are layered over the
    /// committed state: the last pending operation decides when the batch
    /// touches the key, the committed state otherwise.
    pub fn contains_key_speculative(&self, store: &Store, key: u64) -> (r: Result<bool, MapError>)
        requires
            store.wf(),
        ensures
            r == Ok::<bool, MapError>(self.speculative_raw(*store, key) is Some),
    {
        if self.is_atomic_in_progress() {
            match self.last_pending_index(key) {
                Some(i) => {
                    return Ok(self.pending[i].1.is_some());
                },
                None => {},
            }
        }
        self.contains_key_confirmed(store, key)
    }

    /// The committed value for a key, decoded; ignores pending operations.
    pub fn get_confirmed(&self, store: &Store, key: u64) -> (r: Result<Option<String>, MapError>)
        requires
            store.wf(),
        ensures
            match self.confirmed_raw(*store, key) {
                None => r == Ok::<Option<String>, MapError>(None),
                Some(b) => match decoded_value(b) {
                    Some(s) => r matches Ok(Some(v)) && v@ == s,
                    None => r == Err::<Option<String>, MapError>(MapError::Codec),
                },
            },
    {
        match self.get_raw(store, key) {
            Some(bytes) => match decode_value(&bytes) {
                Ok(v) => Ok(Some(v)),
                Err(_) => Err(MapError::Codec),
            },
            None => Ok(None),
        }
    }

    /// The value a later commit of the current batch would leave for the key:
    /// the last pending operation when the batch touches it, the committed
    /// value otherwise.
    pub fn get_speculative(&self, store: &Store, key: u64) -> (r: Result<Option<String>, MapError>)
        requires
            store.wf(),
        ensures
            self.in_progress ==> (match last_entry(self.pending_view(), key) {
                Some(Some(v)) => r matches Ok(Some(rv)) && rv@ == v,
                Some(None) => r == Ok::<Option<String>, MapError>(None),
                None => true,
            }),
            !self.in_progress || last_entry(self.pending_view(), key) is None ==> match self
                .confirmed_raw(*store, key) {
                None => r == Ok::<Option<String>, MapError>(None),
                Some(b) => match decoded_value(b) {
                    Some(s) => r matches Ok(Some(v)) && v@ == s,
                    None => r == Err::<Option<String>, MapError>(MapError::Codec),
                },
            },
    {
        match self.get_pending(key) {
            Some(Some(v)) => Ok(Some(v)),
            Some(None) => Ok(None),
            None => self.get_confirmed(store, key),
        }
    }

    /// The current pending log after deduplication: one entry per key with its
    /// last value, in the order of each key's first occurrence.
    pub fn iter_pending(&self) -> (r: Vec<(u64, Option<String>)>)
        ensures
            pending_ops_view(r@) == dedup(self.pending_view()),
    {
        let ghost pv = self.pending_view();
        let mut im = imap_new();
        let n = self.pending.len();
        for i in 0..n
            invariant
                n == self.pending@.len(),
                imap_entries(im) == dedup(pv.take(i as int)),
                pv == self.pending_view(),
            decreases n - i,
        {
            let key = self.pending[i].0;
            let value = match &self.pending[i].1 {
                Some(s) => Some(s.clone()),
                None => None,
            };
            imap_insert(&mut im, key, value);
            proof {
                assert(pv.take(i + 1).drop_last() =~= pv.take(i as int));
                assert(pv.take(i + 1).last() == pv[i as int]);
            }
        }
        proof {
            assert(pv.take(n as int) =~= pv);
        }
        imap_to_vec(im)
    }

    /// Decodes every committed key-value pair under this map's prefix, in the
    /// order of the store's committed entries, ignoring pending operations.
    /// Fails without panicking when a raw entry under the prefix is malformed
    /// or does not decode.
    #[verifier::rlimit(100)]
    #[verifier::spinoff_prover]
    pub fn iter_confirmed(&self, store: &Store) -> (r: Result<Vec<(u64, String)>, MapError>)
        requires
            self.wf(),
            store.wf(),
        ensures
            r matches Ok(items) ==> self.confirmed_items_ok(*store, items_view(items@)),
            r is Ok <==> self.scan_ok(*store),
            r is Err ==> r == Err::<Vec<(u64, String)>, MapError>(MapError::Codec),
    {
        let ghost re = store.raw_entries();
        let ghost ctx = self.ctx();
        let mut items: Vec<(u64, String)> = Vec::new();
        let n = store.entries.len();
        proof {
            lemma_scan_empty(re, ctx);
            lemma_scan_positions_empty(re, ctx);
            assert(items@ =~= Seq::<(u64, String)>::empty());
        }
        for e_i in 0..n
            invariant
                self.wf(),
                store.wf(),
                n == re.len(),
                re == store.raw_entries(),
                ctx == self.ctx(),
                scan_sound(re, ctx, e_i as int, items@),
                scan_complete(re, ctx, e_i as int, items@),
                scan_positions(re, ctx, e_i as int, items@),
                forall|t1: int, t2: int|
                    0 <= t1 < t2 < items@.len() ==> items@[t1].0 != items@[t2].0,
            decreases n - e_i,
        {
            let raw_key = &store.entries[e_i].0;
            if has_prefix(raw_key, &self.context) {
                if raw_key.len() != self.context.len() + 8 {
                    proof {
                        lemma_scan_bad_entry(*self, *store, e_i as int);
                    }
                    return Err(MapError::Codec);
                }
                let k = decode_key(raw_key, self.context.len());
                proof {
                    crate::codec::lemma_bytes_key_round_trip(raw_key@.subrange(4, 12));
                    assert(raw_key@ =~= raw_key@.take(4) + raw_key@.subrange(4, 12));
                    assert(re[e_i as int].0 == ctx + key_bytes(k));
                }
                match decode_value(&store.entries[e_i].1) {
                    Ok(v) => {
                        proof {
                            lemma_scan_fresh_key(re, ctx, e_i as int, items@, k);
                            lemma_scan_step_push(re, ctx, e_i as int, items@, k, v);
                            lemma_scan_positions_push(re, ctx, e_i as int, items@, k, v);
                        }
                        items.push((k, v));
                    },
                    Err(_) => {
                        proof {
                            lemma_scan_bad_entry(*self, *store, e_i as int);
                        }
                        return Err(MapError::Codec);
                    },
                }
            } else {
                proof {
                    assert(re[e_i as int].0 == raw_key@);
                    assert(!ctx_prefixed(ctx, re[e_i as int].0));
                    lemma_scan_step_skip(re, ctx, e_i as int, items@);
                    lemma_scan_positions_skip(re, ctx, e_i as int, items@);
                }
            }
        }
        proof {
            lemma_confirmed_scan(*self, *store, items@);
        }
        Ok(items)
    }

    /// The committed keys under this map's prefix, each decoded, no key
    /// repeated. Fails without panicking when a raw entry under the prefix is
    /// malformed or does not decode.
    pub fn keys_confirmed(&self, store: &Store) -> (r: Result<Vec<u64>, MapError>)
        requires
            self.wf(),
            store.wf(),
        ensures
            r matches Ok(ks) ==> exists|items: Seq<(u64, Seq<char>)>|
                #![auto]
                self.confirmed_items_ok(*store, items) && ks@ == items.map_values(
                    |p: (u64, Seq<char>)| p.0,
                ),
            r is Ok <==> self.scan_ok(*store),
            r is Err ==> r == Err::<Vec<u64>, MapError>(MapError::Codec),
    {
        let items = match self.iter_confirmed(store) {
            Ok(items) => items,
            Err(e) => {
                return Err(e);
            },
        };
        let ghost iv = items_view(items@);
        let mut keys: Vec<u64> = Vec::new();
        let n = items.len();
        proof {
            assert(keys@ =~= iv.map_values(|p: (u64, Seq<char>)| p.0).take(0));
        }
        for i in 0..n
            invariant
                n == items@.len(),
                iv == items_view(items@),
                keys@ == iv.map_values(|p: (u64, Seq<char>)| p.0).take(i as int),
            decreases n - i,
        {
            keys.push(items[i].0);
            proof {
                assert(keys@ =~= iv.map_values(|p: (u64, Seq<char>)| p.0).take(i + 1));
            }
        }
        proof {
            assert(iv.map_values(|p: (u64, Seq<char>)| p.0).take(n as int) =~= iv.map_values(
                |p: (u64, Seq<char>)| p.0,
            ));
        }
        Ok(keys)
    }

    /// The committed values under this map's prefix, each decoded, one per
    /// key. Fails without panicking when a raw entry under the prefix is
    /// malformed or does not decode.
    pub fn values_confirmed(&self, store: &Store) -> (r: Result<Vec<String>, MapError>)
        requires
            self.wf(),
            store.wf(),
        ensures
            r matches Ok(vs) ==> exists|items: Seq<(u64, Seq<char>)>|
                #![auto]
                self.confirmed_items_ok(*store, items) && strings_view(vs@) == items.map_values(
                    |p: (u64, Seq<char>)| p.1,
                ),
            r is Ok <==> self.scan_ok(*store),
            r is Err ==> r == Err::<Vec<String>, MapError>(MapError::Codec),
    {
        let items = match self.iter_confirmed(store) {
            Ok(items) => items,
            Err(e) => {
                return Err(e);
            },
        };
        let ghost iv = items_view(items@);
        let mut values: Vec<String> = Vec::new();
        let n = items.len();
        for i in 0..n
            invariant
                n == items@.len(),
                iv == items_view(items@),
                values@.len() == i,
                forall|t: int| 0 <= t < i ==> (#[trigger] values@[t])@ == iv[t].1,
            decreases n - i,
        {
            values.push(items[i].1.clone());
        }
        proof {
            assert(strings_view(values@) =~= iv.map_values(|p: (u64, Seq<char>)| p.1));
        }
        Ok(values)
    }

    /// Ends the atomic batch: deduplicates the pending log, encodes it, and
    /// appends it to the shared physical batch; when this is the outermost
    /// finish (the depth falls from one to zero), writes the whole accumulated
    /// batch to the store atomically. Must be paired with a prior
    /// `start_atomic`.
    pub fn finish_atomic(&mut self, store: &mut Store) -> (r: Result<(), MapError>)
        requires
            old(self).wf(),
            old(store).wf(),
            old(store).depth >= 1,
        ensures
            r is Ok,
            final(self).wf(),
            final(store).wf(),
            final(self).context == old(self).context,
            !final(self).in_progress,
            final(self).pending@.len() == 0,
            final(self).checkpoints@.len() == 0,
            final(store).depth == old(store).depth - 1,
            values_decode(dedup(old(self).pending_view())),
            old(store).depth > 1 ==> final(store).entries == old(store).entries
                && final(store).batch_ops() == old(store).batch_ops() + enc_ops(
                old(self).ctx(),
                dedup(old(self).pending_view()),
            ),
            old(store).depth == 1 ==> final(store).batch@.len() == 0
                && final(store).contents() == crate::store::apply_ops(
                old(store).contents(),
                old(store).batch_ops() + enc_ops(old(self).ctx(), dedup(old(self).pending_view())),
            ),
    {
        let ghost pv = old(self).pending_view();
        let ghost dv = dedup(pv);
        let ops = self.pending.split_off(0);
        proof {
            assert(pending_ops_view(ops@) =~= pv);
            assert(self.pending_view() =~= Seq::<(u64, Option<Seq<char>>)>::empty());
        }
        if ops.len() > 0 {
            let mut im = imap_new();
            let n = ops.len();
            for i in 0..n
                invariant
                    n == ops@.len(),
                    pv == pending_ops_view(ops@),
                    imap_entries(im) == dedup(pv.take(i as int)),
                    self.context == old(self).context,
                    self.in_progress == old(self).in_progress,
                    self.checkpoints == old(self).checkpoints,
                    self.pending@.len() == 0,
                    *store == *old(store),
                decreases n - i,
            {
                let key = ops[i].0;
                let value = match &ops[i].1 {
                    Some(s) => Some(s.clone()),
                    None => None,
                };
                imap_insert(&mut im, key, value);
                proof {
                    assert(pv.take(i + 1).drop_last() =~= pv.take(i as int));
                    assert(pv.take(i + 1).last() == pv[i as int]);
                }
            }
            proof {
                assert(pv.take(n as int) =~= pv);
            }
            let ded = imap_to_vec(im);
            let mut prepared: Vec<(Vec<u8>, Option<Vec<u8>>)> = Vec::new();
            let m = ded.len();
            proof {
                assert(crate::store::raw_ops_view(prepared@) =~~= enc_ops(old(self).ctx(), dv.take(0)));
            }
            for j in 0..m
                invariant
                    m == ded@.len(),
                    dv == pending_ops_view(ded@),
                    self.context == old(self).context,
                    self.in_progress == old(self).in_progress,
                    self.checkpoints == old(self).checkpoints,
                    self.pending@.len() == 0,
                    *store == *old(store),
                    old(store).wf(),
                    crate::store::raw_ops_view(prepared@) == enc_ops(old(self).ctx(), dv.take(j as int)),
                    values_decode(dv.take(j as int)),
                decreases m - j,
            {
                let raw_key = self.create_prefixed_key(ded[j].0);
                let entry_val: Option<Vec<u8>> = match &ded[j].1 {
                    Some(v) => {
                        match encode_value(v) {
                            Ok(b) => Some(b),
                            Err(_) => {
                                proof {
                                    assert(false);
                                }
                                None
                            },
                        }
                    },
                    None => None,
                };
                proof {
                    assert(dv[j as int] == (ded@[j as int].0, opt_str_view(ded@[j as int].1)));
                    assert(crate::store::opt_bytes_view(entry_val) == (match dv[j as int].1 {
                        Some(s) => Some(value_bytes(s)),
                        None => None::<Seq<u8>>,
                    }));
                    lemma_values_decode_step(dv, j as int);
                }
                let ghost prep_pre = prepared@;
                prepared.push((raw_key, entry_val));
                proof {
                    let lhs = crate::store::raw_ops_view(prepared@);
                    let rhs = enc_ops(old(self).ctx(), dv.take(j + 1));
                    assert(lhs.len() == prepared@.len());
                    assert(prep_pre.len() == enc_ops(old(self).ctx(), dv.take(j as int)).len());
                    assert(dv.len() == m as int);
                    assert(prep_pre.len() == j as int);
                    assert(rhs.len() == dv.take(j + 1).len());
                    assert(lhs.len() == rhs.len());
                    assert forall|t: int| 0 <= t < lhs.len() implies lhs[t] == rhs[t] by {
                        assert(lhs[t] == (prepared@[t].0@, crate::store::opt_bytes_view(
                            prepared@[t].1,
                        )));
                        assert(dv.take(j + 1)[t] == dv[t]);
                        if t < j {
                            assert(prepared@[t] == prep_pre[t]);
                            assert(crate::store::raw_ops_view(prep_pre)[t] == enc_ops(
                                old(self).ctx(),
                                dv.take(j as int),
                            )[t]);
                            assert(enc_ops(old(self).ctx(), dv.take(j as int))[t] == rhs[t]);
                        }
                    }
                    assert(lhs =~~= rhs);
                }
            }
            proof {
                assert(dv.take(m as int) =~= dv);
                assert(values_decode(dv));
            }
            let ghost pre_batch = store.batch_ops();
            store.batch.append(&mut prepared);
            proof {
                assert(store.batch_ops() =~~= pre_batch + enc_ops(old(self).ctx(), dv));
                assert(store.raw_entries() == old(store).raw_entries());
            }
        } else {
            proof {
                assert(dv =~= Seq::<(u64, Option<Seq<char>>)>::empty());
                assert(enc_ops(old(self).ctx(), dv) =~= Seq::<RawOpView>::empty());
                assert(store.batch_ops() =~= store.batch_ops() + enc_ops(old(self).ctx(), dv));
                assert(values_decode(dv));
            }
        }
        self.checkpoints.clear();
        self.in_progress = false;
        let previous_depth = store.depth;
        store.depth = previous_depth - 1;
        proof {
            crate::store::lemma_same_entries_wf(*old(store), *store);
        }
        if previous_depth == 1 {
            store.write();
        }
        Ok(())
    }
}

#[verifier::external_type_specification]
#[verifier::external_body]
#[verifier::reject_recursive_types(K)]
#[verifier::reject_recursive_types(V)]
#[verifier::reject_recursive_types(S)]
pub struct ExIndexMap<K, V, S>(indexmap::IndexMap<K, V, S>);

/// The insertion-ordered map that commits deduplicate the pending log with.
pub type DedupMap = indexmap::IndexMap<
    u64,
    Option<String>,
    std::collections::hash_map::RandomState,
>;

/// The entries that a deduplicating map holds, in its insertion order.
pub uninterp spec fn imap_entries(m: DedupMap) -> PendingView;

/// Relies on IndexMap::new: a freshly created map holds no entries.
#[verifier::external_body]
fn imap_new() -> (m: DedupMap)
    ensures
        imap_entries(m) == Seq::<(u64, Option<Seq<char>>)>::empty(),
{
    indexmap::IndexMap::new()
}

/// Relies on IndexMap::insert: an existing key keeps its place in the order
/// and takes the new value; a new key is appended last in order.
#[verifier::external_body]
fn imap_insert(m: &mut DedupMap, key: u64, value: Option<String>)
    ensures
        imap_entries(*final(m)) == upsert(imap_entries(*old(m)), key, opt_str_view(value)),
{
    let _ = m.insert(key, value);
}

/// Relies on IndexMap::into_iter: entries come out in their insertion order.
#[verifier::external_body]
fn imap_to_vec(m: DedupMap) -> (r: Vec<(u64, Option<String>)>)
    ensures
        pending_ops_view(r@) == imap_entries(m),
{
    m.into_iter().collect()
}

/// Whether every scheduled insert in a log holds a value whose encoding
/// decodes back to it; a commit establishes this for the log it encoded.
pub open spec fn values_decode(d: PendingView) -> bool {
    forall|i: int|
        0 <= i < d.len() ==> match (#[trigger] d[i]).1 {
            Some(s) => decoded_value(value_bytes(s)) == Some(s),
            None => true,
        }
}

/// Extends a decoded-values fact by one entry known to decode back.
proof fn lemma_values_decode_step(d: PendingView, j: int)
    requires
        0 <= j < d.len(),
        values_decode(d.take(j)),
        match d[j].1 {
            Some(s) => decoded_value(value_bytes(s)) == Some(s),
            None => true,
        },
    ensures
        values_decode(d.take(j + 1)),
{
    assert forall|i: int|
        0 <= i < d.take(j + 1).len() implies match (#[trigger] d.take(j + 1)[i]).1 {
            Some(s) => decoded_value(value_bytes(s)) == Some(s),
            None => true,
        } by {
        assert(d.take(j + 1)[i] == d[i]);
        if i < j {
            assert(d.take(j)[i] == d[i]);
        }
    }
}

/// The operation the backward scan finds is an element of the log.
pub proof fn lemma_last_entry_mem(p: PendingView, k: u64)
    ensures
        last_entry(p, k) matches Some(e) ==> exists|i: int|
            0 <= i < p.len() && #[trigger] p[i] == (k, e),
    decreases p.len(),
{
    if p.len() > 0 {
        if p.last().0 == k {
            assert(p[p.len() - 1] == (k, p.last().1));
        } else {
            lemma_last_entry_mem(p.drop_last(), k);
            match last_entry(p, k) {
                Some(e) => {
                    let i = choose|i: int|
                        0 <= i < p.drop_last().len() && #[trigger] p.drop_last()[i] == (k, e);
                    assert(p[i] == (k, e));
                },
                None => {},
            }
        }
    }
}

/// When every value in the deduplicated log decodes back, so does the last
/// value the raw log scheduled for any key.
pub proof fn lemma_commit_value_decodes(p: PendingView, k: u64)
    requires
        values_decode(dedup(p)),
    ensures
        match last_entry(p, k) {
            Some(Some(v)) => decoded_value(value_bytes(v)) == Some(v),
            _ => true,
        },
{
    lemma_last_entry_dedup(p, k);
    lemma_last_entry_mem(dedup(p), k);
    match last_entry(p, k) {
        Some(e) => {
            let i = choose|i: int| 0 <= i < dedup(p).len() && #[trigger] dedup(p)[i] == (k, e);
        },
        None => {},
    }
}

/// The first index at which a raw key occurs among the committed entries, or
/// a negative value when it does not occur.
pub open spec fn raw_key_index(re: Seq<(Seq<u8>, Seq<u8>)>, raw: Seq<u8>) -> int
    decreases re.len(),
{
    if re.len() == 0 {
        -1
    } else if re[0].0 == raw {
        0
    } else {
        let r = raw_key_index(re.drop_first(), raw);
        if r < 0 {
            -1
        } else {
            r + 1
        }
    }
}

/// What `raw_key_index` returns: an index holding the raw key, or a negative
/// value when the key occurs nowhere.
proof fn lemma_raw_key_index_spec(re: Seq<(Seq<u8>, Seq<u8>)>, raw: Seq<u8>)
    ensures
        raw_key_index(re, raw) < 0 ==> forall|e: int| 0 <= e < re.len() ==> (#[trigger] re[e]).0 != raw,
        raw_key_index(re, raw) >= 0 ==> 0 <= raw_key_index(re, raw) < re.len() && re[raw_key_index(
            re,
            raw,
        )].0 == raw,
    decreases re.len(),
{
    if re.len() > 0 && re[0].0 != raw {
        lemma_raw_key_index_spec(re.drop_first(), raw);
        if raw_key_index(re.drop_first(), raw) < 0 {
            assert forall|e: int| 0 <= e < re.len() implies (#[trigger] re[e]).0 != raw by {
                if e > 0 {
                    assert(re.drop_first()[e - 1] == re[e]);
                }
            }
        } else {
            assert(re.drop_first()[raw_key_index(re.drop_first(), raw)] == re[raw_key_index(
                re,
                raw,
            )]);
        }
    }
}

/// With unique keys, the key of the entry at any index is first found there.
proof fn lemma_raw_key_index_unique(re: Seq<(Seq<u8>, Seq<u8>)>, e: int)
    requires
        forall|x: int, y: int| 0 <= x < y < re.len() ==> re[x].0 != re[y].0,
        0 <= e < re.len(),
    ensures
        raw_key_index(re, re[e].0) == e,
{
    lemma_raw_key_index_spec(re, re[e].0);
    let i = raw_key_index(re, re[e].0);
    if i < 0 {
        assert(re[e].0 == re[e].0);
    } else {
        assert(re[i].0 == re[e].0);
    }
}

/// The collected items stand in the order of their raw entries, all of them
/// below `bound`.
#[verifier::opaque]
pub open spec fn scan_positions(
    re: Seq<(Seq<u8>, Seq<u8>)>,
    ctx: Seq<u8>,
    bound: int,
    items: Seq<(u64, String)>,
) -> bool {
    &&& forall|t: int|
        0 <= t < items.len() ==> 0 <= raw_key_index(re, ctx + key_bytes((#[trigger] items[t]).0))
            < bound
    &&& forall|t1: int, t2: int|
        0 <= t1 < t2 < items.len() ==> raw_key_index(re, ctx + key_bytes(items[t1].0))
            < raw_key_index(re, ctx + key_bytes(items[t2].0))
}

/// An empty scan has its (no) items in position order.
proof fn lemma_scan_positions_empty(re: Seq<(Seq<u8>, Seq<u8>)>, ctx: Seq<u8>)
    ensures
        scan_positions(re, ctx, 0, Seq::empty()),
{
    reveal(scan_positions);
}

/// Position order is kept when the bound grows past an entry that was not
/// collected.
proof fn lemma_scan_positions_skip(
    re: Seq<(Seq<u8>, Seq<u8>)>,
    ctx: Seq<u8>,
    bound: int,
    items: Seq<(u64, String)>,
)
    requires
        scan_positions(re, ctx, bound, items),
    ensures
        scan_positions(re, ctx, bound + 1, items),
{
    reveal(scan_positions);
}

/// Position order is kept when the entry at the bound is collected.
proof fn lemma_scan_positions_push(
    re: Seq<(Seq<u8>, Seq<u8>)>,
    ctx: Seq<u8>,
    bound: int,
    items: Seq<(u64, String)>,
    k: u64,
    v: String,
)
    requires
        scan_positions(re, ctx, bound, items),
        forall|x: int, y: int| 0 <= x < y < re.len() ==> re[x].0 != re[y].0,
        0 <= bound < re.len(),
        re[bound].0 == ctx + key_bytes(k),
    ensures
        scan_positions(re, ctx, bound + 1, items.push((k, v))),
{
    reveal(scan_positions);
    lemma_raw_key_index_unique(re, bound);
    let items2 = items.push((k, v));
    assert forall|t: int|
        0 <= t < items2.len() implies 0 <= raw_key_index(
        re,
        ctx + key_bytes((#[trigger] items2[t]).0),
    ) < bound + 1 by {
        if t < items.len() {
            assert(items2[t] == items[t]);
        } else {
            assert(items2[t] == (k, v));
        }
    }
    assert forall|t1: int, t2: int|
        0 <= t1 < t2 < items2.len() implies raw_key_index(re, ctx + key_bytes(items2[t1].0))
        < raw_key_index(re, ctx + key_bytes(items2[t2].0)) by {
        assert(items2[t1] == items[t1]);
        if t2 < items.len() {
            assert(items2[t2] == items[t2]);
        } else {
            assert(items2[t2] == (k, v));
        }
    }
}

/// Every collected item is backed by a committed raw entry below `bound`.
#[verifier::opaque]
pub open spec fn scan_sound(
    re: Seq<(Seq<u8>, Seq<u8>)>,
    ctx: Seq<u8>,
    bound: int,
    items: Seq<(u64, String)>,
) -> bool {
    forall|t: int|
        0 <= t < items.len() ==> exists|e: int|
            #![auto]
            0 <= e < bound && re[e].0 == ctx + key_bytes(#[trigger] items[t].0) && decoded_value(
                re[e].1,
            ) == Some(items[t].1@)
}

/// Every committed raw entry below `bound` that carries the context is well
/// formed, decodable, and collected.
#[verifier::opaque]
pub open spec fn scan_complete(
    re: Seq<(Seq<u8>, Seq<u8>)>,
    ctx: Seq<u8>,
    bound: int,
    items: Seq<(u64, String)>,
) -> bool {
    forall|e: int|
        0 <= e < bound && ctx_prefixed(ctx, (#[trigger] re[e]).0) ==> re[e].0.len() == ctx.len() + 8
            && decoded_value(re[e].1) is Some && exists|t: int|
            #![auto]
            0 <= t < items.len() && ctx + key_bytes(items[t].0) == re[e].0
}

/// An empty scan is sound and complete.
proof fn lemma_scan_empty(re: Seq<(Seq<u8>, Seq<u8>)>, ctx: Seq<u8>)
    ensures
        scan_sound(re, ctx, 0, Seq::empty()),
        scan_complete(re, ctx, 0, Seq::empty()),
{
    reveal(scan_sound);
    reveal(scan_complete);
}

/// A sound scan stays sound when the bound grows past an entry that was not
/// collected.
proof fn lemma_scan_step_skip(
    re: Seq<(Seq<u8>, Seq<u8>)>,
    ctx: Seq<u8>,
    bound: int,
    items: Seq<(u64, String)>,
)
    requires
        scan_sound(re, ctx, bound, items),
        scan_complete(re, ctx, bound, items),
        0 <= bound < re.len(),
        !ctx_prefixed(ctx, re[bound].0),
    ensures
        scan_sound(re, ctx, bound + 1, items),
        scan_complete(re, ctx, bound + 1, items),
{
    reveal(scan_sound);
    reveal(scan_complete);
    assert forall|t: int|
        0 <= t < items.len() implies exists|e: int|
            #![auto]
            0 <= e < bound + 1 && re[e].0 == ctx + key_bytes(#[trigger] items[t].0)
                && decoded_value(re[e].1) == Some(items[t].1@) by {
        let e = choose|e: int|
            #![auto]
            0 <= e < bound && re[e].0 == ctx + key_bytes(items[t].0) && decoded_value(re[e].1)
                == Some(items[t].1@);
        assert(0 <= e < bound + 1 && re[e].0 == ctx + key_bytes(items[t].0) && decoded_value(
            re[e].1,
        ) == Some(items[t].1@));
    }
}

/// A sound and complete scan stays so when the entry at the bound is decoded
/// and collected.
proof fn lemma_scan_step_push(
    re: Seq<(Seq<u8>, Seq<u8>)>,
    ctx: Seq<u8>,
    bound: int,
    items: Seq<(u64, String)>,
    k: u64,
    v: String,
)
    requires
        scan_sound(re, ctx, bound, items),
        scan_complete(re, ctx, bound, items),
        0 <= bound < re.len(),
        re[bound].0 == ctx + key_bytes(k),
        re[bound].0.len() == ctx.len() + 8,
        decoded_value(re[bound].1) == Some(v@),
    ensures
        scan_sound(re, ctx, bound + 1, items.push((k, v))),
        scan_complete(re, ctx, bound + 1, items.push((k, v))),
{
    reveal(scan_sound);
    reveal(scan_complete);
    let items2 = items.push((k, v));
    assert forall|t: int|
        0 <= t < items2.len() implies exists|e: int|
            #![auto]
            0 <= e < bound + 1 && re[e].0 == ctx + key_bytes(#[trigger] items2[t].0)
                && decoded_value(re[e].1) == Some(items2[t].1@) by {
        if t < items.len() {
            let e = choose|e: int|
                #![auto]
                0 <= e < bound && re[e].0 == ctx + key_bytes(items[t].0) && decoded_value(re[e].1)
                    == Some(items[t].1@);
            assert(items2[t] == items[t]);
            assert(0 <= e < bound + 1 && re[e].0 == ctx + key_bytes(items2[t].0) && decoded_value(
                re[e].1,
            ) == Some(items2[t].1@));
        } else {
            assert(items2[t] == (k, v));
            assert(re[bound].0 == ctx + key_bytes(items2[t].0) && decoded_value(re[bound].1)
                == Some(items2[t].1@));
        }
    }
    assert forall|e: int|
        0 <= e < bound + 1 && ctx_prefixed(ctx, (#[trigger] re[e]).0) implies re[e].0.len()
            == ctx.len() + 8 && decoded_value(re[e].1) is Some && exists|t: int|
            #![auto]
            0 <= t < items2.len() && ctx + key_bytes(items2[t].0) == re[e].0 by {
        if e < bound {
            let t = choose|t: int|
                #![auto]
                0 <= t < items.len() && ctx + key_bytes(items[t].0) == re[e].0;
            assert(items2[t] == items[t]);
            assert(0 <= t < items2.len() && ctx + key_bytes(items2[t].0) == re[e].0);
        } else {
            assert(items2[items.len() as int] == (k, v));
            assert(ctx + key_bytes(items2[items.len() as int].0) == re[e].0);
        }
    }
}

/// A raw entry under the context that is malformed or does not decode makes
/// the whole prefix scan fail.
proof fn lemma_scan_bad_entry(m: DataMap, store: Store, e: int)
    requires
        store.wf(),
        0 <= e < store.raw_entries().len(),
        ctx_prefixed(m.ctx(), store.raw_entries()[e].0),
        store.raw_entries()[e].0.len() != m.ctx().len() + 8 || decoded_value(
            store.raw_entries()[e].1,
        ) is None,
    ensures
        !m.scan_ok(store),
{
    crate::store::lemma_entries_map_index(store.raw_entries(), e);
}

/// A key whose raw form first appears at the bound is not yet collected.
proof fn lemma_scan_fresh_key(
    re: Seq<(Seq<u8>, Seq<u8>)>,
    ctx: Seq<u8>,
    bound: int,
    items: Seq<(u64, String)>,
    k: u64,
)
    requires
        scan_sound(re, ctx, bound, items),
        forall|x: int, y: int| 0 <= x < y < re.len() ==> re[x].0 != re[y].0,
        0 <= bound < re.len(),
        re[bound].0 == ctx + key_bytes(k),
    ensures
        forall|t: int| 0 <= t < items.len() ==> (#[trigger] items[t]).0 != k,
{
    reveal(scan_sound);
    assert forall|t: int| 0 <= t < items.len() implies (#[trigger] items[t]).0 != k by {
        if items[t].0 == k {
            let e = choose|e: int|
                #![auto]
                0 <= e < bound && re[e].0 == ctx + key_bytes(items[t].0) && decoded_value(re[e].1)
                    == Some(items[t].1@);
            assert(re[e].0 == re[bound].0);
        }
    }
}

/// A full scan that collected, for every committed raw entry under the
/// context, a decoded item with the matching key, describes exactly the
/// confirmed contents of the map.
#[verifier::rlimit(100)]
proof fn lemma_confirmed_scan(m: DataMap, store: Store, items: Seq<(u64, String)>)
    requires
        m.wf(),
        store.wf(),
        scan_sound(store.raw_entries(), m.ctx(), store.raw_entries().len() as int, items),
        scan_complete(store.raw_entries(), m.ctx(), store.raw_entries().len() as int, items),
        scan_positions(store.raw_entries(), m.ctx(), store.raw_entries().len() as int, items),
        forall|t1: int, t2: int| 0 <= t1 < t2 < items.len() ==> items[t1].0 != items[t2].0,
    ensures
        m.confirmed_items_ok(store, items_view(items)),
        m.scan_ok(store),
{
    reveal(scan_sound);
    reveal(scan_complete);
    reveal(scan_positions);
    let re = store.raw_entries();
    let ctx = m.ctx();
    let iv = items_view(items);
    assert forall|t: int|
        0 <= t < iv.len() implies ((#[trigger] m.confirmed_raw(store, iv[t].0)) matches Some(b)
            && decoded_value(b) == Some(iv[t].1)) by {
        let e = choose|e: int|
            #![auto]
            0 <= e < re.len() && re[e].0 == ctx + key_bytes(items[t].0) && decoded_value(re[e].1)
                == Some(items[t].1@);
        crate::store::lemma_entries_map_index(re, e);
    }
    assert forall|k: u64|
        (#[trigger] m.confirmed_raw(store, k)) is Some implies exists|t: int|
            0 <= t < iv.len() && iv[t].0 == k by {
        crate::store::lemma_entries_map_domain(re, ctx + key_bytes(k));
        let e = choose|e: int| 0 <= e < re.len() && re[e].0 == ctx + key_bytes(k);
        assert((ctx + key_bytes(k)).take(ctx.len() as int) =~= ctx);
        assert(ctx_prefixed(ctx, re[e].0));
        let t = choose|t: int|
            #![auto]
            0 <= t < items.len() && ctx + key_bytes(items[t].0) == re[e].0;
        assert((ctx + key_bytes(items[t].0)).subrange(ctx.len() as int, ctx.len() as int + 8)
            =~= key_bytes(items[t].0));
        assert((ctx + key_bytes(k)).subrange(ctx.len() as int, ctx.len() as int + 8) =~= key_bytes(
            k,
        ));
        crate::codec::lemma_key_bytes_injective(items[t].0, k);
        assert(iv[t].0 == k);
    }
    assert forall|raw: Seq<u8>|
        #[trigger] store.contents().contains_key(raw) && ctx_prefixed(ctx, raw) implies raw.len()
            == ctx.len() + 8 && decoded_value(store.contents()[raw]) is Some by {
        crate::store::lemma_entries_map_domain(re, raw);
        let e = choose|e: int| 0 <= e < re.len() && re[e].0 == raw;
        crate::store::lemma_entries_map_index(re, e);
    }
}

/// When index `i` holds the last occurrence of a key, the scan from the back
/// finds exactly that entry.
proof fn lemma_last_entry_at(p: PendingView, k: u64, i: int)
    requires
        0 <= i < p.len(),
        p[i].0 == k,
        forall|j: int| i < j < p.len() ==> p[j].0 != k,
    ensures
        last_entry(p, k) == Some(p[i].1),
    decreases p.len(),
{
    if i < p.len() - 1 {
        lemma_last_entry_at(p.drop_last(), k, i);
    }
}

/// A key that occurs nowhere in the log has no last entry.
proof fn lemma_last_entry_none(p: PendingView, k: u64)
    requires
        forall|j: int| 0 <= j < p.len() ==> p[j].0 != k,
    ensures
        last_entry(p, k) is None,
    decreases p.len(),
{
    if p.len() > 0 {
        lemma_last_entry_none(p.drop_last(), k);
    }
}


/// Whether every key occurs at most once in a pending log.
pub open spec fn unique_keys(p: PendingView) -> bool {
    forall|i: int, j: int| 0 <= i < j < p.len() ==> p[i].0 != p[j].0
}

/// What `find_key` returns: an index holding the key, or a negative value
/// when the key does not occur.
proof fn lemma_find_key_spec(p: PendingView, k: u64)
    ensures
        find_key(p, k) < 0 ==> forall|i: int| 0 <= i < p.len() ==> (#[trigger] p[i]).0 != k,
        find_key(p, k) >= 0 ==> 0 <= find_key(p, k) < p.len() && p[find_key(p, k)].0 == k,
    decreases p.len(),
{
    if p.len() > 0 && p[0].0 != k {
        lemma_find_key_spec(p.drop_first(), k);
        if find_key(p.drop_first(), k) < 0 {
            assert forall|i: int| 0 <= i < p.len() implies (#[trigger] p[i]).0 != k by {
                if i > 0 {
                    assert(p.drop_first()[i - 1] == p[i]);
                }
            }
        } else {
            assert(p.drop_first()[find_key(p.drop_first(), k)] == p[find_key(p, k)]);
        }
    }
}

/// Upserting into a log with unique keys keeps the keys unique.
proof fn lemma_upsert_unique(p: PendingView, k: u64, v: Option<Seq<char>>)
    requires
        unique_keys(p),
    ensures
        unique_keys(upsert(p, k, v)),
{
    lemma_find_key_spec(p, k);
    let q = upsert(p, k, v);
    let f = find_key(p, k);
    assert forall|i: int, j: int| 0 <= i < j < q.len() implies q[i].0 != q[j].0 by {
        if f >= 0 {
            assert(q[i].0 == p[i].0 && q[j].0 == p[j].0);
        } else {
            if j == q.len() - 1 {
                assert(q[i].0 == p[i].0 && q[j].0 == k);
            } else {
                assert(q[i].0 == p[i].0 && q[j].0 == p[j].0);
            }
        }
    }
}

/// Replacing the value at one key's place does not change what the scan from
/// the back finds for any other key.
proof fn lemma_last_entry_update_other(
    p: PendingView,
    i: int,
    k0: u64,
    v0: Option<Seq<char>>,
    k: u64,
)
    requires
        0 <= i < p.len(),
        p[i].0 == k0,
        k != k0,
    ensures
        last_entry(p.update(i, (k0, v0)), k) == last_entry(p, k),
    decreases p.len(),
{
    let q = p.update(i, (k0, v0));
    if i == p.len() - 1 {
        assert(q.drop_last() =~= p.drop_last());
        assert(q.last().0 == k0);
    } else {
        assert(q.drop_last() =~= p.drop_last().update(i, (k0, v0)));
        assert(q.last() == p.last());
        lemma_last_entry_update_other(p.drop_last(), i, k0, v0, k);
    }
}

/// What the scan from the back finds after an upsert: the upserted value for
/// its own key, the former answer for every other key.
proof fn lemma_last_entry_upsert(p: PendingView, k0: u64, v0: Option<Seq<char>>, k: u64)
    requires
        unique_keys(p),
    ensures
        last_entry(upsert(p, k0, v0), k) == (if k == k0 {
            Some(v0)
        } else {
            last_entry(p, k)
        }),
{
    lemma_find_key_spec(p, k0);
    let f = find_key(p, k0);
    let q = upsert(p, k0, v0);
    if f >= 0 {
        if k == k0 {
            assert forall|j: int| f < j < q.len() implies q[j].0 != k by {
                assert(q[j].0 == p[j].0);
                assert(p[f].0 == k0);
            }
            lemma_last_entry_at(q, k, f);
        } else {
            lemma_last_entry_update_other(p, f, k0, v0, k);
        }
    } else {
        assert(q.last() == (k0, v0));
        assert(q.drop_last() =~= p);
    }
}

/// Deduplication keeps one entry per key.
proof fn lemma_dedup_unique(p: PendingView)
    ensures
        unique_keys(dedup(p)),
    decreases p.len(),
{
    if p.len() > 0 {
        lemma_dedup_unique(p.drop_last());
        lemma_upsert_unique(dedup(p.drop_last()), p.last().0, p.last().1);
    }
}

/// The deduplicated log answers every key exactly as the raw log does: the
/// last write wins.
proof fn lemma_last_entry_dedup(p: PendingView, k: u64)
    ensures
        last_entry(dedup(p), k) == last_entry(p, k),
    decreases p.len(),
{
    if p.len() > 0 {
        lemma_last_entry_dedup(p.drop_last(), k);
        lemma_dedup_unique(p.drop_last());
        lemma_last_entry_upsert(dedup(p.drop_last()), p.last().0, p.last().1, k);
    }
}

/// Applying a concatenation of operation lists applies the parts in turn.
proof fn lemma_apply_ops_concat(
    c: Map<Seq<u8>, Seq<u8>>,
    ops1: Seq<RawOpView>,
    ops2: Seq<RawOpView>,
)
    ensures
        apply_ops(c, ops1 + ops2) == apply_ops(apply_ops(c, ops1), ops2),
    decreases ops2.len(),
{
    if ops2.len() == 0 {
        assert(ops1 + ops2 =~= ops1);
    } else {
        assert((ops1 + ops2).drop_last() =~= ops1 + ops2.drop_last());
        assert((ops1 + ops2).last() == ops2.last());
        lemma_apply_ops_concat(c, ops1, ops2.drop_last());
    }
}

/// Operations on other raw keys leave a key's binding untouched.
proof fn lemma_apply_ops_foreign(c: Map<Seq<u8>, Seq<u8>>, ops: Seq<RawOpView>, key: Seq<u8>)
    requires
        forall|i: int| 0 <= i < ops.len() ==> (#[trigger] ops[i]).0 != key,
    ensures
        apply_ops(c, ops).contains_key(key) == c.contains_key(key),
        c.contains_key(key) ==> apply_ops(c, ops)[key] == c[key],
    decreases ops.len(),
{
    if ops.len() > 0 {
        lemma_apply_ops_foreign(c, ops.drop_last(), key);
    }
}

/// Distinct keys of one map have distinct raw keys.
proof fn lemma_prefixed_keys_distinct(ctx: Seq<u8>, k1: u64, k2: u64)
    requires
        k1 != k2,
    ensures
        ctx + key_bytes(k1) != ctx + key_bytes(k2),
{
    if ctx + key_bytes(k1) == ctx + key_bytes(k2) {
        assert((ctx + key_bytes(k1)).subrange(ctx.len() as int, ctx.len() as int + 8) =~= key_bytes(
            k1,
        ));
        assert((ctx + key_bytes(k2)).subrange(ctx.len() as int, ctx.len() as int + 8) =~= key_bytes(
            k2,
        ));
        crate::codec::lemma_key_bytes_injective(k1, k2);
    }
}

/// Looking a key up after applying one map's encoded operations: the last
/// operation on the key decides, and untouched keys read from the underlying
/// contents.
proof fn lemma_apply_enc_lookup(c: Map<Seq<u8>, Seq<u8>>, ctx: Seq<u8>, d: PendingView, k: u64)
    ensures
        raw_lookup(apply_ops(c, enc_ops(ctx, d)), ctx, k) == (match last_entry(d, k) {
            Some(Some(v)) => Some(value_bytes(v)),
            Some(None) => None,
            None => raw_lookup(c, ctx, k),
        }),
    decreases d.len(),
{
    if d.len() == 0 {
        assert(enc_ops(ctx, d) =~= Seq::<RawOpView>::empty());
    } else {
        assert(enc_ops(ctx, d).drop_last() =~= enc_ops(ctx, d.drop_last()));
        assert(enc_ops(ctx, d).last() == (
            ctx + key_bytes(d.last().0),
            match d.last().1 {
                Some(s) => Some(value_bytes(s)),
                None => None::<Seq<u8>>,
            },
        ));
        lemma_apply_enc_lookup(c, ctx, d.drop_last(), k);
        if d.last().0 != k {
            lemma_prefixed_keys_distinct(ctx, d.last().0, k);
        }
    }
}

/// Commit atomicity: committing a pending log moves every key the log touched
/// to its last scheduled state — present with the bytes of the last value
/// inserted, absent after a final remove — and leaves every untouched key
/// reading exactly as before.
pub proof fn lemma_commit_atomicity(c: Map<Seq<u8>, Seq<u8>>, ctx: Seq<u8>, p: PendingView, k: u64)
    ensures
        raw_lookup(apply_ops(c, enc_ops(ctx, dedup(p))), ctx, k) == (match last_entry(p, k) {
            Some(Some(v)) => Some(value_bytes(v)),
            Some(None) => None,
            None => raw_lookup(c, ctx, k),
        }),
{
    lemma_apply_enc_lookup(c, ctx, dedup(p), k);
    lemma_last_entry_dedup(p, k);
}

/// Rewind isolation: inside a scope, a speculative read of a key that the
/// pending log never touches returns exactly what a confirmed read returns.
pub proof fn lemma_rewind_isolation(m: DataMap, store: Store, k: u64)
    requires
        last_entry(m.pending_view(), k) is None,
    ensures
        m.speculative_raw(store, k) == m.confirmed_raw(store, k),
{
}

/// Speculative consistency: at any point inside a scope, a speculative read
/// of any key sees exactly the raw bytes a confirmed read would see if the
/// current pending log committed now, as long as the operations already
/// queued in the shared physical batch all belong to other maps.
pub proof fn lemma_speculative_consistency(m: DataMap, store: Store, k: u64)
    requires
        m.in_progress,
        forall|i: int|
            0 <= i < store.batch_ops().len() ==> (#[trigger] store.batch_ops()[i]).0.take(
                m.ctx().len() as int,
            ) != m.ctx(),
    ensures
        m.speculative_raw(store, k) == raw_lookup(
            apply_ops(
                store.contents(),
                store.batch_ops() + enc_ops(m.ctx(), dedup(m.pending_view())),
            ),
            m.ctx(),
            k,
        ),
{
    let pk = m.ctx() + key_bytes(k);
    lemma_apply_ops_concat(
        store.contents(),
        store.batch_ops(),
        enc_ops(m.ctx(), dedup(m.pending_view())),
    );
    assert forall|i: int|
        0 <= i < store.batch_ops().len() implies (#[trigger] store.batch_ops()[i]).0 != pk by {
        if store.batch_ops()[i].0 == pk {
            assert(pk.take(m.ctx().len() as int) =~= m.ctx());
        }
    }
    lemma_apply_ops_foreign(store.contents(), store.batch_ops(), pk);
    lemma_commit_atomicity(
        apply_ops(store.contents(), store.batch_ops()),
        m.ctx(),
        m.pending_view(),
        k,
    );
}

/// Checkpoint idempotence: an `atomic_checkpoint` followed directly by an
/// `atomic_rewind` leaves the pending log and the checkpoint stack exactly as
/// they were.
pub proof fn lemma_checkpoint_rewind(m0: DataMap, m1: DataMap, m2: DataMap)
    requires
        m0.pending@.len() <= usize::MAX,
        m1.pending@ == m0.pending@,
        m1.checkpoints@ == m0.checkpoints@.push(m0.pending@.len() as usize),
        m2.pending@ == m1.pending@.take(m1.rewind_target()),
        m2.checkpoints@ == m1.checkpoints@.drop_last(),
    ensures
        m2.pending@ == m0.pending@,
        m2.checkpoints@ == m0.checkpoints@,
{
    assert(m1.checkpoints@.last() == m0.pending@.len() as usize);
    assert(m0.pending@.take(m0.pending@.len() as int) =~= m0.pending@);
    assert(m1.checkpoints@.drop_last() =~= m0.checkpoints@);
}

/// Dedup: a scope body that only inserts one key, however many times, commits
/// exactly one entry for that key, holding the last value inserted.
pub proof fn lemma_dedup_repeated_inserts(p: PendingView, k: u64)
    requires
        p.len() > 0,
        forall|i: int| 0 <= i < p.len() ==> (#[trigger] p[i]).0 == k && p[i].1 is Some,
    ensures
        dedup(p) == seq![(k, p.last().1)],
    decreases p.len(),
{
    if p.len() == 1 {
        assert(dedup(p.drop_last()) =~= Seq::<(u64, Option<Seq<char>>)>::empty());
        assert(dedup(p) =~= seq![(k, p.last().1)]);
    } else {
        assert forall|i: int|
            0 <= i < p.drop_last().len() implies (#[trigger] p.drop_last()[i]).0 == k
                && p.drop_last()[i].1 is Some by {
            assert(p.drop_last()[i] == p[i]);
        }
        lemma_dedup_repeated_inserts(p.drop_last(), k);
        let d = dedup(p.drop_last());
        assert(d[0].0 == k);
        assert(find_key(d, k) == 0);
        assert(dedup(p) =~= seq![(k, p.last().1)]);
    }
}

} // verus!
