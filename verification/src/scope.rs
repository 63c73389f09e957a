//! The scoped constructs that drive the atomic lifecycle on a map.
//!
//! A batch scope starts an atomic batch when none is active, records a
//! checkpoint, runs its body, and then commits on success (when it is the
//! outermost scope), publishes to the parent scope (when nested), or rewinds
//! on failure. A finalize scope refuses to start while a batch scope is
//! already active, and either commits or discards the whole batch at its end.
//! The caller runs the body between the enter call and the matching exit
//! call, and hands the body's outcome to the exit.

use vstd::prelude::*;

use crate::MapError;
use crate::codec::{decoded_value, value_bytes};
use crate::data_map::{
    DataMap, dedup, enc_ops, last_entry, lemma_commit_atomicity, lemma_commit_value_decodes,
    values_decode,
};
use crate::store::{Store, apply_ops};

verus! {

/// How a finalize scope treats the accumulated batch at its end.
pub enum FinalizeMode {
    /// Commit the batch when the body succeeds.
    RealRun,
    /// Discard the batch whatever the body's outcome.
    DryRun,
}

/// The relation a commit (`finish_atomic`) establishes between the states
/// before and after it: it always succeeds, leaves the map idle, decrements
/// the depth, and either extends the shared batch (nested) or applies the
/// whole batch to the store (outermost).
pub open spec fn commit_rel(
    m0: DataMap,
    s0: Store,
    m1: DataMap,
    s1: Store,
    r: Result<(), MapError>,
) -> bool {
    &&& r is Ok
    &&& m1.wf()
    &&& s1.wf()
    &&& m1.context == m0.context
    &&& !m1.in_progress
    &&& m1.pending@.len() == 0
    &&& m1.checkpoints@.len() == 0
    &&& s1.depth == s0.depth - 1
    &&& values_decode(dedup(m0.pending_view()))
    &&& (s0.depth > 1 ==> s1.entries == s0.entries && s1.batch_ops() == s0.batch_ops() + enc_ops(
        m0.ctx(),
        dedup(m0.pending_view()),
    ))
    &&& (s0.depth == 1 ==> s1.batch@.len() == 0 && s1.contents() == apply_ops(
        s0.contents(),
        s0.batch_ops() + enc_ops(m0.ctx(), dedup(m0.pending_view())),
    ))
}

/// Enters a batch scope on a map. The outermost scope starts the atomic batch
/// (the shared batch must then be empty); a nested scope records a checkpoint
/// instead, so that its failure rewinds only its own work. Returns whether a
/// batch was already in progress; the caller hands the answer back to the
/// matching exit.
pub fn scope_enter(map: &mut DataMap, store: &mut Store) -> (was_in_progress: bool)
    requires
        old(map).wf(),
        old(store).wf(),
        !old(map).in_progress ==> old(store).batch@.len() == 0 && old(store).depth < usize::MAX,
    ensures
        final(map).wf(),
        final(store).wf(),
        was_in_progress == old(map).in_progress,
        final(map).in_progress,
        final(map).context == old(map).context,
        final(map).pending@ == old(map).pending@,
        final(map).checkpoints@ == (if was_in_progress {
            old(map).checkpoints@.push(old(map).pending@.len() as usize)
        } else {
            old(map).checkpoints@
        }),
        final(map).checkpoints@.len() == 0 <==> !was_in_progress,
        final(store).entries == old(store).entries,
        final(store).batch == old(store).batch,
        final(store).depth == old(store).depth + (if was_in_progress {
            0int
        } else {
            1int
        }),
{
    let was_in_progress = map.is_atomic_in_progress();
    if was_in_progress {
        map.atomic_checkpoint();
    } else {
        map.start_atomic(store);
    }
    was_in_progress
}

/// Exits a batch scope whose body succeeded: the outermost scope commits the
/// batch, a nested scope publishes its writes to the parent by dropping its
/// checkpoint.
pub fn scope_exit_ok(map: &mut DataMap, store: &mut Store, was_in_progress: bool) -> (r: Result<
    (),
    MapError,
>)
    requires
        old(map).wf(),
        old(store).wf(),
        old(map).in_progress,
        !was_in_progress ==> old(store).depth >= 1,
    ensures
        final(store).wf(),
        final(map).context == old(map).context,
        was_in_progress ==> r is Ok && final(map).wf() && final(map).in_progress
            && final(map).pending@ == old(map).pending@ && *final(store) == *old(store)
            && (old(map).checkpoints@.len() > 0 ==> final(map).checkpoints@ == old(map).checkpoints@.drop_last())
            && (old(map).checkpoints@.len() == 0 ==> final(map).checkpoints@ == old(map).checkpoints@),
        !was_in_progress ==> commit_rel(*old(map), *old(store), *final(map), *final(store), r),
{
    if !was_in_progress {
        map.finish_atomic(store)
    } else {
        map.clear_latest_checkpoint();
        Ok(())
    }
}

/// Exits a batch scope whose body failed: rewinds the pending log to the
/// checkpoint the scope recorded, and, when this scope was the outermost one,
/// abandons the whole batch.
pub fn scope_exit_err(map: &mut DataMap, store: &mut Store, was_in_progress: bool)
    requires
        old(map).wf(),
        old(store).wf(),
    ensures
        final(map).wf(),
        final(store).wf(),
        final(map).context == old(map).context,
        final(map).in_progress == (old(map).in_progress && was_in_progress),
        was_in_progress ==> final(map).pending@ == old(map).pending@.take(old(map).rewind_target())
            && *final(store) == *old(store)
            && (old(map).checkpoints@.len() > 0 ==> final(map).checkpoints@ == old(map).checkpoints@.drop_last())
            && (old(map).checkpoints@.len() == 0 ==> final(map).checkpoints@ == old(map).checkpoints@),
        !was_in_progress ==> final(map).pending@.len() == 0 && final(map).checkpoints@.len() == 0
            && final(store).entries == old(store).entries && final(store).batch@.len() == 0
            && final(store).depth == 0,
{
    map.atomic_rewind();
    if !was_in_progress {
        map.abort_atomic(store);
    }
}

/// Enters a finalize scope: refused with `ScopeMisuse`, leaving every state
/// untouched, when an atomic batch is already in progress on the map;
/// otherwise starts the atomic batch.
pub fn finalize_enter(map: &mut DataMap, store: &mut Store) -> (r: Result<(), MapError>)
    requires
        old(map).wf(),
        old(store).wf(),
        !old(map).in_progress ==> old(store).batch@.len() == 0 && old(store).depth < usize::MAX,
    ensures
        final(map).wf(),
        final(store).wf(),
        final(map).context == old(map).context,
        old(map).in_progress ==> r == Err::<(), MapError>(MapError::ScopeMisuse) && *final(map)
            == *old(map) && *final(store) == *old(store),
        !old(map).in_progress ==> r is Ok && final(map).in_progress && final(map).pending@.len()
            == 0 && final(map).checkpoints@.len() == 0 && final(store).entries == old(store).entries
            && final(store).batch == old(store).batch && final(store).depth == old(store).depth
            + 1,
{
    if map.is_atomic_in_progress() {
        return Err(MapError::ScopeMisuse);
    }
    map.start_atomic(store);
    Ok(())
}

/// Exits a finalize scope: a real run whose body succeeded commits the batch;
/// a dry run, or a failed body, discards the batch and leaves the map idle.
/// The caller propagates the body's own error beside this result.
pub fn finalize_exit(map: &mut DataMap, store: &mut Store, mode: FinalizeMode, body_ok: bool) -> (r:
    Result<(), MapError>)
    requires
        old(map).wf(),
        old(store).wf(),
        old(map).in_progress,
        old(store).depth >= 1,
    ensures
        final(store).wf(),
        final(map).context == old(map).context,
        mode is RealRun && body_ok ==> commit_rel(
            *old(map),
            *old(store),
            *final(map),
            *final(store),
            r,
        ),
        !(mode is RealRun && body_ok) ==> r is Ok && final(map).wf() && !final(map).in_progress
            && final(map).pending@.len() == 0 && final(map).checkpoints@.len() == 0
            && final(store).entries == old(store).entries && final(store).batch@.len() == 0
            && final(store).depth == 0,
{
    match mode {
        FinalizeMode::RealRun => {
            if body_ok {
                map.finish_atomic(store)
            } else {
                map.abort_atomic(store);
                Ok(())
            }
        },
        FinalizeMode::DryRun => {
            map.abort_atomic(store);
            Ok(())
        },
    }
}

/// Commit atomicity at the scope level: when the outermost scope (the shared
/// batch was empty and the depth one) commits, a confirmed read of any key
/// returns the bytes of the last value the scope inserted for it — and those
/// bytes decode back to that value — nothing when the scope removed it last,
/// and what it read before the scope when the scope never touched it.
pub proof fn lemma_outermost_commit_reads(
    m0: DataMap,
    s0: Store,
    m1: DataMap,
    s1: Store,
    r: Result<(), MapError>,
    k: u64,
)
    requires
        commit_rel(m0, s0, m1, s1, r),
        s0.depth == 1,
        s0.batch_ops().len() == 0,
    ensures
        m1.confirmed_raw(s1, k) == (match last_entry(m0.pending_view(), k) {
            Some(Some(v)) => Some(value_bytes(v)),
            Some(None) => None,
            None => m0.confirmed_raw(s0, k),
        }),
        match last_entry(m0.pending_view(), k) {
            Some(Some(v)) => m1.confirmed_raw(s1, k) matches Some(b) && decoded_value(b) == Some(
                v,
            ),
            Some(None) => m1.confirmed_raw(s1, k) is None,
            None => m1.confirmed_raw(s1, k) == m0.confirmed_raw(s0, k),
        },
{
    assert(s0.batch_ops() + enc_ops(m0.ctx(), dedup(m0.pending_view())) =~= enc_ops(
        m0.ctx(),
        dedup(m0.pending_view()),
    ));
    lemma_commit_atomicity(s0.contents(), m0.ctx(), m0.pending_view(), k);
    lemma_commit_value_decodes(m0.pending_view(), k);
}

/// Pairing: however the body of the outermost scope ends, once the scope
/// exits — by commit or by abandonment — the map is idle again: not in
/// progress, nothing pending, no checkpoints, and the shared depth is back
/// at zero.
pub proof fn lemma_scope_pairing(
    m0: DataMap,
    s0: Store,
    m1: DataMap,
    s1: Store,
    m2: DataMap,
    s2: Store,
    m3: DataMap,
    s3: Store,
    body_ok: bool,
    r: Result<(), MapError>,
)
    requires
        !m0.in_progress,
        s0.depth == 0,
        // entering the outermost scope opened the batch
        m1.in_progress,
        s1.depth == s0.depth + 1,
        // the body keeps the scope open and its nested scopes balanced
        m2.in_progress,
        s2.depth == s1.depth,
        // the exit either commits the batch or abandons it
        body_ok ==> commit_rel(m2, s2, m3, s3, r),
        !body_ok ==> !m3.in_progress && m3.pending@.len() == 0 && m3.checkpoints@.len() == 0
            && s3.depth == 0,
    ensures
        !m3.in_progress,
        m3.pending@.len() == 0,
        m3.checkpoints@.len() == 0,
        s3.depth == 0,
{
}

} // verus!
