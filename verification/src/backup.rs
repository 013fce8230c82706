//! The durable backup wrapper around the visibility queue.
//!
//! Every pushed payload is recorded, under its binary serialization as the
//! key, in a durable key-value store that the caller owns; a completed
//! payload's key is removed.  Timed-out claims are *not* mirrored: a task
//! temporarily requeued by timeout stays recorded the whole time, so a
//! replay of the store after a crash always re-surfaces it.  The wrapper
//! computes every key itself and tracks, as a ghost model, the set of
//! payloads it has asked the store to hold; the caller applies the
//! matching inserts and removes to the store and hands the stored keys
//! back at startup.
//!
//! Known limitation: two live tasks with identical payloads collapse to
//! one durable record, so completing one of them removes the record the
//! other still relies on.

use vstd::prelude::*;

use crate::arena::StableId;
use crate::queue::{GenericTaskQueue, TaskId};

verus! {

/// The byte key under which a task payload is durably recorded: the
/// payload's binary serialization.
pub uninterp spec fn task_key(s: Seq<char>) -> Seq<u8>;

/// The payload a stored byte key decodes to, if any.
pub uninterp spec fn task_of_key(b: Seq<u8>) -> Option<Seq<char>>;

/// Relies on bincode::serde::encode_to_vec with the standard
/// configuration: the encoding of a string depends on its characters
/// alone and cannot fail (the vec writer accepts every write and the
/// standard configuration sets no size limit), and bincode's own decode
/// losslessly recovers the encoded string.
#[verifier::external_body]
fn encode_task(s: &String) -> (r: Vec<u8>)
    ensures
        r@ == task_key(s@),
        task_of_key(r@) == Some(s@),
{
    bincode::serde::encode_to_vec(s, bincode::config::standard()).unwrap_or_default()
}

/// Relies on bincode::serde::decode_from_slice with the standard
/// configuration: what a byte slice decodes to depends on the bytes
/// alone; malformed bytes are reported as an error, not a panic.  (A
/// corrupt key claiming a huge length can still make bincode attempt the
/// allocation before its bounds check, so an out-of-memory abort on a
/// corrupt store is possible.)
#[verifier::external_body]
fn decode_task(b: &Vec<u8>) -> (r: Option<String>)
    ensures
        r matches Some(s) ==> task_of_key(b@) == Some(s@),
        r is None ==> task_of_key(b@) is None,
{
    match bincode::serde::decode_from_slice::<String, _>(b, bincode::config::standard()) {
        Ok((s, _)) => Some(s),
        Err(_) => None,
    }
}

/// The byte key under which `item` is durably recorded, computed without
/// touching the queue: a caller that follows the write order of the
/// durable mirror (store first, then the in-memory push) obtains the key
/// here, writes it, and then delegates to `push`.
pub fn task_key_for(item: &String) -> (k: Vec<u8>)
    ensures
        k@ == task_key(item@),
        task_of_key(k@) == Some(item@),
{
    encode_task(item)
}

/// The payloads recovered from replaying `keys`, in replay order: each
/// key that decodes contributes its payload; the rest are skipped.
pub open spec fn replay_seq(keys: Seq<Seq<u8>>) -> Seq<Seq<char>>
    decreases keys.len(),
{
    if keys.len() == 0 {
        Seq::empty()
    } else {
        let rest = replay_seq(keys.drop_last());
        match task_of_key(keys.last()) {
            Some(s) => rest.push(s),
            None => rest,
        }
    }
}

/// Every key that decodes contributes its payload to the replay.
pub proof fn lemma_replay_contains(keys: Seq<Seq<u8>>, i: int)
    requires
        0 <= i < keys.len(),
        task_of_key(keys[i]) is Some,
    ensures
        replay_seq(keys).contains(task_of_key(keys[i]).unwrap()),
    decreases keys.len(),
{
    if i == keys.len() - 1 {
        assert(replay_seq(keys).last() == task_of_key(keys[i]).unwrap());
    } else {
        lemma_replay_contains(keys.drop_last(), i);
        let s = task_of_key(keys[i]).unwrap();
        let j = choose|j: int|
            0 <= j < replay_seq(keys.drop_last()).len() && replay_seq(keys.drop_last())[j] == s;
        assert(replay_seq(keys)[j] == s);
    }
}

/// The visibility queue together with its durable mirror.  The ghost
/// `durable_model` is the set of payloads the wrapper has asked the store
/// to hold; the caller applies the store operations themselves.
pub struct GenericTaskQueueWithBackup {
    queue: GenericTaskQueue,
    store_model: Ghost<Set<Seq<char>>>,
}

impl GenericTaskQueueWithBackup {
    /// Unclaimed payloads in arrival order.
    pub closed spec fn pending_view(self) -> Seq<Seq<char>> {
        self.queue.pending_view()
    }

    /// In-flight tasks in claim order: id, payload, claim time.
    pub closed spec fn processing_view(self) -> Seq<(StableId, Seq<char>, u64)> {
        self.queue.processing_view()
    }

    /// Ids of the in-flight tasks.
    pub open spec fn processing_ids(self) -> Seq<StableId> {
        self.processing_view().map_values(|e: (StableId, Seq<char>, u64)| e.0)
    }

    /// The execution timeout of the wrapped queue.
    pub closed spec fn execution_timeout(self) -> u64 {
        self.queue.execution_timeout()
    }

    /// The set of payloads currently recorded in the durable store.
    pub closed spec fn durable_model(self) -> Set<Seq<char>> {
        self.store_model@
    }

    pub closed spec fn wf(self) -> bool {
        self.queue.wf()
    }

    pub closed spec fn claim_times_le(self, t: u64) -> bool {
        self.queue.claim_times_le(t)
    }

    /// Every live (pushed and not completed) payload, pending first.
    pub open spec fn live_payloads(self) -> Seq<Seq<char>> {
        self.pending_view() + self.processing_view().map_values(|e: (StableId, Seq<char>, u64)| e.1)
    }

    /// The claim-time bound is monotone in the clock: a caller who knows
    /// all claim times are within an earlier reading may use any later
    /// one.
    pub proof fn lemma_claim_times_le_monotone(self, t1: u64, t2: u64)
        requires
            self.claim_times_le(t1),
            t1 <= t2,
        ensures
            self.claim_times_le(t2),
    {
    }

    /// Every live payload is durably recorded, so a replay of the store
    /// after a crash re-surfaces all of them.
    pub open spec fn fully_mirrored(self) -> bool {
        forall|i: int|
            0 <= i < self.live_payloads().len() ==> self.durable_model().contains(
                #[trigger] self.live_payloads()[i],
            )
    }
}

proof fn lemma_to_set_push(s: Seq<Seq<char>>, x: Seq<char>)
    ensures
        s.push(x).to_set() == s.to_set().insert(x),
{
    assert forall|a: Seq<char>| s.push(x).to_set().contains(a) implies s.to_set().insert(
        x,
    ).contains(a) by {
        if a != x {
            let i = choose|i: int| 0 <= i < s.push(x).len() && s.push(x)[i] == a;
            assert(s[i] == a);
            assert(s.contains(a));
        }
    }
    assert forall|a: Seq<char>| s.to_set().insert(x).contains(a) implies s.push(
        x,
    ).to_set().contains(a) by {
        if a == x {
            assert(s.push(x)[s.len() as int] == x);
            assert(s.push(x).contains(x));
        } else {
            let i = choose|i: int| 0 <= i < s.len() && s[i] == a;
            assert(s.push(x)[i] == a);
            assert(s.push(x).contains(a));
        }
    }
    assert(s.push(x).to_set() =~= s.to_set().insert(x));
}

impl GenericTaskQueueWithBackup {
    /// Build the queue by replaying the keys read from the durable store:
    /// each key that decodes is pushed as a pending task, in replay order
    /// (the store's natural iteration order, which is unspecified); keys
    /// that do not decode are skipped.  Afterwards every live payload is
    /// mirrored.
    pub fn new(execution_timeout_ms: u64, stored_keys: Vec<Vec<u8>>) -> (q: Self)
        ensures
            q.wf(),
            q.execution_timeout() == execution_timeout_ms,
            q.processing_view() == Seq::<(StableId, Seq<char>, u64)>::empty(),
            q.pending_view() == replay_seq(stored_keys@.map_values(|b: Vec<u8>| b@)),
            q.durable_model() == replay_seq(stored_keys@.map_values(|b: Vec<u8>| b@)).to_set(),
            q.fully_mirrored(),
            q.claim_times_le(0),
    {
        let mut queue = GenericTaskQueue::new(execution_timeout_ms);
        let ghost mut model: Set<Seq<char>> = Set::empty();
        let ghost kseq = stored_keys@.map_values(|b: Vec<u8>| b@);
        proof {
            assert(replay_seq(kseq.take(0)) =~= Seq::<Seq<char>>::empty());
            assert(Seq::<Seq<char>>::empty().to_set() =~= Set::<Seq<char>>::empty());
        }
        let mut i: usize = 0;
        while i < stored_keys.len()
            invariant
                i <= stored_keys@.len(),
                kseq == stored_keys@.map_values(|b: Vec<u8>| b@),
                kseq.len() == stored_keys@.len(),
                queue.wf(),
                queue.execution_timeout() == execution_timeout_ms,
                queue.processing_view() == Seq::<(StableId, Seq<char>, u64)>::empty(),
                queue.pending_view() == replay_seq(kseq.take(i as int)),
                model == replay_seq(kseq.take(i as int)).to_set(),
            decreases stored_keys@.len() - i,
        {
            match decode_task(&stored_keys[i]) {
                Some(s) => {
                    let ghost sv = s@;
                    queue.push(s);
                    proof {
                        assert(kseq.take(i + 1).drop_last() =~= kseq.take(i as int));
                        assert(kseq.take(i + 1).last() == kseq[i as int]);
                        assert(task_of_key(kseq[i as int]) == Some(sv));
                        assert(replay_seq(kseq.take(i + 1)) == replay_seq(kseq.take(i as int)).push(
                            sv,
                        ));
                        lemma_to_set_push(replay_seq(kseq.take(i as int)), sv);
                        model = model.insert(sv);
                    }
                },
                None => {
                    proof {
                        assert(kseq.take(i + 1).drop_last() =~= kseq.take(i as int));
                        assert(kseq.take(i + 1).last() == kseq[i as int]);
                        assert(task_of_key(kseq[i as int]) is None);
                        assert(replay_seq(kseq.take(i + 1)) == replay_seq(kseq.take(i as int)));
                    }
                },
            }
            i = i + 1;
        }
        proof {
            assert(kseq.take(kseq.len() as int) =~= kseq);
        }
        let q = GenericTaskQueueWithBackup { queue, store_model: Ghost(model) };
        proof {
            assert(q.live_payloads() =~= q.pending_view());
            assert forall|t: int| 0 <= t < q.live_payloads().len() implies q.durable_model(
            ).contains(q.live_payloads()[t]) by {
                assert(replay_seq(kseq)[t] == q.live_payloads()[t]);
                assert(replay_seq(kseq).contains(replay_seq(kseq)[t]));
            }
        }
        q
    }

    /// Record `item` durably and append it to the pending FIFO.  The
    /// returned bytes are the key under which the item is recorded; a
    /// caller that wants the store written before the in-memory push
    /// obtains the same key from `task_key_for` first.
    pub fn push(&mut self, item: String) -> (key: Vec<u8>)
        requires
            old(self).wf(),
        ensures
            final(self).wf(),
            final(self).execution_timeout() == old(self).execution_timeout(),
            forall|t: u64| old(self).claim_times_le(t) ==> final(self).claim_times_le(t),
            key@ == task_key(item@),
            task_of_key(key@) == Some(item@),
            final(self).pending_view() == old(self).pending_view().push(item@),
            final(self).processing_view() == old(self).processing_view(),
            final(self).durable_model() == old(self).durable_model().insert(item@),
            old(self).fully_mirrored() ==> final(self).fully_mirrored(),
    {
        let key = encode_task(&item);
        let ghost iv = item@;
        self.queue.push(item);
        proof {
            let m = self.store_model@.insert(iv);
            self.store_model = Ghost(m);
            let pre = *old(self);
            if pre.fully_mirrored() {
                assert forall|t: int|
                    0 <= t < self.live_payloads().len() implies self.durable_model().contains(
                    #[trigger] self.live_payloads()[t],
                ) by {
                    let np = pre.pending_view().len() as int;
                    if t == np {
                        assert(self.live_payloads()[t] == iv);
                    } else if t < np {
                        assert(self.live_payloads()[t] == pre.live_payloads()[t]);
                    } else {
                        assert(self.live_payloads()[t] == pre.live_payloads()[t - 1]);
                    }
                }
            }
        }
        key
    }

    /// Claim the oldest pending task, as the wrapped queue does; the
    /// durable record is untouched (the task is not yet completed).
    pub fn try_claim(&mut self, now_ms: u64) -> (r: Option<(String, TaskId)>)
        requires
            old(self).wf(),
            old(self).claim_times_le(now_ms),
        ensures
            final(self).wf(),
            final(self).claim_times_le(now_ms),
            final(self).execution_timeout() == old(self).execution_timeout(),
            final(self).durable_model() == old(self).durable_model(),
            old(self).fully_mirrored() ==> final(self).fully_mirrored(),
            old(self).pending_view().len() == 0 ==> r is None && final(self).pending_view() == old(self).pending_view() && final(self).processing_view() == old(self).processing_view(),
            old(self).pending_view().len() > 0 ==> {
                &&& r matches Some((item, tid))
                &&& r->Some_0.0@ == old(self).pending_view()[0]
                &&& !old(self).processing_ids().contains(r->Some_0.1.0)
                &&& final(self).pending_view() == old(self).pending_view().drop_first()
                &&& final(self).processing_view() == old(self).processing_view().push(
                    (r->Some_0.1.0, old(self).pending_view()[0], now_ms),
                )
            },
    {
        let r = self.queue.try_claim(now_ms);
        proof {
            let pre = *old(self);
            assert(pre.processing_ids() =~= pre.queue.processing_ids());
            if pre.pending_view().len() == 0 && pre.fully_mirrored() {
                assert(self.live_payloads() =~= pre.live_payloads());
                assert(self.fully_mirrored());
            }
            if pre.pending_view().len() > 0 && pre.fully_mirrored() {
                let onp = pre.pending_view().len() as int;
                let opl = pre.processing_view().len() as int;
                assert forall|t: int|
                    0 <= t < self.live_payloads().len() implies self.durable_model().contains(
                    #[trigger] self.live_payloads()[t],
                ) by {
                    let u = self.live_payloads()[t];
                    if t < onp - 1 {
                        assert(u == self.pending_view()[t]);
                        assert(self.pending_view()[t] == pre.pending_view()[t + 1]);
                        assert(pre.live_payloads()[t + 1] == pre.pending_view()[t + 1]);
                        assert(pre.durable_model().contains(pre.live_payloads()[t + 1]));
                    } else if t < onp - 1 + opl {
                        let pt = t - (onp - 1);
                        assert(u == self.processing_view()[pt].1);
                        assert(self.processing_view()[pt] == pre.processing_view()[pt]);
                        assert(pre.live_payloads()[onp + pt] == pre.processing_view()[pt].1);
                        assert(pre.durable_model().contains(pre.live_payloads()[onp + pt]));
                    } else {
                        assert(t == onp - 1 + opl);
                        assert(u == self.processing_view()[opl].1);
                        assert(self.processing_view()[opl].1 == pre.pending_view()[0]);
                        assert(pre.live_payloads()[0] == pre.pending_view()[0]);
                        assert(pre.durable_model().contains(pre.live_payloads()[0]));
                    }
                }
            }
        }
        r
    }

    /// Acknowledge completion: remove the claim from the in-flight set
    /// and, on success, un-record its payload, returning it together with
    /// its serialization key, which the caller must remove from the
    /// durable store.
    pub fn submit_completed(&mut self, id: &TaskId) -> (r: Option<(String, Vec<u8>)>)
        requires
            old(self).wf(),
        ensures
            final(self).wf(),
            final(self).execution_timeout() == old(self).execution_timeout(),
            final(self).pending_view() == old(self).pending_view(),
            forall|t: u64| old(self).claim_times_le(t) ==> final(self).claim_times_le(t),
            old(self).processing_ids().contains(id.0) ==> {
                &&& r matches Some((item, key))
                &&& r->Some_0.0@ == old(self).processing_view()[old(self).processing_ids().index_of(
                    id.0,
                )].1
                &&& r->Some_0.1@ == task_key(r->Some_0.0@)
                &&& task_of_key(r->Some_0.1@) == Some(r->Some_0.0@)
                &&& final(self).processing_view() == old(self).processing_view().remove(
                    old(self).processing_ids().index_of(id.0),
                )
                &&& final(self).durable_model() == old(self).durable_model().remove(r->Some_0.0@)
            },
            !old(self).processing_ids().contains(id.0) ==> r is None && final(self).processing_view()
                == old(self).processing_view() && final(self).durable_model() == old(self).durable_model(),
            !final(self).processing_ids().contains(id.0),
            (r matches Some(p) && old(self).fully_mirrored() && !final(self).live_payloads().contains(p.0@)) ==> final(self).fully_mirrored(),
    {
        proof {
            assert(old(self).processing_ids() =~= old(self).queue.processing_ids());
        }
        let r0 = self.queue.submit_completed(id);
        proof {
            assert(self.processing_ids() =~= self.queue.processing_ids());
            if let Some(item) = &r0 {
                let m = self.store_model@.remove(item@);
                self.store_model = Ghost(m);
                let pre = *old(self);
                if pre.fully_mirrored() && !self.live_payloads().contains(item@) {
                    assert forall|t: int|
                        0 <= t < self.live_payloads().len() implies self.durable_model().contains(
                        #[trigger] self.live_payloads()[t],
                    ) by {
                        let jj = pre.processing_ids().index_of(id.0);
                        let np = self.pending_view().len() as int;
                        let u = self.live_payloads()[t];
                        if t < np {
                            assert(u == pre.live_payloads()[t]);
                        } else {
                            let pt = t - np;
                            let opt = if pt < jj {
                                pt
                            } else {
                                pt + 1
                            };
                            assert(self.processing_view()[pt] == pre.processing_view()[opt]);
                            assert(u == pre.live_payloads()[np + opt]);
                        }
                        assert(pre.durable_model().contains(u));
                        assert(u != item@);
                    }
                }
            }
        }
        match r0 {
            Some(item) => {
                let key = encode_task(&item);
                Some((item, key))
            },
            None => None,
        }
    }

    /// Sweep timed-out claims back to pending, reporting the swept (stale
    /// id, payload) pairs.  The durable store is deliberately untouched:
    /// a requeued task has not completed, so its record must survive a
    /// crash during the retry.
    pub fn process_timeouts_with_inspect(&mut self, now_ms: u64) -> (out: Vec<(TaskId, String)>)
        requires
            old(self).wf(),
            old(self).claim_times_le(now_ms),
        ensures
            final(self).wf(),
            final(self).claim_times_le(now_ms),
            final(self).execution_timeout() == old(self).execution_timeout(),
            final(self).durable_model() == old(self).durable_model(),
            old(self).fully_mirrored() ==> final(self).fully_mirrored(),
            ({
                let k = crate::queue::expired_prefix_len(
                    old(self).processing_view(),
                    old(self).execution_timeout(),
                    now_ms,
                );
                &&& final(self).processing_view() == old(self).processing_view().skip(k)
                &&& final(self).pending_view() == old(self).pending_view() + old(self).processing_view().take(k).map_values(|e: (StableId, Seq<char>, u64)| e.1)
                &&& out@.len() == k
                &&& forall|i: int|
                    0 <= i < k ==> (#[trigger] out@[i]).0.0 == old(self).processing_view()[i].0
                        && out@[i].1@ == old(self).processing_view()[i].1
                &&& forall|i: int|
                    0 <= i < final(self).processing_view().len() ==> !crate::queue::entry_expired(
                        (#[trigger] final(self).processing_view()[i]).2,
                        old(self).execution_timeout(),
                        now_ms,
                    )
            }),
    {
        let out = self.queue.process_timeouts_with_inspect(now_ms);
        proof {
            let pre = *old(self);
            let k = crate::queue::expired_prefix_len(
                pre.processing_view(),
                pre.execution_timeout(),
                now_ms,
            );
            crate::queue::lemma_expired_prefix_len_bounds(
                pre.processing_view(),
                pre.execution_timeout(),
                now_ms,
            );
            if pre.fully_mirrored() {
                assert forall|t: int|
                    0 <= t < self.live_payloads().len() implies self.durable_model().contains(
                    #[trigger] self.live_payloads()[t],
                ) by {
                    let onp = pre.pending_view().len() as int;
                    let np = self.pending_view().len() as int;
                    let u = self.live_payloads()[t];
                    if t < onp {
                        assert(u == self.pending_view()[t]);
                        assert(self.pending_view()[t] == pre.pending_view()[t]);
                        assert(pre.live_payloads()[t] == pre.pending_view()[t]);
                        assert(pre.durable_model().contains(pre.live_payloads()[t]));
                    } else if t < np {
                        // a payload swept from the processing prefix
                        assert(u == self.pending_view()[t]);
                        assert(self.pending_view()[t] == pre.processing_view().take(k).map_values(
                            |e: (StableId, Seq<char>, u64)| e.1,
                        )[t - onp]);
                        assert(u == pre.processing_view()[t - onp].1);
                        assert(pre.live_payloads()[t] == pre.processing_view()[t - onp].1);
                        assert(pre.durable_model().contains(pre.live_payloads()[t]));
                    } else {
                        let pt = t - np;
                        assert(u == self.processing_view()[pt].1);
                        assert(self.processing_view()[pt] == pre.processing_view()[k + pt]);
                        assert(pre.live_payloads()[onp + k + pt] == pre.processing_view()[k
                            + pt].1);
                        assert(pre.durable_model().contains(pre.live_payloads()[onp + k + pt]));
                    }
                    assert(pre.durable_model().contains(u));
                }
            }
        }
        out
    }

    /// Sweep timed-out claims back to pending, discarding the report.
    pub fn process_timeouts(&mut self, now_ms: u64)
        requires
            old(self).wf(),
            old(self).claim_times_le(now_ms),
        ensures
            final(self).wf(),
            final(self).claim_times_le(now_ms),
            final(self).execution_timeout() == old(self).execution_timeout(),
            final(self).durable_model() == old(self).durable_model(),
            old(self).fully_mirrored() ==> final(self).fully_mirrored(),
            ({
                let k = crate::queue::expired_prefix_len(
                    old(self).processing_view(),
                    old(self).execution_timeout(),
                    now_ms,
                );
                &&& final(self).processing_view() == old(self).processing_view().skip(k)
                &&& final(self).pending_view() == old(self).pending_view() + old(self).processing_view().take(k).map_values(|e: (StableId, Seq<char>, u64)| e.1)
            }),
    {
        let _ = self.process_timeouts_with_inspect(now_ms);
    }

    /// Number of pending (unclaimed) tasks.
    pub fn len_pending(&self) -> (n: usize)
        ensures
            n == self.pending_view().len(),
    {
        self.queue.len_pending()
    }

    /// Number of in-flight (claimed, unacknowledged) tasks.
    pub fn len_processing(&self) -> (n: usize)
        ensures
            n == self.processing_view().len(),
    {
        self.queue.len_processing()
    }
}

/// Recovery: a payload that is live (pushed and not completed) in a fully
/// mirrored queue is recovered into the replay of the stored keys, as
/// long as its serialization key is among them — which it is whenever the
/// store was kept in step with the mirror.
pub proof fn lemma_recovery(
    q: GenericTaskQueueWithBackup,
    keys: Seq<Seq<u8>>,
    p: Seq<char>,
    i: int,
)
    requires
        q.fully_mirrored(),
        q.live_payloads().contains(p),
        0 <= i < keys.len(),
        keys[i] == task_key(p),
        task_of_key(task_key(p)) == Some(p),
    ensures
        replay_seq(keys).contains(p),
{
    lemma_replay_contains(keys, i);
}

} // verus!
