//! The visibility queue: a FIFO of unclaimed task payloads plus a
//! claim-ordered set of in-flight tasks, each addressable by a stable id.
//!
//! State machine per task: pending, then processing after a claim, then
//! either completed (removed entirely) or, when held past the execution
//! timeout, swept back to pending under a fresh id.

use std::collections::VecDeque;

use vstd::prelude::*;

use crate::arena::{StableArena, StableId};
use crate::utils::Timed;

verus! {

/// Stable handle to a claimed task, valid until the task is completed or
/// timed out and requeued (which produces a new id).
#[derive(Clone, Copy, PartialEq, Eq, Structural, Debug)]
pub struct TaskId(pub StableId);

/// FIFO of unclaimed task payloads plus a claim-time-ordered set of
/// in-flight tasks.  The execution timeout after which an unacknowledged
/// claim is swept back to pending is fixed at construction.
pub struct GenericTaskQueue {
    pending: VecDeque<String>,
    processing: StableArena<Timed<String>>,
    execution_timeout_ms: u64,
}

impl GenericTaskQueue {
    /// Unclaimed payloads in arrival order.
    pub closed spec fn pending_view(self) -> Seq<Seq<char>> {
        Seq::new(self.pending@.len(), |i: int| self.pending@[i]@)
    }

    /// In-flight tasks in claim order: id, payload, claim time.
    pub closed spec fn processing_view(self) -> Seq<(StableId, Seq<char>, u64)> {
        Seq::new(
            self.processing@.len(),
            |i: int|
                (self.processing@[i].0, self.processing@[i].1.value@, self.processing@[
                    i].1.timestamp_ms),
        )
    }

    /// Ids of the in-flight tasks, oldest claim first.
    pub open spec fn processing_ids(self) -> Seq<StableId> {
        self.processing_view().map_values(|e: (StableId, Seq<char>, u64)| e.0)
    }

    /// The execution timeout this queue was built with.
    pub closed spec fn execution_timeout(self) -> u64 {
        self.execution_timeout_ms
    }

    /// Claim times never decrease from front to back; the timeout sweep
    /// relies on this to stop at the first entry still within the window.
    pub open spec fn claim_times_sorted(self) -> bool {
        forall|i: int, j: int|
            0 <= i <= j < self.processing_view().len() ==> (#[trigger] self.processing_view()[
            i]).2 <= (#[trigger] self.processing_view()[j]).2
    }

    /// All claim times are at or before `t`: holds whenever `t` is read
    /// from the same monotonic clock that stamped the claims.
    pub open spec fn claim_times_le(self, t: u64) -> bool {
        forall|i: int|
            0 <= i < self.processing_view().len() ==> (#[trigger] self.processing_view()[i]).2 <= t
    }

    pub closed spec fn inner_wf(self) -> bool {
        self.processing.wf()
    }

    pub open spec fn wf(self) -> bool {
        self.inner_wf() && self.claim_times_sorted()
    }

    /// An empty queue with the given execution timeout.
    pub fn new(execution_timeout_ms: u64) -> (q: Self)
        ensures
            q.wf(),
            q.pending_view() == Seq::<Seq<char>>::empty(),
            q.processing_view() == Seq::<(StableId, Seq<char>, u64)>::empty(),
            q.execution_timeout() == execution_timeout_ms,
    {
        let q = GenericTaskQueue {
            pending: VecDeque::new(),
            processing: StableArena::new(),
            execution_timeout_ms,
        };
        proof {
            assert(q.pending_view() =~= Seq::<Seq<char>>::empty());
            assert(q.processing_view() =~= Seq::<(StableId, Seq<char>, u64)>::empty());
        }
        q
    }

    /// Append `item` to the pending FIFO's tail.  (The caller is expected
    /// to wake one suspended claimer.)
    pub fn push(&mut self, item: String)
        requires
            old(self).wf(),
        ensures
            final(self).wf(),
            final(self).pending_view() == old(self).pending_view().push(item@),
            final(self).processing_view() == old(self).processing_view(),
            final(self).execution_timeout() == old(self).execution_timeout(),
    {
        self.pending.push_back(item);
        proof {
            assert(final(self).pending_view() =~= old(self).pending_view().push(item@));
            assert(final(self).processing_view() =~= old(self).processing_view());
        }
    }

    /// The synchronous core of a claim: if a pending task exists, pop the
    /// front one, record it as in-flight with claim time `now_ms`, and
    /// return it with its fresh id; otherwise return nothing (the caller
    /// suspends until a push or its timeout).
    ///
    /// FIFO: the claimed payload is exactly the oldest pending one.
    /// Claim uniqueness: the returned id was not in flight before the call.
    pub fn try_claim(&mut self, now_ms: u64) -> (r: Option<(String, TaskId)>)
        requires
            old(self).wf(),
            old(self).claim_times_le(now_ms),
        ensures
            final(self).wf(),
            final(self).claim_times_le(now_ms),
            final(self).execution_timeout() == old(self).execution_timeout(),
            old(self).pending_view().len() == 0 ==> r is None && final(self).pending_view() == old(
                self,
            ).pending_view() && final(self).processing_view() == old(self).processing_view(),
            old(self).pending_view().len() > 0 ==> {
                &&& r matches Some((item, tid))
                &&& r->Some_0.0@ == old(self).pending_view()[0]
                &&& !old(self).processing_ids().contains(r->Some_0.1.0)
                &&& final(self).pending_view() == old(self).pending_view().drop_first()
                &&& final(self).processing_view() == old(self).processing_view().push(
                    (r->Some_0.1.0, old(self).pending_view()[0], now_ms),
                )
            },
    {
        match self.pending.pop_front() {
            None => {
                proof {
                    assert(final(self).pending_view() =~= old(self).pending_view());
                    assert(final(self).processing_view() =~= old(self).processing_view());
                }
                None
            },
            Some(item) => {
                let stored = item.clone();
                let id = self.processing.insert(Timed::new(stored, now_ms));
                proof {
                    assert(final(self).pending_view() =~= old(self).pending_view().drop_first());
                    assert(final(self).processing_view() =~= old(self).processing_view().push(
                        (id, old(self).pending_view()[0], now_ms),
                    ));
                    assert(!old(self).processing_ids().contains(id)) by {
                        if old(self).processing_ids().contains(id) {
                            let i = choose|i: int|
                                0 <= i < old(self).processing_ids().len() && old(self).processing_ids()[i] == id;
                            assert(old(self).processing@[i].0 == id);
                            assert(old(self).processing.ids()[i] == id);
                            assert(old(self).processing.has_id(id));
                        }
                    }
                    assert(final(self).claim_times_le(now_ms));
                    assert(final(self).claim_times_sorted());
                }
                Some((item, TaskId(id)))
            },
        }
    }

    /// Acknowledge completion of the claim `id`: remove it from the
    /// in-flight set and return its payload, or `None` if the id is stale
    /// (already completed, or timed out and requeued under a new id).
    ///
    /// The payload is returned exactly once: after a call that returns it,
    /// the id is stale and every later call with it returns `None`.
    pub fn submit_completed(&mut self, id: &TaskId) -> (r: Option<String>)
        requires
            old(self).wf(),
        ensures
            final(self).wf(),
            final(self).pending_view() == old(self).pending_view(),
            final(self).execution_timeout() == old(self).execution_timeout(),
            forall|t: u64| old(self).claim_times_le(t) ==> final(self).claim_times_le(t),
            old(self).processing_ids().contains(id.0) ==> {
                &&& r matches Some(item)
                &&& r->Some_0@ == old(self).processing_view()[old(self).processing_ids().index_of(
                    id.0,
                )].1
                &&& final(self).processing_view() == old(self).processing_view().remove(
                    old(self).processing_ids().index_of(id.0),
                )
            },
            !old(self).processing_ids().contains(id.0) ==> r is None && *final(self) == *old(self),
            !final(self).processing_ids().contains(id.0),
    {
        proof {
            old(self).lemma_ids_agree();
        }
        let r = self.processing.remove(id.0);
        proof {
            self.lemma_ids_agree();
            if old(self).processing.has_id(id.0) {
                old(self).processing.lemma_ids_distinct();
                let j = old(self).processing.ids().index_of(id.0);
                assert(old(self).processing.ids().contains(id.0));
                assert(0 <= j < old(self).processing.ids().len() && old(self).processing.ids()[j]
                    == id.0);
                assert(old(self).processing_ids()[j] == id.0);
                assert(old(self).processing_ids().index_of(id.0) == j) by {
                    let j2 = old(self).processing_ids().index_of(id.0);
                    assert(old(self).processing_ids().contains(id.0)) by {
                        assert(old(self).processing_ids()[j] == id.0);
                    }
                    assert(0 <= j2 < old(self).processing_ids().len());
                    assert(old(self).processing_ids()[j2] == id.0);
                    assert(old(self).processing.ids()[j2] == id.0);
                }
                assert(final(self).processing_view() =~= old(self).processing_view().remove(j));
                assert(final(self).claim_times_sorted()) by {
                    assert forall|a: int, b: int|
                        0 <= a <= b < final(self).processing_view().len() implies (
                    #[trigger] final(self).processing_view()[a]).2 <= (#[trigger] final(self).processing_view()[b]).2 by {
                        let oa = if a < j { a } else { a + 1 };
                        let ob = if b < j { b } else { b + 1 };
                        assert(old(self).processing_view()[oa].2 <= old(self).processing_view()[
                        ob].2);
                    }
                }
            } else {
                assert(*final(self) == *old(self));
            }
            assert(!final(self).processing_ids().contains(id.0)) by {
                if final(self).processing_ids().contains(id.0) {
                    let i = choose|i: int|
                        0 <= i < final(self).processing_ids().len() && final(self).processing_ids()[i] == id.0;
                    assert(final(self).processing.ids()[i] == id.0);
                }
            }
        }
        match r {
            Some(t) => Some(t.value),
            None => None,
        }
    }

    /// The ids the arena reports and the ids the view reports agree.
    proof fn lemma_ids_agree(self)
        ensures
            forall|i: int|
                0 <= i < self.processing_ids().len() ==> (#[trigger] self.processing_ids()[i])
                    == self.processing.ids()[i],
            self.processing_ids().len() == self.processing.ids().len(),
            forall|id: StableId| self.processing_ids().contains(id) <==> self.processing.has_id(id),
    {
        assert(forall|i: int|
            0 <= i < self.processing_ids().len() ==> (#[trigger] self.processing_ids()[i])
                == self.processing.ids()[i]);
        assert forall|id: StableId| self.processing_ids().contains(id) <==> self.processing.has_id(
            id,
        ) by {
            if self.processing_ids().contains(id) {
                let i = choose|i: int|
                    0 <= i < self.processing_ids().len() && self.processing_ids()[i] == id;
                assert(self.processing.ids()[i] == id);
            }
            if self.processing.has_id(id) {
                let i = choose|i: int|
                    0 <= i < self.processing.ids().len() && self.processing.ids()[i] == id;
                assert(self.processing_ids()[i] == id);
            }
        }
    }

    /// Number of pending (unclaimed) tasks.
    pub fn len_pending(&self) -> (n: usize)
        ensures
            n == self.pending_view().len(),
    {
        self.pending.len()
    }

    /// Number of in-flight (claimed, unacknowledged) tasks.
    pub fn len_processing(&self) -> (n: usize)
        ensures
            n == self.processing_view().len(),
    {
        self.processing.len()
    }
}

/// Whether an in-flight entry claimed at `ts` has been held past the
/// execution timeout at time `now`.
pub open spec fn entry_expired(ts: u64, timeout_ms: u64, now_ms: u64) -> bool {
    now_ms - ts > timeout_ms
}

/// Length of the maximal front prefix of `s` whose entries are expired.
pub open spec fn expired_prefix_len(
    s: Seq<(StableId, Seq<char>, u64)>,
    timeout_ms: u64,
    now_ms: u64,
) -> int
    decreases s.len(),
{
    if s.len() == 0 {
        0
    } else if entry_expired(s[0].2, timeout_ms, now_ms) {
        1 + expired_prefix_len(s.drop_first(), timeout_ms, now_ms)
    } else {
        0
    }
}

/// The expired prefix never exceeds the whole sequence, its entries are
/// all expired, and the entry just past it, if any, is not.
pub proof fn lemma_expired_prefix_len_bounds(
    s: Seq<(StableId, Seq<char>, u64)>,
    timeout_ms: u64,
    now_ms: u64,
)
    ensures
        0 <= expired_prefix_len(s, timeout_ms, now_ms) <= s.len(),
        forall|i: int|
            0 <= i < expired_prefix_len(s, timeout_ms, now_ms) ==> entry_expired(
                (#[trigger] s[i]).2,
                timeout_ms,
                now_ms,
            ),
        expired_prefix_len(s, timeout_ms, now_ms) < s.len() ==> !entry_expired(
            s[expired_prefix_len(s, timeout_ms, now_ms)].2,
            timeout_ms,
            now_ms,
        ),
    decreases s.len(),
{
    if s.len() > 0 && entry_expired(s[0].2, timeout_ms, now_ms) {
        lemma_expired_prefix_len_bounds(s.drop_first(), timeout_ms, now_ms);
        assert forall|i: int|
            0 <= i < expired_prefix_len(s, timeout_ms, now_ms) implies entry_expired(
            (#[trigger] s[i]).2,
            timeout_ms,
            now_ms,
        ) by {
            if i > 0 {
                assert(s.drop_first()[i - 1] == s[i]);
            }
        }
        let k = expired_prefix_len(s, timeout_ms, now_ms);
        if k < s.len() {
            assert(s.drop_first()[k - 1] == s[k]);
        }
    }
}

/// A claimed task held past the execution timeout is covered by the
/// sweep: when claim times are non-decreasing, the expired prefix extends
/// past every expired entry.
pub proof fn lemma_expired_entry_swept(
    s: Seq<(StableId, Seq<char>, u64)>,
    timeout_ms: u64,
    now_ms: u64,
    i: int,
)
    requires
        forall|a: int, b: int| 0 <= a <= b < s.len() ==> (#[trigger] s[a]).2 <= (#[trigger] s[b]).2,
        0 <= i < s.len(),
        entry_expired(s[i].2, timeout_ms, now_ms),
    ensures
        i < expired_prefix_len(s, timeout_ms, now_ms),
{
    lemma_expired_prefix_len_bounds(s, timeout_ms, now_ms);
    let k = expired_prefix_len(s, timeout_ms, now_ms);
    if k <= i {
        assert(s[k].2 <= s[i].2);
        assert(entry_expired(s[k].2, timeout_ms, now_ms));
    }
}

/// `expired_prefix_len` is the unique `k` such that the first `k` entries
/// are expired and entry `k`, if any, is not.
proof fn lemma_expired_prefix_len(
    s: Seq<(StableId, Seq<char>, u64)>,
    timeout_ms: u64,
    now_ms: u64,
    k: int,
)
    requires
        0 <= k <= s.len(),
        forall|i: int| 0 <= i < k ==> entry_expired((#[trigger] s[i]).2, timeout_ms, now_ms),
        k < s.len() ==> !entry_expired(s[k as int].2, timeout_ms, now_ms),
    ensures
        expired_prefix_len(s, timeout_ms, now_ms) == k,
    decreases k,
{
    if k == 0 {
    } else {
        assert(entry_expired(s[0].2, timeout_ms, now_ms));
        lemma_expired_prefix_len(s.drop_first(), timeout_ms, now_ms, k - 1);
    }
}

impl GenericTaskQueue {
    /// Sweep the in-flight set from the front: every entry held past the
    /// execution timeout is removed and its payload re-appended to the
    /// pending FIFO's tail as a fresh task; the sweep stops at the first
    /// entry still within the window.  Returns the removed entries, as
    /// (now-stale id, payload) pairs in sweep order, for inspection.
    ///
    /// After the sweep no in-flight entry is expired, each swept payload
    /// is pending exactly once more than before, and each swept id is
    /// stale: completing it later reports "not found".
    pub fn process_timeouts_with_inspect(&mut self, now_ms: u64) -> (out: Vec<(TaskId, String)>)
        requires
            old(self).wf(),
            old(self).claim_times_le(now_ms),
        ensures
            final(self).wf(),
            final(self).claim_times_le(now_ms),
            final(self).execution_timeout() == old(self).execution_timeout(),
            ({
                let k = expired_prefix_len(
                    old(self).processing_view(),
                    old(self).execution_timeout(),
                    now_ms,
                );
                &&& final(self).processing_view() == old(self).processing_view().skip(k)
                &&& final(self).pending_view() == old(self).pending_view() + old(self).processing_view().take(k).map_values(|e: (StableId, Seq<char>, u64)| e.1)
                &&& out@.len() == k
                &&& forall|i: int|
                    0 <= i < k ==> (#[trigger] out@[i]).0.0 == old(self).processing_view()[i].0
                        && out@[i].1@ == old(self).processing_view()[i].1
                &&& forall|i: int|
                    0 <= i < final(self).processing_view().len() ==> !entry_expired(
                        (#[trigger] final(self).processing_view()[i]).2,
                        old(self).execution_timeout(),
                        now_ms,
                    )
            }),
    {
        let ghost orig = *old(self);
        let ghost timeout = self.execution_timeout_ms;
        let mut out: Vec<(TaskId, String)> = Vec::new();
        let ghost mut k: int = 0;
        loop
            invariant_except_break
                self.wf(),
                self.claim_times_le(now_ms),
                orig.wf(),
                orig.claim_times_le(now_ms),
                self.execution_timeout() == orig.execution_timeout(),
                timeout == orig.execution_timeout(),
                0 <= k <= orig.processing_view().len(),
                self.processing_view() == orig.processing_view().skip(k),
                self.pending_view() == orig.pending_view() + orig.processing_view().take(
                    k,
                ).map_values(|e: (StableId, Seq<char>, u64)| e.1),
                out@.len() == k,
                forall|i: int|
                    0 <= i < k ==> (#[trigger] out@[i]).0.0 == orig.processing_view()[i].0 && out@[
                    i].1@ == orig.processing_view()[i].1,
                forall|i: int|
                    0 <= i < k ==> entry_expired(
                        (#[trigger] orig.processing_view()[i]).2,
                        timeout,
                        now_ms,
                    ),
            ensures
                self.wf(),
                self.claim_times_le(now_ms),
                self.execution_timeout() == orig.execution_timeout(),
                0 <= k <= orig.processing_view().len(),
                self.processing_view() == orig.processing_view().skip(k),
                self.pending_view() == orig.pending_view() + orig.processing_view().take(
                    k,
                ).map_values(|e: (StableId, Seq<char>, u64)| e.1),
                out@.len() == k,
                forall|i: int|
                    0 <= i < k ==> (#[trigger] out@[i]).0.0 == orig.processing_view()[i].0 && out@[
                    i].1@ == orig.processing_view()[i].1,
                forall|i: int|
                    0 <= i < k ==> entry_expired(
                        (#[trigger] orig.processing_view()[i]).2,
                        timeout,
                        now_ms,
                    ),
                k < orig.processing_view().len() ==> !entry_expired(
                    orig.processing_view()[k].2,
                    timeout,
                    now_ms,
                ),
            decreases orig.processing_view().len() - k,
        {
            let front_ts: Option<u64> = match self.processing.front() {
                None => None,
                Some(t) => Some(t.timestamp_ms),
            };
            let expired_front: bool = match front_ts {
                None => false,
                Some(ts) => {
                    proof {
                        assert(self.processing_view()[0].2 == ts);
                        assert(ts <= now_ms);
                    }
                    now_ms - ts > self.execution_timeout_ms
                },
            };
            if !expired_front {
                proof {
                    if k < orig.processing_view().len() {
                        assert(self.processing_view()[0] == orig.processing_view()[k]);
                        assert(self.processing@[0].1.timestamp_ms == orig.processing_view()[k].2);
                    }
                }
                break ;
            }
            let ghost pre = *self;
            let popped = self.processing.pop_front();
            match popped {
                Some((id, timed)) => {
                    let ghost timed0 = timed;
                    let payload = timed.value;
                    let stored = payload.clone();
                    out.push((TaskId(id), payload));
                    self.pending.push_back(stored);
                    proof {
                        // the popped record is the k-th of the original view
                        assert(pre.processing_view()[0] == orig.processing_view().skip(k)[0]);
                        assert(orig.processing_view().skip(k)[0] == orig.processing_view()[k]);
                        assert((id, timed0) == pre.processing@[0]);
                        assert(id == orig.processing_view()[k].0);
                        assert(timed0.value@ == orig.processing_view()[k].1);
                        assert(timed0.timestamp_ms == orig.processing_view()[k].2);
                        assert(entry_expired(orig.processing_view()[k].2, timeout, now_ms));
                        // processing advanced by one record
                        assert(self.processing_view() =~= orig.processing_view().skip(k + 1)) by {
                            assert(self.processing@ == pre.processing@.drop_first());
                            assert(self.processing_view() =~= pre.processing_view().drop_first());
                            assert(pre.processing_view().drop_first() =~= orig.processing_view()
                                .skip(k + 1));
                        }
                        // pending gained the swept payload at the tail
                        assert(self.pending_view() =~= orig.pending_view()
                            + orig.processing_view().take(k + 1).map_values(
                            |e: (StableId, Seq<char>, u64)| e.1,
                        )) by {
                            assert(self.pending@ == pre.pending@.push(stored));
                            assert(self.pending_view() =~= pre.pending_view().push(stored@));
                            assert(orig.processing_view().take(k + 1).map_values(
                                |e: (StableId, Seq<char>, u64)| e.1,
                            ) =~= orig.processing_view().take(k).map_values(
                                |e: (StableId, Seq<char>, u64)| e.1,
                            ).push(orig.processing_view()[k].1));
                        }
                        k = k + 1;
                        assert(self.claim_times_sorted()) by {
                            assert forall|a: int, b: int|
                                0 <= a <= b < self.processing_view().len() implies (
                            #[trigger] self.processing_view()[a]).2 <= (
                            #[trigger] self.processing_view()[b]).2 by {
                                assert(self.processing_view()[a] == orig.processing_view()[k + a]);
                                assert(self.processing_view()[b] == orig.processing_view()[k + b]);
                            }
                        }
                        assert(self.claim_times_le(now_ms)) by {
                            assert forall|i: int|
                                0 <= i < self.processing_view().len() implies (
                            #[trigger] self.processing_view()[i]).2 <= now_ms by {
                                assert(self.processing_view()[i] == orig.processing_view()[k + i]);
                            }
                        }
                    }
                },
                None => {
                    proof {
                        assert(false);
                    }
                },
            }
        }
        proof {
            lemma_expired_prefix_len(orig.processing_view(), timeout, now_ms, k);
            // remaining entries are all unexpired because claim times are sorted
            assert forall|i: int|
                0 <= i < self.processing_view().len() implies !entry_expired(
                (#[trigger] self.processing_view()[i]).2,
                orig.execution_timeout(),
                now_ms,
            ) by {
                if k < orig.processing_view().len() {
                    assert(self.processing_view()[i] == orig.processing_view()[k + i]);
                    assert(orig.processing_view()[k].2 <= orig.processing_view()[k + i].2);
                }
            }
        }
        out
    }

    /// In-flight ids are pairwise distinct.
    pub proof fn lemma_processing_ids_distinct(self)
        requires
            self.wf(),
        ensures
            forall|i: int, j: int|
                0 <= i < j < self.processing_ids().len() ==> self.processing_ids()[i]
                    != self.processing_ids()[j],
    {
        self.lemma_ids_agree();
        self.processing.lemma_ids_distinct();
        assert forall|i: int, j: int|
            0 <= i < j < self.processing_ids().len() implies self.processing_ids()[i]
            != self.processing_ids()[j] by {
            assert(self.processing_ids()[i] == self.processing.ids()[i]);
            assert(self.processing_ids()[j] == self.processing.ids()[j]);
        }
    }

    /// Sweep timed-out claims back to pending, discarding the report.
    pub fn process_timeouts(&mut self, now_ms: u64)
        requires
            old(self).wf(),
            old(self).claim_times_le(now_ms),
        ensures
            final(self).wf(),
            final(self).claim_times_le(now_ms),
            final(self).execution_timeout() == old(self).execution_timeout(),
            ({
                let k = expired_prefix_len(
                    old(self).processing_view(),
                    old(self).execution_timeout(),
                    now_ms,
                );
                &&& final(self).processing_view() == old(self).processing_view().skip(k)
                &&& final(self).pending_view() == old(self).pending_view() + old(self).processing_view().take(k).map_values(|e: (StableId, Seq<char>, u64)| e.1)
            }),
    {
        let _ = self.process_timeouts_with_inspect(now_ms);
    }
}

/// The eight little-endian bytes of a 64-bit value.
pub open spec fn u64_le_bytes(x: u64) -> Seq<u8> {
    seq![
        (x & 0xff) as u8,
        ((x >> 8) & 0xff) as u8,
        ((x >> 16) & 0xff) as u8,
        ((x >> 24) & 0xff) as u8,
        ((x >> 32) & 0xff) as u8,
        ((x >> 40) & 0xff) as u8,
        ((x >> 48) & 0xff) as u8,
        ((x >> 56) & 0xff) as u8,
    ]
}

/// The 64-bit value read back from eight little-endian bytes.
pub open spec fn u64_from_le(b: Seq<u8>) -> u64 {
    ((b[0] as u64) | ((b[1] as u64) << 8) | ((b[2] as u64) << 16) | ((b[3] as u64) << 24) | ((
    b[4] as u64) << 32) | ((b[5] as u64) << 40) | ((b[6] as u64) << 48) | ((b[7] as u64) << 56))
}

/// The fixed 16-byte serialized form of an id: the slot's and then the
/// generation's little-endian bytes.
pub open spec fn id_bytes(id: StableId) -> Seq<u8> {
    u64_le_bytes(id.slot as u64) + u64_le_bytes(id.gen)
}

/// Reading back the little-endian bytes of a value gives the value.
pub proof fn lemma_u64_le_roundtrip(x: u64)
    ensures
        u64_from_le(u64_le_bytes(x)) == x,
{
    assert((((x & 0xff) as u8) as u64) | ((((x >> 8) & 0xff) as u8) as u64) << 8 | ((((x >> 16)
        & 0xff) as u8) as u64) << 16 | ((((x >> 24) & 0xff) as u8) as u64) << 24 | ((((x >> 32)
        & 0xff) as u8) as u64) << 32 | ((((x >> 40) & 0xff) as u8) as u64) << 40 | ((((x >> 48)
        & 0xff) as u8) as u64) << 48 | ((((x >> 56) & 0xff) as u8) as u64) << 56 == x)
        by (bit_vector);
}

fn u64_to_le_vec(x: u64, out: &mut Vec<u8>)
    ensures
        final(out)@ == old(out)@ + u64_le_bytes(x),
{
    out.push((x & 0xff) as u8);
    out.push(((x >> 8) & 0xff) as u8);
    out.push(((x >> 16) & 0xff) as u8);
    out.push(((x >> 24) & 0xff) as u8);
    out.push(((x >> 32) & 0xff) as u8);
    out.push(((x >> 40) & 0xff) as u8);
    out.push(((x >> 48) & 0xff) as u8);
    out.push(((x >> 56) & 0xff) as u8);
    proof {
        assert(final(out)@ =~= old(out)@ + u64_le_bytes(x));
    }
}

fn u64_from_le_vec(b: &Vec<u8>, start: usize) -> (x: u64)
    requires
        start + 8 <= b@.len(),
    ensures
        x == u64_from_le(b@.subrange(start as int, start + 8)),
{
    let n = b.len();
    proof {
        assert(start + 8 <= n);
    }
    let x = (b[start] as u64) | ((b[start + 1] as u64) << 8u64) | ((b[start + 2] as u64) << 16u64)
        | ((b[start + 3] as u64) << 24u64) | ((b[start + 4] as u64) << 32u64) | ((b[start
        + 5] as u64) << 40u64) | ((b[start + 6] as u64) << 48u64) | ((b[start + 7] as u64)
        << 56u64);
    proof {
        let s = b@.subrange(start as int, start + 8);
        assert(s[0] == b@[start as int]);
        assert(s[1] == b@[start + 1]);
        assert(s[2] == b@[start + 2]);
        assert(s[3] == b@[start + 3]);
        assert(s[4] == b@[start + 4]);
        assert(s[5] == b@[start + 5]);
        assert(s[6] == b@[start + 6]);
        assert(s[7] == b@[start + 7]);
    }
    x
}

impl TaskId {
    /// The id's fixed 16-byte serialized form, conventionally
    /// hex-encoded at the transport boundary.
    pub fn to_bytes(&self) -> (r: Vec<u8>)
        ensures
            r@ == id_bytes(self.0),
            r@.len() == 16,
    {
        let mut out: Vec<u8> = Vec::new();
        u64_to_le_vec(self.0.slot as u64, &mut out);
        u64_to_le_vec(self.0.gen, &mut out);
        proof {
            assert(out@ =~= id_bytes(self.0));
        }
        out
    }

    /// Read an id back from its 16-byte serialized form; fails if the
    /// slice has the wrong length or the slot does not fit this
    /// machine's address width.
    pub fn from_bytes(b: &Vec<u8>) -> (r: Option<TaskId>)
        ensures
            r matches Some(id) ==> {
                &&& b@.len() == 16
                &&& id.0.slot as u64 == u64_from_le(b@.subrange(0, 8))
                &&& id.0.gen == u64_from_le(b@.subrange(8, 16))
            },
            b@.len() == 16 && u64_from_le(b@.subrange(0, 8)) <= usize::MAX as u64 ==> r is Some,
    {
        if b.len() != 16 {
            return None;
        }
        let s = u64_from_le_vec(b, 0);
        let g = u64_from_le_vec(b, 8);
        if s > usize::MAX as u64 {
            return None;
        }
        Some(TaskId(StableId { slot: s as usize, gen: g }))
    }
}

/// Serializing an id and reading it back yields the same id.
pub proof fn lemma_id_bytes_roundtrip(id: StableId)
    ensures
        u64_from_le(id_bytes(id).subrange(0, 8)) == id.slot as u64,
        u64_from_le(id_bytes(id).subrange(8, 16)) == id.gen,
        id_bytes(id).len() == 16,
{
    assert(id_bytes(id).subrange(0, 8) =~= u64_le_bytes(id.slot as u64));
    assert(id_bytes(id).subrange(8, 16) =~= u64_le_bytes(id.gen));
    lemma_u64_le_roundtrip(id.slot as u64);
    lemma_u64_le_roundtrip(id.gen);
}

/// FIFO: pushing `a` then `b` onto a queue and then claiming twice, with
/// no timeout sweep in between, yields `a` first and `b` second.  The
/// four states are successive snapshots related by the contracts of
/// `push` and `try_claim`.
pub proof fn lemma_fifo_order(
    q0: GenericTaskQueue,
    q1: GenericTaskQueue,
    q2: GenericTaskQueue,
    q3: GenericTaskQueue,
    q4: GenericTaskQueue,
    a: Seq<char>,
    b: Seq<char>,
    first: Seq<char>,
    second: Seq<char>,
)
    requires
        q0.pending_view().len() == 0,
        q1.pending_view() == q0.pending_view().push(a),
        q2.pending_view() == q1.pending_view().push(b),
        q2.pending_view().len() > 0,
        first == q2.pending_view()[0],
        q3.pending_view() == q2.pending_view().drop_first(),
        q3.pending_view().len() > 0,
        second == q3.pending_view()[0],
        q4.pending_view() == q3.pending_view().drop_first(),
    ensures
        first == a,
        second == b,
        q4.pending_view().len() == 0,
{
    assert(q2.pending_view() =~= seq![a, b]);
}

/// Claim uniqueness: the id handed out by a claim is never the id of a
/// task already in flight, so two claims that both succeed, one after the
/// other, return distinct ids.
pub proof fn lemma_claim_ids_unique(
    q0: GenericTaskQueue,
    q1: GenericTaskQueue,
    id1: StableId,
    id2: StableId,
    p1: Seq<char>,
    p2: Seq<char>,
    t1: u64,
    t2: u64,
)
    requires
        q1.processing_view() == q0.processing_view().push((id1, p1, t1)),
        !q1.processing_ids().contains(id2),
    ensures
        id1 != id2,
{
    let n = q0.processing_view().len() as int;
    assert(q1.processing_view()[n] == (id1, p1, t1));
    assert(q1.processing_ids()[n] == id1);
    assert(q1.processing_ids().contains(id1));
}

/// Exactly-once completion: once a claim has been completed its id is no
/// longer in flight, and by `submit_completed`'s contract a second call
/// with the same id leaves the queue unchanged and reports "not found".
pub proof fn lemma_complete_exactly_once(
    q0: GenericTaskQueue,
    q1: GenericTaskQueue,
    id: TaskId,
)
    requires
        q0.wf(),
        q0.processing_ids().contains(id.0),
        q1.processing_view() == q0.processing_view().remove(q0.processing_ids().index_of(id.0)),
    ensures
        !q1.processing_ids().contains(id.0),
{
    q0.lemma_processing_ids_distinct();
    let j = q0.processing_ids().index_of(id.0);
    assert(0 <= j < q0.processing_ids().len() && q0.processing_ids()[j] == id.0);
    if q1.processing_ids().contains(id.0) {
        let i = choose|i: int|
            0 <= i < q1.processing_ids().len() && q1.processing_ids()[i] == id.0;
        assert(q1.processing_view()[i].0 == id.0);
        let oi = if i < j {
            i
        } else {
            i + 1
        };
        assert(q1.processing_view()[i] == q0.processing_view()[oi]);
        assert(q0.processing_ids()[oi] == id.0);
    }
}

/// Timeout requeue: a task claimed at `ts` and held past the execution
/// timeout is, after one sweep at `now`, appended to pending exactly once
/// and gone from the in-flight set; its old id is stale, so completing it
/// afterwards reports "not found".
pub proof fn lemma_timeout_requeue(
    q0: GenericTaskQueue,
    q1: GenericTaskQueue,
    now_ms: u64,
    i: int,
)
    requires
        q0.wf(),
        0 <= i < q0.processing_view().len(),
        entry_expired(q0.processing_view()[i].2, q0.execution_timeout(), now_ms),
        q1.processing_view() == q0.processing_view().skip(
            expired_prefix_len(q0.processing_view(), q0.execution_timeout(), now_ms),
        ),
        q1.pending_view() == q0.pending_view() + q0.processing_view().take(
            expired_prefix_len(q0.processing_view(), q0.execution_timeout(), now_ms),
        ).map_values(|e: (StableId, Seq<char>, u64)| e.1),
    ensures
        q1.pending_view()[q0.pending_view().len() + i] == q0.processing_view()[i].1,
        !q1.processing_ids().contains(q0.processing_view()[i].0),
{
    let k = expired_prefix_len(q0.processing_view(), q0.execution_timeout(), now_ms);
    lemma_expired_entry_swept(q0.processing_view(), q0.execution_timeout(), now_ms, i);
    lemma_expired_prefix_len_bounds(q0.processing_view(), q0.execution_timeout(), now_ms);
    let np = q0.pending_view().len() as int;
    assert(q1.pending_view()[np + i] == q0.processing_view().take(k).map_values(
        |e: (StableId, Seq<char>, u64)| e.1,
    )[i]);
    assert(q0.processing_view().take(k)[i] == q0.processing_view()[i]);
    q0.lemma_processing_ids_distinct();
    if q1.processing_ids().contains(q0.processing_view()[i].0) {
        let t = choose|t: int|
            0 <= t < q1.processing_ids().len() && q1.processing_ids()[t] == q0.processing_view()[
            i].0;
        assert(q1.processing_view()[t].0 == q0.processing_view()[i].0);
        assert(q1.processing_view()[t] == q0.processing_view()[k + t]);
        assert(q0.processing_ids()[k + t] == q0.processing_ids()[i]);
    }
}

} // verus!
