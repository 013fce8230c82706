//! The two-tier expiring store and the memoizing cache facade.
//!
//! A key-value index is split into an "idle" list (entries whose usage
//! counter is zero) and a "used" list (entries with at least one live
//! consumer), each kept in last-touch order.  Entries migrate between the
//! tiers as the counter crosses zero, and a periodic sweep evicts entries
//! whose tier-specific age threshold has elapsed.

use vstd::prelude::*;

verus! {

/// A used-tier entry that was evicted while still believed to be actively
/// referenced, reported with its usage count at eviction time.
#[derive(Debug)]
pub struct ImportantExpires {
    pub key: String,
    pub usages: u64,
}

/// Errors of the store and the facade.  `NoncriticalError` reports a
/// transient, non-corrupting failure: the caller may simply retry.
#[derive(Clone, Copy, PartialEq, Eq, Structural, Debug)]
pub enum CacheError {
    KeyExists,
    KeyNotFound,
    UsageUnderflow,
    NoncriticalError,
}

struct CacheRecord {
    key: String,
    value: String,
    usage: u64,
    since_ms: u64,
}

/// Mathematical snapshot of one store entry.
pub struct EntryModel {
    pub key: Seq<char>,
    pub value: Seq<char>,
    pub usage: u64,
    pub since_ms: u64,
}

/// A key-value store whose entries live in an idle tier (usage zero) or a
/// used tier (usage positive), each in last-touch order, with a
/// tier-specific expiry threshold fixed at construction.
pub struct MapWithExpires {
    idle: Vec<CacheRecord>,
    used: Vec<CacheRecord>,
    idle_expire_ms: u64,
    used_expire_ms: u64,
}

spec fn rec_model(r: CacheRecord) -> EntryModel {
    EntryModel { key: r.key@, value: r.value@, usage: r.usage, since_ms: r.since_ms }
}

/// Whether an entry last touched at `since` has outlived `threshold` at
/// time `now`.
pub open spec fn entry_aged(since_ms: u64, threshold_ms: u64, now_ms: u64) -> bool {
    now_ms - since_ms > threshold_ms
}

/// Length of the maximal front prefix of `s` whose entries have outlived
/// `threshold` at time `now`.
pub open spec fn aged_prefix_len(s: Seq<EntryModel>, threshold_ms: u64, now_ms: u64) -> int
    decreases s.len(),
{
    if s.len() == 0 {
        0
    } else if entry_aged(s[0].since_ms, threshold_ms, now_ms) {
        1 + aged_prefix_len(s.drop_first(), threshold_ms, now_ms)
    } else {
        0
    }
}

/// The aged prefix never exceeds the whole sequence, its entries are all
/// aged, and the entry just past it, if any, is not.
pub proof fn lemma_aged_prefix_len_bounds(s: Seq<EntryModel>, threshold_ms: u64, now_ms: u64)
    ensures
        0 <= aged_prefix_len(s, threshold_ms, now_ms) <= s.len(),
        forall|i: int|
            0 <= i < aged_prefix_len(s, threshold_ms, now_ms) ==> entry_aged(
                (#[trigger] s[i]).since_ms,
                threshold_ms,
                now_ms,
            ),
        aged_prefix_len(s, threshold_ms, now_ms) < s.len() ==> !entry_aged(
            s[aged_prefix_len(s, threshold_ms, now_ms)].since_ms,
            threshold_ms,
            now_ms,
        ),
    decreases s.len(),
{
    if s.len() > 0 && entry_aged(s[0].since_ms, threshold_ms, now_ms) {
        lemma_aged_prefix_len_bounds(s.drop_first(), threshold_ms, now_ms);
        assert forall|i: int|
            0 <= i < aged_prefix_len(s, threshold_ms, now_ms) implies entry_aged(
            (#[trigger] s[i]).since_ms,
            threshold_ms,
            now_ms,
        ) by {
            if i > 0 {
                assert(s.drop_first()[i - 1] == s[i]);
            }
        }
        let k = aged_prefix_len(s, threshold_ms, now_ms);
        if k < s.len() {
            assert(s.drop_first()[k - 1] == s[k]);
        }
    }
}

/// An entry that has outlived its tier threshold is covered by the
/// sweep: when last-touch times are non-decreasing, the aged prefix
/// extends past every aged entry.
pub proof fn lemma_aged_entry_swept(s: Seq<EntryModel>, threshold_ms: u64, now_ms: u64, i: int)
    requires
        forall|a: int, b: int|
            0 <= a <= b < s.len() ==> (#[trigger] s[a]).since_ms <= (#[trigger] s[b]).since_ms,
        0 <= i < s.len(),
        entry_aged(s[i].since_ms, threshold_ms, now_ms),
    ensures
        i < aged_prefix_len(s, threshold_ms, now_ms),
{
    lemma_aged_prefix_len_bounds(s, threshold_ms, now_ms);
    let k = aged_prefix_len(s, threshold_ms, now_ms);
    if k <= i {
        assert(s[k].since_ms <= s[i].since_ms);
        assert(entry_aged(s[k].since_ms, threshold_ms, now_ms));
    }
}

/// `aged_prefix_len` is the unique `k` such that the first `k` entries are
/// aged and entry `k`, if any, is not.
proof fn lemma_aged_prefix_len(s: Seq<EntryModel>, threshold_ms: u64, now_ms: u64, k: int)
    requires
        0 <= k <= s.len(),
        forall|i: int| 0 <= i < k ==> entry_aged((#[trigger] s[i]).since_ms, threshold_ms, now_ms),
        k < s.len() ==> !entry_aged(s[k as int].since_ms, threshold_ms, now_ms),
    ensures
        aged_prefix_len(s, threshold_ms, now_ms) == k,
    decreases k,
{
    if k == 0 {
    } else {
        assert(entry_aged(s[0].since_ms, threshold_ms, now_ms));
        lemma_aged_prefix_len(s.drop_first(), threshold_ms, now_ms, k - 1);
    }
}

impl MapWithExpires {
    /// Idle-tier entries, oldest touch first.
    pub closed spec fn idle_view(self) -> Seq<EntryModel> {
        Seq::new(self.idle@.len(), |i: int| rec_model(self.idle@[i]))
    }

    /// Used-tier entries, oldest transition first.
    pub closed spec fn used_view(self) -> Seq<EntryModel> {
        Seq::new(self.used@.len(), |i: int| rec_model(self.used@[i]))
    }

    /// The idle-tier expiry threshold this store was built with.
    pub closed spec fn idle_expire(self) -> u64 {
        self.idle_expire_ms
    }

    /// The used-tier expiry threshold this store was built with.
    pub closed spec fn used_expire(self) -> u64 {
        self.used_expire_ms
    }

    pub open spec fn idle_has(self, k: Seq<char>) -> bool {
        exists|i: int| 0 <= i < self.idle_view().len() && (#[trigger] self.idle_view()[i]).key == k
    }

    pub open spec fn used_has(self, k: Seq<char>) -> bool {
        exists|i: int| 0 <= i < self.used_view().len() && (#[trigger] self.used_view()[i]).key == k
    }

    /// Whether the store holds `k`, in whichever tier.
    pub open spec fn contains_key(self, k: Seq<char>) -> bool {
        self.idle_has(k) || self.used_has(k)
    }

    pub open spec fn idle_index(self, k: Seq<char>) -> int {
        choose|i: int| 0 <= i < self.idle_view().len() && (#[trigger] self.idle_view()[i]).key == k
    }

    pub open spec fn used_index(self, k: Seq<char>) -> int {
        choose|i: int| 0 <= i < self.used_view().len() && (#[trigger] self.used_view()[i]).key == k
    }

    /// The value stored under `k` (meaningful only when `contains_key(k)`).
    pub open spec fn value_of(self, k: Seq<char>) -> Seq<char> {
        if self.idle_has(k) {
            self.idle_view()[self.idle_index(k)].value
        } else {
            self.used_view()[self.used_index(k)].value
        }
    }

    /// The usage counter of the entry under `k`.
    pub open spec fn usage_of(self, k: Seq<char>) -> u64 {
        if self.idle_has(k) {
            self.idle_view()[self.idle_index(k)].usage
        } else {
            self.used_view()[self.used_index(k)].usage
        }
    }

    /// Every key appears in exactly one tier, exactly once; idle entries
    /// have usage zero, used entries have positive usage; each tier is in
    /// non-decreasing last-touch order.
    pub open spec fn wf(self) -> bool {
        &&& forall|i: int, j: int|
            0 <= i < j < self.idle_view().len() ==> (#[trigger] self.idle_view()[i]).key != (
            #[trigger] self.idle_view()[j]).key
        &&& forall|i: int, j: int|
            0 <= i < j < self.used_view().len() ==> (#[trigger] self.used_view()[i]).key != (
            #[trigger] self.used_view()[j]).key
        &&& forall|i: int, j: int|
            0 <= i < self.idle_view().len() && 0 <= j < self.used_view().len() ==> (
            #[trigger] self.idle_view()[i]).key != (#[trigger] self.used_view()[j]).key
        &&& forall|i: int|
            0 <= i < self.idle_view().len() ==> (#[trigger] self.idle_view()[i]).usage == 0
        &&& forall|i: int|
            0 <= i < self.used_view().len() ==> (#[trigger] self.used_view()[i]).usage >= 1
        &&& forall|i: int, j: int|
            0 <= i <= j < self.idle_view().len() ==> (#[trigger] self.idle_view()[i]).since_ms <= (
            #[trigger] self.idle_view()[j]).since_ms
        &&& forall|i: int, j: int|
            0 <= i <= j < self.used_view().len() ==> (#[trigger] self.used_view()[i]).since_ms <= (
            #[trigger] self.used_view()[j]).since_ms
    }

    /// All last-touch times are at or before `t`.
    pub open spec fn touch_times_le(self, t: u64) -> bool {
        &&& forall|i: int|
            0 <= i < self.idle_view().len() ==> (#[trigger] self.idle_view()[i]).since_ms <= t
        &&& forall|i: int|
            0 <= i < self.used_view().len() ==> (#[trigger] self.used_view()[i]).since_ms <= t
    }

    /// An empty store with the given tier expiry thresholds.
    pub fn new(idle_expire_ms: u64, used_expire_ms: u64) -> (r: Self)
        ensures
            r.wf(),
            r.idle_view() == Seq::<EntryModel>::empty(),
            r.used_view() == Seq::<EntryModel>::empty(),
            r.idle_expire() == idle_expire_ms,
            r.used_expire() == used_expire_ms,
    {
        let r = MapWithExpires {
            idle: Vec::new(),
            used: Vec::new(),
            idle_expire_ms,
            used_expire_ms,
        };
        proof {
            assert(r.idle_view() =~= Seq::<EntryModel>::empty());
            assert(r.used_view() =~= Seq::<EntryModel>::empty());
        }
        r
    }
}

impl MapWithExpires {
    /// Return the cached value under `key`, if any.  A hit on an entry
    /// whose usage counter is zero renews its idle-tier position to the
    /// tail with time `now_ms`, deferring idle expiry; a hit on a used
    /// entry changes nothing.
    pub fn get(&mut self, key: &String, now_ms: u64) -> (r: Option<String>)
        requires
            old(self).wf(),
            old(self).touch_times_le(now_ms),
        ensures
            final(self).wf(),
            final(self).touch_times_le(now_ms),
            final(self).idle_expire() == old(self).idle_expire(),
            final(self).used_expire() == old(self).used_expire(),
            r is Some <==> old(self).contains_key(key@),
            old(self).contains_key(key@) ==> (r matches Some(v) && v@ == old(self).value_of(key@)),
            old(self).idle_has(key@) ==> {
                &&& final(self).idle_view() == old(self).idle_view().remove(
                    old(self).idle_index(key@),
                ).push(
                    EntryModel {
                        key: key@,
                        value: old(self).value_of(key@),
                        usage: 0,
                        since_ms: now_ms,
                    },
                )
                &&& final(self).used_view() == old(self).used_view()
            },
            !old(self).idle_has(key@) ==> final(self).idle_view() == old(self).idle_view() && final(self).used_view() == old(self).used_view(),
    {
        match find_key(&self.idle, key) {
            Some(j) => {
                proof {
                    assert(old(self).idle_view()[j as int].key == key@);
                    assert(old(self).idle_has(key@));
                    assert(old(self).idle_index(key@) == j as int) by {
                        let j2 = old(self).idle_index(key@);
                        assert(0 <= j2 < old(self).idle_view().len() && old(self).idle_view()[
                        j2].key == key@);
                    }
                    assert(old(self).value_of(key@) == old(self).idle_view()[j as int].value);
                }
                let rec = self.idle.remove(j);
                let val = rec.value.clone();
                let renewed = CacheRecord {
                    key: rec.key,
                    value: rec.value,
                    usage: rec.usage,
                    since_ms: now_ms,
                };
                self.idle.push(renewed);
                proof {
                    let jj = j as int;
                    let pre = *old(self);
                    assert(final(self).used_view() =~= pre.used_view());
                    assert(final(self).idle_view() =~= pre.idle_view().remove(jj).push(
                        EntryModel {
                            key: key@,
                            value: pre.value_of(key@),
                            usage: 0,
                            since_ms: now_ms,
                        },
                    )) by {
                        assert(pre.idle_view()[jj].usage == 0);
                        assert(self.idle@ =~= pre.idle@.remove(jj).push(renewed));
                    }
                    self.lemma_get_renew_wf(pre, key@, jj, now_ms);
                }
                Some(val)
            },
            None => {
                proof {
                    assert(!old(self).idle_has(key@));
                }
                match find_key(&self.used, key) {
                    Some(j) => {
                        proof {
                            assert(old(self).used_view()[j as int].key == key@);
                            assert(old(self).used_has(key@));
                            assert(old(self).used_index(key@) == j as int) by {
                                let j2 = old(self).used_index(key@);
                                assert(0 <= j2 < old(self).used_view().len() && old(self).used_view()[j2].key == key@);
                            }
                        }
                        let val = self.used[j].value.clone();
                        Some(val)
                    },
                    None => {
                        proof {
                            assert(!old(self).used_has(key@));
                        }
                        None
                    },
                }
            },
        }
    }

    /// After a renewal (remove at `jj`, push at the tail with time `now`),
    /// the store is still well formed and within `now`.
    proof fn lemma_get_renew_wf(self, pre: MapWithExpires, k: Seq<char>, jj: int, now_ms: u64)
        requires
            pre.wf(),
            pre.touch_times_le(now_ms),
            0 <= jj < pre.idle_view().len(),
            pre.idle_view()[jj].key == k,
            self.used_view() == pre.used_view(),
            self.idle_view() == pre.idle_view().remove(jj).push(
                EntryModel {
                    key: k,
                    value: pre.idle_view()[jj].value,
                    usage: 0,
                    since_ms: now_ms,
                },
            ),
            self.idle_expire() == pre.idle_expire(),
            self.used_expire() == pre.used_expire(),
        ensures
            self.wf(),
            self.touch_times_le(now_ms),
    {
        let n = pre.idle_view().len() as int;
        assert forall|a: int, b: int|
            0 <= a < b < self.idle_view().len() implies (#[trigger] self.idle_view()[a]).key != (
        #[trigger] self.idle_view()[b]).key by {
            let oa = if a < jj {
                a
            } else {
                a + 1
            };
            if b == n - 1 {
                // b is the renewed entry; a maps into the old list away from jj
                assert(self.idle_view()[a] == pre.idle_view()[oa]);
                assert(oa != jj);
                assert(pre.idle_view()[oa].key != pre.idle_view()[jj].key);
            } else {
                let ob = if b < jj {
                    b
                } else {
                    b + 1
                };
                assert(self.idle_view()[a] == pre.idle_view()[oa]);
                assert(self.idle_view()[b] == pre.idle_view()[ob]);
            }
        }
        assert forall|a: int, b: int|
            0 <= a < self.idle_view().len() && 0 <= b < self.used_view().len() implies (
        #[trigger] self.idle_view()[a]).key != (#[trigger] self.used_view()[b]).key by {
            if a == n - 1 {
                assert(pre.idle_view()[jj].key != pre.used_view()[b].key);
            } else {
                let oa = if a < jj {
                    a
                } else {
                    a + 1
                };
                assert(self.idle_view()[a] == pre.idle_view()[oa]);
            }
        }
        assert forall|a: int| 0 <= a < self.idle_view().len() implies (
        #[trigger] self.idle_view()[a]).usage == 0 by {
            if a < n - 1 {
                let oa = if a < jj {
                    a
                } else {
                    a + 1
                };
                assert(self.idle_view()[a] == pre.idle_view()[oa]);
            }
        }
        assert forall|a: int, b: int|
            0 <= a <= b < self.idle_view().len() implies (#[trigger] self.idle_view()[
        a]).since_ms <= (#[trigger] self.idle_view()[b]).since_ms by {
            let oa = if a < jj {
                a
            } else {
                a + 1
            };
            if b == n - 1 {
                if a < n - 1 {
                    assert(self.idle_view()[a] == pre.idle_view()[oa]);
                    assert(pre.idle_view()[oa].since_ms <= now_ms);
                }
            } else {
                let ob = if b < jj {
                    b
                } else {
                    b + 1
                };
                assert(self.idle_view()[a] == pre.idle_view()[oa]);
                assert(self.idle_view()[b] == pre.idle_view()[ob]);
            }
        }
        assert forall|a: int| 0 <= a < self.idle_view().len() implies (
        #[trigger] self.idle_view()[a]).since_ms <= now_ms by {
            if a < n - 1 {
                let oa = if a < jj {
                    a
                } else {
                    a + 1
                };
                assert(self.idle_view()[a] == pre.idle_view()[oa]);
            }
        }
    }

    /// Insert `key` as a fresh idle entry with usage zero and time
    /// `now_ms`; fails with `KeyExists`, mutating nothing, if the key is
    /// already present in either tier.
    pub fn set(&mut self, key: String, value: String, now_ms: u64) -> (r: Result<(), CacheError>)
        requires
            old(self).wf(),
            old(self).touch_times_le(now_ms),
        ensures
            final(self).wf(),
            final(self).touch_times_le(now_ms),
            final(self).idle_expire() == old(self).idle_expire(),
            final(self).used_expire() == old(self).used_expire(),
            old(self).contains_key(key@) ==> r == Err::<(), CacheError>(CacheError::KeyExists)
                && final(self).idle_view() == old(self).idle_view() && final(self).used_view()
                == old(self).used_view(),
            !old(self).contains_key(key@) ==> r == Ok::<(), CacheError>(()) && final(self).idle_view() == old(self).idle_view().push(
                EntryModel { key: key@, value: value@, usage: 0, since_ms: now_ms },
            ) && final(self).used_view() == old(self).used_view(),
    {
        let in_idle = find_key(&self.idle, &key);
        let in_used = find_key(&self.used, &key);
        match (in_idle, in_used) {
            (None, None) => {
                proof {
                    assert(!old(self).contains_key(key@));
                }
                let ghost vkey = key@;
                let ghost vval = value@;
                self.idle.push(CacheRecord { key, value, usage: 0, since_ms: now_ms });
                proof {
                    let pre = *old(self);
                    assert(final(self).idle_view() =~= pre.idle_view().push(
                        EntryModel { key: vkey, value: vval, usage: 0, since_ms: now_ms },
                    ));
                    assert(final(self).used_view() =~= pre.used_view());
                    let n = pre.idle_view().len() as int;
                    assert forall|a: int, b: int|
                        0 <= a < b < self.idle_view().len() implies (#[trigger] self.idle_view()[
                    a]).key != (#[trigger] self.idle_view()[b]).key by {
                        if b == n {
                            assert(self.idle_view()[a] == pre.idle_view()[a]);
                            assert(pre.idle_view()[a].key != vkey);
                        } else {
                            assert(self.idle_view()[a] == pre.idle_view()[a]);
                            assert(self.idle_view()[b] == pre.idle_view()[b]);
                        }
                    }
                    assert forall|a: int, b: int|
                        0 <= a < self.idle_view().len() && 0 <= b < self.used_view().len() implies (
                    #[trigger] self.idle_view()[a]).key != (#[trigger] self.used_view()[b]).key by {
                        if a < n {
                            assert(self.idle_view()[a] == pre.idle_view()[a]);
                        } else {
                            assert(pre.used_view()[b].key != vkey);
                        }
                    }
                }
                Ok(())
            },
            _ => {
                proof {
                    assert(old(self).contains_key(key@)) by {
                        match in_idle {
                            Some(j) => {
                                assert(old(self).idle_view()[j as int].key == key@);
                                assert(old(self).idle_has(key@));
                            },
                            None => {
                                let j = in_used.unwrap();
                                assert(old(self).used_view()[j as int].key == key@);
                                assert(old(self).used_has(key@));
                            },
                        }
                    }
                }
                Err(CacheError::KeyExists)
            },
        }
    }
}

impl MapWithExpires {
    /// After a migration out of the idle tier (remove at `jj`) into the
    /// used tier's tail with positive usage and time `now`, the store is
    /// still well formed and within `now`.
    proof fn lemma_idle_to_used_wf(self, pre: MapWithExpires, jj: int, u: u64, now_ms: u64)
        requires
            pre.wf(),
            pre.touch_times_le(now_ms),
            0 <= jj < pre.idle_view().len(),
            u >= 1,
            self.idle_view() == pre.idle_view().remove(jj),
            self.used_view() == pre.used_view().push(
                EntryModel {
                    key: pre.idle_view()[jj].key,
                    value: pre.idle_view()[jj].value,
                    usage: u,
                    since_ms: now_ms,
                },
            ),
        ensures
            self.wf(),
            self.touch_times_le(now_ms),
    {
        let m = pre.used_view().len() as int;
        assert forall|a: int, b: int|
            0 <= a < b < self.idle_view().len() implies (#[trigger] self.idle_view()[a]).key != (
        #[trigger] self.idle_view()[b]).key by {
            let oa = if a < jj { a } else { a + 1 };
            let ob = if b < jj { b } else { b + 1 };
            assert(self.idle_view()[a] == pre.idle_view()[oa]);
            assert(self.idle_view()[b] == pre.idle_view()[ob]);
        }
        assert forall|a: int, b: int|
            0 <= a < b < self.used_view().len() implies (#[trigger] self.used_view()[a]).key != (
        #[trigger] self.used_view()[b]).key by {
            if b == m {
                assert(pre.used_view()[a].key != pre.idle_view()[jj].key);
            }
        }
        assert forall|a: int, b: int|
            0 <= a < self.idle_view().len() && 0 <= b < self.used_view().len() implies (
        #[trigger] self.idle_view()[a]).key != (#[trigger] self.used_view()[b]).key by {
            let oa = if a < jj { a } else { a + 1 };
            assert(self.idle_view()[a] == pre.idle_view()[oa]);
            if b == m {
                assert(pre.idle_view()[oa].key != pre.idle_view()[jj].key);
            } else {
                assert(pre.idle_view()[oa].key != pre.used_view()[b].key);
            }
        }
        assert forall|a: int| 0 <= a < self.idle_view().len() implies (
        #[trigger] self.idle_view()[a]).usage == 0 by {
            let oa = if a < jj { a } else { a + 1 };
            assert(self.idle_view()[a] == pre.idle_view()[oa]);
        }
        assert forall|a: int, b: int|
            0 <= a <= b < self.idle_view().len() implies (#[trigger] self.idle_view()[
        a]).since_ms <= (#[trigger] self.idle_view()[b]).since_ms by {
            let oa = if a < jj { a } else { a + 1 };
            let ob = if b < jj { b } else { b + 1 };
            assert(self.idle_view()[a] == pre.idle_view()[oa]);
            assert(self.idle_view()[b] == pre.idle_view()[ob]);
        }
        assert forall|a: int, b: int|
            0 <= a <= b < self.used_view().len() implies (#[trigger] self.used_view()[
        a]).since_ms <= (#[trigger] self.used_view()[b]).since_ms by {
            if b == m && a < m {
                assert(pre.used_view()[a].since_ms <= now_ms);
            }
        }
        assert forall|a: int| 0 <= a < self.idle_view().len() implies (
        #[trigger] self.idle_view()[a]).since_ms <= now_ms by {
            let oa = if a < jj { a } else { a + 1 };
            assert(self.idle_view()[a] == pre.idle_view()[oa]);
        }
    }

    /// After a migration out of the used tier (remove at `jj`) into the
    /// idle tier's tail with usage zero and time `now`, the store is still
    /// well formed and within `now`.
    proof fn lemma_used_to_idle_wf(self, pre: MapWithExpires, jj: int, now_ms: u64)
        requires
            pre.wf(),
            pre.touch_times_le(now_ms),
            0 <= jj < pre.used_view().len(),
            self.used_view() == pre.used_view().remove(jj),
            self.idle_view() == pre.idle_view().push(
                EntryModel {
                    key: pre.used_view()[jj].key,
                    value: pre.used_view()[jj].value,
                    usage: 0,
                    since_ms: now_ms,
                },
            ),
        ensures
            self.wf(),
            self.touch_times_le(now_ms),
    {
        let n = pre.idle_view().len() as int;
        assert forall|a: int, b: int|
            0 <= a < b < self.used_view().len() implies (#[trigger] self.used_view()[a]).key != (
        #[trigger] self.used_view()[b]).key by {
            let oa = if a < jj { a } else { a + 1 };
            let ob = if b < jj { b } else { b + 1 };
            assert(self.used_view()[a] == pre.used_view()[oa]);
            assert(self.used_view()[b] == pre.used_view()[ob]);
        }
        assert forall|a: int, b: int|
            0 <= a < b < self.idle_view().len() implies (#[trigger] self.idle_view()[a]).key != (
        #[trigger] self.idle_view()[b]).key by {
            if b == n {
                assert(pre.idle_view()[a].key != pre.used_view()[jj].key);
            }
        }
        assert forall|a: int, b: int|
            0 <= a < self.idle_view().len() && 0 <= b < self.used_view().len() implies (
        #[trigger] self.idle_view()[a]).key != (#[trigger] self.used_view()[b]).key by {
            let ob = if b < jj { b } else { b + 1 };
            assert(self.used_view()[b] == pre.used_view()[ob]);
            if a == n {
                assert(pre.used_view()[ob].key != pre.used_view()[jj].key);
            } else {
                assert(pre.idle_view()[a].key != pre.used_view()[ob].key);
            }
        }
        assert forall|a: int| 0 <= a < self.used_view().len() implies (
        #[trigger] self.used_view()[a]).usage >= 1 by {
            let oa = if a < jj { a } else { a + 1 };
            assert(self.used_view()[a] == pre.used_view()[oa]);
        }
        assert forall|a: int, b: int|
            0 <= a <= b < self.used_view().len() implies (#[trigger] self.used_view()[
        a]).since_ms <= (#[trigger] self.used_view()[b]).since_ms by {
            let oa = if a < jj { a } else { a + 1 };
            let ob = if b < jj { b } else { b + 1 };
            assert(self.used_view()[a] == pre.used_view()[oa]);
            assert(self.used_view()[b] == pre.used_view()[ob]);
        }
        assert forall|a: int, b: int|
            0 <= a <= b < self.idle_view().len() implies (#[trigger] self.idle_view()[
        a]).since_ms <= (#[trigger] self.idle_view()[b]).since_ms by {
            if b == n && a < n {
                assert(pre.idle_view()[a].since_ms <= now_ms);
            }
        }
        assert forall|a: int| 0 <= a < self.used_view().len() implies (
        #[trigger] self.used_view()[a]).since_ms <= now_ms by {
            let oa = if a < jj { a } else { a + 1 };
            assert(self.used_view()[a] == pre.used_view()[oa]);
        }
    }

    /// Increment the usage counter of the entry under `key`.  On the
    /// transition from zero to one the entry migrates from the idle tier
    /// to the used tier's tail with time `now_ms`.
    pub fn add_usage(&mut self, key: &String, now_ms: u64) -> (r: Result<(), CacheError>)
        requires
            old(self).wf(),
            old(self).touch_times_le(now_ms),
        ensures
            final(self).wf(),
            final(self).touch_times_le(now_ms),
            final(self).idle_expire() == old(self).idle_expire(),
            final(self).used_expire() == old(self).used_expire(),
            !old(self).contains_key(key@) ==> r == Err::<(), CacheError>(CacheError::KeyNotFound)
                && final(self).idle_view() == old(self).idle_view() && final(self).used_view()
                == old(self).used_view(),
            old(self).idle_has(key@) ==> r == Ok::<(), CacheError>(()) && final(self).idle_view()
                == old(self).idle_view().remove(old(self).idle_index(key@)) && final(self).used_view() == old(self).used_view().push(
                EntryModel { key: key@, value: old(self).value_of(key@), usage: 1, since_ms: now_ms },
            ),
            old(self).used_has(key@) && old(self).usage_of(key@) < u64::MAX ==> r == Ok::<
                (),
                CacheError,
            >(()) && final(self).idle_view() == old(self).idle_view() && final(self).used_view()
                == old(self).used_view().update(
                old(self).used_index(key@),
                EntryModel {
                    key: key@,
                    value: old(self).value_of(key@),
                    usage: (old(self).usage_of(key@) + 1) as u64,
                    since_ms: old(self).used_view()[old(self).used_index(key@)].since_ms,
                },
            ),
            old(self).used_has(key@) && old(self).usage_of(key@) == u64::MAX ==> r == Err::<
                (),
                CacheError,
            >(CacheError::NoncriticalError) && final(self).idle_view() == old(self).idle_view()
                && final(self).used_view() == old(self).used_view(),
    {
        match find_key(&self.idle, key) {
            Some(j) => {
                proof {
                    assert(old(self).idle_view()[j as int].key == key@);
                    assert(old(self).idle_has(key@));
                    assert(old(self).idle_index(key@) == j as int) by {
                        let j2 = old(self).idle_index(key@);
                        assert(0 <= j2 < old(self).idle_view().len() && old(self).idle_view()[
                        j2].key == key@);
                    }
                }
                let rec = self.idle.remove(j);
                self.used.push(
                    CacheRecord { key: rec.key, value: rec.value, usage: 1, since_ms: now_ms },
                );
                proof {
                    let pre = *old(self);
                    let jj = j as int;
                    assert(final(self).idle_view() =~= pre.idle_view().remove(jj));
                    assert(final(self).used_view() =~= pre.used_view().push(
                        EntryModel {
                            key: key@,
                            value: pre.value_of(key@),
                            usage: 1,
                            since_ms: now_ms,
                        },
                    ));
                    self.lemma_idle_to_used_wf(pre, jj, 1, now_ms);
                }
                Ok(())
            },
            None => {
                proof {
                    assert(!old(self).idle_has(key@));
                }
                match find_key(&self.used, key) {
                    Some(j) => {
                        proof {
                            assert(old(self).used_view()[j as int].key == key@);
                            assert(old(self).used_has(key@));
                            assert(old(self).used_index(key@) == j as int) by {
                                let j2 = old(self).used_index(key@);
                                assert(0 <= j2 < old(self).used_view().len() && old(self).used_view()[j2].key == key@);
                            }
                        }
                        let u = self.used[j].usage;
                        if u == u64::MAX {
                            proof {
                                assert(final(self).idle_view() =~= old(self).idle_view());
                                assert(final(self).used_view() =~= old(self).used_view());
                            }
                            Err(CacheError::NoncriticalError)
                        } else {
                            let rec = &mut self.used[j];
                            rec.usage = rec.usage + 1;
                            proof {
                                let pre = *old(self);
                                let jj = j as int;
                                assert(final(self).idle_view() =~= pre.idle_view());
                                assert(final(self).used_view() =~= pre.used_view().update(
                                    jj,
                                    EntryModel {
                                        key: key@,
                                        value: pre.value_of(key@),
                                        usage: (pre.usage_of(key@) + 1) as u64,
                                        since_ms: pre.used_view()[jj].since_ms,
                                    },
                                ));
                                assert forall|a: int, b: int|
                                    0 <= a < b < self.used_view().len() implies (
                                #[trigger] self.used_view()[a]).key != (#[trigger] self.used_view()[
                                b]).key by {
                                    assert(pre.used_view()[a].key != pre.used_view()[b].key);
                                }
                                assert(final(self).wf());
                                assert(final(self).touch_times_le(now_ms));
                            }
                            Ok(())
                        }
                    },
                    None => {
                        proof {
                            assert(!old(self).used_has(key@));
                        }
                        Err(CacheError::KeyNotFound)
                    },
                }
            },
        }
    }

    /// Decrement the usage counter of the entry under `key`; fails with
    /// `UsageUnderflow`, mutating nothing, if the counter is already zero.
    /// On the transition from one to zero the entry migrates from the used
    /// tier to the idle tier's tail with time `now_ms`, so its idle-expiry
    /// clock starts fresh from release.
    pub fn remove_usage(&mut self, key: &String, now_ms: u64) -> (r: Result<(), CacheError>)
        requires
            old(self).wf(),
            old(self).touch_times_le(now_ms),
        ensures
            final(self).wf(),
            final(self).touch_times_le(now_ms),
            final(self).idle_expire() == old(self).idle_expire(),
            final(self).used_expire() == old(self).used_expire(),
            !old(self).contains_key(key@) ==> r == Err::<(), CacheError>(CacheError::KeyNotFound)
                && final(self).idle_view() == old(self).idle_view() && final(self).used_view()
                == old(self).used_view(),
            old(self).idle_has(key@) ==> r == Err::<(), CacheError>(CacheError::UsageUnderflow)
                && final(self).idle_view() == old(self).idle_view() && final(self).used_view()
                == old(self).used_view(),
            old(self).used_has(key@) && old(self).usage_of(key@) == 1 ==> r == Ok::<
                (),
                CacheError,
            >(()) && final(self).used_view() == old(self).used_view().remove(
                old(self).used_index(key@),
            ) && final(self).idle_view() == old(self).idle_view().push(
                EntryModel { key: key@, value: old(self).value_of(key@), usage: 0, since_ms: now_ms },
            ),
            old(self).used_has(key@) && old(self).usage_of(key@) > 1 ==> r == Ok::<
                (),
                CacheError,
            >(()) && final(self).idle_view() == old(self).idle_view() && final(self).used_view()
                == old(self).used_view().update(
                old(self).used_index(key@),
                EntryModel {
                    key: key@,
                    value: old(self).value_of(key@),
                    usage: (old(self).usage_of(key@) - 1) as u64,
                    since_ms: old(self).used_view()[old(self).used_index(key@)].since_ms,
                },
            ),
    {
        match find_key(&self.idle, key) {
            Some(j) => {
                proof {
                    assert(old(self).idle_view()[j as int].key == key@);
                    assert(old(self).idle_has(key@));
                }
                Err(CacheError::UsageUnderflow)
            },
            None => {
                proof {
                    assert(!old(self).idle_has(key@));
                }
                match find_key(&self.used, key) {
                    Some(j) => {
                        proof {
                            assert(old(self).used_view()[j as int].key == key@);
                            assert(old(self).used_has(key@));
                            assert(old(self).used_index(key@) == j as int) by {
                                let j2 = old(self).used_index(key@);
                                assert(0 <= j2 < old(self).used_view().len() && old(self).used_view()[j2].key == key@);
                            }
                        }
                        let u = self.used[j].usage;
                        if u == 1 {
                            let rec = self.used.remove(j);
                            self.idle.push(
                                CacheRecord {
                                    key: rec.key,
                                    value: rec.value,
                                    usage: 0,
                                    since_ms: now_ms,
                                },
                            );
                            proof {
                                let pre = *old(self);
                                let jj = j as int;
                                assert(final(self).used_view() =~= pre.used_view().remove(jj));
                                assert(final(self).idle_view() =~= pre.idle_view().push(
                                    EntryModel {
                                        key: key@,
                                        value: pre.value_of(key@),
                                        usage: 0,
                                        since_ms: now_ms,
                                    },
                                ));
                                self.lemma_used_to_idle_wf(pre, jj, now_ms);
                            }
                            Ok(())
                        } else {
                            let rec = &mut self.used[j];
                            rec.usage = rec.usage - 1;
                            proof {
                                let pre = *old(self);
                                let jj = j as int;
                                assert(pre.used_view()[jj].usage >= 1);
                                assert(final(self).idle_view() =~= pre.idle_view());
                                assert(final(self).used_view() =~= pre.used_view().update(
                                    jj,
                                    EntryModel {
                                        key: key@,
                                        value: pre.value_of(key@),
                                        usage: (pre.usage_of(key@) - 1) as u64,
                                        since_ms: pre.used_view()[jj].since_ms,
                                    },
                                ));
                                assert forall|a: int, b: int|
                                    0 <= a < b < self.used_view().len() implies (
                                #[trigger] self.used_view()[a]).key != (#[trigger] self.used_view()[
                                b]).key by {
                                    assert(pre.used_view()[a].key != pre.used_view()[b].key);
                                }
                                assert(final(self).wf());
                                assert(final(self).touch_times_le(now_ms));
                            }
                            Ok(())
                        }
                    },
                    None => {
                        proof {
                            assert(!old(self).used_has(key@));
                        }
                        Err(CacheError::KeyNotFound)
                    },
                }
            },
        }
    }
}

impl MapWithExpires {
    /// Dropping the idle tier's front entry preserves well-formedness.
    proof fn lemma_drop_idle_front_wf(self, pre: MapWithExpires, t: u64)
        requires
            pre.wf(),
            pre.touch_times_le(t),
            pre.idle_view().len() > 0,
            self.idle_view() == pre.idle_view().drop_first(),
            self.used_view() == pre.used_view(),
        ensures
            self.wf(),
            self.touch_times_le(t),
    {
        assert forall|a: int, b: int|
            0 <= a < b < self.idle_view().len() implies (#[trigger] self.idle_view()[a]).key != (
        #[trigger] self.idle_view()[b]).key by {
            assert(self.idle_view()[a] == pre.idle_view()[a + 1]);
            assert(self.idle_view()[b] == pre.idle_view()[b + 1]);
        }
        assert forall|a: int, b: int|
            0 <= a < self.idle_view().len() && 0 <= b < self.used_view().len() implies (
        #[trigger] self.idle_view()[a]).key != (#[trigger] self.used_view()[b]).key by {
            assert(self.idle_view()[a] == pre.idle_view()[a + 1]);
        }
        assert forall|a: int| 0 <= a < self.idle_view().len() implies (
        #[trigger] self.idle_view()[a]).usage == 0 by {
            assert(self.idle_view()[a] == pre.idle_view()[a + 1]);
        }
        assert forall|a: int, b: int|
            0 <= a <= b < self.idle_view().len() implies (#[trigger] self.idle_view()[
        a]).since_ms <= (#[trigger] self.idle_view()[b]).since_ms by {
            assert(self.idle_view()[a] == pre.idle_view()[a + 1]);
            assert(self.idle_view()[b] == pre.idle_view()[b + 1]);
        }
        assert forall|a: int| 0 <= a < self.idle_view().len() implies (
        #[trigger] self.idle_view()[a]).since_ms <= t by {
            assert(self.idle_view()[a] == pre.idle_view()[a + 1]);
        }
    }

    /// Dropping the used tier's front entry preserves well-formedness.
    proof fn lemma_drop_used_front_wf(self, pre: MapWithExpires, t: u64)
        requires
            pre.wf(),
            pre.touch_times_le(t),
            pre.used_view().len() > 0,
            self.used_view() == pre.used_view().drop_first(),
            self.idle_view() == pre.idle_view(),
        ensures
            self.wf(),
            self.touch_times_le(t),
    {
        assert forall|a: int, b: int|
            0 <= a < b < self.used_view().len() implies (#[trigger] self.used_view()[a]).key != (
        #[trigger] self.used_view()[b]).key by {
            assert(self.used_view()[a] == pre.used_view()[a + 1]);
            assert(self.used_view()[b] == pre.used_view()[b + 1]);
        }
        assert forall|a: int, b: int|
            0 <= a < self.idle_view().len() && 0 <= b < self.used_view().len() implies (
        #[trigger] self.idle_view()[a]).key != (#[trigger] self.used_view()[b]).key by {
            assert(self.used_view()[b] == pre.used_view()[b + 1]);
        }
        assert forall|a: int| 0 <= a < self.used_view().len() implies (
        #[trigger] self.used_view()[a]).usage >= 1 by {
            assert(self.used_view()[a] == pre.used_view()[a + 1]);
        }
        assert forall|a: int, b: int|
            0 <= a <= b < self.used_view().len() implies (#[trigger] self.used_view()[
        a]).since_ms <= (#[trigger] self.used_view()[b]).since_ms by {
            assert(self.used_view()[a] == pre.used_view()[a + 1]);
            assert(self.used_view()[b] == pre.used_view()[b + 1]);
        }
        assert forall|a: int| 0 <= a < self.used_view().len() implies (
        #[trigger] self.used_view()[a]).since_ms <= t by {
            assert(self.used_view()[a] == pre.used_view()[a + 1]);
        }
    }

    /// Sweep both tiers from the front.  Idle entries older than the idle
    /// threshold are silently dropped; used entries older than the used
    /// threshold are dropped and reported with their usage count at
    /// eviction time.  Each sweep stops at its first entry still within
    /// the threshold, so afterwards no entry of either tier is aged, and
    /// every evicted key is a fresh miss.
    #[must_use]
    pub fn evict_expired(&mut self, now_ms: u64) -> (out: Vec<ImportantExpires>)
        requires
            old(self).wf(),
            old(self).touch_times_le(now_ms),
        ensures
            final(self).wf(),
            final(self).touch_times_le(now_ms),
            final(self).idle_expire() == old(self).idle_expire(),
            final(self).used_expire() == old(self).used_expire(),
            ({
                let ki = aged_prefix_len(old(self).idle_view(), old(self).idle_expire(), now_ms);
                let ku = aged_prefix_len(old(self).used_view(), old(self).used_expire(), now_ms);
                &&& final(self).idle_view() == old(self).idle_view().skip(ki)
                &&& final(self).used_view() == old(self).used_view().skip(ku)
                &&& out@.len() == ku
                &&& forall|i: int|
                    0 <= i < ku ==> (#[trigger] out@[i]).key@ == old(self).used_view()[i].key
                        && out@[i].usages == old(self).used_view()[i].usage
                &&& forall|i: int|
                    0 <= i < final(self).idle_view().len() ==> !entry_aged(
                        (#[trigger] final(self).idle_view()[i]).since_ms,
                        old(self).idle_expire(),
                        now_ms,
                    )
                &&& forall|i: int|
                    0 <= i < final(self).used_view().len() ==> !entry_aged(
                        (#[trigger] final(self).used_view()[i]).since_ms,
                        old(self).used_expire(),
                        now_ms,
                    )
                &&& forall|i: int|
                    0 <= i < ki ==> !final(self).contains_key(
                        (#[trigger] old(self).idle_view()[i]).key,
                    )
                &&& forall|i: int|
                    0 <= i < ku ==> !final(self).contains_key(
                        (#[trigger] old(self).used_view()[i]).key,
                    )
            }),
    {
        let ghost orig = *old(self);
        let ghost mut ki: int = 0;
        loop
            invariant_except_break
                self.wf(),
                self.touch_times_le(now_ms),
                orig.wf(),
                orig.touch_times_le(now_ms),
                self.idle_expire() == orig.idle_expire(),
                self.used_expire() == orig.used_expire(),
                0 <= ki <= orig.idle_view().len(),
                self.idle_view() == orig.idle_view().skip(ki),
                self.used_view() == orig.used_view(),
                forall|i: int|
                    0 <= i < ki ==> entry_aged(
                        (#[trigger] orig.idle_view()[i]).since_ms,
                        orig.idle_expire(),
                        now_ms,
                    ),
            ensures
                self.wf(),
                self.touch_times_le(now_ms),
                self.idle_expire() == orig.idle_expire(),
                self.used_expire() == orig.used_expire(),
                0 <= ki <= orig.idle_view().len(),
                self.idle_view() == orig.idle_view().skip(ki),
                self.used_view() == orig.used_view(),
                forall|i: int|
                    0 <= i < ki ==> entry_aged(
                        (#[trigger] orig.idle_view()[i]).since_ms,
                        orig.idle_expire(),
                        now_ms,
                    ),
                ki < orig.idle_view().len() ==> !entry_aged(
                    orig.idle_view()[ki].since_ms,
                    orig.idle_expire(),
                    now_ms,
                ),
            decreases orig.idle_view().len() - ki,
        {
            if self.idle.len() == 0 {
                break ;
            }
            let since = self.idle[0].since_ms;
            proof {
                assert(self.idle_view()[0].since_ms == since);
                assert(since <= now_ms);
                assert(self.idle_view()[0] == orig.idle_view()[ki]);
            }
            if !(now_ms - since > self.idle_expire_ms) {
                break ;
            }
            let ghost pre = *self;
            let _dropped = self.idle.remove(0);
            proof {
                assert(self.idle_view() =~= pre.idle_view().drop_first());
                assert(pre.idle_view().drop_first() =~= orig.idle_view().skip(ki + 1));
                self.lemma_drop_idle_front_wf(pre, now_ms);
                ki = ki + 1;
            }
        }
        proof {
            lemma_aged_prefix_len(orig.idle_view(), orig.idle_expire(), now_ms, ki);
        }
        let ghost kidle = ki;
        let ghost mid = *self;
        let mut out: Vec<ImportantExpires> = Vec::new();
        let ghost mut ku: int = 0;
        loop
            invariant_except_break
                self.wf(),
                self.touch_times_le(now_ms),
                orig.wf(),
                orig.touch_times_le(now_ms),
                self.idle_expire() == orig.idle_expire(),
                self.used_expire() == orig.used_expire(),
                0 <= ku <= orig.used_view().len(),
                self.idle_view() == mid.idle_view(),
                self.used_view() == orig.used_view().skip(ku),
                out@.len() == ku,
                forall|i: int|
                    0 <= i < ku ==> (#[trigger] out@[i]).key@ == orig.used_view()[i].key && out@[
                    i].usages == orig.used_view()[i].usage,
                forall|i: int|
                    0 <= i < ku ==> entry_aged(
                        (#[trigger] orig.used_view()[i]).since_ms,
                        orig.used_expire(),
                        now_ms,
                    ),
            ensures
                self.wf(),
                self.touch_times_le(now_ms),
                self.idle_expire() == orig.idle_expire(),
                self.used_expire() == orig.used_expire(),
                0 <= ku <= orig.used_view().len(),
                self.idle_view() == mid.idle_view(),
                self.used_view() == orig.used_view().skip(ku),
                out@.len() == ku,
                forall|i: int|
                    0 <= i < ku ==> (#[trigger] out@[i]).key@ == orig.used_view()[i].key && out@[
                    i].usages == orig.used_view()[i].usage,
                forall|i: int|
                    0 <= i < ku ==> entry_aged(
                        (#[trigger] orig.used_view()[i]).since_ms,
                        orig.used_expire(),
                        now_ms,
                    ),
                ku < orig.used_view().len() ==> !entry_aged(
                    orig.used_view()[ku].since_ms,
                    orig.used_expire(),
                    now_ms,
                ),
            decreases orig.used_view().len() - ku,
        {
            if self.used.len() == 0 {
                break ;
            }
            let since = self.used[0].since_ms;
            proof {
                assert(self.used_view()[0].since_ms == since);
                assert(since <= now_ms);
                assert(self.used_view()[0] == orig.used_view()[ku]);
            }
            if !(now_ms - since > self.used_expire_ms) {
                break ;
            }
            let ghost pre = *self;
            let rec = self.used.remove(0);
            out.push(ImportantExpires { key: rec.key, usages: rec.usage });
            proof {
                assert(self.used_view() =~= pre.used_view().drop_first());
                assert(pre.used_view().drop_first() =~= orig.used_view().skip(ku + 1));
                self.lemma_drop_used_front_wf(pre, now_ms);
                ku = ku + 1;
            }
        }
        proof {
            lemma_aged_prefix_len(orig.used_view(), orig.used_expire(), now_ms, ku);
            assert forall|i: int|
                0 <= i < self.idle_view().len() implies !entry_aged(
                (#[trigger] self.idle_view()[i]).since_ms,
                orig.idle_expire(),
                now_ms,
            ) by {
                if kidle < orig.idle_view().len() {
                    assert(self.idle_view()[i] == orig.idle_view()[kidle + i]);
                    assert(orig.idle_view()[kidle].since_ms <= orig.idle_view()[kidle + i].since_ms);
                }
            }
            assert forall|i: int|
                0 <= i < self.used_view().len() implies !entry_aged(
                (#[trigger] self.used_view()[i]).since_ms,
                orig.used_expire(),
                now_ms,
            ) by {
                if ku < orig.used_view().len() {
                    assert(self.used_view()[i] == orig.used_view()[ku + i]);
                    assert(orig.used_view()[ku].since_ms <= orig.used_view()[ku + i].since_ms);
                }
            }
            assert forall|i: int| 0 <= i < kidle implies !self.contains_key(
                (#[trigger] orig.idle_view()[i]).key,
            ) by {
                let k = orig.idle_view()[i].key;
                if self.idle_has(k) {
                    let a = self.idle_index(k);
                    assert(self.idle_view()[a].key == k);
                    assert(self.idle_view()[a] == orig.idle_view()[kidle + a]);
                    assert(orig.idle_view()[i].key != orig.idle_view()[kidle + a].key);
                }
                if self.used_has(k) {
                    let b = self.used_index(k);
                    assert(self.used_view()[b].key == k);
                    assert(self.used_view()[b] == orig.used_view()[ku + b]);
                    assert(orig.idle_view()[i].key != orig.used_view()[ku + b].key);
                }
            }
            assert forall|i: int| 0 <= i < ku implies !self.contains_key(
                (#[trigger] orig.used_view()[i]).key,
            ) by {
                let k = orig.used_view()[i].key;
                if self.idle_has(k) {
                    let a = self.idle_index(k);
                    assert(self.idle_view()[a].key == k);
                    assert(self.idle_view()[a] == orig.idle_view()[kidle + a]);
                    assert(orig.idle_view()[kidle + a].key != orig.used_view()[i].key);
                }
                if self.used_has(k) {
                    let b = self.used_index(k);
                    assert(self.used_view()[b].key == k);
                    assert(self.used_view()[b] == orig.used_view()[ku + b]);
                    assert(orig.used_view()[i].key != orig.used_view()[ku + b].key);
                }
            }
        }
        out
    }
}

/// The external getter consumed by the cache facade on a miss; fetching
/// may be slow and its result is outside the cache's control.
pub trait DataGetter {
    fn get(&self, key: &String) -> String;
}

/// Memoizing facade over the two-tier store: `get` serves from the store
/// or fetches through the external getter and populates the store; the
/// other operations pass through.
pub struct Cache<G: DataGetter> {
    cached: MapWithExpires,
    getter: G,
}

impl<G: DataGetter> Cache<G> {
    /// The underlying two-tier store.
    pub closed spec fn store(self) -> MapWithExpires {
        self.cached
    }

    pub open spec fn wf(self) -> bool {
        self.store().wf()
    }

    /// An empty cache over `getter` with the given tier thresholds.
    pub fn new(getter: G, idle_expire_ms: u64, used_expire_ms: u64) -> (r: Self)
        ensures
            r.wf(),
            r.store().idle_view() == Seq::<EntryModel>::empty(),
            r.store().used_view() == Seq::<EntryModel>::empty(),
            r.store().idle_expire() == idle_expire_ms,
            r.store().used_expire() == used_expire_ms,
    {
        Cache { cached: MapWithExpires::new(idle_expire_ms, used_expire_ms), getter }
    }

    /// On a hit, return the cached value (renewing an idle entry's
    /// position, as the store's lookup does).  On a miss, fetch through
    /// the external getter, insert the result as a fresh idle entry, and
    /// return it.
    pub fn get(&mut self, key: &String, now_ms: u64) -> (r: String)
        requires
            old(self).wf(),
            old(self).store().touch_times_le(now_ms),
        ensures
            final(self).wf(),
            final(self).store().touch_times_le(now_ms),
            final(self).store().idle_expire() == old(self).store().idle_expire(),
            final(self).store().used_expire() == old(self).store().used_expire(),
            old(self).store().contains_key(key@) ==> r@ == old(self).store().value_of(key@),
            old(self).store().idle_has(key@) ==> {
                &&& final(self).store().idle_view() == old(self).store().idle_view().remove(
                    old(self).store().idle_index(key@),
                ).push(
                    EntryModel {
                        key: key@,
                        value: old(self).store().value_of(key@),
                        usage: 0,
                        since_ms: now_ms,
                    },
                )
                &&& final(self).store().used_view() == old(self).store().used_view()
            },
            old(self).store().used_has(key@) ==> final(self).store().idle_view() == old(self).store().idle_view() && final(self).store().used_view() == old(self).store().used_view(),
            !old(self).store().contains_key(key@) ==> {
                &&& final(self).store().idle_view() == old(self).store().idle_view().push(
                    EntryModel { key: key@, value: r@, usage: 0, since_ms: now_ms },
                )
                &&& final(self).store().used_view() == old(self).store().used_view()
            },
    {
        match self.cached.get(key, now_ms) {
            Some(v) => v,
            None => {
                let data = self.getter.get(key);
                let copy = data.clone();
                let _inserted = self.cached.set(key.clone(), copy, now_ms);
                data
            },
        }
    }

    /// Insert `key` directly; fails with `KeyExists` if it is present.
    pub fn set(&mut self, key: String, value: String, now_ms: u64) -> (r: Result<(), CacheError>)
        requires
            old(self).wf(),
            old(self).store().touch_times_le(now_ms),
        ensures
            final(self).wf(),
            final(self).store().touch_times_le(now_ms),
            final(self).store().idle_expire() == old(self).store().idle_expire(),
            final(self).store().used_expire() == old(self).store().used_expire(),
            old(self).store().contains_key(key@) ==> r == Err::<(), CacheError>(
                CacheError::KeyExists,
            ) && final(self).store().idle_view() == old(self).store().idle_view() && final(self).store().used_view() == old(self).store().used_view(),
            !old(self).store().contains_key(key@) ==> r == Ok::<(), CacheError>(()) && final(self).store().idle_view() == old(self).store().idle_view().push(
                EntryModel { key: key@, value: value@, usage: 0, since_ms: now_ms },
            ) && final(self).store().used_view() == old(self).store().used_view(),
    {
        self.cached.set(key, value, now_ms)
    }

    /// Increment the usage counter of `key`; see the store's `add_usage`.
    pub fn add_usage(&mut self, key: &String, now_ms: u64) -> (r: Result<(), CacheError>)
        requires
            old(self).wf(),
            old(self).store().touch_times_le(now_ms),
        ensures
            final(self).wf(),
            final(self).store().touch_times_le(now_ms),
            final(self).store().idle_expire() == old(self).store().idle_expire(),
            final(self).store().used_expire() == old(self).store().used_expire(),
            !old(self).store().contains_key(key@) ==> r == Err::<(), CacheError>(
                CacheError::KeyNotFound,
            ) && final(self).store().idle_view() == old(self).store().idle_view() && final(self).store().used_view() == old(self).store().used_view(),
            old(self).store().idle_has(key@) ==> r == Ok::<(), CacheError>(()) && final(self).store().idle_view() == old(self).store().idle_view().remove(
                old(self).store().idle_index(key@),
            ) && final(self).store().used_view() == old(self).store().used_view().push(
                EntryModel {
                    key: key@,
                    value: old(self).store().value_of(key@),
                    usage: 1,
                    since_ms: now_ms,
                },
            ),
            old(self).store().used_has(key@) && old(self).store().usage_of(key@) < u64::MAX ==> r
                == Ok::<(), CacheError>(()) && final(self).store().idle_view() == old(self).store().idle_view() && final(self).store().used_view() == old(self).store().used_view().update(
                old(self).store().used_index(key@),
                EntryModel {
                    key: key@,
                    value: old(self).store().value_of(key@),
                    usage: (old(self).store().usage_of(key@) + 1) as u64,
                    since_ms: old(self).store().used_view()[old(self).store().used_index(
                        key@,
                    )].since_ms,
                },
            ),
            old(self).store().used_has(key@) && old(self).store().usage_of(key@) == u64::MAX ==> r
                == Err::<(), CacheError>(CacheError::NoncriticalError) && final(self).store().idle_view() == old(self).store().idle_view() && final(self).store().used_view()
                == old(self).store().used_view(),
    {
        self.cached.add_usage(key, now_ms)
    }

    /// Decrement the usage counter of `key`; see the store's
    /// `remove_usage`.
    pub fn remove_usage(&mut self, key: &String, now_ms: u64) -> (r: Result<(), CacheError>)
        requires
            old(self).wf(),
            old(self).store().touch_times_le(now_ms),
        ensures
            final(self).wf(),
            final(self).store().touch_times_le(now_ms),
            final(self).store().idle_expire() == old(self).store().idle_expire(),
            final(self).store().used_expire() == old(self).store().used_expire(),
            !old(self).store().contains_key(key@) ==> r == Err::<(), CacheError>(
                CacheError::KeyNotFound,
            ) && final(self).store().idle_view() == old(self).store().idle_view() && final(self).store().used_view() == old(self).store().used_view(),
            old(self).store().idle_has(key@) ==> r == Err::<(), CacheError>(
                CacheError::UsageUnderflow,
            ) && final(self).store().idle_view() == old(self).store().idle_view() && final(self).store().used_view() == old(self).store().used_view(),
            old(self).store().used_has(key@) && old(self).store().usage_of(key@) == 1 ==> r == Ok::<
                (),
                CacheError,
            >(()) && final(self).store().used_view() == old(self).store().used_view().remove(
                old(self).store().used_index(key@),
            ) && final(self).store().idle_view() == old(self).store().idle_view().push(
                EntryModel {
                    key: key@,
                    value: old(self).store().value_of(key@),
                    usage: 0,
                    since_ms: now_ms,
                },
            ),
            old(self).store().used_has(key@) && old(self).store().usage_of(key@) > 1 ==> r == Ok::<
                (),
                CacheError,
            >(()) && final(self).store().idle_view() == old(self).store().idle_view() && final(self).store().used_view() == old(self).store().used_view().update(
                old(self).store().used_index(key@),
                EntryModel {
                    key: key@,
                    value: old(self).store().value_of(key@),
                    usage: (old(self).store().usage_of(key@) - 1) as u64,
                    since_ms: old(self).store().used_view()[old(self).store().used_index(
                        key@,
                    )].since_ms,
                },
            ),
    {
        self.cached.remove_usage(key, now_ms)
    }

    /// Sweep both tiers; see the store's `evict_expired`.
    #[must_use]
    pub fn evict_expired(&mut self, now_ms: u64) -> (out: Vec<ImportantExpires>)
        requires
            old(self).wf(),
            old(self).store().touch_times_le(now_ms),
        ensures
            final(self).wf(),
            final(self).store().touch_times_le(now_ms),
            final(self).store().idle_expire() == old(self).store().idle_expire(),
            final(self).store().used_expire() == old(self).store().used_expire(),
            ({
                let ki = aged_prefix_len(
                    old(self).store().idle_view(),
                    old(self).store().idle_expire(),
                    now_ms,
                );
                let ku = aged_prefix_len(
                    old(self).store().used_view(),
                    old(self).store().used_expire(),
                    now_ms,
                );
                &&& final(self).store().idle_view() == old(self).store().idle_view().skip(ki)
                &&& final(self).store().used_view() == old(self).store().used_view().skip(ku)
                &&& out@.len() == ku
                &&& forall|i: int|
                    0 <= i < ku ==> (#[trigger] out@[i]).key@ == old(self).store().used_view()[
                    i].key && out@[i].usages == old(self).store().used_view()[i].usage
                &&& forall|i: int|
                    0 <= i < ki ==> !final(self).store().contains_key(
                        (#[trigger] old(self).store().idle_view()[i]).key,
                    )
                &&& forall|i: int|
                    0 <= i < ku ==> !final(self).store().contains_key(
                        (#[trigger] old(self).store().used_view()[i]).key,
                    )
            }),
    {
        self.cached.evict_expired(now_ms)
    }
}

fn find_key(list: &Vec<CacheRecord>, key: &String) -> (r: Option<usize>)
    ensures
        match r {
            Some(j) => j < list@.len() && list@[j as int].key@ == key@,
            None => forall|i: int| 0 <= i < list@.len() ==> (#[trigger] list@[i]).key@ != key@,
        },
{
    let mut i: usize = 0;
    while i < list.len()
        invariant
            i <= list@.len(),
            forall|t: int| 0 <= t < i ==> (#[trigger] list@[t]).key@ != key@,
        decreases list@.len() - i,
    {
        if list[i].key == *key {
            return Some(i);
        }
        i = i + 1;
    }
    None
}

/// In a well-formed store whose idle tier ends in some entry, that entry
/// is the one the key-level spec functions report: the key is present,
/// idle, with that value and usage zero.  With `set`'s contract this says
/// that inserting a fresh key and then inserting it again leaves the
/// first value in place: the second insert fails with `KeyExists` and
/// mutates nothing, and a lookup still returns the first value.
pub proof fn lemma_tail_idle_entry(m: MapWithExpires)
    requires
        m.wf(),
        m.idle_view().len() > 0,
    ensures
        m.idle_has(m.idle_view().last().key),
        !m.used_has(m.idle_view().last().key),
        m.value_of(m.idle_view().last().key) == m.idle_view().last().value,
        m.usage_of(m.idle_view().last().key) == 0,
{
    let n = m.idle_view().len() - 1;
    let k = m.idle_view().last().key;
    assert(m.idle_view()[n].key == k);
    assert(m.idle_has(k));
    let j = m.idle_index(k);
    assert(0 <= j < m.idle_view().len() && m.idle_view()[j].key == k);
    assert(j == n);
    if m.used_has(k) {
        let u = m.used_index(k);
        assert(0 <= u < m.used_view().len() && m.used_view()[u].key == k);
        assert(m.idle_view()[n].key != m.used_view()[u].key);
    }
}

/// In general: if the entry under `k` sits in the used tier with some
/// usage count and has outlived the used-tier threshold at `now`, then
/// the sweep's aged prefix covers its position — so, by
/// `evict_expired`'s contract, the sweep's report contains exactly one
/// record for `k`, carrying that usage count, and `k` is afterwards a
/// fresh miss.
pub proof fn lemma_aged_used_key_reported(m: MapWithExpires, now_ms: u64, k: Seq<char>)
    requires
        m.wf(),
        m.used_has(k),
        entry_aged(m.used_view()[m.used_index(k)].since_ms, m.used_expire(), now_ms),
    ensures
        0 <= m.used_index(k) < m.used_view().len(),
        m.used_view()[m.used_index(k)].key == k,
        m.used_view()[m.used_index(k)].usage == m.usage_of(k),
        m.used_index(k) < aged_prefix_len(m.used_view(), m.used_expire(), now_ms),
        forall|j: int|
            0 <= j < m.used_view().len() && j != m.used_index(k) ==> (#[trigger] m.used_view()[
            j]).key != k,
{
    let i = m.used_index(k);
    assert(0 <= i < m.used_view().len() && m.used_view()[i].key == k);
    lemma_aged_entry_swept(m.used_view(), m.used_expire(), now_ms, i);
    assert(!m.idle_has(k)) by {
        if m.idle_has(k) {
            let a = m.idle_index(k);
            assert(0 <= a < m.idle_view().len() && m.idle_view()[a].key == k);
            assert(m.idle_view()[a].key != m.used_view()[i].key);
        }
    }
    assert forall|j: int| 0 <= j < m.used_view().len() && j != i implies (#[trigger] m.used_view()[
    j]).key != k by {
        if j < i {
            assert(m.used_view()[j].key != m.used_view()[i].key);
        } else {
            assert(m.used_view()[i].key != m.used_view()[j].key);
        }
    }
}

/// In a well-formed store whose used tier ends in some entry, that entry
/// is the one the key-level spec functions report: the key is present,
/// in the used tier, with that value and usage.  With `add_usage`'s
/// contract this says that incrementing a fresh key's usage moves it to
/// the used tier with usage one.
pub proof fn lemma_tail_used_entry(m: MapWithExpires)
    requires
        m.wf(),
        m.used_view().len() > 0,
    ensures
        m.used_has(m.used_view().last().key),
        !m.idle_has(m.used_view().last().key),
        m.value_of(m.used_view().last().key) == m.used_view().last().value,
        m.usage_of(m.used_view().last().key) == m.used_view().last().usage,
{
    let n = m.used_view().len() - 1;
    let k = m.used_view().last().key;
    assert(m.used_view()[n].key == k);
    assert(m.used_has(k));
    let j = m.used_index(k);
    assert(0 <= j < m.used_view().len() && m.used_view()[j].key == k);
    assert(j == n);
    if m.idle_has(k) {
        let u = m.idle_index(k);
        assert(0 <= u < m.idle_view().len() && m.idle_view()[u].key == k);
        assert(m.idle_view()[u].key != m.used_view()[n].key);
    }
}

} // verus!
