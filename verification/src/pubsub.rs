//! The lifecycle event stream and its shared consumer group.
//!
//! The stream is append-only; the entry's position is its identifier, so
//! entry identifiers grow monotonically. One consumer group is shared by
//! all workers: an entry is delivered to the group once (`read_new`),
//! stays pending until a worker acknowledges it (`ack`), and is never
//! lost in between.

use vstd::prelude::*;
use crate::codec::{encode_payout_event, event_json};
use crate::text::json_safe;

verus! {

pub struct PubSubService {
    /// The append-only stream of encoded event payloads.
    pub entries: Vec<String>,
    /// Whether the workers' consumer group exists yet.
    pub group_created: bool,
    /// The first entry never delivered to the group.
    pub next_delivery: usize,
    /// Entries delivered but not yet acknowledged, in delivery order,
    /// each with the instant it was last claimed.
    pub pending: Vec<(usize, u64)>,
}

/// The pending entries whose last claim is at least `age` old at `now`:
/// what a crashed or stalled worker left behind.
pub open spec fn stale_pending(pending: Seq<(usize, u64)>, age: u64, now: u64) -> Seq<usize>
    decreases pending.len(),
{
    if pending.len() == 0 {
        Seq::empty()
    } else {
        stale_pending(pending.drop_last(), age, now) + (if pending.last().1 + age <= now {
            seq![pending.last().0]
        } else {
            Seq::empty()
        })
    }
}

/// The stale indices are exactly the indices of the stale pending
/// entries, kept in order, so they inherit the pending list's strict
/// ordering.
pub proof fn lemma_stale_pending_chars(pending: Seq<(usize, u64)>, age: u64, now: u64)
    requires
        forall|i: int, j: int| 0 <= i < j < pending.len()
            ==> (#[trigger] pending[i]).0 < (#[trigger] pending[j]).0,
    ensures
        forall|j: int| 0 <= j < stale_pending(pending, age, now).len()
            ==> exists|t: int| 0 <= t < pending.len()
                && (#[trigger] pending[t]).0 == #[trigger] stale_pending(pending, age, now)[j]
                && pending[t].1 + age <= now,
        forall|t: int| 0 <= t < pending.len() && (#[trigger] pending[t]).1 + age <= now
            ==> stale_pending(pending, age, now).contains(pending[t].0),
        forall|j1: int, j2: int| 0 <= j1 < j2 < stale_pending(pending, age, now).len()
            ==> #[trigger] stale_pending(pending, age, now)[j1]
                < #[trigger] stale_pending(pending, age, now)[j2],
    decreases pending.len(),
{
    if pending.len() > 0 {
        let p = pending.drop_last();
        let s = stale_pending(pending, age, now);
        let sp = stale_pending(p, age, now);
        assert(forall|i: int, j: int| 0 <= i < j < p.len()
            ==> (#[trigger] p[i]).0 < (#[trigger] p[j]).0) by {
            assert(forall|i: int| 0 <= i < p.len() ==> p[i] == pending[i]);
        }
        lemma_stale_pending_chars(p, age, now);
        assert forall|j: int| 0 <= j < s.len() implies exists|t: int| 0 <= t < pending.len()
            && (#[trigger] pending[t]).0 == #[trigger] s[j] && pending[t].1 + age <= now by {
            if j < sp.len() {
                let t = choose|t: int| 0 <= t < p.len() && (#[trigger] p[t]).0 == sp[j]
                    && p[t].1 + age <= now;
                assert(pending[t] == p[t]);
                assert(pending[t].0 == s[j] && pending[t].1 + age <= now);
            } else {
                assert(pending.last().1 + age <= now);
                assert(s[j] == pending.last().0);
                assert(pending[pending.len() - 1].0 == s[j]);
            }
        }
        assert forall|t: int| 0 <= t < pending.len() && (#[trigger] pending[t]).1 + age <= now
            implies s.contains(pending[t].0) by {
            if t < pending.len() - 1 {
                assert(p[t] == pending[t]);
                assert(sp.contains(pending[t].0));
                let w = choose|w: int| 0 <= w < sp.len() && sp[w] == pending[t].0;
                assert(s[w] == pending[t].0);
            } else {
                assert(s[s.len() - 1] == pending.last().0);
            }
        }
        assert forall|j1: int, j2: int| 0 <= j1 < j2 < s.len()
            implies #[trigger] s[j1] < #[trigger] s[j2] by {
            if j2 < sp.len() {
                assert(sp[j1] == s[j1] && sp[j2] == s[j2]);
            } else {
                // j2 names the appended last element; j1 sits in the prefix
                assert(s[j2] == pending.last().0);
                assert(s[j1] == sp[j1]);
                let t = choose|t: int| 0 <= t < p.len() && (#[trigger] p[t]).0 == sp[j1]
                    && p[t].1 + age <= now;
                assert(pending[t] == p[t]);
                assert(pending[t].0 < pending[pending.len() - 1].0);
            }
        }
    }
}

/// Relies on chrono's `Utc::now`, rendered by `DateTime::to_rfc3339`: an
/// RFC 3339 timestamp is printable ASCII with no quote or backslash.
#[verifier::external_body]
fn now_rfc3339() -> (r: String)
    ensures
        json_safe(r@),
{
    chrono::Utc::now().to_rfc3339()
}

impl PubSubService {
    /// Delivered entries exist, are delivered at most once, and stay in
    /// delivery order while pending.
    pub open spec fn wf(self) -> bool {
        &&& self.next_delivery <= self.entries@.len()
        &&& forall|i: int| 0 <= i < self.pending@.len()
                ==> (#[trigger] self.pending@[i]).0 < self.next_delivery
        &&& forall|i: int, j: int| 0 <= i < j < self.pending@.len()
                ==> (#[trigger] self.pending@[i]).0 < (#[trigger] self.pending@[j]).0
    }

    pub fn new() -> (r: Self)
        ensures
            r.wf(),
            r.entries@.len() == 0,
            !r.group_created,
            r.next_delivery == 0,
            r.pending@.len() == 0,
    {
        PubSubService { entries: Vec::new(), group_created: false, next_delivery: 0, pending: Vec::new() }
    }

    /// Creates the workers' consumer group if it does not exist yet;
    /// calling it again is a no-op.
    pub fn ensure_group(&mut self)
        ensures
            final(self).group_created,
            final(self).entries@ == old(self).entries@,
            final(self).next_delivery == old(self).next_delivery,
            final(self).pending@ == old(self).pending@,
    {
        self.group_created = true;
    }

    /// Appends one lifecycle event to the stream, stamped with the
    /// current wall-clock time.
    pub fn publish_payout_event(&mut self, payout_id: u64, event_type: &str)
        ensures
            final(self).entries@.len() == old(self).entries@.len() + 1,
            forall|i: int| 0 <= i < old(self).entries@.len()
                ==> final(self).entries@[i] == old(self).entries@[i],
            exists|ts: Seq<char>| json_safe(ts)
                && final(self).entries@.last()@ == event_json(payout_id, event_type@, ts),
            final(self).group_created == old(self).group_created,
            final(self).next_delivery == old(self).next_delivery,
            final(self).pending@ == old(self).pending@,
    {
        let stamp = now_rfc3339();
        let payload = encode_payout_event(payout_id, event_type, stamp.as_str());
        self.entries.push(payload);
    }

    /// Delivers up to `count` new entries to the consumer group; the
    /// delivered entries become pending, claimed at `now`, until
    /// acknowledged.
    pub fn read_new(&mut self, count: usize, now: u64) -> (claimed: Vec<(usize, String)>)
        requires
            old(self).wf(),
            old(self).group_created,
        ensures
            final(self).wf(),
            final(self).group_created,
            final(self).entries@ == old(self).entries@,
            claimed@.len() <= count,
            old(self).entries@.len() - old(self).next_delivery >= count
                ==> claimed@.len() == count,
            old(self).entries@.len() - old(self).next_delivery < count
                ==> claimed@.len() == old(self).entries@.len() - old(self).next_delivery,
            forall|k: int| 0 <= k < claimed@.len() ==> (#[trigger] claimed@[k]).0
                == old(self).next_delivery + k
                && claimed@[k].1 == old(self).entries@[old(self).next_delivery + k],
            final(self).next_delivery == old(self).next_delivery + claimed@.len(),
            final(self).pending@.len() == old(self).pending@.len() + claimed@.len(),
            forall|i: int| 0 <= i < old(self).pending@.len()
                ==> #[trigger] final(self).pending@[i] == old(self).pending@[i],
            forall|k: int| 0 <= k < claimed@.len()
                ==> (#[trigger] final(self).pending@[old(self).pending@.len() + k]).0
                        == old(self).next_delivery + k
                    && final(self).pending@[old(self).pending@.len() + k].1 == now,
    {
        let available = self.entries.len() - self.next_delivery;
        let take = if count < available { count } else { available };
        let mut claimed: Vec<(usize, String)> = Vec::new();
        let mut k: usize = 0;
        while k < take
            invariant
                k <= take,
                self.entries@.len() <= usize::MAX,
                self.next_delivery == old(self).next_delivery + k,
                take <= self.entries@.len() - old(self).next_delivery,
                self.entries@ == old(self).entries@,
                self.group_created == old(self).group_created,
                self.wf(),
                claimed@.len() == k,
                forall|t: int| 0 <= t < k ==> (#[trigger] claimed@[t]).0
                    == old(self).next_delivery + t
                    && claimed@[t].1 == old(self).entries@[old(self).next_delivery + t],
                self.pending@.len() == old(self).pending@.len() + k,
                forall|i: int| 0 <= i < old(self).pending@.len()
                    ==> #[trigger] self.pending@[i] == old(self).pending@[i],
                forall|t: int| 0 <= t < k
                    ==> (#[trigger] self.pending@[old(self).pending@.len() + t]).0
                            == old(self).next_delivery + t
                        && self.pending@[old(self).pending@.len() + t].1 == now,
            decreases take - k,
        {
            let idx = self.next_delivery;
            proof {
                assert(idx < self.entries@.len());
            }
            let payload = self.entries[idx].clone();
            claimed.push((idx, payload));
            self.pending.push((idx, now));
            self.next_delivery = idx + 1;
            k = k + 1;
        }
        claimed
    }

    /// Acknowledges one delivered entry, removing it from the group's
    /// pending list; acknowledging an entry that is not pending is a
    /// no-op.
    pub fn ack(&mut self, entry_index: usize)
        requires
            old(self).wf(),
        ensures
            final(self).wf(),
            final(self).entries@ == old(self).entries@,
            final(self).group_created == old(self).group_created,
            final(self).next_delivery == old(self).next_delivery,
            (exists|i: int| 0 <= i < old(self).pending@.len()
                    && (#[trigger] old(self).pending@[i]).0 == entry_index)
                ==> exists|i: int| 0 <= i < old(self).pending@.len()
                    && (#[trigger] old(self).pending@[i]).0 == entry_index
                    && final(self).pending@ == old(self).pending@.remove(i),
            (forall|i: int| 0 <= i < old(self).pending@.len()
                    ==> (#[trigger] old(self).pending@[i]).0 != entry_index)
                ==> final(self).pending@ == old(self).pending@,
            forall|j: int| 0 <= j < final(self).pending@.len()
                ==> (#[trigger] final(self).pending@[j]).0 != entry_index,
            forall|p: (usize, u64)| old(self).pending@.contains(p) && p.0 != entry_index
                ==> final(self).pending@.contains(p),
            forall|p: (usize, u64)| final(self).pending@.contains(p)
                ==> old(self).pending@.contains(p),
    {
        let n = self.pending.len();
        let mut i: usize = 0;
        while i < n
            invariant
                i <= n,
                n == self.pending@.len(),
                *self == *old(self),
                old(self).wf(),
                forall|t: int| 0 <= t < i ==> (#[trigger] self.pending@[t]).0 != entry_index,
            decreases n - i,
        {
            if self.pending[i].0 == entry_index {
                self.pending.remove(i);
                proof {
                    old(self).pending@.remove_ensures(i as int);
                    assert forall|a: int, b: int|
                        0 <= a < b < self.pending@.len() implies
                        (#[trigger] self.pending@[a]).0 < (#[trigger] self.pending@[b]).0 by {
                        if a < i {
                            assert(self.pending@[a] == old(self).pending@[a]);
                        } else {
                            assert(self.pending@[a] == old(self).pending@[a + 1]);
                        }
                        if b < i {
                            assert(self.pending@[b] == old(self).pending@[b]);
                        } else {
                            assert(self.pending@[b] == old(self).pending@[b + 1]);
                        }
                        assert((self.pending@[a]).0 < (self.pending@[b]).0);
                    }
                    // only this position carried the acknowledged index,
                    // so nothing with it remains, and everything else does
                    assert forall|j: int| 0 <= j < self.pending@.len()
                        implies (#[trigger] self.pending@[j]).0 != entry_index by {
                        if j < i {
                            assert(self.pending@[j] == old(self).pending@[j]);
                        } else {
                            assert(self.pending@[j] == old(self).pending@[j + 1]);
                            assert(old(self).pending@[i as int].0 < old(self).pending@[j + 1].0);
                        }
                    }
                    assert forall|p: (usize, u64)| old(self).pending@.contains(p)
                        && p.0 != entry_index implies self.pending@.contains(p) by {
                        let w = choose|w: int| 0 <= w < old(self).pending@.len()
                            && old(self).pending@[w] == p;
                        if w < i {
                            assert(self.pending@[w] == p);
                        } else {
                            assert(self.pending@[w - 1] == p);
                        }
                    }
                    assert forall|p: (usize, u64)| self.pending@.contains(p)
                        implies old(self).pending@.contains(p) by {
                        let w = choose|w: int| 0 <= w < self.pending@.len()
                            && self.pending@[w] == p;
                        if w < i {
                            assert(old(self).pending@[w] == p);
                        } else {
                            assert(old(self).pending@[w + 1] == p);
                        }
                    }
                }
                return ;
            }
            i = i + 1;
        }
    }

    /// Re-delivers every pending entry whose claim is at least
    /// `age_seconds` old: what "claimed but never acknowledged must
    /// eventually become reclaimable" comes to. The entries stay
    /// pending, now claimed afresh at `now`.
    pub fn reclaim_stale(&mut self, age_seconds: u64, now: u64) -> (claimed: Vec<(usize, String)>)
        requires
            old(self).wf(),
            old(self).group_created,
        ensures
            final(self).wf(),
            final(self).group_created,
            final(self).entries@ == old(self).entries@,
            final(self).next_delivery == old(self).next_delivery,
            final(self).pending@.len() == old(self).pending@.len(),
            forall|i: int| 0 <= i < old(self).pending@.len()
                ==> (#[trigger] final(self).pending@[i]).0 == old(self).pending@[i].0
                    && final(self).pending@[i].1 == (
                        if old(self).pending@[i].1 + age_seconds <= now {
                            now
                        } else {
                            old(self).pending@[i].1
                        }),
            claimed@.len() == stale_pending(old(self).pending@, age_seconds, now).len(),
            forall|j: int| 0 <= j < claimed@.len()
                ==> (#[trigger] claimed@[j]).0
                        == stale_pending(old(self).pending@, age_seconds, now)[j]
                    && claimed@[j].1
                        == old(self).entries@[
                            stale_pending(old(self).pending@, age_seconds, now)[j] as int],
    {
        let n = self.pending.len();
        let total_entries = self.entries.len();
        proof {
            assert(self.entries@.len() == total_entries);
        }
        let mut claimed: Vec<(usize, String)> = Vec::new();
        let mut i: usize = 0;
        while i < n
            invariant
                i <= n,
                n == old(self).pending@.len(),
                old(self).wf(),
                self.entries@ == old(self).entries@,
                self.entries@.len() <= usize::MAX,
                self.group_created == old(self).group_created,
                self.next_delivery == old(self).next_delivery,
                self.pending@.len() == old(self).pending@.len(),
                forall|t: int| 0 <= t < n
                    ==> (#[trigger] self.pending@[t]).0 == old(self).pending@[t].0,
                forall|t: int| 0 <= t < i
                    ==> (#[trigger] self.pending@[t]).1 == (
                        if old(self).pending@[t].1 + age_seconds <= now {
                            now
                        } else {
                            old(self).pending@[t].1
                        }),
                forall|t: int| i <= t < n
                    ==> (#[trigger] self.pending@[t]).1 == old(self).pending@[t].1,
                claimed@.len() == stale_pending(old(self).pending@.take(i as int), age_seconds,
                    now).len(),
                forall|j: int| 0 <= j < claimed@.len()
                    ==> (#[trigger] claimed@[j]).0
                            == stale_pending(old(self).pending@.take(i as int), age_seconds,
                                now)[j]
                        && claimed@[j].1
                            == old(self).entries@[
                                stale_pending(old(self).pending@.take(i as int), age_seconds,
                                    now)[j] as int],
            decreases n - i,
        {
            proof {
                assert(old(self).pending@.take(i + 1 as int).drop_last()
                    =~= old(self).pending@.take(i as int));
                assert(old(self).pending@.take(i + 1 as int).last()
                    == old(self).pending@[i as int]);
            }
            let entry = self.pending[i];
            let stale = entry.1 <= u64::MAX - age_seconds && entry.1 + age_seconds <= now;
            if stale {
                let idx = entry.0;
                proof {
                    assert(idx < self.entries@.len());
                }
                let payload = self.entries[idx].clone();
                claimed.push((idx, payload));
                let ghost before_step = self.pending@;
                let mut fresh = self.pending.remove(i);
                fresh.1 = now;
                self.pending.insert(i, fresh);
                proof {
                    assert(self.pending@ =~= before_step.update(i as int, fresh));
                }
            }
            i = i + 1;
        }
        proof {
            assert(old(self).pending@.take(n as int) =~= old(self).pending@);
        }
        claimed
    }
}

} // verus!
