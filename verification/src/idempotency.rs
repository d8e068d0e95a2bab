//! The idempotency store: atomic set-if-absent locks with expiry, and a
//! cache of finished response bodies.
//!
//! Two key namespaces back the protocol: `locks`, whose presence (while
//! unexpired) means "someone already started this work", and `results`,
//! whose presence means "this work finished, replay the stored body".
//! Time is an explicit argument, so expiry is part of every contract.

use vstd::prelude::*;

verus! {

pub struct IdempotencyService {
    /// Lock namespace: key -> expiry instant.
    pub locks: Vec<(String, u64)>,
    /// Result namespace: key -> (cached body, expiry instant).
    pub results: Vec<(String, String, u64)>,
}

/// The map denoted by the lock entries; a later entry overrides an
/// earlier one with the same key.
pub open spec fn locks_map(s: Seq<(String, u64)>) -> Map<Seq<char>, u64>
    decreases s.len(),
{
    if s.len() == 0 {
        Map::empty()
    } else {
        locks_map(s.drop_last()).insert(s.last().0@, s.last().1)
    }
}

/// The map denoted by the result entries.
pub open spec fn results_map(s: Seq<(String, String, u64)>) -> Map<Seq<char>, (Seq<char>, u64)>
    decreases s.len(),
{
    if s.len() == 0 {
        Map::empty()
    } else {
        results_map(s.drop_last()).insert(s.last().0@, (s.last().1@, s.last().2))
    }
}

impl IdempotencyService {
    pub open spec fn locks_view(self) -> Map<Seq<char>, u64> {
        locks_map(self.locks@)
    }

    pub open spec fn results_view(self) -> Map<Seq<char>, (Seq<char>, u64)> {
        results_map(self.results@)
    }

    /// An unexpired lock for `key` exists at instant `now`.
    pub open spec fn lock_active(self, key: Seq<char>, now: u64) -> bool {
        self.locks_view().contains_key(key) && now < self.locks_view()[key]
    }

    /// The unexpired cached body for `key` at instant `now`, if any.
    pub open spec fn cached(self, key: Seq<char>, now: u64) -> Option<Seq<char>> {
        if self.results_view().contains_key(key) && now < self.results_view()[key].1 {
            Some(self.results_view()[key].0)
        } else {
            None
        }
    }

    pub fn new() -> (r: Self)
        ensures
            r.locks_view() == Map::<Seq<char>, u64>::empty(),
            r.results_view() == Map::<Seq<char>, (Seq<char>, u64)>::empty(),
    {
        IdempotencyService { locks: Vec::new(), results: Vec::new() }
    }

    /// The expiry recorded for `key` in the lock namespace, if any.
    fn find_lock(&self, key: &String) -> (r: Option<u64>)
        ensures
            match r {
                Some(e) => self.locks_view().contains_key(key@) && self.locks_view()[key@] == e,
                None => !self.locks_view().contains_key(key@),
            },
    {
        let n = self.locks.len();
        let mut i: usize = n;
        proof {
            assert(self.locks@.take(n as int) =~= self.locks@);
        }
        while i > 0
            invariant
                i <= n,
                n == self.locks@.len(),
                forall|k: Seq<char>| locks_map(self.locks@).contains_key(k)
                    && !locks_map(self.locks@.take(i as int)).contains_key(k)
                    ==> k != key@,
                locks_map(self.locks@.take(i as int)).contains_key(key@)
                    ==> locks_map(self.locks@).contains_key(key@)
                        && locks_map(self.locks@)[key@]
                            == locks_map(self.locks@.take(i as int))[key@],
            decreases i,
        {
            i = i - 1;
            let e = &self.locks[i];
            proof {
                assert(self.locks@.take(i + 1 as int).drop_last() =~= self.locks@.take(i as int));
                assert(self.locks@.take(i + 1 as int).last() == self.locks@[i as int]);
            }
            if e.0 == *key {
                proof {
                    assert(locks_map(self.locks@.take(i + 1 as int)).contains_key(key@));
                }
                return Some(e.1);
            }
        }
        proof {
            assert(self.locks@.take(0) =~= Seq::<(String, u64)>::empty());
        }
        None
    }

    /// The cached body and expiry recorded for `key`, if any.
    fn find_result(&self, key: &String) -> (r: Option<(String, u64)>)
        ensures
            match r {
                Some(p) => self.results_view().contains_key(key@)
                    && self.results_view()[key@] == (p.0@, p.1),
                None => !self.results_view().contains_key(key@),
            },
    {
        let n = self.results.len();
        let mut i: usize = n;
        proof {
            assert(self.results@.take(n as int) =~= self.results@);
        }
        while i > 0
            invariant
                i <= n,
                n == self.results@.len(),
                forall|k: Seq<char>| results_map(self.results@).contains_key(k)
                    && !results_map(self.results@.take(i as int)).contains_key(k)
                    ==> k != key@,
                results_map(self.results@.take(i as int)).contains_key(key@)
                    ==> results_map(self.results@).contains_key(key@)
                        && results_map(self.results@)[key@]
                            == results_map(self.results@.take(i as int))[key@],
            decreases i,
        {
            i = i - 1;
            let e = &self.results[i];
            proof {
                assert(self.results@.take(i + 1 as int).drop_last()
                    =~= self.results@.take(i as int));
                assert(self.results@.take(i + 1 as int).last() == self.results@[i as int]);
            }
            if e.0 == *key {
                proof {
                    assert(results_map(self.results@.take(i + 1 as int)).contains_key(key@));
                }
                return Some((e.1.clone(), e.2));
            }
        }
        proof {
            assert(self.results@.take(0) =~= Seq::<(String, String, u64)>::empty());
        }
        None
    }

    /// Atomically takes the lock for `idempotency_key` if no unexpired
    /// holder exists: the sole admission-control primitive for "has
    /// someone already started this work".
    pub fn check_and_lock(&mut self, idempotency_key: &str, ttl_seconds: u64, now: u64)
        -> (acquired: bool)
        requires
            now + ttl_seconds <= u64::MAX,
        ensures
            acquired == !old(self).lock_active(idempotency_key@, now),
            acquired ==> final(self).locks_view()
                == old(self).locks_view().insert(idempotency_key@, (now + ttl_seconds) as u64),
            !acquired ==> final(self).locks_view() == old(self).locks_view(),
            final(self).results_view() == old(self).results_view(),
    {
        let key = idempotency_key.to_owned();
        match self.find_lock(&key) {
            Some(expiry) if now < expiry => false,
            _ => {
                let ghost before = self.locks@;
                self.locks.push((key, now + ttl_seconds));
                proof {
                    assert(self.locks@.drop_last() =~= before);
                }
                true
            },
        }
    }

    /// The previously cached response body for `idempotency_key`, if one
    /// is still unexpired.
    pub fn get_result(&self, idempotency_key: &str, now: u64) -> (r: Option<String>)
        ensures
            match r {
                Some(v) => self.cached(idempotency_key@, now) == Some(v@),
                None => self.cached(idempotency_key@, now) is None,
            },
    {
        let key = idempotency_key.to_owned();
        match self.find_result(&key) {
            Some((value, expiry)) if now < expiry => Some(value),
            _ => None,
        }
    }

    /// Caches `result` under `idempotency_key` so an identical request
    /// within the TTL window replays the original response verbatim.
    pub fn store_result(&mut self, idempotency_key: &str, result: &str, ttl_seconds: u64, now: u64)
        requires
            now + ttl_seconds <= u64::MAX,
        ensures
            final(self).results_view() == old(self).results_view()
                .insert(idempotency_key@, (result@, (now + ttl_seconds) as u64)),
            final(self).locks_view() == old(self).locks_view(),
    {
        let ghost before = self.results@;
        self.results.push((idempotency_key.to_owned(), result.to_owned(), now + ttl_seconds));
        proof {
            assert(self.results@.drop_last() =~= before);
        }
    }
}

} // verus!
