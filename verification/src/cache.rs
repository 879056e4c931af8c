//! Registry cache semantics: a TTL-bounded key/value store of byte
//! records with expiry-on-read.  The store itself is an explicit
//! value; a disk-backed shell around it supplies the clock and the
//! file system.

use vstd::prelude::*;

verus! {

/// One cached record: a key, its bytes, and the write time in seconds.
pub struct CacheRecord {
    pub key: String,
    pub bytes: Vec<u8>,
    pub modified: u64,
}

/// A TTL-bounded key/value store with expiry-on-read.
pub struct Cache {
    pub ttl_secs: u64,
    pub records: Vec<CacheRecord>,
}

/// A record written at `modified` is stale at `now` when more than
/// `ttl` seconds have passed; a write time in the future never counts
/// as stale.
pub open spec fn stale(modified: u64, now: u64, ttl: u64) -> bool {
    now >= modified && now - modified > ttl
}

impl Cache {
    /// Keys are unique.
    pub open spec fn wf(self) -> bool {
        forall|i: int, j: int|
            0 <= i < j < self.records@.len() ==> (#[trigger] self.records@[i]).key@ != (
            #[trigger] self.records@[j]).key@
    }

    pub open spec fn has(self, k: Seq<char>) -> bool {
        exists|i: int| 0 <= i < self.records@.len() && (#[trigger] self.records@[i]).key@ == k
    }

    /// The bytes and write time stored under `k`.
    pub open spec fn at(self, k: Seq<char>) -> (Seq<u8>, u64) {
        let i = choose|i: int| 0 <= i < self.records@.len() && (#[trigger] self.records@[i]).key@
            == k;
        (self.records@[i].bytes@, self.records@[i].modified)
    }

    /// An empty cache with the default TTL of 24 hours.
    pub fn new() -> (c: Cache)
        ensures
            c.wf(),
            c.ttl_secs == 86400,
            forall|k: Seq<char>| !c.has(k),
    {
        let c = Cache { ttl_secs: 86400, records: Vec::new() };
        proof {
            assert(forall|k: Seq<char>| !c.has(k));
        }
        c
    }

    /// The same cache with another TTL.
    pub fn with_ttl(self, ttl_secs: u64) -> (c: Cache)
        ensures
            c.ttl_secs == ttl_secs,
            c.records == self.records,
    {
        Cache { ttl_secs, records: self.records }
    }

    fn find_idx(&self, key: &str) -> (r: Option<usize>)
        ensures
            match r {
                Some(i) => i < self.records@.len() && self.records@[i as int].key@ == key@,
                None => !self.has(key@),
            },
    {
        let ks = key.to_owned();
        let n = self.records.len();
        let mut i: usize = 0;
        while i < n
            invariant
                0 <= i <= n == self.records@.len(),
                ks@ == key@,
                forall|j: int| 0 <= j < i ==> (#[trigger] self.records@[j]).key@ != key@,
            decreases n - i,
        {
            if self.records[i].key.eq(&ks) {
                return Some(i);
            }
            i = i + 1;
        }
        None
    }

    /// Reads the record under `key` at time `now`.  A fresh record is
    /// returned and the store is unchanged; a stale record is deleted
    /// and nothing is returned.
    pub fn get(&mut self, key: &str, now: u64) -> (r: Option<Vec<u8>>)
        requires
            old(self).wf(),
        ensures
            final(self).wf(),
            final(self).ttl_secs == old(self).ttl_secs,
            !old(self).has(key@) ==> r is None && *final(self) == *old(self),
            old(self).has(key@) && !stale(old(self).at(key@).1, now, old(self).ttl_secs) ==> ({
                &&& *final(self) == *old(self)
                &&& r is Some
                &&& r.unwrap()@ == old(self).at(key@).0
            }),
            old(self).has(key@) && stale(old(self).at(key@).1, now, old(self).ttl_secs) ==> ({
                &&& r is None
                &&& !final(self).has(key@)
                &&& forall|k2: Seq<char>|
                    k2 != key@ ==> final(self).has(k2) == old(self).has(k2) && (final(self).has(k2)
                        ==> final(self).at(k2) == old(self).at(k2))
            }),
    {
        let idx = match self.find_idx(key) {
            Some(i) => i,
            None => {
                return None;
            },
        };
        proof {
            assert(old(self).has(key@));
            let w = choose|i: int|
                0 <= i < self.records@.len() && (#[trigger] self.records@[i]).key@ == key@;
            assert(w == idx);
        }
        let m = self.records[idx].modified;
        if now >= m && now - m > self.ttl_secs {
            self.records.remove(idx);
            proof {
                let oldr = old(self).records@;
                let newr = self.records@;
                assert(newr =~= oldr.subrange(0, idx as int) + oldr.subrange(
                    idx + 1,
                    oldr.len() as int,
                ));
                assert forall|i: int, j: int| 0 <= i < j < newr.len() implies (
                #[trigger] newr[i]).key@ != (#[trigger] newr[j]).key@ by {
                    let i2 = if i < idx {
                        i
                    } else {
                        i + 1
                    };
                    let j2 = if j < idx {
                        j
                    } else {
                        j + 1
                    };
                    assert(newr[i] == oldr[i2] && newr[j] == oldr[j2]);
                }
                assert forall|k2: Seq<char>| k2 != key@ implies self.has(k2) == old(
                    self,
                ).has(k2) && (self.has(k2) ==> self.at(k2) == old(self).at(k2)) by {
                    if old(self).has(k2) {
                        let w = choose|i: int| 0 <= i < oldr.len() && (#[trigger] oldr[i]).key@
                            == k2;
                        let w2 = if w < idx {
                            w
                        } else {
                            w - 1
                        };
                        assert(newr[w2].key@ == k2);
                        assert(self.has(k2));
                        let u = choose|i: int| 0 <= i < newr.len() && (#[trigger] newr[i]).key@
                            == k2;
                        let u2 = if u < idx {
                            u
                        } else {
                            u + 1
                        };
                        assert(oldr[u2].key@ == k2);
                        let v = choose|i: int| 0 <= i < oldr.len() && (#[trigger] oldr[i]).key@
                            == k2;
                        assert(v == u2);
                    } else {
                        if self.has(k2) {
                            let u = choose|i: int|
                                0 <= i < newr.len() && (#[trigger] newr[i]).key@ == k2;
                            let u2 = if u < idx {
                                u
                            } else {
                                u + 1
                            };
                            assert(oldr[u2].key@ == k2);
                        }
                    }
                }
                if self.has(key@) {
                    let u = choose|i: int|
                        0 <= i < newr.len() && (#[trigger] newr[i]).key@ == key@;
                    let u2 = if u < idx {
                        u
                    } else {
                        u + 1
                    };
                    assert(oldr[u2].key@ == key@);
                    assert(false);
                }
            }
            None
        } else {
            let out = clone_bytes(&self.records[idx].bytes);
            Some(out)
        }
    }

    /// Writes `data` under `key` at time `now`, replacing any prior
    /// record wholesale.
    pub fn set(&mut self, key: &str, data: &[u8], now: u64)
        requires
            old(self).wf(),
        ensures
            final(self).wf(),
            final(self).ttl_secs == old(self).ttl_secs,
            final(self).has(key@),
            final(self).at(key@) == (data@, now),
            forall|k2: Seq<char>|
                k2 != key@ ==> final(self).has(k2) == old(self).has(k2) && (final(self).has(k2)
                    ==> final(self).at(k2) == old(self).at(k2)),
    {
        let rec = CacheRecord {
            key: key.to_owned(),
            bytes: vstd::slice::slice_to_vec(data),
            modified: now,
        };
        match self.find_idx(key) {
            Some(i) => {
                proof {
                    let w = choose|j: int|
                        0 <= j < self.records@.len() && (#[trigger] self.records@[j]).key@ == key@;
                    assert(w == i);
                }
                self.records.set(i, rec);
                proof {
                    let newr = self.records@;
                    let w = choose|j: int| 0 <= j < newr.len() && (#[trigger] newr[j]).key@
                        == key@;
                    assert(newr[i as int].key@ == key@);
                    assert(w == i);
                    assert forall|k2: Seq<char>| k2 != key@ implies self.has(k2) == old(
                        self,
                    ).has(k2) && (self.has(k2) ==> self.at(k2) == old(self).at(
                        k2,
                    )) by {
                        let oldr = old(self).records@;
                        if old(self).has(k2) {
                            let w2 = choose|j: int|
                                0 <= j < oldr.len() && (#[trigger] oldr[j]).key@ == k2;
                            assert(w2 != i);
                            assert(newr[w2].key@ == k2);
                            let u = choose|j: int|
                                0 <= j < newr.len() && (#[trigger] newr[j]).key@ == k2;
                            assert(u != i);
                            assert(oldr[u].key@ == k2);
                            let v = choose|j: int|
                                0 <= j < oldr.len() && (#[trigger] oldr[j]).key@ == k2;
                            assert(v == u);
                        } else {
                            if self.has(k2) {
                                let u = choose|j: int|
                                    0 <= j < newr.len() && (#[trigger] newr[j]).key@ == k2;
                                assert(u != i);
                                assert(oldr[u].key@ == k2);
                            }
                        }
                    }
                }
            },
            None => {
                self.records.push(rec);
                proof {
                    let newr = self.records@;
                    let oldr = old(self).records@;
                    let n = oldr.len() as int;
                    assert(newr[n].key@ == key@);
                    let w = choose|j: int| 0 <= j < newr.len() && (#[trigger] newr[j]).key@
                        == key@;
                    assert(w == n);
                    assert forall|k2: Seq<char>| k2 != key@ implies self.has(k2) == old(
                        self,
                    ).has(k2) && (self.has(k2) ==> self.at(k2) == old(self).at(
                        k2,
                    )) by {
                        if old(self).has(k2) {
                            let w2 = choose|j: int|
                                0 <= j < oldr.len() && (#[trigger] oldr[j]).key@ == k2;
                            assert(newr[w2].key@ == k2);
                            let u = choose|j: int|
                                0 <= j < newr.len() && (#[trigger] newr[j]).key@ == k2;
                            assert(u != n);
                            assert(oldr[u].key@ == k2);
                            let v = choose|j: int|
                                0 <= j < oldr.len() && (#[trigger] oldr[j]).key@ == k2;
                            assert(v == u);
                        } else {
                            if self.has(k2) {
                                let u = choose|j: int|
                                    0 <= j < newr.len() && (#[trigger] newr[j]).key@ == k2;
                                assert(u != n);
                                assert(oldr[u].key@ == k2);
                            }
                        }
                    }
                }
            },
        }
    }

    /// Deletes every record; the store remains usable.
    pub fn clear(&mut self)
        ensures
            final(self).wf(),
            final(self).ttl_secs == old(self).ttl_secs,
            forall|k: Seq<char>| !final(self).has(k),
            final(self).records@.len() == 0,
    {
        self.records = Vec::new();
    }
}

impl Default for Cache {
    /// An empty cache with the default TTL.
    fn default() -> (c: Cache)
        ensures
            c.wf(),
            c.ttl_secs == 86400,
            forall|k: Seq<char>| !c.has(k),
    {
        Cache::new()
    }
}

fn clone_bytes(v: &Vec<u8>) -> (r: Vec<u8>)
    ensures
        r@ == v@,
{
    let mut r: Vec<u8> = Vec::new();
    let n = v.len();
    for i in 0..n
        invariant
            n == v@.len(),
            r@ == v@.take(i as int),
    {
        r.push(v[i]);
        proof {
            assert(r@ =~= v@.take(i + 1));
        }
    }
    proof {
        assert(v@.take(n as int) =~= v@);
    }
    r
}

/// The disk shell's expiry decision, over timestamps in any one time
/// unit: a record whose write time could not be read is never treated
/// as stale, so a metadata error cannot evict a possibly valid record.
pub fn ttl_expired(modified: Option<u64>, now: u64, ttl: u64) -> (b: bool)
    ensures
        b == match modified {
            Some(m) => stale(m, now, ttl),
            None => false,
        },
{
    match modified {
        Some(m) => now >= m && now - m > ttl,
        None => false,
    }
}

/// A record read back at its own write time is never stale, whatever
/// the TTL: writing then reading immediately returns the bytes.
pub proof fn lemma_set_then_get_fresh(c: Cache, k: Seq<char>, b: Seq<u8>, t: u64)
    requires
        c.wf(),
        c.has(k),
        c.at(k) == (b, t),
    ensures
        !stale(c.at(k).1, t, c.ttl_secs),
{
}

} // verus!
