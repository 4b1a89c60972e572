//! The service registry: discovered services keyed by (host, port),
//! each carrying the time it was last confirmed and its known IPv4
//! addresses, with time-based expiry.
//!
//! Times are plain millisecond timestamps supplied by the caller; IPv4
//! addresses are plain 32-bit words; host names are dotted DNS names as
//! byte vectors. The registry's mathematical model is a map from
//! (host, port) to (last_seen, addresses).

use vstd::prelude::*;

use crate::packet::AnswerModel;
use crate::packet::DnsAnswer;
use crate::packet::models;
use crate::packet::parse_packet;
use crate::packet::spec_parse;

verus! {

/// Client-side liveness window in milliseconds: an entry not refreshed
/// for this long is removed by the next eviction pass.
pub const TTL_MS: u64 = 5000;

/// Identity of a discovered service: target host name (dotted DNS name,
/// as bytes) and port. Two records with the same host and port are the
/// same service.
#[derive(Clone, Debug, PartialEq, Eq, Hash)]
pub struct Service {
    pub host: Vec<u8>,
    pub port: u16,
}

/// What is known of a service: when a response last confirmed it, and
/// the set of IPv4 addresses (as 32-bit words) resolved for its host.
#[derive(Clone, Debug, PartialEq, Eq)]
pub struct ServiceRecord {
    pub last_seen: u64,
    pub addresses: Vec<u32>,
}

/// Model key of an entry: the host name bytes and the port.
pub open spec fn entry_key(e: (Service, ServiceRecord)) -> (Seq<u8>, u16) {
    (e.0.host@, e.0.port)
}

/// Model value of an entry: last-seen time and address sequence.
pub open spec fn entry_val(e: (Service, ServiceRecord)) -> (u64, Seq<u32>) {
    (e.1.last_seen, e.1.addresses@)
}

/// No element occurs twice.
pub open spec fn nodup(s: Seq<u32>) -> bool {
    forall|p: int, q: int| 0 <= p < q < s.len() ==> s[p] != s[q]
}

/// Some entry of `s` has key `k`.
pub open spec fn seq_has(s: Seq<(Service, ServiceRecord)>, k: (Seq<u8>, u16)) -> bool {
    exists|i: int| 0 <= i < s.len() && entry_key(s[i]) == k
}

/// Well-formed entry sequence: keys pairwise distinct, addresses
/// duplicate-free.
pub open spec fn seq_wf(s: Seq<(Service, ServiceRecord)>) -> bool {
    &&& forall|i: int, j: int| 0 <= i < j < s.len() ==> entry_key(s[i]) != entry_key(s[j])
    &&& forall|i: int| 0 <= i < s.len() ==> nodup(#[trigger] s[i].1.addresses@)
}

/// The map an entry sequence stands for.
pub open spec fn seq_view(s: Seq<(Service, ServiceRecord)>) -> Map<(Seq<u8>, u16), (u64, Seq<u32>)> {
    Map::new(
        |k: (Seq<u8>, u16)| seq_has(s, k),
        |k: (Seq<u8>, u16)| entry_val(s[choose|i: int| 0 <= i < s.len() && entry_key(s[i]) == k]),
    )
}

/// With pairwise-distinct keys, the entry at index `i` is what the map
/// gives for its key.
pub proof fn lemma_seq_view_at(s: Seq<(Service, ServiceRecord)>, i: int)
    requires
        seq_wf(s),
        0 <= i < s.len(),
    ensures
        seq_view(s).dom().contains(entry_key(s[i])),
        seq_view(s)[entry_key(s[i])] == entry_val(s[i]),
{
    assert(seq_has(s, entry_key(s[i])));
    let j = choose|j: int| 0 <= j < s.len() && entry_key(s[j]) == entry_key(s[i]);
    if j != i {
        if j < i {
            assert(entry_key(s[j]) != entry_key(s[i]));
        } else {
            assert(entry_key(s[i]) != entry_key(s[j]));
        }
    }
}

/// The larger of two times.
pub open spec fn max64(a: u64, b: u64) -> u64 {
    if a >= b { a } else { b }
}

/// An entry last confirmed at `last_seen` is stale at `now`.
pub open spec fn stale(last_seen: u64, now: u64) -> bool {
    last_seen + TTL_MS <= now
}

/// What an upsert at time `now` does to the model: refresh the entry's
/// last-seen time (never backwards) if the key is present, else insert
/// a fresh entry with no addresses.
pub open spec fn spec_upsert(
    m: Map<(Seq<u8>, u16), (u64, Seq<u32>)>,
    k: (Seq<u8>, u16),
    now: u64,
) -> Map<(Seq<u8>, u16), (u64, Seq<u32>)> {
    if m.dom().contains(k) {
        m.insert(k, (max64(m[k].0, now), m[k].1))
    } else {
        m.insert(k, (now, Seq::<u32>::empty()))
    }
}

/// Discovered services, keyed by (host, port), each with its record.
pub struct Registry {
    entries: Vec<(Service, ServiceRecord)>,
}

impl View for Registry {
    type V = Map<(Seq<u8>, u16), (u64, Seq<u32>)>;

    closed spec fn view(&self) -> Map<(Seq<u8>, u16), (u64, Seq<u32>)> {
        seq_view(self.entries@)
    }
}

impl Registry {
    /// Keys pairwise distinct, address lists duplicate-free.
    pub closed spec fn wf(self) -> bool {
        seq_wf(self.entries@)
    }

    /// An empty registry.
    pub fn new() -> (r: Registry)
        ensures
            r.wf(),
            r@ == Map::<(Seq<u8>, u16), (u64, Seq<u32>)>::empty(),
    {
        let r = Registry { entries: Vec::new() };
        proof {
            assert(r@ =~= Map::<(Seq<u8>, u16), (u64, Seq<u32>)>::empty());
        }
        r
    }

    /// Record that a response at time `now` confirmed the service
    /// (host, port): refresh its last-seen time, or insert it with an
    /// empty address set if it is new. The last-seen time never moves
    /// backwards.
    pub fn upsert(&mut self, host: &Vec<u8>, port: u16, now: u64)
        requires
            old(self).wf(),
        ensures
            final(self).wf(),
            final(self)@ == spec_upsert(old(self)@, (host@, port), now),
    {
        let ghost s0 = self.entries@;
        let ghost k = (host@, port);
        let n = self.entries.len();
        let mut i: usize = 0;
        while i < n
            invariant
                n == self.entries@.len(),
                self.entries@ == s0,
                s0 == old(self).entries@,
                k == (host@, port),
                i <= n,
                seq_wf(s0),
                forall|j: int| 0 <= j < i ==> entry_key(s0[j]) != k,
            decreases n - i,
        {
            if self.entries[i].0.port == port && bytes_eq(&self.entries[i].0.host, host) {
                // Found the key at index i: rebuild that entry with a
                // refreshed last-seen time. swap_remove then push keeps
                // the same key set.
                let (svc, rec) = self.entries.swap_remove(i);
                let new_last = if rec.last_seen >= now { rec.last_seen } else { now };
                let updated = (svc, ServiceRecord { last_seen: new_last, addresses: rec.addresses });
                self.entries.push(updated);
                proof {
                    let s2 = self.entries@;
                    let ii = i as int;
                    let nn = n as int;
                    assert(entry_key(s0[ii]) == k);
                    assert(entry_key(s2[nn - 1]) == k);
                    assert(entry_val(s2[nn - 1]) == (max64(entry_val(s0[ii]).0, now), entry_val(s0[ii]).1));
                    // every pre-existing entry of s2 is an entry of s0 at a
                    // different index than ii
                    assert(forall|j: int| 0 <= j < nn - 1 ==> s2[j] == (if j == ii { s0[nn - 1] } else { s0[j] }));
                    assert(seq_wf(s2)) by {
                        assert forall|p: int, q: int| 0 <= p < q < s2.len() implies entry_key(s2[p]) != entry_key(s2[q]) by {
                            if q < nn - 1 {
                                // both from s0 at distinct indices
                            } else {
                                // q is the refreshed entry with key k = entry_key(s0[ii])
                                if p == ii {
                                    assert(entry_key(s2[p]) == entry_key(s0[nn - 1]));
                                    assert(ii < nn - 1);
                                } else {
                                    assert(entry_key(s2[p]) == entry_key(s0[p]));
                                }
                            }
                        }
                    }
                    lemma_seq_view_at(s0, ii);
                    assert(seq_view(s2) =~= spec_upsert(seq_view(s0), k, now)) by {
                        assert forall|k2: (Seq<u8>, u16)| seq_has(s2, k2) implies
                            spec_upsert(seq_view(s0), k, now).dom().contains(k2) by {
                            let j = choose|j: int| 0 <= j < s2.len() && entry_key(s2[j]) == k2;
                            if j == nn - 1 {
                                assert(k2 == k);
                            } else if j == ii {
                                assert(seq_has(s0, k2));
                            } else {
                                assert(entry_key(s0[j]) == k2);
                                assert(seq_has(s0, k2));
                            }
                        }
                        assert forall|k2: (Seq<u8>, u16)| spec_upsert(seq_view(s0), k, now).dom().contains(k2) implies
                            seq_has(s2, k2) by {
                            if k2 == k {
                                assert(entry_key(s2[nn - 1]) == k2);
                            } else {
                                let j = choose|j: int| 0 <= j < s0.len() && entry_key(s0[j]) == k2;
                                if j == nn - 1 {
                                    assert(entry_key(s2[ii]) == k2);
                                } else {
                                    assert(entry_key(s2[j]) == k2);
                                }
                            }
                        }
                        assert forall|k2: (Seq<u8>, u16)| seq_has(s2, k2) implies
                            seq_view(s2)[k2] == spec_upsert(seq_view(s0), k, now)[k2] by {
                            let j = choose|j: int| 0 <= j < s2.len() && entry_key(s2[j]) == k2;
                            lemma_seq_view_at(s2, j);
                            if k2 == k {
                                assert(entry_key(s2[nn - 1]) == k2);
                                if j != nn - 1 {
                                    assert(entry_key(s2[j]) != entry_key(s2[nn - 1]));
                                }
                                assert(seq_view(s2)[k2] == entry_val(s2[nn - 1]));
                            } else {
                                assert(j != nn - 1);
                                if j == ii {
                                    lemma_seq_view_at(s0, nn - 1);
                                } else {
                                    lemma_seq_view_at(s0, j);
                                }
                            }
                        }
                    }
                }
                return;
            }
            i += 1;
        }
        // Key absent: insert a fresh entry.
        let svc = Service { host: copy_bytes(host), port };
        let rec = ServiceRecord { last_seen: now, addresses: Vec::new() };
        self.entries.push((svc, rec));
        proof {
            let s2 = self.entries@;
            let nn = n as int;
            assert(entry_key(s2[nn]) == k);
            assert(entry_val(s2[nn]) == (now, Seq::<u32>::empty()));
            assert(!seq_has(s0, k));
            assert(seq_wf(s2)) by {
                assert forall|p: int, q: int| 0 <= p < q < s2.len() implies entry_key(s2[p]) != entry_key(s2[q]) by {
                    if q == nn {
                        assert(entry_key(s2[p]) == entry_key(s0[p]));
                        assert(seq_has(s0, entry_key(s0[p])));
                    }
                }
            }
            assert(seq_view(s2) =~= spec_upsert(seq_view(s0), k, now)) by {
                assert forall|k2: (Seq<u8>, u16)| seq_has(s2, k2) implies
                    spec_upsert(seq_view(s0), k, now).dom().contains(k2) by {
                    let j = choose|j: int| 0 <= j < s2.len() && entry_key(s2[j]) == k2;
                    if j < nn {
                        assert(entry_key(s0[j]) == k2);
                        assert(seq_has(s0, k2));
                    }
                }
                assert forall|k2: (Seq<u8>, u16)| spec_upsert(seq_view(s0), k, now).dom().contains(k2) implies
                    seq_has(s2, k2) by {
                    if k2 == k {
                        assert(entry_key(s2[nn]) == k2);
                    } else {
                        let j = choose|j: int| 0 <= j < s0.len() && entry_key(s0[j]) == k2;
                        assert(entry_key(s2[j]) == k2);
                    }
                }
                assert forall|k2: (Seq<u8>, u16)| seq_has(s2, k2) implies
                    seq_view(s2)[k2] == spec_upsert(seq_view(s0), k, now)[k2] by {
                    let j = choose|j: int| 0 <= j < s2.len() && entry_key(s2[j]) == k2;
                    lemma_seq_view_at(s2, j);
                    if k2 == k {
                        if j != nn {
                            assert(entry_key(s0[j]) == k);
                            assert(seq_has(s0, k));
                        }
                        assert(seq_view(s2)[k2] == entry_val(s2[nn]));
                    } else {
                        assert(j != nn);
                        lemma_seq_view_at(s0, j);
                    }
                }
            }
        }
    }
}

/// `s` with `a` added, unless already present.
pub open spec fn add_addr(s: Seq<u32>, a: u32) -> Seq<u32> {
    if s.contains(a) {
        s
    } else {
        s.push(a)
    }
}

/// What attributing an A record does to the model: every entry whose
/// host equals `name` gains the address; no entry appears or vanishes.
pub open spec fn spec_add_address(
    m: Map<(Seq<u8>, u16), (u64, Seq<u32>)>,
    name: Seq<u8>,
    a: u32,
) -> Map<(Seq<u8>, u16), (u64, Seq<u32>)> {
    Map::new(
        |k: (Seq<u8>, u16)| m.dom().contains(k),
        |k: (Seq<u8>, u16)| if k.0 == name {
            (m[k].0, add_addr(m[k].1, a))
        } else {
            m[k]
        },
    )
}

/// What an eviction pass at time `now` does to the model: exactly the
/// stale entries are removed, the fresh ones are kept unchanged.
pub open spec fn spec_evict(
    m: Map<(Seq<u8>, u16), (u64, Seq<u32>)>,
    now: u64,
) -> Map<(Seq<u8>, u16), (u64, Seq<u32>)> {
    Map::new(
        |k: (Seq<u8>, u16)| m.dom().contains(k) && !stale(m[k].0, now),
        |k: (Seq<u8>, u16)| m[k],
    )
}

impl Registry {
    /// Attribute a resolved address to every service whose host name
    /// equals `name`. No entry is created or removed; an address
    /// already known is not added twice.
    pub fn add_address_for_host(&mut self, name: &Vec<u8>, addr: u32)
        requires
            old(self).wf(),
        ensures
            final(self).wf(),
            final(self)@ == spec_add_address(old(self)@, name@, addr),
    {
        let ghost s0 = self.entries@;
        let n = self.entries.len();
        let mut i: usize = 0;
        while i < n
            invariant
                n == self.entries@.len(),
                s0 == old(self).entries@,
                s0.len() == n,
                i <= n,
                seq_wf(s0),
                forall|j: int| 0 <= j < n ==> entry_key(#[trigger] self.entries@[j]) == entry_key(s0[j]),
                forall|j: int| i <= j < n ==> #[trigger] self.entries@[j] == s0[j],
                forall|j: int| 0 <= j < i && s0[j].0.host@ == name@ ==>
                    entry_val(#[trigger] self.entries@[j]) == (entry_val(s0[j]).0, add_addr(entry_val(s0[j]).1, addr)),
                forall|j: int| 0 <= j < i && s0[j].0.host@ != name@ ==>
                    #[trigger] self.entries@[j] == s0[j],
                forall|j: int| 0 <= j < n ==> nodup(#[trigger] self.entries@[j].1.addresses@),
            decreases n - i,
        {
            if bytes_eq(&self.entries[i].0.host, name) {
                let ghost sprev = self.entries@;
                let mut tmp = (
                    Service { host: Vec::new(), port: 0 },
                    ServiceRecord { last_seen: 0, addresses: Vec::new() },
                );
                self.entries.set_and_swap(i, &mut tmp);
                if !contains_u32(&tmp.1.addresses, addr) {
                    tmp.1.addresses.push(addr);
                }
                self.entries.set_and_swap(i, &mut tmp);
                proof {
                    let ii = i as int;
                    assert(self.entries@ =~= sprev.update(ii, self.entries@[ii]));
                    assert(entry_key(self.entries@[ii]) == entry_key(s0[ii]));
                    assert(entry_val(self.entries@[ii]) == (entry_val(s0[ii]).0, add_addr(entry_val(s0[ii]).1, addr)));
                }
            }
            i += 1;
        }
        proof {
            let s2 = self.entries@;
            assert(seq_wf(s2)) by {
                assert forall|p: int, q: int| 0 <= p < q < s2.len() implies entry_key(s2[p]) != entry_key(s2[q]) by {
                    assert(entry_key(s2[p]) == entry_key(s0[p]));
                    assert(entry_key(s2[q]) == entry_key(s0[q]));
                }
            }
            assert(seq_view(s2) =~= spec_add_address(seq_view(s0), name@, addr)) by {
                assert forall|k2: (Seq<u8>, u16)| seq_has(s2, k2) implies seq_has(s0, k2) by {
                    let j = choose|j: int| 0 <= j < s2.len() && entry_key(s2[j]) == k2;
                    assert(entry_key(s0[j]) == k2);
                }
                assert forall|k2: (Seq<u8>, u16)| seq_has(s0, k2) implies seq_has(s2, k2) by {
                    let j = choose|j: int| 0 <= j < s0.len() && entry_key(s0[j]) == k2;
                    assert(entry_key(s2[j]) == k2);
                }
                assert forall|k2: (Seq<u8>, u16)| seq_has(s2, k2) implies
                    seq_view(s2)[k2] == spec_add_address(seq_view(s0), name@, addr)[k2] by {
                    let j = choose|j: int| 0 <= j < s2.len() && entry_key(s2[j]) == k2;
                    lemma_seq_view_at(s2, j);
                    lemma_seq_view_at(s0, j);
                    assert(entry_key(s0[j]) == k2);
                    if s0[j].0.host@ == name@ {
                        assert(k2.0 == name@);
                    } else {
                        assert(k2.0 != name@);
                        assert(s2[j] == s0[j]);
                    }
                }
            }
        }
    }

    /// Remove every entry whose last confirmation lies `TTL_MS` or more
    /// before `now`; keep every other entry unchanged.
    pub fn evict(&mut self, now: u64)
        requires
            old(self).wf(),
        ensures
            final(self).wf(),
            final(self)@ == spec_evict(old(self)@, now),
    {
        let ghost s0 = self.entries@;
        let ghost mut wit: Seq<int> = Seq::empty();
        let mut kept: Vec<(Service, ServiceRecord)> = Vec::new();
        loop
            invariant
                s0 == old(self).entries@,
                seq_wf(s0),
                self.entries@.len() <= s0.len(),
                self.entries@ == s0.subrange(0, self.entries@.len() as int),
                wit.len() == kept@.len(),
                forall|j: int| 0 <= j < kept@.len() ==> self.entries@.len() <= #[trigger] wit[j] < s0.len()
                    && kept@[j] == s0[wit[j]] && !stale(s0[wit[j]].1.last_seen, now),
                forall|j1: int, j2: int| 0 <= j1 < j2 < kept@.len() ==> wit[j1] > wit[j2],
                forall|i: int| self.entries@.len() <= i < s0.len() && !stale(#[trigger] s0[i].1.last_seen, now)
                    ==> kept@.contains(s0[i]),
            ensures
                self.entries@.len() == 0,
            decreases self.entries@.len(),
        {
            let ghost nprev = self.entries@.len() as int;
            let popped = self.entries.pop();
            match popped {
                None => {
                    break;
                }
                Some(e) => {
                    proof {
                        assert(e == s0[nprev - 1]);
                        assert(self.entries@ =~= s0.subrange(0, nprev - 1));
                    }
                    let fresh_entry = now < e.1.last_seen || now - e.1.last_seen < TTL_MS;
                    if fresh_entry {
                        let ghost kprev = kept@;
                        kept.push(e);
                        proof {
                            wit = wit.push(nprev - 1);
                            assert(!stale(e.1.last_seen, now));
                            assert forall|i: int| self.entries@.len() <= i < s0.len()
                                && !stale(#[trigger] s0[i].1.last_seen, now) implies kept@.contains(s0[i]) by {
                                if i == nprev - 1 {
                                    assert(kept@[kept@.len() - 1] == s0[i]);
                                } else {
                                    assert(kprev.contains(s0[i]));
                                    let j = choose|j: int| 0 <= j < kprev.len() && kprev[j] == s0[i];
                                    assert(kept@[j] == s0[i]);
                                }
                            }
                        }
                    }
                }
            }
        }
        proof {
            // every fresh entry of s0 is in kept, every kept entry is a
            // fresh entry of s0, and kept keys are pairwise distinct
            assert forall|j1: int, j2: int| 0 <= j1 < j2 < kept@.len() implies
                entry_key(kept@[j1]) != entry_key(kept@[j2]) by {
                assert(kept@[j1] == s0[wit[j1]]);
                assert(kept@[j2] == s0[wit[j2]]);
                assert(entry_key(s0[wit[j2]]) != entry_key(s0[wit[j1]]));
            }
        }
        self.entries = kept;
        proof {
            let s2 = self.entries@;
            assert(seq_wf(s2)) by {
                assert forall|j: int| 0 <= j < s2.len() implies nodup(#[trigger] s2[j].1.addresses@) by {
                    assert(s2[j] == s0[wit[j]]);
                }
            }
            assert(seq_view(s2) =~= spec_evict(seq_view(s0), now)) by {
                assert forall|k2: (Seq<u8>, u16)| seq_has(s2, k2) implies
                    seq_view(s0).dom().contains(k2) && !stale(seq_view(s0)[k2].0, now)
                        && seq_view(s2)[k2] == seq_view(s0)[k2] by {
                    let j = choose|j: int| 0 <= j < s2.len() && entry_key(s2[j]) == k2;
                    lemma_seq_view_at(s2, j);
                    assert(s2[j] == s0[wit[j]]);
                    lemma_seq_view_at(s0, wit[j]);
                }
                assert forall|k2: (Seq<u8>, u16)| seq_has(s0, k2) && !stale(seq_view(s0)[k2].0, now) implies
                    seq_has(s2, k2) by {
                    let i = choose|i: int| 0 <= i < s0.len() && entry_key(s0[i]) == k2;
                    lemma_seq_view_at(s0, i);
                    assert(s2.contains(s0[i]));
                    let j = choose|j: int| 0 <= j < s2.len() && s2[j] == s0[i];
                    assert(entry_key(s2[j]) == k2);
                }
            }
        }
    }

    /// An independent copy of the registry's contents: one pair per
    /// entry, in no guaranteed order, with pairwise-distinct keys.
    pub fn snapshot(&self) -> (r: Vec<(Service, ServiceRecord)>)
        requires
            self.wf(),
        ensures
            seq_wf(r@),
            forall|j: int| 0 <= j < r@.len() ==> self@.dom().contains(entry_key(#[trigger] r@[j]))
                && self@[entry_key(r@[j])] == entry_val(r@[j]),
            forall|k: (Seq<u8>, u16)| self@.dom().contains(k) ==> seq_has(r@, k),
    {
        let ghost s0 = self.entries@;
        let n = self.entries.len();
        let mut r: Vec<(Service, ServiceRecord)> = Vec::new();
        let mut i: usize = 0;
        while i < n
            invariant
                n == self.entries@.len(),
                s0 == self.entries@,
                seq_wf(s0),
                i <= n,
                r@.len() == i,
                forall|j: int| 0 <= j < i ==> entry_key(#[trigger] r@[j]) == entry_key(s0[j]) && entry_val(r@[j]) == entry_val(s0[j]),
            decreases n - i,
        {
            let svc = Service {
                host: copy_bytes(&self.entries[i].0.host),
                port: self.entries[i].0.port,
            };
            let rec = ServiceRecord {
                last_seen: self.entries[i].1.last_seen,
                addresses: copy_u32s(&self.entries[i].1.addresses),
            };
            r.push((svc, rec));
            i += 1;
        }
        proof {
            assert(seq_wf(r@)) by {
                assert forall|p: int, q: int| 0 <= p < q < r@.len() implies entry_key(r@[p]) != entry_key(r@[q]) by {
                    assert(entry_key(r@[p]) == entry_key(s0[p]));
                    assert(entry_key(r@[q]) == entry_key(s0[q]));
                }
                assert forall|j: int| 0 <= j < r@.len() implies nodup(#[trigger] r@[j].1.addresses@) by {
                    assert(entry_val(r@[j]).1 == entry_val(s0[j]).1);
                    assert(nodup(s0[j].1.addresses@));
                }
            }
            assert forall|j: int| 0 <= j < r@.len() implies self@.dom().contains(entry_key(#[trigger] r@[j]))
                && self@[entry_key(r@[j])] == entry_val(r@[j]) by {
                lemma_seq_view_at(s0, j);
            }
            assert forall|k: (Seq<u8>, u16)| self@.dom().contains(k) implies seq_has(r@, k) by {
                let i2 = choose|i2: int| 0 <= i2 < s0.len() && entry_key(s0[i2]) == k;
                assert(entry_key(r@[i2]) == k);
            }
        }
        r
    }
}

/// `nee` occurs in `hay` as a contiguous run starting at `i`.
pub open spec fn is_sub_at(hay: Seq<u8>, nee: Seq<u8>, i: int) -> bool {
    0 <= i && i + nee.len() <= hay.len() && hay.subrange(i, i + nee.len()) == nee
}

/// `nee` occurs somewhere in `hay` as a contiguous run.
pub open spec fn contains_sub(hay: Seq<u8>, nee: Seq<u8>) -> bool {
    exists|i: int| is_sub_at(hay, nee, i)
}

/// An SRV answer whose name matches the target service. The matching
/// policy is substring containment: the record's name matches if it
/// contains the service name anywhere.
pub open spec fn srv_matches(a: AnswerModel, service: Seq<u8>) -> bool {
    match a {
        AnswerModel::Srv { name, port, target } => contains_sub(name, service),
        _ => false,
    }
}

/// What one answer does to the model in the SRV pass: a matching SRV
/// record upserts (target, port); everything else does nothing.
pub open spec fn srv_step(
    m: Map<(Seq<u8>, u16), (u64, Seq<u32>)>,
    a: AnswerModel,
    service: Seq<u8>,
    now: u64,
) -> Map<(Seq<u8>, u16), (u64, Seq<u32>)> {
    match a {
        AnswerModel::Srv { name, port, target } => if contains_sub(name, service) {
            spec_upsert(m, (target, port), now)
        } else {
            m
        },
        _ => m,
    }
}

/// The SRV pass over a whole answer sequence, first to last.
pub open spec fn srv_pass(
    m: Map<(Seq<u8>, u16), (u64, Seq<u32>)>,
    answers: Seq<AnswerModel>,
    service: Seq<u8>,
    now: u64,
) -> Map<(Seq<u8>, u16), (u64, Seq<u32>)>
    decreases answers.len(),
{
    if answers.len() == 0 {
        m
    } else {
        srv_step(srv_pass(m, answers.drop_last(), service, now), answers.last(), service, now)
    }
}

/// What one answer does to the model in the A pass: an A record hands
/// its address to every service whose host is the record's name;
/// everything else does nothing.
pub open spec fn a_step(
    m: Map<(Seq<u8>, u16), (u64, Seq<u32>)>,
    a: AnswerModel,
) -> Map<(Seq<u8>, u16), (u64, Seq<u32>)> {
    match a {
        AnswerModel::Addr { name, addr } => spec_add_address(m, name, addr),
        _ => m,
    }
}

/// The A pass over a whole answer sequence, first to last.
pub open spec fn a_pass(
    m: Map<(Seq<u8>, u16), (u64, Seq<u32>)>,
    answers: Seq<AnswerModel>,
) -> Map<(Seq<u8>, u16), (u64, Seq<u32>)>
    decreases answers.len(),
{
    if answers.len() == 0 {
        m
    } else {
        a_step(a_pass(m, answers.drop_last()), answers.last())
    }
}

/// What processing a response's answers does to the model: the SRV
/// pass (which may create or refresh entries), then the A pass (which
/// only adds addresses). An A record is attributed even when its SRV
/// record arrived in this same packet or in an earlier one.
pub open spec fn spec_process_answers(
    m: Map<(Seq<u8>, u16), (u64, Seq<u32>)>,
    answers: Seq<AnswerModel>,
    service: Seq<u8>,
    now: u64,
) -> Map<(Seq<u8>, u16), (u64, Seq<u32>)> {
    a_pass(srv_pass(m, answers, service, now), answers)
}

/// What handling a raw datagram does to the model: a malformed packet
/// and a query packet change nothing; a response is processed.
pub open spec fn spec_handle_datagram(
    m: Map<(Seq<u8>, u16), (u64, Seq<u32>)>,
    bytes: Seq<u8>,
    service: Seq<u8>,
    now: u64,
) -> Map<(Seq<u8>, u16), (u64, Seq<u32>)> {
    match spec_parse(bytes) {
        None => m,
        Some(p) => if p.0 {
            m
        } else {
            spec_process_answers(m, p.1, service, now)
        },
    }
}

impl Registry {
    /// Apply a decoded response's answers at time `now`: upsert a
    /// service for every SRV record whose name contains `service`,
    /// then attribute every A record's address to the services with
    /// that host.
    pub fn process_answers(&mut self, answers: &Vec<DnsAnswer>, service: &Vec<u8>, now: u64)
        requires
            old(self).wf(),
        ensures
            final(self).wf(),
            final(self)@ == spec_process_answers(old(self)@, models(answers@), service@, now),
    {
        let ghost m0 = self@;
        let ghost ams = models(answers@);
        let n = answers.len();
        let mut i: usize = 0;
        while i < n
            invariant
                n == answers@.len(),
                ams == models(answers@),
                m0 == old(self)@,
                self.wf(),
                self@ == srv_pass(m0, ams.take(i as int), service@, now),
                i <= n,
            decreases n - i,
        {
            let ghost mprev = self@;
            match &answers[i] {
                DnsAnswer::Srv { name, port, target } => {
                    if contains_subslice(name, service) {
                        self.upsert(target, *port, now);
                    }
                }
                _ => {}
            }
            proof {
                assert(ams[i as int] == answers@[i as int]@);
                assert(ams.take(i + 1).drop_last() =~= ams.take(i as int));
                assert(ams.take(i + 1).last() == ams[i as int]);
                assert(self@ == srv_step(mprev, ams[i as int], service@, now));
            }
            i += 1;
        }
        proof {
            assert(ams.take(n as int) =~= ams);
        }
        let ghost m1 = self@;
        let mut i2: usize = 0;
        while i2 < n
            invariant
                n == answers@.len(),
                ams == models(answers@),
                m1 == srv_pass(m0, ams, service@, now),
                m0 == old(self)@,
                self.wf(),
                self@ == a_pass(m1, ams.take(i2 as int)),
                i2 <= n,
            decreases n - i2,
        {
            let ghost mprev = self@;
            match &answers[i2] {
                DnsAnswer::Addr { name, addr } => {
                    self.add_address_for_host(name, *addr);
                }
                _ => {}
            }
            proof {
                assert(ams[i2 as int] == answers@[i2 as int]@);
                assert(ams.take(i2 + 1).drop_last() =~= ams.take(i2 as int));
                assert(ams.take(i2 + 1).last() == ams[i2 as int]);
                assert(self@ == a_step(mprev, ams[i2 as int]));
            }
            i2 += 1;
        }
        proof {
            assert(ams.take(n as int) =~= ams);
        }
    }

    /// Handle one raw datagram at time `now`: decode it, discard it if
    /// it is malformed or is itself a query, and otherwise process its
    /// answers. Unrelated or garbled multicast traffic thus never
    /// changes the registry.
    pub fn process_datagram(&mut self, bytes: &Vec<u8>, service: &Vec<u8>, now: u64)
        requires
            old(self).wf(),
        ensures
            final(self).wf(),
            final(self)@ == spec_handle_datagram(old(self)@, bytes@, service@, now),
    {
        match parse_packet(bytes) {
            None => {}
            Some(p) => {
                if !p.query {
                    self.process_answers(&p.answers, service, now);
                }
            }
        }
    }
}

/// True exactly when `hay` holds the bytes of `nee` as a contiguous
/// run.
pub fn contains_subslice(hay: &Vec<u8>, nee: &Vec<u8>) -> (r: bool)
    ensures
        r == contains_sub(hay@, nee@),
{
    let hn = hay.len();
    let nn = nee.len();
    if nn > hn {
        proof {
            assert forall|i: int| !is_sub_at(hay@, nee@, i) by {}
        }
        return false;
    }
    if nn == 0 {
        proof {
            assert(hay@.subrange(0, 0) =~= nee@);
            assert(is_sub_at(hay@, nee@, 0));
        }
        return true;
    }
    let mut i: usize = 0;
    while i <= hn - nn
        invariant
            0 < nn <= hn,
            hn == hay@.len(),
            nn == nee@.len(),
            i <= hn - nn + 1,
            forall|j: int| 0 <= j < i ==> !is_sub_at(hay@, nee@, j),
        decreases hn - i,
    {
        if sub_eq_at(hay, nee, i) {
            return true;
        }
        i += 1;
    }
    proof {
        assert forall|j: int| !is_sub_at(hay@, nee@, j) by {
            if 0 <= j < i {
            } else if j >= i {
                assert(j + nee@.len() > hay@.len());
            }
        }
    }
    false
}

/// True exactly when `hay[at .. at + nee.len()]` equals `nee`.
fn sub_eq_at(hay: &Vec<u8>, nee: &Vec<u8>, at: usize) -> (r: bool)
    requires
        at + nee@.len() <= hay@.len(),
    ensures
        r == is_sub_at(hay@, nee@, at as int),
{
    let hn = hay.len();
    let nn = nee.len();
    let mut k: usize = 0;
    while k < nn
        invariant
            hn == hay@.len(),
            nn == nee@.len(),
            at + nn <= hn,
            k <= nn,
            forall|j: int| 0 <= j < k ==> hay@[at + j] == nee@[j],
        decreases nn - k,
    {
        if hay[at + k] != nee[k] {
            proof {
                assert(hay@.subrange(at as int, at + nee@.len())[k as int] != nee@[k as int]);
            }
            return false;
        }
        k += 1;
    }
    proof {
        assert(hay@.subrange(at as int, at + nee@.len()) =~= nee@);
    }
    true
}

/// True exactly when `v` holds `x`.
pub fn contains_u32(v: &Vec<u32>, x: u32) -> (r: bool)
    ensures
        r == v@.contains(x),
{
    let mut i: usize = 0;
    while i < v.len()
        invariant
            i <= v@.len(),
            forall|j: int| 0 <= j < i ==> v@[j] != x,
        decreases v@.len() - i,
    {
        if v[i] == x {
            return true;
        }
        i += 1;
    }
    false
}

/// A fresh vector with the same contents.
pub fn copy_u32s(v: &Vec<u32>) -> (r: Vec<u32>)
    ensures
        r@ == v@,
{
    let mut r: Vec<u32> = Vec::new();
    let mut i: usize = 0;
    while i < v.len()
        invariant
            i <= v@.len(),
            r@ == v@.subrange(0, i as int),
        decreases v@.len() - i,
    {
        r.push(v[i]);
        i += 1;
        proof {
            assert(r@ =~= v@.subrange(0, i as int));
        }
    }
    proof {
        assert(r@ =~= v@);
    }
    r
}

/// True exactly when the two byte vectors hold the same bytes.
pub fn bytes_eq(a: &Vec<u8>, b: &Vec<u8>) -> (r: bool)
    ensures
        r == (a@ == b@),
{
    if a.len() != b.len() {
        return false;
    }
    let mut i: usize = 0;
    while i < a.len()
        invariant
            a@.len() == b@.len(),
            i <= a@.len(),
            forall|j: int| 0 <= j < i ==> a@[j] == b@[j],
        decreases a@.len() - i,
    {
        if a[i] != b[i] {
            return false;
        }
        i += 1;
    }
    proof {
        assert(a@ =~= b@);
    }
    true
}

/// A fresh byte vector with the same contents.
pub fn copy_bytes(v: &Vec<u8>) -> (r: Vec<u8>)
    ensures
        r@ == v@,
{
    let mut r: Vec<u8> = Vec::new();
    let mut i: usize = 0;
    while i < v.len()
        invariant
            i <= v@.len(),
            r@ == v@.subrange(0, i as int),
        decreases v@.len() - i,
    {
        r.push(v[i]);
        i += 1;
        proof {
            assert(r@ =~= v@.subrange(0, i as int));
        }
    }
    proof {
        assert(r@ =~= v@);
    }
    r
}

} // verus!
