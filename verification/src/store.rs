//! The registration store: the authoritative table of active registrations.
//!
//! The store owns the registration records, the namespace index and the
//! expiry timers, and mutates all three in one atomic step per operation, so
//! no caller can observe them disagreeing. Registrations are totally ordered
//! by ordinal, which discovery uses for deterministic pagination.

use vstd::prelude::*;

use crate::events::{Event, EventV, events_view};
use crate::expiry::ExpiryQueue;
use crate::index::{peers_listed, NamespaceIndex};
use crate::types::{
    addr_views, clamped_ttl, valid_multiaddr, valid_namespace, Addresses, Config, Cursor,
    Multiaddr, Namespace, PeerId, RegisterError, Registration, RegV,
};

verus! {

/// The models of a sequence of registration records.
pub open spec fn regs_view(s: Seq<Registration>) -> Seq<RegV> {
    s.map_values(|r: Registration| r@)
}

/// The record belongs to the pair `(peer, ns)`.
pub open spec fn key_matches(r: RegV, peer: u64, ns: Seq<u8>) -> bool {
    r.peer == peer && r.ns == ns
}

/// Some record in `s` belongs to the pair `(peer, ns)`.
pub open spec fn has_reg_in(s: Seq<RegV>, peer: u64, ns: Seq<u8>) -> bool {
    exists|i: int| 0 <= i < s.len() && key_matches(#[trigger] s[i], peer, ns)
}

/// `s` without any record of the pair `(peer, ns)`, order preserved.
pub open spec fn without_pair(s: Seq<RegV>, peer: u64, ns: Seq<u8>) -> Seq<RegV>
    decreases s.len(),
{
    if s.len() == 0 {
        Seq::empty()
    } else {
        let rest = without_pair(s.drop_last(), peer, ns);
        if key_matches(s.last(), peer, ns) {
            rest
        } else {
            rest.push(s.last())
        }
    }
}

/// How many records in `s` the peer holds.
pub open spec fn peer_count_in(s: Seq<RegV>, peer: u64) -> nat
    decreases s.len(),
{
    if s.len() == 0 {
        0
    } else {
        peer_count_in(s.drop_last(), peer) + if s.last().peer == peer {
            1nat
        } else {
            0nat
        }
    }
}

/// The instant the record expires: registration time plus TTL, saturating.
pub open spec fn reg_deadline(r: RegV) -> int {
    if r.registered_at + r.ttl <= u64::MAX {
        r.registered_at + r.ttl
    } else {
        u64::MAX as int
    }
}

/// The expiry deadline as a machine word.
pub open spec fn deadline_u64(r: RegV) -> u64 {
    if r.registered_at + r.ttl <= u64::MAX {
        (r.registered_at + r.ttl) as u64
    } else {
        u64::MAX
    }
}

/// The record has not yet expired at `now`.
pub open spec fn is_live(r: RegV, now: u64) -> bool {
    now < reg_deadline(r)
}

/// A record the store may hold: valid namespace, a non-empty deduplicated
/// list of valid addresses, and a TTL inside the configured bounds.
pub open spec fn entry_wf(r: RegV, c: Config) -> bool {
    &&& valid_namespace(r.ns)
    &&& r.addrs.len() > 0
    &&& forall|i: int| 0 <= i < r.addrs.len() ==> valid_multiaddr(#[trigger] r.addrs[i])
    &&& forall|a: int, b: int| 0 <= a < b < r.addrs.len() ==> r.addrs[a] != r.addrs[b]
    &&& c.min_ttl <= r.ttl <= c.max_ttl
}

/// Address list with later duplicates dropped, first occurrences kept in order.
pub open spec fn dedup_first(s: Seq<Seq<u8>>) -> Seq<Seq<u8>>
    decreases s.len(),
{
    if s.len() == 0 {
        Seq::empty()
    } else {
        let rest = dedup_first(s.drop_last());
        if s.drop_last().contains(s.last()) {
            rest
        } else {
            rest.push(s.last())
        }
    }
}

/// An address list a registration request must carry: non-empty, every
/// element valid.
pub open spec fn valid_addr_list(a: Seq<Seq<u8>>) -> bool {
    &&& a.len() > 0
    &&& forall|i: int| 0 <= i < a.len() ==> valid_multiaddr(#[trigger] a[i])
}

/// The namespace filter of a discovery query, as a mathematical value.
pub open spec fn ns_filter_view(ns: Option<&Namespace>) -> Option<Seq<u8>> {
    match ns {
        Some(n) => Some(n@),
        None => None,
    }
}

/// The page size a discovery query is served with: the requested limit,
/// or the server-enforced maximum when absent, never above that maximum.
pub open spec fn effective_limit(limit: Option<u64>, c: Config) -> u64 {
    match limit {
        Some(l) => if l < c.max_discover_limit {
            l
        } else {
            c.max_discover_limit
        },
        None => c.max_discover_limit,
    }
}

/// The ordinal a discovery query resumes after; zero means from the start.
pub open spec fn cursor_start(cursor: Option<Cursor>) -> u64 {
    match cursor {
        Some(c) => c.last_ordinal,
        None => 0,
    }
}

/// The record is answered by a discovery query: it matches the namespace
/// filter, has not expired, and lies strictly after the cursor.
pub open spec fn discover_match(r: RegV, ns: Option<Seq<u8>>, now: u64, cursor: u64) -> bool {
    &&& match ns {
        Some(n) => r.ns == n,
        None => true,
    }
    &&& is_live(r, now)
    &&& r.ordinal > cursor
}

/// All records a discovery query would answer, in store (ordinal) order,
/// before pagination.
pub open spec fn discoverable(s: Seq<RegV>, ns: Option<Seq<u8>>, now: u64, cursor: u64) -> Seq<
    RegV,
>
    decreases s.len(),
{
    if s.len() == 0 {
        Seq::empty()
    } else {
        let rest = discoverable(s.drop_last(), ns, now, cursor);
        if discover_match(s.last(), ns, now, cursor) {
            rest.push(s.last())
        } else {
            rest
        }
    }
}

/// The first `limit` elements of `s`, or all of `s` when it is shorter.
pub open spec fn page_of(s: Seq<RegV>, limit: int) -> Seq<RegV> {
    if s.len() <= limit {
        s
    } else {
        s.take(limit)
    }
}

/// `s` without any record of the peer, order preserved.
pub open spec fn without_peer(s: Seq<RegV>, peer: u64) -> Seq<RegV>
    decreases s.len(),
{
    if s.len() == 0 {
        Seq::empty()
    } else {
        let rest = without_peer(s.drop_last(), peer);
        if s.last().peer == peer {
            rest
        } else {
            rest.push(s.last())
        }
    }
}

/// One `PeerUnregistered` event per record of `s` held by the peer, in store
/// order.
pub open spec fn dropped_events(s: Seq<RegV>, peer: u64) -> Seq<EventV>
    decreases s.len(),
{
    if s.len() == 0 {
        Seq::empty()
    } else {
        let rest = dropped_events(s.drop_last(), peer);
        if s.last().peer == peer {
            rest.push(EventV::PeerUnregistered { peer, ns: s.last().ns })
        } else {
            rest
        }
    }
}

/// The records of `s` still live at `now`, order preserved.
pub open spec fn live_only(s: Seq<RegV>, now: u64) -> Seq<RegV>
    decreases s.len(),
{
    if s.len() == 0 {
        Seq::empty()
    } else {
        let rest = live_only(s.drop_last(), now);
        if is_live(s.last(), now) {
            rest.push(s.last())
        } else {
            rest
        }
    }
}

/// One `RegistrationExpired` event per record of `s` expired at `now`, in
/// store order.
pub open spec fn expired_events(s: Seq<RegV>, now: u64) -> Seq<EventV>
    decreases s.len(),
{
    if s.len() == 0 {
        Seq::empty()
    } else {
        let rest = expired_events(s.drop_last(), now);
        if is_live(s.last(), now) {
            rest
        } else {
            rest.push(EventV::RegistrationExpired { registration: s.last() })
        }
    }
}

/// The authoritative registration table with its namespace index, expiry
/// timers and event stream.
#[derive(Debug)]
pub struct Store {
    pub entries: Vec<Registration>,
    pub index: NamespaceIndex,
    pub timers: ExpiryQueue,
    pub events: Vec<Event>,
    pub next_ordinal: u64,
    pub config: Config,
}

impl Store {
    /// The models of the active registrations, in ordinal order.
    pub open spec fn regs(self) -> Seq<RegV> {
        regs_view(self.entries@)
    }

    /// The peer holds a registration under the namespace.
    pub open spec fn has_reg(self, peer: u64, ns: Seq<u8>) -> bool {
        has_reg_in(self.regs(), peer, ns)
    }

    /// A fresh registration would be admitted: either it renews an existing
    /// pair, or the peer is below the registration cap.
    pub open spec fn admits(self, peer: u64, ns: Seq<u8>) -> bool {
        self.has_reg(peer, ns) || peer_count_in(self.regs(), peer)
            < self.config.max_registrations_per_peer
    }

    /// The record a successful registration request creates: the deduplicated
    /// addresses, the clamped TTL, the request time, and the next free
    /// ordinal.
    pub open spec fn fresh_record(
        self,
        peer: u64,
        ns: Seq<u8>,
        addrs: Seq<Seq<u8>>,
        requested: Option<u64>,
        now: u64,
    ) -> RegV {
        RegV {
            peer,
            ns,
            addrs: dedup_first(addrs),
            ttl: clamped_ttl(requested, self.config),
            registered_at: now,
            ordinal: self.next_ordinal,
        }
    }

    /// Well-formedness of the whole store.
    ///
    /// Registrations carry well-formed records with strictly increasing
    /// ordinals below the next free one, and at most one record per
    /// `(peer, namespace)` pair; the namespace index lists exactly the pairs
    /// of the table; the timer queue holds exactly one timer per record, at
    /// the record's deadline.
    pub open spec fn wf(self) -> bool {
        let s = self.regs();
        &&& self.config.wf()
        &&& forall|i: int| 0 <= i < s.len() ==> entry_wf(#[trigger] s[i], self.config)
        &&& forall|i: int, j: int|
            0 <= i < j < s.len() ==> (#[trigger] s[i]).ordinal < (#[trigger] s[j]).ordinal
        &&& forall|i: int| 0 <= i < s.len() ==> (#[trigger] s[i]).ordinal < self.next_ordinal
        &&& forall|i: int, j: int|
            0 <= i < j < s.len() ==> !((#[trigger] s[i]).peer == (#[trigger] s[j]).peer && s[i].ns
                == s[j].ns)
        &&& self.index.wf()
        &&& forall|n: Seq<u8>, p: u64|
            #![trigger self.index.contains_pair(n, p)]
            #![trigger has_reg_in(self.regs(), p, n)]
            self.index.contains_pair(n, p) <==> has_reg_in(s, p, n)
        &&& self.timers.wf()
        &&& forall|i: int|
            0 <= i < s.len() ==> self.timers.has_timer(
                (#[trigger] s[i]).ordinal,
                deadline_u64(s[i]),
            )
        &&& forall|o: u64, d: u64|
            #[trigger] self.timers.has_timer(o, d) ==> exists|i: int|
                0 <= i < s.len() && (#[trigger] s[i]).ordinal == o && deadline_u64(s[i]) == d
    }

    /// An empty store under the given policy.
    pub fn new(config: Config) -> (r: Store)
        requires
            config.wf(),
        ensures
            r.wf(),
            r.regs().len() == 0,
            r.events@.len() == 0,
            r.next_ordinal == 1,
            r.config == config,
    {
        let r = Store {
            entries: Vec::new(),
            index: NamespaceIndex::new(),
            timers: ExpiryQueue::new(),
            events: Vec::new(),
            next_ordinal: 1,
            config,
        };
        proof {
            assert(r.regs() =~= Seq::<RegV>::empty());
        }
        r
    }

    /// The position of the record for `(peer, namespace)`, if the table has
    /// one.
    fn find_entry(&self, peer: PeerId, namespace: &Namespace) -> (r: Option<usize>)
        ensures
            match r {
                Some(i) => i < self.regs().len() && key_matches(
                    self.regs()[i as int],
                    peer.id,
                    namespace@,
                ),
                None => !self.has_reg(peer.id, namespace@),
            },
    {
        let mut i: usize = 0;
        while i < self.entries.len()
            invariant
                0 <= i <= self.entries@.len(),
                forall|j: int|
                    0 <= j < i ==> !key_matches(#[trigger] regs_view(self.entries@)[j], peer.id, namespace@),
            decreases self.entries@.len() - i,
        {
            if self.entries[i].peer_id.id == peer.id && self.entries[i].namespace.matches(namespace)
            {
                return Some(i);
            }
            i = i + 1;
        }
        None
    }

    /// The expiry deadline of a record, saturating at the largest instant.
    fn deadline_of(reg: &Registration) -> (d: u64)
        ensures
            d == deadline_u64(reg@),
    {
        if u64::MAX - reg.ttl_seconds >= reg.registered_at {
            reg.registered_at + reg.ttl_seconds
        } else {
            u64::MAX
        }
    }

    /// Remove the record at position `i` together with its index pair and its
    /// timer, leaving the event stream alone; the removed record is handed
    /// back.
    fn remove_at(&mut self, i: usize) -> (removed: Registration)
        requires
            old(self).wf(),
            i < old(self).regs().len(),
        ensures
            final(self).wf(),
            removed@ == old(self).regs()[i as int],
            final(self).regs() == old(self).regs().remove(i as int),
            final(self).events@ == old(self).events@,
            final(self).next_ordinal == old(self).next_ordinal,
            final(self).config == old(self).config,
    {
        let removed = self.entries.remove(i);
        self.index.remove(&removed.namespace, removed.peer_id);
        self.timers.cancel(removed.ordinal);
        proof {
            let s = old(self).regs();
            let t = self.regs();
            let at = i as int;
            let victim = s[at];
            assert(t =~= s.remove(at));
            assert(forall|j: int| 0 <= j < at ==> #[trigger] t[j] == s[j]);
            assert(forall|j: int| at <= j < t.len() ==> #[trigger] t[j] == s[j + 1]);

            assert forall|n: Seq<u8>, p: u64|
                #![trigger self.index.contains_pair(n, p)]
                #![trigger has_reg_in(self.regs(), p, n)]
                self.index.contains_pair(n, p) <==> has_reg_in(t, p, n) by {
                if self.index.contains_pair(n, p) {
                    assert(old(self).index.contains_pair(n, p) && !(n == victim.ns && p
                        == victim.peer));
                    let j = choose|j: int| 0 <= j < s.len() && key_matches(#[trigger] s[j], p, n);
                    assert(j != at);
                    let nj = if j < at { j } else { j - 1 };
                    assert(t[nj] == s[j]);
                    assert(has_reg_in(t, p, n));
                }
                if has_reg_in(t, p, n) {
                    let j = choose|j: int| 0 <= j < t.len() && key_matches(#[trigger] t[j], p, n);
                    let oj = if j < at { j } else { j + 1 };
                    assert(t[j] == s[oj]);
                    assert(has_reg_in(s, p, n));
                    assert(old(self).index.contains_pair(n, p));
                    if n == victim.ns && p == victim.peer {
                        assert(key_matches(s[oj], victim.peer, victim.ns));
                        assert(key_matches(s[at], victim.peer, victim.ns));
                        if oj < at {
                            assert(false);
                        } else {
                            assert(false);
                        }
                    }
                }
            }

            assert forall|j: int|
                0 <= j < t.len() implies self.timers.has_timer(
                (#[trigger] t[j]).ordinal,
                deadline_u64(t[j]),
            ) by {
                let oj = if j < at { j } else { j + 1 };
                assert(t[j] == s[oj]);
                assert(old(self).timers.has_timer(s[oj].ordinal, deadline_u64(s[oj])));
                if s[oj].ordinal == victim.ordinal {
                    if oj < at {
                        assert(s[oj].ordinal < s[at].ordinal);
                    } else {
                        assert(s[at].ordinal < s[oj].ordinal);
                    }
                }
            }

            assert forall|o: u64, d: u64| #[trigger] self.timers.has_timer(o, d) implies exists|
                j: int,
            |
                0 <= j < t.len() && (#[trigger] t[j]).ordinal == o && deadline_u64(t[j]) == d by {
                assert(old(self).timers.has_timer(o, d));
                let j = choose|j: int|
                    0 <= j < s.len() && (#[trigger] s[j]).ordinal == o && deadline_u64(s[j]) == d;
                assert(o != victim.ordinal);
                assert(j != at);
                let nj = if j < at { j } else { j - 1 };
                assert(t[nj] == s[j]);
            }
        }
        removed
    }

    /// How many registrations the peer currently holds.
    fn count_for_peer(&self, peer: PeerId) -> (count: u64)
        ensures
            count == peer_count_in(self.regs(), peer.id),
    {
        let mut count: u64 = 0;
        let mut i: usize = 0;
        while i < self.entries.len()
            invariant
                0 <= i <= self.entries@.len(),
                count <= i,
                count == peer_count_in(self.regs().take(i as int), peer.id),
            decreases self.entries@.len() - i,
        {
            proof {
                assert(self.regs().take(i + 1).drop_last() =~= self.regs().take(i as int));
                assert(self.regs().take(i + 1).last() == self.regs()[i as int]);
            }
            if self.entries[i].peer_id.id == peer.id {
                count = count + 1;
            }
            i = i + 1;
        }
        proof {
            assert(self.regs().take(self.entries@.len() as int) =~= self.regs());
        }
        count
    }

    /// The TTL granted for a request under this store's policy.
    fn clamp_ttl(&self, requested: Option<u64>) -> (t: u64)
        ensures
            t == clamped_ttl(requested, self.config),
    {
        let wanted = match requested {
            Some(t) => t,
            None => self.config.default_ttl,
        };
        if wanted < self.config.min_ttl {
            self.config.min_ttl
        } else if wanted > self.config.max_ttl {
            self.config.max_ttl
        } else {
            wanted
        }
    }

    /// Append a record whose pair is not in the table, under the next free
    /// ordinal, together with its index pair and its timer.
    fn append_entry(&mut self, record: Registration)
        requires
            old(self).wf(),
            !old(self).has_reg(record@.peer, record@.ns),
            entry_wf(record@, old(self).config),
            record@.ordinal == old(self).next_ordinal,
            old(self).next_ordinal < u64::MAX,
        ensures
            final(self).wf(),
            final(self).regs() == old(self).regs().push(record@),
            final(self).events@ == old(self).events@,
            final(self).next_ordinal == old(self).next_ordinal + 1,
            final(self).config == old(self).config,
    {
        let deadline = Self::deadline_of(&record);
        let ordinal = record.ordinal;
        proof {
            assert(!old(self).timers.has_ordinal(ordinal)) by {
                if old(self).timers.has_ordinal(ordinal) {
                    let j = choose|j: int|
                        0 <= j < old(self).timers.slots@.len()
                            && (#[trigger] old(self).timers.slots@[j]).ordinal == ordinal;
                    let slot = old(self).timers.slots@[j];
                    assert(old(self).timers.slots@[j] == (crate::expiry::TimerEntry {
                        deadline: slot.deadline,
                        ordinal,
                    }));
                    assert(old(self).timers.has_timer(ordinal, slot.deadline));
                    let k = choose|k: int|
                        0 <= k < old(self).regs().len() && (#[trigger] old(self).regs()[k]).ordinal
                            == ordinal && deadline_u64(old(self).regs()[k]) == slot.deadline;
                }
            }
            assert(!old(self).index.contains_pair(record@.ns, record@.peer));
        }
        self.index.insert(&record.namespace, record.peer_id);
        self.timers.schedule(deadline, ordinal);
        self.entries.push(record);
        self.next_ordinal = self.next_ordinal + 1;
        proof {
            let s = old(self).regs();
            let t = self.regs();
            let r = record@;
            let last = s.len() as int;
            assert(t =~= s.push(r));
            assert(forall|j: int| 0 <= j < last ==> #[trigger] t[j] == s[j]);
            assert(t[last] == r);

            assert forall|i: int, j: int| 0 <= i < j < t.len() implies !((#[trigger] t[i]).peer
                == (#[trigger] t[j]).peer && t[i].ns == t[j].ns) by {
                if j == last {
                    if t[i].peer == r.peer && t[i].ns == r.ns {
                        assert(key_matches(s[i], r.peer, r.ns));
                        assert(has_reg_in(s, r.peer, r.ns));
                    }
                }
            }

            assert forall|n: Seq<u8>, p: u64|
                #![trigger self.index.contains_pair(n, p)]
                #![trigger has_reg_in(self.regs(), p, n)]
                self.index.contains_pair(n, p) <==> has_reg_in(t, p, n) by {
                if self.index.contains_pair(n, p) {
                    if n == r.ns && p == r.peer {
                        assert(key_matches(t[last], p, n));
                        assert(has_reg_in(t, p, n));
                    } else {
                        assert(old(self).index.contains_pair(n, p));
                        let j = choose|j: int|
                            0 <= j < s.len() && key_matches(#[trigger] s[j], p, n);
                        assert(key_matches(t[j], p, n));
                        assert(has_reg_in(t, p, n));
                    }
                }
                if has_reg_in(t, p, n) {
                    let j = choose|j: int| 0 <= j < t.len() && key_matches(#[trigger] t[j], p, n);
                    if j == last {
                        assert(self.index.contains_pair(n, p));
                    } else {
                        assert(key_matches(s[j], p, n));
                        assert(has_reg_in(s, p, n));
                        assert(old(self).index.contains_pair(n, p));
                        assert(self.index.contains_pair(n, p));
                    }
                }
            }

            assert forall|j: int|
                0 <= j < t.len() implies self.timers.has_timer(
                (#[trigger] t[j]).ordinal,
                deadline_u64(t[j]),
            ) by {
                if j == last {
                    assert(deadline == deadline_u64(r));
                } else {
                    assert(t[j] == s[j]);
                    assert(old(self).timers.has_timer(s[j].ordinal, deadline_u64(s[j])));
                }
            }

            assert forall|o: u64, d: u64| #[trigger] self.timers.has_timer(o, d) implies exists|
                j: int,
            |
                0 <= j < t.len() && (#[trigger] t[j]).ordinal == o && deadline_u64(t[j]) == d by {
                if o == ordinal && d == deadline {
                    assert(t[last].ordinal == o && deadline_u64(t[last]) == d);
                } else {
                    assert(old(self).timers.has_timer(o, d));
                    let j = choose|j: int|
                        0 <= j < s.len() && (#[trigger] s[j]).ordinal == o && deadline_u64(s[j])
                            == d;
                    assert(t[j].ordinal == o && deadline_u64(t[j]) == d);
                }
            }
        }
    }

    /// Create or renew the peer's registration under the namespace.
    ///
    /// The namespace and every address must validate and the list must be
    /// non-empty; the addresses are deduplicated, keeping first occurrences
    /// in order. The granted TTL is the requested one — or the configured
    /// default when absent — clamped into the configured bounds. A request
    /// for an existing `(peer, namespace)` pair overwrites the record in
    /// place under a fresh ordinal, resetting the TTL clock; a request for a
    /// fresh pair is admitted only below the per-peer registration cap. On
    /// rejection the store is unchanged. Every outcome is reported to
    /// observers.
    pub fn register(
        &mut self,
        peer: PeerId,
        namespace: Namespace,
        addresses: Vec<Multiaddr>,
        requested_ttl: Option<u64>,
        now: u64,
    ) -> (result: Result<Registration, RegisterError>)
        requires
            old(self).wf(),
            old(self).next_ordinal < u64::MAX,
        ensures
            final(self).wf(),
            final(self).config == old(self).config,
            result is Ok <==> (valid_namespace(namespace@) && valid_addr_list(
                addr_views(addresses@),
            ) && old(self).admits(peer.id, namespace@)),
            !valid_namespace(namespace@) ==> result == Result::<Registration, RegisterError>::Err(
                RegisterError::InvalidNamespace,
            ),
            valid_namespace(namespace@) && !valid_addr_list(addr_views(addresses@))
                ==> result == Result::<Registration, RegisterError>::Err(
                RegisterError::InvalidAddress,
            ),
            valid_namespace(namespace@) && valid_addr_list(addr_views(addresses@)) && !old(
                self,
            ).admits(peer.id, namespace@) ==> result == Result::<Registration, RegisterError>::Err(
                RegisterError::Throttled,
            ),
            result is Err ==> final(self).regs() == old(self).regs() && final(self).next_ordinal
                == old(self).next_ordinal && events_view(final(self).events@) == events_view(
                old(self).events@,
            ).push(
                EventV::PeerNotRegistered {
                    peer: peer.id,
                    ns: namespace@,
                    reason: result->Err_0,
                },
            ),
            result is Ok ==> ({
                let nr = old(self).fresh_record(
                    peer.id,
                    namespace@,
                    addr_views(addresses@),
                    requested_ttl,
                    now,
                );
                &&& result->Ok_0@ == nr
                &&& final(self).regs() == without_pair(
                    old(self).regs(),
                    peer.id,
                    namespace@,
                ).push(nr)
                &&& final(self).next_ordinal == old(self).next_ordinal + 1
                &&& events_view(final(self).events@) == events_view(old(self).events@).push(
                    EventV::PeerRegistered { peer: peer.id, registration: nr },
                )
            }),
    {
        if !namespace.is_valid() {
            let reason = RegisterError::InvalidNamespace;
            self.events.push(Event::PeerNotRegistered { peer, namespace, reason });
            proof {
                assert(self.entries == old(self).entries);
                assert(self.regs() == old(self).regs());
                assert(self.wf());
                assert(events_view(self.events@) =~= events_view(old(self).events@).push(
                    EventV::PeerNotRegistered { peer: peer.id, ns: namespace@, reason },
                ));
            }
            return Err(reason);
        }
        let mut addrs_ok = addresses.len() > 0;
        let mut i: usize = 0;
        while i < addresses.len()
            invariant
                0 <= i <= addresses@.len(),
                addrs_ok == (addresses@.len() > 0 && forall|j: int|
                    0 <= j < i ==> valid_multiaddr(#[trigger] addr_views(addresses@)[j])),
            decreases addresses@.len() - i,
        {
            proof {
                assert(addr_views(addresses@)[i as int] == addresses@[i as int]@);
            }
            if !addresses[i].is_valid() {
                addrs_ok = false;
            }
            i = i + 1;
        }
        if !addrs_ok {
            let reason = RegisterError::InvalidAddress;
            self.events.push(Event::PeerNotRegistered { peer, namespace, reason });
            proof {
                assert(events_view(self.events@) =~= events_view(old(self).events@).push(
                    EventV::PeerNotRegistered { peer: peer.id, ns: namespace@, reason },
                ));
            }
            return Err(reason);
        }
        let found = self.find_entry(peer, &namespace);
        match found {
            Some(idx) => {
                proof {
                    lemma_without_pair_unique(self.regs(), peer.id, namespace@, idx as int);
                }
                let _ = self.remove_at(idx);
                proof {
                    lemma_without_pair_no_match(old(self).regs(), peer.id, namespace@);
                }
            },
            None => {
                let count = self.count_for_peer(peer);
                if count >= self.config.max_registrations_per_peer {
                    let reason = RegisterError::Throttled;
                    self.events.push(Event::PeerNotRegistered { peer, namespace, reason });
                    proof {
                        assert(events_view(self.events@) =~= events_view(old(self).events@).push(
                            EventV::PeerNotRegistered { peer: peer.id, ns: namespace@, reason },
                        ));
                    }
                    return Err(reason);
                }
                proof {
                    lemma_without_pair_absent(self.regs(), peer.id, namespace@);
                }
            },
        }
        let ttl_granted = self.clamp_ttl(requested_ttl);
        let deduped = dedup_addresses(&addresses);
        let record = Registration {
            peer_id: peer,
            namespace,
            addresses: Addresses { items: deduped },
            ttl_seconds: ttl_granted,
            registered_at: now,
            ordinal: self.next_ordinal,
        };
        proof {
            assert(record@.addrs == addr_views(deduped@));
            assert(record@ == old(self).fresh_record(
                peer.id,
                record.namespace@,
                addr_views(addresses@),
                requested_ttl,
                now,
            ));
            assert(entry_wf(record@, self.config)) by {
                let dv = addr_views(deduped@);
                assert(dv.len() == deduped@.len());
                assert forall|j: int| 0 <= j < dv.len() implies valid_multiaddr(
                    #[trigger] dv[j],
                ) by {
                    assert(dv[j] == deduped@[j]@);
                    let k = choose|k: int|
                        0 <= k < addresses@.len() && (#[trigger] deduped@[j])@
                            == (#[trigger] addresses@[k])@;
                    assert(valid_multiaddr(addr_views(addresses@)[k]));
                    assert(addr_views(addresses@)[k] == addresses@[k]@);
                }
                assert forall|a: int, b: int| 0 <= a < b < dv.len() implies dv[a] != dv[b] by {
                    assert(dv[a] == deduped@[a]@ && dv[b] == deduped@[b]@);
                    assert(deduped@[a]@ != deduped@[b]@);
                }
            }
        }
        let for_event = record.duplicate();
        let returned = record.duplicate();
        self.append_entry(record);
        self.events.push(Event::PeerRegistered { peer, registration: for_event });
        proof {
            let nr = old(self).fresh_record(
                peer.id,
                returned.namespace@,
                addr_views(addresses@),
                requested_ttl,
                now,
            );
            assert(events_view(self.events@) =~= events_view(old(self).events@).push(
                EventV::PeerRegistered { peer: peer.id, registration: nr },
            ));
        }
        Ok(returned)
    }

    /// Remove the peer's registration under the namespace.
    ///
    /// Idempotent: when no such registration exists the table is left
    /// unchanged. Either way the removal request is reported to observers.
    pub fn unregister(&mut self, peer: PeerId, namespace: &Namespace)
        requires
            old(self).wf(),
        ensures
            final(self).wf(),
            final(self).regs() == without_pair(old(self).regs(), peer.id, namespace@),
            events_view(final(self).events@) == events_view(old(self).events@).push(
                EventV::PeerUnregistered { peer: peer.id, ns: namespace@ },
            ),
            final(self).next_ordinal == old(self).next_ordinal,
            final(self).config == old(self).config,
    {
        let found = self.find_entry(peer, namespace);
        match found {
            Some(i) => {
                proof {
                    lemma_without_pair_unique(old(self).regs(), peer.id, namespace@, i as int);
                }
                let _ = self.remove_at(i);
            },
            None => {
                proof {
                    lemma_without_pair_absent(old(self).regs(), peer.id, namespace@);
                }
            },
        }
        self.events.push(
            Event::PeerUnregistered { peer, namespace: namespace.duplicate() },
        );
        proof {
            assert(events_view(self.events@) =~= events_view(old(self).events@).push(
                EventV::PeerUnregistered { peer: peer.id, ns: namespace@ },
            ));
        }
    }

    /// Answer a discovery query: the registrations matching the namespace
    /// filter (all namespaces when absent) that have not expired at `now`,
    /// in ascending ordinal order, strictly after the cursor, capped at the
    /// requested limit and the server-enforced maximum.
    ///
    /// The returned cursor names the last ordinal served, so a following
    /// query resumes exactly where this one stopped. The table is only read;
    /// the served query is reported to observers.
    #[verifier::loop_isolation(false)]
    pub fn discover(
        &mut self,
        namespace: Option<&Namespace>,
        cursor: Option<Cursor>,
        limit: Option<u64>,
        now: u64,
        enquirer: PeerId,
    ) -> (r: (Vec<Registration>, Cursor))
        requires
            old(self).wf(),
        ensures
            final(self).wf(),
            final(self).regs() == old(self).regs(),
            final(self).next_ordinal == old(self).next_ordinal,
            final(self).config == old(self).config,
            events_view(final(self).events@) == events_view(old(self).events@).push(
                EventV::DiscoverServed { enquirer: enquirer.id },
            ),
            ({
                let found = discoverable(
                    old(self).regs(),
                    ns_filter_view(namespace),
                    now,
                    cursor_start(cursor),
                );
                let page = page_of(found, effective_limit(limit, old(self).config) as int);
                &&& regs_view(r.0@) == page
                &&& r.1 == (Cursor {
                    last_ordinal: if page.len() == 0 {
                        cursor_start(cursor)
                    } else {
                        page.last().ordinal
                    },
                })
            }),
    {
        let eff: u64 = match limit {
            Some(l) => {
                if l < self.config.max_discover_limit {
                    l
                } else {
                    self.config.max_discover_limit
                }
            },
            None => self.config.max_discover_limit,
        };
        let start: u64 = match cursor {
            Some(c) => c.last_ordinal,
            None => 0,
        };
        let ghost nsv = ns_filter_view(namespace);
        let mut out: Vec<Registration> = Vec::new();
        let mut next_cursor: u64 = start;
        let mut i: usize = 0;
        while i < self.entries.len()
            invariant
                0 <= i <= self.entries@.len(),
                ({
                    let found = discoverable(self.regs().take(i as int), nsv, now, start);
                    let pg = regs_view(out@);
                    &&& pg == page_of(found, eff as int)
                    &&& pg.len() <= found.len()
                    &&& pg.len() <= eff
                    &&& (found.len() > pg.len() ==> pg.len() == eff)
                    &&& next_cursor == if pg.len() == 0 {
                        start
                    } else {
                        pg.last().ordinal
                    }
                }),
            decreases self.entries@.len() - i,
        {
            proof {
                assert(self.regs().take(i + 1).drop_last() =~= self.regs().take(i as int));
                assert(self.regs().take(i + 1).last() == self.regs()[i as int]);
            }
            let ghost found_pre = discoverable(self.regs().take(i as int), nsv, now, start);
            let matches_ns = match namespace {
                Some(n) => self.entries[i].namespace.matches(n),
                None => true,
            };
            let deadline = Self::deadline_of(&self.entries[i]);
            let live = now < deadline;
            let after_cursor = self.entries[i].ordinal > start;
            proof {
                assert(deadline_u64(self.regs()[i as int]) as int == reg_deadline(
                    self.regs()[i as int],
                ));
                assert((matches_ns && live && after_cursor) == discover_match(
                    self.regs()[i as int],
                    nsv,
                    now,
                    start,
                ));
            }
            if matches_ns && live && after_cursor {
                if (out.len() as u64) < eff {
                    let picked = self.entries[i].duplicate();
                    next_cursor = picked.ordinal;
                    out.push(picked);
                    proof {
                        assert(regs_view(out@) =~= page_of(
                            discoverable(self.regs().take(i + 1), nsv, now, start),
                            eff as int,
                        ));
                    }
                } else {
                    proof {
                        let found_post = discoverable(self.regs().take(i + 1), nsv, now, start);
                        assert(found_post == found_pre.push(self.regs()[i as int]));
                        assert(found_pre.len() >= eff);
                        assert(page_of(found_post, eff as int) =~= page_of(found_pre, eff as int));
                    }
                }
            }
            i = i + 1;
        }
        proof {
            assert(self.regs().take(self.entries@.len() as int) =~= self.regs());
        }
        let served = Cursor { last_ordinal: next_cursor };
        self.events.push(Event::DiscoverServed { enquirer });
        proof {
            assert(self.entries == old(self).entries);
            assert(self.regs() == old(self).regs());
            assert(self.wf());
            assert(events_view(self.events@) =~= events_view(old(self).events@).push(
                EventV::DiscoverServed { enquirer: enquirer.id },
            ));
        }
        (out, served)
    }

    /// Evict every registration whose TTL has elapsed at `now`, reporting one
    /// expiry per evicted record to observers, in table order.
    ///
    /// The waiting process calls this when the next deadline from the timer
    /// queue has passed.
    #[verifier::loop_isolation(false)]
    #[verifier::rlimit(60)]
    pub fn evict_due(&mut self, now: u64)
        requires
            old(self).wf(),
        ensures
            final(self).wf(),
            final(self).regs() == live_only(old(self).regs(), now),
            events_view(final(self).events@) == events_view(old(self).events@) + expired_events(
                old(self).regs(),
                now,
            ),
            final(self).next_ordinal == old(self).next_ordinal,
            final(self).config == old(self).config,
    {
        let mut i: usize = 0;
        let ghost mut p: int = 0;
        while i < self.entries.len()
            invariant
                0 <= i <= self.entries@.len(),
                i <= p <= old(self).regs().len(),
                self.wf(),
                self.regs().take(i as int) == live_only(old(self).regs().take(p), now),
                self.regs().skip(i as int) == old(self).regs().skip(p),
                self.regs().len() - i == old(self).regs().len() - p,
                events_view(self.events@) == events_view(old(self).events@) + expired_events(
                    old(self).regs().take(p),
                    now,
                ),
                self.next_ordinal == old(self).next_ordinal,
                self.config == old(self).config,
            decreases self.entries@.len() - i,
        {
            proof {
                assert(old(self).regs().take(p + 1).drop_last() =~= old(self).regs().take(p));
                assert(old(self).regs().take(p + 1).last() == old(self).regs()[p]);
                assert(self.regs()[i as int] == self.regs().skip(i as int)[0]);
                assert(self.regs()[i as int] == old(self).regs()[p]);
            }
            let deadline = Self::deadline_of(&self.entries[i]);
            proof {
                assert(deadline_u64(self.regs()[i as int]) as int == reg_deadline(
                    self.regs()[i as int],
                ));
            }
            if now < deadline {
                i = i + 1;
                proof {
                    p = p + 1;
                    assert(self.regs().take(i as int) =~= self.regs().take(i - 1).push(
                        self.regs()[i - 1],
                    ));
                    assert forall|j: int|
                        0 <= j < self.regs().skip(i as int).len() implies self.regs().skip(
                        i as int,
                    )[j] == old(self).regs().skip(p)[j] by {
                        assert(self.regs().skip(i - 1)[j + 1] == old(self).regs().skip(p - 1)[j
                            + 1]);
                    }
                    assert(self.regs().skip(i as int) =~= old(self).regs().skip(p));
                }
            } else {
                let ghost pre = self.regs();
                let ghost events_top = self.events@;
                let victim = self.remove_at(i);
                self.events.push(Event::RegistrationExpired { registration: victim });
                proof {
                    p = p + 1;
                    pre.remove_ensures(i as int);
                    assert(self.regs().take(i as int) =~= pre.take(i as int));
                    assert forall|j: int|
                        0 <= j < self.regs().skip(i as int).len() implies self.regs().skip(
                        i as int,
                    )[j] == old(self).regs().skip(p)[j] by {
                        assert(self.regs()[i + j] == pre[i + j + 1]);
                        assert(pre.skip(i as int)[j + 1] == old(self).regs().skip(p - 1)[j + 1]);
                    }
                    assert(self.regs().skip(i as int) =~= old(self).regs().skip(p));
                    assert(victim@ == old(self).regs()[p - 1]);
                    assert(!is_live(old(self).regs()[p - 1], now));
                    assert(old(self).regs().take(p).len() == p);
                    assert(old(self).regs().take(p).drop_last() == old(self).regs().take(p - 1));
                    assert(old(self).regs().take(p).last() == old(self).regs()[p - 1]);
                    assert(expired_events(old(self).regs().take(p), now) =~= expired_events(
                        old(self).regs().take(p - 1),
                        now,
                    ).push(EventV::RegistrationExpired { registration: old(self).regs()[p - 1] }));
                    assert(events_view(self.events@) =~= events_view(events_top).push(
                        EventV::RegistrationExpired { registration: victim@ },
                    ));
                    assert(events_view(events_top).push(
                        EventV::RegistrationExpired { registration: victim@ },
                    ) =~= events_view(old(self).events@) + expired_events(
                        old(self).regs().take(p - 1),
                        now,
                    ).push(EventV::RegistrationExpired { registration: old(self).regs()[p - 1] }));
                    assert(events_view(self.events@) =~= events_view(old(self).events@)
                        + expired_events(old(self).regs().take(p), now));
                }
            }
        }
        proof {
            assert(old(self).regs().skip(p).len() == 0);
            assert(p == old(self).regs().len());
            assert(old(self).regs().take(p) =~= old(self).regs());
            assert(self.regs().take(i as int) =~= self.regs());
        }
    }

    /// Apply the disconnect policy when the peer's connection closes.
    ///
    /// Under the default policy registrations outlive their connection and
    /// nothing happens. When the store is configured to drop registrations
    /// on disconnect, every registration of the peer is removed — with its
    /// index pair and its timer — and each removal is reported to observers
    /// as an unregistration, in table order.
    #[verifier::loop_isolation(false)]
    #[verifier::rlimit(60)]
    pub fn peer_disconnected(&mut self, peer: PeerId)
        requires
            old(self).wf(),
        ensures
            final(self).wf(),
            old(self).config.keep_registrations_on_disconnect ==> *final(self) == *old(self),
            !old(self).config.keep_registrations_on_disconnect ==> final(self).regs()
                == without_peer(old(self).regs(), peer.id) && events_view(final(self).events@)
                == events_view(old(self).events@) + dropped_events(old(self).regs(), peer.id),
            final(self).next_ordinal == old(self).next_ordinal,
            final(self).config == old(self).config,
    {
        if self.config.keep_registrations_on_disconnect {
            return ;
        }
        let mut i: usize = 0;
        let ghost mut p: int = 0;
        while i < self.entries.len()
            invariant
                0 <= i <= self.entries@.len(),
                i <= p <= old(self).regs().len(),
                self.wf(),
                self.regs().take(i as int) == without_peer(old(self).regs().take(p), peer.id),
                self.regs().skip(i as int) == old(self).regs().skip(p),
                self.regs().len() - i == old(self).regs().len() - p,
                events_view(self.events@) == events_view(old(self).events@) + dropped_events(
                    old(self).regs().take(p),
                    peer.id,
                ),
                self.next_ordinal == old(self).next_ordinal,
                self.config == old(self).config,
            decreases self.entries@.len() - i,
        {
            proof {
                assert(old(self).regs().take(p + 1).drop_last() =~= old(self).regs().take(p));
                assert(old(self).regs().take(p + 1).last() == old(self).regs()[p]);
                assert(self.regs()[i as int] == self.regs().skip(i as int)[0]);
                assert(self.regs()[i as int] == old(self).regs()[p]);
            }
            if self.entries[i].peer_id.id != peer.id {
                i = i + 1;
                proof {
                    p = p + 1;
                    assert(self.regs().take(i as int) =~= self.regs().take(i - 1).push(
                        self.regs()[i - 1],
                    ));
                    assert forall|j: int|
                        0 <= j < self.regs().skip(i as int).len() implies self.regs().skip(
                        i as int,
                    )[j] == old(self).regs().skip(p)[j] by {
                        assert(self.regs().skip(i - 1)[j + 1] == old(self).regs().skip(p - 1)[j
                            + 1]);
                    }
                    assert(self.regs().skip(i as int) =~= old(self).regs().skip(p));
                }
            } else {
                let ghost pre = self.regs();
                let ghost events_top = self.events@;
                let victim = self.remove_at(i);
                self.events.push(
                    Event::PeerUnregistered { peer, namespace: victim.namespace },
                );
                proof {
                    p = p + 1;
                    pre.remove_ensures(i as int);
                    assert(self.regs().take(i as int) =~= pre.take(i as int));
                    assert forall|j: int|
                        0 <= j < self.regs().skip(i as int).len() implies self.regs().skip(
                        i as int,
                    )[j] == old(self).regs().skip(p)[j] by {
                        assert(self.regs()[i + j] == pre[i + j + 1]);
                        assert(pre.skip(i as int)[j + 1] == old(self).regs().skip(p - 1)[j + 1]);
                    }
                    assert(self.regs().skip(i as int) =~= old(self).regs().skip(p));
                    assert(old(self).regs().take(p).len() == p);
                    assert(old(self).regs().take(p).drop_last() == old(self).regs().take(p - 1));
                    assert(old(self).regs().take(p).last() == old(self).regs()[p - 1]);
                    assert(dropped_events(old(self).regs().take(p), peer.id) =~= dropped_events(
                        old(self).regs().take(p - 1),
                        peer.id,
                    ).push(EventV::PeerUnregistered { peer: peer.id, ns: old(self).regs()[p - 1].ns }));
                    assert(events_view(self.events@) =~= events_view(events_top).push(
                        EventV::PeerUnregistered { peer: peer.id, ns: old(self).regs()[p - 1].ns },
                    ));
                    assert(events_view(events_top).push(
                        EventV::PeerUnregistered { peer: peer.id, ns: old(self).regs()[p - 1].ns },
                    ) =~= events_view(old(self).events@) + dropped_events(
                        old(self).regs().take(p - 1),
                        peer.id,
                    ).push(EventV::PeerUnregistered { peer: peer.id, ns: old(self).regs()[p - 1].ns }));
                    assert(events_view(self.events@) =~= events_view(old(self).events@)
                        + dropped_events(old(self).regs().take(p), peer.id));
                }
            }
        }
        proof {
            assert(old(self).regs().skip(p).len() == 0);
            assert(p == old(self).regs().len());
            assert(old(self).regs().take(p) =~= old(self).regs());
            assert(self.regs().take(i as int) =~= self.regs());
        }
    }

    /// The instant the earliest-expiring registration is due, or `None` when
    /// the table is empty. The waiting process sleeps until this instant.
    pub fn next_deadline(&self) -> (r: Option<u64>)
        requires
            self.wf(),
        ensures
            match r {
                Some(d) => {
                    &&& exists|i: int|
                        0 <= i < self.regs().len() && deadline_u64(#[trigger] self.regs()[i]) == d
                    &&& forall|i: int|
                        0 <= i < self.regs().len() ==> d <= deadline_u64(#[trigger] self.regs()[i])
                },
                None => self.regs().len() == 0,
            },
    {
        let r = self.timers.next_deadline();
        proof {
            match r {
                Some(d) => {
                    let o = choose|o: u64| #[trigger] self.timers.has_timer(o, d);
                    let j = choose|j: int|
                        0 <= j < self.regs().len() && (#[trigger] self.regs()[j]).ordinal == o
                            && deadline_u64(self.regs()[j]) == d;
                    assert(deadline_u64(self.regs()[j]) == d);
                    assert forall|i: int| 0 <= i < self.regs().len() implies d <= deadline_u64(
                        #[trigger] self.regs()[i],
                    ) by {
                        assert(self.timers.has_timer(
                            self.regs()[i].ordinal,
                            deadline_u64(self.regs()[i]),
                        ));
                    }
                },
                None => {
                    if self.regs().len() > 0 {
                        assert(self.timers.has_timer(
                            self.regs()[0].ordinal,
                            deadline_u64(self.regs()[0]),
                        ));
                        let j = choose|j: int|
                            0 <= j < self.timers.slots@.len() && #[trigger] self.timers.slots@[j]
                                == (crate::expiry::TimerEntry {
                                deadline: deadline_u64(self.regs()[0]),
                                ordinal: self.regs()[0].ordinal,
                            });
                    }
                },
            }
        }
        r
    }

    /// Drain the event stream for an observer, oldest first.
    pub fn take_events(&mut self) -> (out: Vec<Event>)
        requires
            old(self).wf(),
        ensures
            final(self).wf(),
            out@ == old(self).events@,
            final(self).events@.len() == 0,
            final(self).regs() == old(self).regs(),
            final(self).next_ordinal == old(self).next_ordinal,
            final(self).config == old(self).config,
    {
        let mut out: Vec<Event> = Vec::new();
        core::mem::swap(&mut out, &mut self.events);
        proof {
            assert(self.entries == old(self).entries);
            assert(self.regs() == old(self).regs());
            assert(self.wf());
        }
        out
    }

    /// The peers currently registered under the namespace, answered from the
    /// namespace index without scanning the table.
    pub fn namespace_peers(&self, namespace: &Namespace) -> (peers: Vec<PeerId>)
        requires
            self.wf(),
        ensures
            forall|p: u64|
                #![trigger self.has_reg(p, namespace@)]
                peers_listed(peers@, p) <==> self.has_reg(p, namespace@),
            forall|a: int, b: int|
                0 <= a < b < peers@.len() ==> (#[trigger] peers@[a]).id
                    != (#[trigger] peers@[b]).id,
    {
        let peers = self.index.peers_of(namespace);
        proof {
            assert forall|p: u64|
                peers_listed(peers@, p) <==> self.has_reg(p, namespace@) by {
                assert(self.index.contains_pair(namespace@, p) <==> has_reg_in(
                    self.regs(),
                    p,
                    namespace@,
                ));
            }
        }
        peers
    }
}

/// Deduplicate an address list, keeping the first occurrence of each address
/// in order.
fn dedup_addresses(addrs: &Vec<Multiaddr>) -> (out: Vec<Multiaddr>)
    ensures
        addr_views(out@) == dedup_first(addr_views(addrs@)),
        addrs@.len() > 0 ==> out@.len() > 0,
        forall|j: int|
            0 <= j < out@.len() ==> exists|k: int|
                0 <= k < addrs@.len() && (#[trigger] out@[j])@ == (#[trigger] addrs@[k])@,
        forall|a: int, b: int| 0 <= a < b < out@.len() ==> (#[trigger] out@[a])@ != (#[trigger] out@[b])@,
{
    let mut out: Vec<Multiaddr> = Vec::new();
    let mut i: usize = 0;
    while i < addrs.len()
        invariant
            0 <= i <= addrs@.len(),
            addr_views(out@) == dedup_first(addr_views(addrs@).take(i as int)),
            i > 0 ==> out@.len() > 0,
            forall|j: int|
                0 <= j < out@.len() ==> exists|k: int|
                    0 <= k < i && (#[trigger] out@[j])@ == (#[trigger] addrs@[k])@,
            forall|a: int, b: int|
                0 <= a < b < out@.len() ==> (#[trigger] out@[a])@ != (#[trigger] out@[b])@,
        decreases addrs@.len() - i,
    {
        let mut seen = false;
        let mut j: usize = 0;
        while j < i
            invariant
                0 <= j <= i < addrs@.len(),
                seen == exists|k: int|
                    0 <= k < j && (#[trigger] addrs@[k])@ == addrs@[i as int]@,
            decreases i - j,
        {
            if addrs[j].matches(&addrs[i]) {
                seen = true;
                proof {
                    assert(addrs@[j as int]@ == addrs@[i as int]@);
                }
            }
            j = j + 1;
        }
        proof {
            let av = addr_views(addrs@);
            assert(av.take(i + 1).drop_last() =~= av.take(i as int));
            assert(av.take(i + 1).last() == av[i as int]);
            if seen {
                let k = choose|k: int| 0 <= k < i && (#[trigger] addrs@[k])@ == addrs@[i as int]@;
                assert(av.take(i as int)[k] == av[i as int]);
                assert(av.take(i as int).contains(av[i as int]));
            } else {
                if av.take(i as int).contains(av[i as int]) {
                    let k = choose|k: int|
                        0 <= k < av.take(i as int).len() && av.take(i as int)[k] == av[i as int];
                    assert(addrs@[k]@ == addrs@[i as int]@);
                }
            }
        }
        if !seen {
            out.push(addrs[i].duplicate());
            proof {
                let av = addr_views(addrs@);
                assert(addr_views(out@) =~= dedup_first(av.take(i as int)).push(av[i as int]));
                assert(out@[out@.len() - 1]@ == addrs@[i as int]@);
                assert forall|a: int, b: int|
                    0 <= a < b < out@.len() implies (#[trigger] out@[a])@
                    != (#[trigger] out@[b])@ by {
                    if b == out@.len() - 1 {
                        let k = choose|k: int|
                            0 <= k < i && (#[trigger] out@[a])@ == (#[trigger] addrs@[k])@;
                        assert(addrs@[k]@ != addrs@[i as int]@);
                    }
                }
            }
        }
        i = i + 1;
    }
    proof {
        assert(addr_views(addrs@).take(addrs@.len() as int) =~= addr_views(addrs@));
    }
    out
}

/// After dropping a pair, no record of that pair remains.
pub proof fn lemma_without_pair_no_match(s: Seq<RegV>, peer: u64, ns: Seq<u8>)
    ensures
        !has_reg_in(without_pair(s, peer, ns), peer, ns),
    decreases s.len(),
{
    if s.len() == 0 {
    } else {
        lemma_without_pair_no_match(s.drop_last(), peer, ns);
        let d = without_pair(s, peer, ns);
        let rest = without_pair(s.drop_last(), peer, ns);
        if has_reg_in(d, peer, ns) {
            let j = choose|j: int| 0 <= j < d.len() && key_matches(#[trigger] d[j], peer, ns);
            if key_matches(s.last(), peer, ns) {
                assert(d == rest);
                assert(has_reg_in(rest, peer, ns));
            } else {
                assert(d == rest.push(s.last()));
                if j < rest.len() {
                    assert(d[j] == rest[j]);
                    assert(has_reg_in(rest, peer, ns));
                } else {
                    assert(d[j] == s.last());
                }
            }
        }
    }
}

/// In a table with at most one record per pair, dropping the pair of the
/// record at position `i` is exactly removing position `i`.
pub proof fn lemma_without_pair_unique(s: Seq<RegV>, peer: u64, ns: Seq<u8>, i: int)
    requires
        0 <= i < s.len(),
        key_matches(s[i], peer, ns),
        forall|a: int, b: int|
            0 <= a < b < s.len() ==> !((#[trigger] s[a]).peer == (#[trigger] s[b]).peer && s[a].ns
                == s[b].ns),
    ensures
        without_pair(s, peer, ns) == s.remove(i),
    decreases s.len(),
{
    let last = s.len() - 1;
    if i == last {
        assert(forall|j: int| 0 <= j < last ==> !key_matches(#[trigger] s[j], peer, ns));
        lemma_without_pair_absent_of(s.drop_last(), peer, ns);
        assert(s.remove(last) =~= s.drop_last());
    } else {
        assert(!key_matches(s.last(), peer, ns));
        lemma_without_pair_unique(s.drop_last(), peer, ns, i);
        assert(without_pair(s, peer, ns) == s.drop_last().remove(i).push(s.last()));
        assert(s.drop_last().remove(i).push(s.last()) =~= s.remove(i));
    }
}

/// Dropping a pair that no record of `s` belongs to leaves `s` unchanged.
pub proof fn lemma_without_pair_absent(s: Seq<RegV>, peer: u64, ns: Seq<u8>)
    requires
        !has_reg_in(s, peer, ns),
    ensures
        without_pair(s, peer, ns) == s,
{
    assert(forall|j: int| 0 <= j < s.len() ==> !key_matches(#[trigger] s[j], peer, ns));
    lemma_without_pair_absent_of(s, peer, ns);
}

/// As `lemma_without_pair_absent`, phrased over the elements.
proof fn lemma_without_pair_absent_of(s: Seq<RegV>, peer: u64, ns: Seq<u8>)
    requires
        forall|j: int| 0 <= j < s.len() ==> !key_matches(#[trigger] s[j], peer, ns),
    ensures
        without_pair(s, peer, ns) == s,
    decreases s.len(),
{
    if s.len() == 0 {
        assert(without_pair(s, peer, ns) =~= s);
    } else {
        lemma_without_pair_absent_of(s.drop_last(), peer, ns);
        assert(without_pair(s, peer, ns) == s.drop_last().push(s.last()));
        assert(s.drop_last().push(s.last()) =~= s);
    }
}

} // verus!
