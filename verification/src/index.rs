//! Secondary index from namespace to the set of peers registered under it.
//!
//! The registration store updates this index in the same atomic step as every
//! table mutation, so no query can observe the two disagreeing. The index
//! keeps the lookup of a namespace's peers sub-linear in the total number of
//! registrations.

use vstd::prelude::*;

use crate::types::{Namespace, PeerId};

verus! {

/// The peers registered under one namespace.
#[derive(Debug)]
pub struct IndexRow {
    pub namespace: Namespace,
    pub peers: Vec<PeerId>,
}

/// The namespace index: one row per namespace with at least one registration.
#[derive(Debug)]
pub struct NamespaceIndex {
    pub rows: Vec<IndexRow>,
}

/// A row is well formed: non-empty, with no peer listed twice.
pub open spec fn row_wf(row: IndexRow) -> bool {
    &&& row.peers@.len() > 0
    &&& forall|a: int, b: int|
        0 <= a < b < row.peers@.len() ==> (#[trigger] row.peers@[a]).id
            != (#[trigger] row.peers@[b]).id
}

/// A peer list names the given peer.
pub open spec fn peers_listed(s: Seq<PeerId>, peer: u64) -> bool {
    exists|k: int| 0 <= k < s.len() && (#[trigger] s[k]).id == peer
}

/// A row lists the given peer.
pub open spec fn row_has_peer(row: IndexRow, peer: u64) -> bool {
    peers_listed(row.peers@, peer)
}

/// The position of `peer` in a peer list, if listed.
fn find_peer(peers: &Vec<PeerId>, peer: PeerId) -> (r: Option<usize>)
    ensures
        match r {
            Some(k) => k < peers@.len() && peers@[k as int].id == peer.id,
            None => forall|k: int| 0 <= k < peers@.len() ==> (#[trigger] peers@[k]).id != peer.id,
        },
{
    let mut k: usize = 0;
    while k < peers.len()
        invariant
            0 <= k <= peers@.len(),
            forall|j: int| 0 <= j < k ==> (#[trigger] peers@[j]).id != peer.id,
        decreases peers@.len() - k,
    {
        if peers[k].id == peer.id {
            return Some(k);
        }
        k = k + 1;
    }
    None
}

impl NamespaceIndex {
    /// Well-formedness: rows carry distinct namespaces and are themselves
    /// well formed.
    pub open spec fn wf(self) -> bool {
        &&& forall|i: int, j: int|
            0 <= i < j < self.rows@.len() ==> (#[trigger] self.rows@[i]).namespace@
                != (#[trigger] self.rows@[j]).namespace@
        &&& forall|i: int| 0 <= i < self.rows@.len() ==> row_wf(#[trigger] self.rows@[i])
    }

    /// The pair `(namespace, peer)` is present in the index.
    pub open spec fn contains_pair(self, ns: Seq<u8>, peer: u64) -> bool {
        exists|i: int|
            0 <= i < self.rows@.len() && (#[trigger] self.rows@[i]).namespace@ == ns
                && row_has_peer(self.rows@[i], peer)
    }

    /// An empty index.
    pub fn new() -> (r: NamespaceIndex)
        ensures
            r.wf(),
            forall|n: Seq<u8>, p: u64| !r.contains_pair(n, p),
    {
        NamespaceIndex { rows: Vec::new() }
    }

    /// The position of the row for `namespace`, if the index has one.
    fn find_row(&self, namespace: &Namespace) -> (r: Option<usize>)
        ensures
            match r {
                Some(i) => i < self.rows@.len() && self.rows@[i as int].namespace@ == namespace@,
                None => forall|i: int|
                    0 <= i < self.rows@.len() ==> (#[trigger] self.rows@[i]).namespace@
                        != namespace@,
            },
    {
        let mut i: usize = 0;
        while i < self.rows.len()
            invariant
                0 <= i <= self.rows@.len(),
                forall|j: int| 0 <= j < i ==> (#[trigger] self.rows@[j]).namespace@ != namespace@,
            decreases self.rows@.len() - i,
        {
            if self.rows[i].namespace.matches(namespace) {
                return Some(i);
            }
            i = i + 1;
        }
        None
    }

    /// Record that `peer` is registered under `namespace`.
    ///
    /// The caller guarantees that the pair is not yet present; the store does
    /// so by consulting its registration table first.
    pub fn insert(&mut self, namespace: &Namespace, peer: PeerId)
        requires
            old(self).wf(),
            !old(self).contains_pair(namespace@, peer.id),
        ensures
            final(self).wf(),
            forall|n: Seq<u8>, p: u64|
                #![trigger final(self).contains_pair(n, p)]
                #![trigger old(self).contains_pair(n, p)]
                final(self).contains_pair(n, p) <==> (old(self).contains_pair(n, p) || (n
                    == namespace@ && p == peer.id)),
    {
        let found = self.find_row(namespace);
        match found {
            Some(i) => {
                let mut row = self.rows.remove(i);
                row.peers.push(peer);
                self.rows.push(row);
                proof {
                    self.lemma_grew_row(*old(self), i as int, peer, namespace@);
                }
            },
            None => {
                let mut peers: Vec<PeerId> = Vec::new();
                peers.push(peer);
                let row = IndexRow { namespace: namespace.duplicate(), peers };
                self.rows.push(row);
                proof {
                    self.lemma_new_row(*old(self), peer, namespace@);
                }
            },
        }
    }

    /// The peers registered under `namespace`, in index order, without
    /// touching the registration table.
    #[verifier::loop_isolation(false)]
    pub fn peers_of(&self, namespace: &Namespace) -> (peers: Vec<PeerId>)
        requires
            self.wf(),
        ensures
            forall|p: u64|
                #![trigger self.contains_pair(namespace@, p)]
                peers_listed(peers@, p) <==> self.contains_pair(namespace@, p),
            forall|a: int, b: int|
                0 <= a < b < peers@.len() ==> (#[trigger] peers@[a]).id
                    != (#[trigger] peers@[b]).id,
    {
        let found = self.find_row(namespace);
        match found {
            Some(i) => {
                let mut peers: Vec<PeerId> = Vec::new();
                let mut k: usize = 0;
                while k < self.rows[i].peers.len()
                    invariant
                        0 <= k <= self.rows@[i as int].peers@.len(),
                        peers@ == self.rows@[i as int].peers@.take(k as int),
                    decreases self.rows@[i as int].peers@.len() - k,
                {
                    peers.push(self.rows[i].peers[k]);
                    proof {
                        assert(peers@ =~= self.rows@[i as int].peers@.take(k + 1));
                    }
                    k = k + 1;
                }
                proof {
                    assert(peers@ =~= self.rows@[i as int].peers@);
                    assert forall|p: u64|
                        peers_listed(peers@, p) <==> self.contains_pair(namespace@, p) by {
                        if peers_listed(peers@, p) {
                            assert(row_has_peer(self.rows@[i as int], p));
                            assert(self.contains_pair(namespace@, p));
                        }
                        if self.contains_pair(namespace@, p) {
                            let j = choose|j: int|
                                0 <= j < self.rows@.len() && (#[trigger] self.rows@[j]).namespace@
                                    == namespace@ && row_has_peer(self.rows@[j], p);
                            if j < i as int {
                                assert(self.rows@[j].namespace@ != self.rows@[i as int].namespace@);
                            } else if j > i as int {
                                assert(self.rows@[i as int].namespace@ != self.rows@[j].namespace@);
                            }
                            assert(j == i as int);
                        }
                    }
                }
                peers
            },
            None => {
                let peers: Vec<PeerId> = Vec::new();
                proof {
                    assert forall|p: u64|
                        peers_listed(peers@, p) <==> self.contains_pair(namespace@, p) by {
                        if self.contains_pair(namespace@, p) {
                            let j = choose|j: int|
                                0 <= j < self.rows@.len() && (#[trigger] self.rows@[j]).namespace@
                                    == namespace@ && row_has_peer(self.rows@[j], p);
                        }
                    }
                }
                peers
            },
        }
    }

    /// Drop the pair `(namespace, peer)` from the index, if present.
    pub fn remove(&mut self, namespace: &Namespace, peer: PeerId)
        requires
            old(self).wf(),
        ensures
            final(self).wf(),
            forall|n: Seq<u8>, p: u64|
                #![trigger final(self).contains_pair(n, p)]
                #![trigger old(self).contains_pair(n, p)]
                final(self).contains_pair(n, p) <==> (old(self).contains_pair(n, p) && !(n
                    == namespace@ && p == peer.id)),
    {
        let found = self.find_row(namespace);
        match found {
            Some(i) => {
                let pos = find_peer(&self.rows[i].peers, peer);
                match pos {
                    Some(k) => {
                        if self.rows[i].peers.len() == 1 {
                            self.rows.remove(i);
                            proof {
                                self.lemma_dropped_row(*old(self), i as int, peer, namespace@);
                            }
                        } else {
                            let mut row = self.rows.remove(i);
                            row.peers.remove(k);
                            self.rows.push(row);
                            proof {
                                self.lemma_shrunk_row(
                                    *old(self),
                                    i as int,
                                    k as int,
                                    peer,
                                    namespace@,
                                );
                            }
                        }
                    },
                    None => {
                        proof {
                            self.lemma_peer_not_listed(i as int, peer, namespace@);
                        }
                    },
                }
            },
            None => {
                proof {
                    assert(!self.contains_pair(namespace@, peer.id)) by {
                        if self.contains_pair(namespace@, peer.id) {
                            let j = choose|j: int|
                                0 <= j < self.rows@.len() && (#[trigger] self.rows@[j]).namespace@
                                    == namespace@ && row_has_peer(self.rows@[j], peer.id);
                        }
                    }
                }
            },
        }
    }

    /// When the row for `ns` does not list `peer`, the pair is absent from
    /// the whole index.
    proof fn lemma_peer_not_listed(&self, i: int, peer: PeerId, ns: Seq<u8>)
        requires
            self.wf(),
            0 <= i < self.rows@.len(),
            self.rows@[i].namespace@ == ns,
            !row_has_peer(self.rows@[i], peer.id),
        ensures
            !self.contains_pair(ns, peer.id),
    {
        if self.contains_pair(ns, peer.id) {
            let j = choose|j: int|
                0 <= j < self.rows@.len() && (#[trigger] self.rows@[j]).namespace@ == ns
                    && row_has_peer(self.rows@[j], peer.id);
            if j < i {
                assert(self.rows@[j].namespace@ != self.rows@[i].namespace@);
            } else if j > i {
                assert(self.rows@[i].namespace@ != self.rows@[j].namespace@);
            }
        }
    }

    /// Removing the single-peer row `i` drops exactly the pair `(ns, peer.id)`.
    proof fn lemma_dropped_row(&self, pre: NamespaceIndex, i: int, peer: PeerId, ns: Seq<u8>)
        requires
            pre.wf(),
            0 <= i < pre.rows@.len(),
            pre.rows@[i].namespace@ == ns,
            pre.rows@[i].peers@.len() == 1,
            pre.rows@[i].peers@[0].id == peer.id,
            self.rows@.len() == pre.rows@.len() - 1,
            forall|j: int|
                0 <= j < pre.rows@.len() - 1 ==> #[trigger] self.rows@[j] == pre.rows@.remove(i)[j],
        ensures
            self.wf(),
            forall|n: Seq<u8>, p: u64|
                #![trigger self.contains_pair(n, p)]
                #![trigger pre.contains_pair(n, p)]
                self.contains_pair(n, p) <==> (pre.contains_pair(n, p) && !(n == ns && p
                    == peer.id)),
    {
        let rows = self.rows@;
        let old_rows = pre.rows@;
        assert(forall|j: int| 0 <= j < i ==> #[trigger] rows[j] == old_rows[j]);
        assert(forall|j: int| i <= j < rows.len() ==> #[trigger] rows[j] == old_rows[j + 1]);

        assert forall|a: int, b: int| 0 <= a < b < rows.len() implies (#[trigger] rows[a]).namespace@
            != (#[trigger] rows[b]).namespace@ by {
            let oa = if a < i { a } else { a + 1 };
            let ob = if b < i { b } else { b + 1 };
            assert(rows[a] == old_rows[oa] && rows[b] == old_rows[ob]);
        }
        assert forall|j: int| 0 <= j < rows.len() implies row_wf(#[trigger] rows[j]) by {
            let oj = if j < i { j } else { j + 1 };
            assert(rows[j] == old_rows[oj]);
        }

        assert forall|n: Seq<u8>, p: u64|
            #![trigger self.contains_pair(n, p)]
            #![trigger pre.contains_pair(n, p)]
            self.contains_pair(n, p) <==> (pre.contains_pair(n, p) && !(n == ns && p
                == peer.id)) by {
            if pre.contains_pair(n, p) && !(n == ns && p == peer.id) {
                let j = choose|j: int|
                    0 <= j < old_rows.len() && (#[trigger] old_rows[j]).namespace@ == n
                        && row_has_peer(old_rows[j], p);
                if j == i {
                    let k = choose|k: int|
                        0 <= k < old_rows[i].peers@.len() && (#[trigger] old_rows[i].peers@[k]).id
                            == p;
                    assert(k == 0);
                    assert(n == ns && p == peer.id);
                } else {
                    let nj = if j < i { j } else { j - 1 };
                    assert(rows[nj] == old_rows[j]);
                    assert(self.contains_pair(n, p));
                }
            }
            if self.contains_pair(n, p) {
                let j = choose|j: int|
                    0 <= j < rows.len() && (#[trigger] rows[j]).namespace@ == n && row_has_peer(
                        rows[j],
                        p,
                    );
                let oj = if j < i { j } else { j + 1 };
                assert(rows[j] == old_rows[oj]);
                assert(pre.contains_pair(n, p));
                if n == ns && p == peer.id {
                    assert(old_rows[oj].namespace@ == old_rows[i].namespace@);
                    if oj < i {
                        assert(old_rows[oj].namespace@ != old_rows[i].namespace@);
                    } else {
                        assert(old_rows[i].namespace@ != old_rows[oj].namespace@);
                    }
                }
            }
        }
    }

    /// Removing `peer` from the multi-peer row `i` drops exactly the pair
    /// `(ns, peer.id)`.
    proof fn lemma_shrunk_row(&self, pre: NamespaceIndex, i: int, k: int, peer: PeerId, ns: Seq<u8>)
        requires
            pre.wf(),
            0 <= i < pre.rows@.len(),
            pre.rows@[i].namespace@ == ns,
            0 <= k < pre.rows@[i].peers@.len(),
            pre.rows@[i].peers@[k].id == peer.id,
            pre.rows@[i].peers@.len() > 1,
            self.rows@.len() == pre.rows@.len(),
            forall|j: int|
                0 <= j < pre.rows@.len() - 1 ==> #[trigger] self.rows@[j] == pre.rows@.remove(i)[j],
            self.rows@[pre.rows@.len() - 1].namespace@ == ns,
            self.rows@[pre.rows@.len() - 1].peers@ == pre.rows@[i].peers@.remove(k),
        ensures
            self.wf(),
            forall|n: Seq<u8>, p: u64|
                #![trigger self.contains_pair(n, p)]
                #![trigger pre.contains_pair(n, p)]
                self.contains_pair(n, p) <==> (pre.contains_pair(n, p) && !(n == ns && p
                    == peer.id)),
    {
        let rows = self.rows@;
        let old_rows = pre.rows@;
        let last = rows.len() - 1;
        let new_row = rows[last];
        let old_peers = old_rows[i].peers@;
        let new_peers = new_row.peers@;
        assert(forall|j: int| 0 <= j < i ==> #[trigger] rows[j] == old_rows[j]);
        assert(forall|j: int| i <= j < last ==> #[trigger] rows[j] == old_rows[j + 1]);
        assert(forall|a: int| 0 <= a < k ==> #[trigger] new_peers[a] == old_peers[a]);
        assert(forall|a: int| k <= a < new_peers.len() ==> #[trigger] new_peers[a] == old_peers[a
            + 1]);

        assert forall|a: int, b: int| 0 <= a < b < rows.len() implies (#[trigger] rows[a]).namespace@
            != (#[trigger] rows[b]).namespace@ by {
            let oa = if a < i { a } else { a + 1 };
            if b < last {
                let ob = if b < i { b } else { b + 1 };
                assert(rows[a] == old_rows[oa] && rows[b] == old_rows[ob]);
            } else {
                assert(rows[a] == old_rows[oa]);
                if oa < i {
                    assert(old_rows[oa].namespace@ != old_rows[i].namespace@);
                } else {
                    assert(old_rows[i].namespace@ != old_rows[oa].namespace@);
                }
            }
        }

        assert forall|j: int| 0 <= j < rows.len() implies row_wf(#[trigger] rows[j]) by {
            if j < last {
                let oj = if j < i { j } else { j + 1 };
                assert(rows[j] == old_rows[oj]);
            } else {
                assert(new_peers.len() == old_peers.len() - 1);
                assert forall|a: int, b: int|
                    0 <= a < b < new_peers.len() implies (#[trigger] new_peers[a]).id
                    != (#[trigger] new_peers[b]).id by {
                    let oa = if a < k { a } else { a + 1 };
                    let ob = if b < k { b } else { b + 1 };
                    assert(new_peers[a] == old_peers[oa] && new_peers[b] == old_peers[ob]);
                }
            }
        }

        assert forall|n: Seq<u8>, p: u64|
            #![trigger self.contains_pair(n, p)]
            #![trigger pre.contains_pair(n, p)]
            self.contains_pair(n, p) <==> (pre.contains_pair(n, p) && !(n == ns && p
                == peer.id)) by {
            if pre.contains_pair(n, p) && !(n == ns && p == peer.id) {
                let j = choose|j: int|
                    0 <= j < old_rows.len() && (#[trigger] old_rows[j]).namespace@ == n
                        && row_has_peer(old_rows[j], p);
                if j == i {
                    assert(n == ns);
                    let a = choose|a: int|
                        0 <= a < old_peers.len() && (#[trigger] old_peers[a]).id == p;
                    assert(a != k);
                    let na = if a < k { a } else { a - 1 };
                    assert(new_peers[na] == old_peers[a]);
                    assert(row_has_peer(new_row, p));
                    assert(self.contains_pair(n, p));
                } else {
                    let nj = if j < i { j } else { j - 1 };
                    assert(rows[nj] == old_rows[j]);
                    assert(self.contains_pair(n, p));
                }
            }
            if self.contains_pair(n, p) {
                let j = choose|j: int|
                    0 <= j < rows.len() && (#[trigger] rows[j]).namespace@ == n && row_has_peer(
                        rows[j],
                        p,
                    );
                if j < last {
                    let oj = if j < i { j } else { j + 1 };
                    assert(rows[j] == old_rows[oj]);
                    assert(pre.contains_pair(n, p));
                    if n == ns && p == peer.id {
                        assert(old_rows[oj].namespace@ == old_rows[i].namespace@);
                        if oj < i {
                            assert(old_rows[oj].namespace@ != old_rows[i].namespace@);
                        } else {
                            assert(old_rows[i].namespace@ != old_rows[oj].namespace@);
                        }
                    }
                } else {
                    assert(n == ns);
                    let a = choose|a: int|
                        0 <= a < new_peers.len() && (#[trigger] new_peers[a]).id == p;
                    let oa = if a < k { a } else { a + 1 };
                    assert(new_peers[a] == old_peers[oa]);
                    assert(row_has_peer(old_rows[i], p));
                    assert(pre.contains_pair(n, p));
                    if p == peer.id {
                        assert(old_peers[oa].id == old_peers[k].id);
                        if oa < k {
                            assert(old_peers[oa].id != old_peers[k].id);
                        } else {
                            assert(old_peers[k].id != old_peers[oa].id);
                        }
                    }
                }
            }
        }
    }

    /// Removing row `i` and pushing it back with `peer` appended adds exactly
    /// the pair `(ns, peer.id)` to the index.
    proof fn lemma_grew_row(&self, pre: NamespaceIndex, i: int, peer: PeerId, ns: Seq<u8>)
        requires
            pre.wf(),
            !pre.contains_pair(ns, peer.id),
            0 <= i < pre.rows@.len(),
            pre.rows@[i].namespace@ == ns,
            self.rows@.len() == pre.rows@.len(),
            forall|j: int|
                0 <= j < pre.rows@.len() - 1 ==> #[trigger] self.rows@[j] == pre.rows@.remove(i)[j],
            self.rows@[pre.rows@.len() - 1].namespace@ == ns,
            self.rows@[pre.rows@.len() - 1].peers@ == pre.rows@[i].peers@.push(peer),
        ensures
            self.wf(),
            forall|n: Seq<u8>, p: u64|
                #![trigger self.contains_pair(n, p)]
                #![trigger pre.contains_pair(n, p)]
                self.contains_pair(n, p) <==> (pre.contains_pair(n, p) || (n == ns && p
                    == peer.id)),
    {
        let rows = self.rows@;
        let old_rows = pre.rows@;
        let last = rows.len() - 1;
        let new_row = rows[last];
        assert(forall|j: int| 0 <= j < i ==> #[trigger] rows[j] == old_rows[j]);
        assert(forall|j: int| i <= j < last ==> #[trigger] rows[j] == old_rows[j + 1]);

        assert(!row_has_peer(old_rows[i], peer.id)) by {
            if row_has_peer(old_rows[i], peer.id) {
                assert(pre.contains_pair(ns, peer.id));
            }
        }

        assert forall|a: int, b: int| 0 <= a < b < rows.len() implies (#[trigger] rows[a]).namespace@
            != (#[trigger] rows[b]).namespace@ by {
            let oa = if a < i { a } else { a + 1 };
            if b < last {
                let ob = if b < i { b } else { b + 1 };
                assert(rows[a] == old_rows[oa] && rows[b] == old_rows[ob]);
            } else {
                assert(rows[a] == old_rows[oa]);
                if oa < i {
                    assert(old_rows[oa].namespace@ != old_rows[i].namespace@);
                } else {
                    assert(old_rows[i].namespace@ != old_rows[oa].namespace@);
                }
            }
        }

        assert forall|j: int| 0 <= j < rows.len() implies row_wf(#[trigger] rows[j]) by {
            if j < last {
                let oj = if j < i { j } else { j + 1 };
                assert(rows[j] == old_rows[oj]);
            } else {
                assert forall|a: int, b: int|
                    0 <= a < b < new_row.peers@.len() implies (#[trigger] new_row.peers@[a]).id
                    != (#[trigger] new_row.peers@[b]).id by {
                    if b < new_row.peers@.len() - 1 {
                        assert(new_row.peers@[a] == old_rows[i].peers@[a]);
                        assert(new_row.peers@[b] == old_rows[i].peers@[b]);
                    } else {
                        assert(new_row.peers@[a] == old_rows[i].peers@[a]);
                        assert(new_row.peers@[b] == peer);
                        if new_row.peers@[a].id == peer.id {
                            assert(row_has_peer(old_rows[i], peer.id));
                        }
                    }
                }
            }
        }

        assert forall|n: Seq<u8>, p: u64|
            #![trigger self.contains_pair(n, p)]
            #![trigger pre.contains_pair(n, p)]
            self.contains_pair(n, p) <==> (pre.contains_pair(n, p) || (n == ns && p
                == peer.id)) by {
            if pre.contains_pair(n, p) {
                let j = choose|j: int|
                    0 <= j < old_rows.len() && (#[trigger] old_rows[j]).namespace@ == n
                        && row_has_peer(old_rows[j], p);
                if j == i {
                    let k = choose|k: int|
                        0 <= k < old_rows[i].peers@.len() && (#[trigger] old_rows[i].peers@[k]).id
                            == p;
                    assert(new_row.peers@[k].id == p);
                    assert(row_has_peer(new_row, p));
                    assert(self.contains_pair(n, p));
                } else {
                    let nj = if j < i { j } else { j - 1 };
                    assert(rows[nj] == old_rows[j]);
                    assert(self.contains_pair(n, p));
                }
            }
            if n == ns && p == peer.id {
                assert(new_row.peers@[new_row.peers@.len() - 1].id == p);
                assert(row_has_peer(new_row, p));
                assert(self.contains_pair(n, p));
            }
            if self.contains_pair(n, p) {
                let j = choose|j: int|
                    0 <= j < rows.len() && (#[trigger] rows[j]).namespace@ == n && row_has_peer(
                        rows[j],
                        p,
                    );
                if j < last {
                    let oj = if j < i { j } else { j + 1 };
                    assert(rows[j] == old_rows[oj]);
                    assert(pre.contains_pair(n, p));
                } else {
                    let k = choose|k: int|
                        0 <= k < new_row.peers@.len() && (#[trigger] new_row.peers@[k]).id == p;
                    if k < new_row.peers@.len() - 1 {
                        assert(old_rows[i].peers@[k].id == p);
                        assert(row_has_peer(old_rows[i], p));
                        assert(pre.contains_pair(n, p));
                    } else {
                        assert(p == peer.id);
                    }
                }
            }
        }
    }

    /// Pushing a fresh single-peer row adds exactly the pair `(ns, peer.id)`
    /// to the index.
    proof fn lemma_new_row(&self, pre: NamespaceIndex, peer: PeerId, ns: Seq<u8>)
        requires
            pre.wf(),
            forall|j: int|
                0 <= j < pre.rows@.len() ==> (#[trigger] pre.rows@[j]).namespace@ != ns,
            self.rows@.len() == pre.rows@.len() + 1,
            forall|j: int| 0 <= j < pre.rows@.len() ==> #[trigger] self.rows@[j] == pre.rows@[j],
            self.rows@[pre.rows@.len() as int].namespace@ == ns,
            self.rows@[pre.rows@.len() as int].peers@.len() == 1,
            self.rows@[pre.rows@.len() as int].peers@[0] == peer,
        ensures
            self.wf(),
            forall|n: Seq<u8>, p: u64|
                #![trigger self.contains_pair(n, p)]
                #![trigger pre.contains_pair(n, p)]
                self.contains_pair(n, p) <==> (pre.contains_pair(n, p) || (n == ns && p
                    == peer.id)),
    {
        let rows = self.rows@;
        let old_rows = pre.rows@;
        let last = rows.len() - 1;

        assert forall|n: Seq<u8>, p: u64|
            #![trigger self.contains_pair(n, p)]
            #![trigger pre.contains_pair(n, p)]
            self.contains_pair(n, p) <==> (pre.contains_pair(n, p) || (n == ns && p
                == peer.id)) by {
            if pre.contains_pair(n, p) {
                let j = choose|j: int|
                    0 <= j < old_rows.len() && (#[trigger] old_rows[j]).namespace@ == n
                        && row_has_peer(old_rows[j], p);
                assert(rows[j] == old_rows[j]);
                assert(self.contains_pair(n, p));
            }
            if n == ns && p == peer.id {
                assert(rows[last].peers@[0].id == p);
                assert(row_has_peer(rows[last], p));
                assert(self.contains_pair(n, p));
            }
            if self.contains_pair(n, p) {
                let j = choose|j: int|
                    0 <= j < rows.len() && (#[trigger] rows[j]).namespace@ == n && row_has_peer(
                        rows[j],
                        p,
                    );
                if j < last {
                    assert(rows[j] == old_rows[j]);
                    assert(pre.contains_pair(n, p));
                } else {
                    let k = choose|k: int|
                        0 <= k < rows[last].peers@.len() && (#[trigger] rows[last].peers@[k]).id
                            == p;
                    assert(rows[last].peers@[k] == peer);
                }
            }
        }
    }
}

} // verus!
