//! Laws of the registration store, stated and proved over its mathematical
//! model.
//!
//! Each public proof function here states a property that holds of every
//! store the operations can produce: idempotence of removal, uniqueness of
//! registrations, the TTL bound on discovery, completeness of pagination,
//! and the outcome of interleaved operations on the same or distinct keys.

use vstd::prelude::*;

use crate::store::{
    discover_match, discoverable, has_reg_in, is_live, key_matches, lemma_without_pair_absent,
    lemma_without_pair_no_match, reg_deadline, without_pair, Store,
};
use crate::types::RegV;

verus! {

/// Ordinals in `s` are strictly increasing, as the store keeps them.
pub open spec fn sorted_by_ordinal(s: Seq<RegV>) -> bool {
    forall|i: int, j: int|
        0 <= i < j < s.len() ==> (#[trigger] s[i]).ordinal < (#[trigger] s[j]).ordinal
}

/// The records of `d` whose ordinal lies strictly after `t`, order kept.
pub open spec fn after_ordinal(d: Seq<RegV>, t: u64) -> Seq<RegV>
    decreases d.len(),
{
    if d.len() == 0 {
        Seq::empty()
    } else {
        let rest = after_ordinal(d.drop_last(), t);
        if d.last().ordinal > t {
            rest.push(d.last())
        } else {
            rest
        }
    }
}

/// Law: unregistering a pair that holds no registration is a no-op on the
/// table. Together with `Store::unregister`'s contract — the new table is
/// `without_pair` of the old — an unregister of an absent entry returns the
/// table unchanged.
pub proof fn law_unregister_absent_is_noop(pre: Store, post: Store, peer: u64, ns: Seq<u8>)
    requires
        !pre.has_reg(peer, ns),
        post.regs() == without_pair(pre.regs(), peer, ns),
    ensures
        post.regs() == pre.regs(),
{
    lemma_without_pair_absent(pre.regs(), peer, ns);
}

/// Law: registering the same pair again replaces the record wholly, so two
/// successive registrations of one pair leave exactly the table that the
/// second alone would have left — nothing of the first record survives, and
/// no other record is disturbed.
pub proof fn law_repeated_register_refreshes(
    s: Seq<RegV>,
    peer: u64,
    ns: Seq<u8>,
    first: RegV,
    second: RegV,
)
    requires
        key_matches(first, peer, ns),
        key_matches(second, peer, ns),
    ensures
        without_pair(without_pair(s, peer, ns).push(first), peer, ns).push(second) == without_pair(
            s,
            peer,
            ns,
        ).push(second),
{
    let base = without_pair(s, peer, ns);
    lemma_without_pair_push_match(base, peer, ns, first);
    lemma_without_pair_no_match(s, peer, ns);
    lemma_without_pair_absent(base, peer, ns);
}

/// Law: identical registration requests at two instants produce records that
/// agree in everything but the ordinal and the registration time — repeating
/// a registration refreshes the TTL clock without otherwise changing the
/// record.
pub proof fn law_refresh_changes_only_clock(
    pre1: Store,
    pre2: Store,
    peer: u64,
    ns: Seq<u8>,
    addrs: Seq<Seq<u8>>,
    ttl: Option<u64>,
    t1: u64,
    t2: u64,
)
    requires
        pre1.config == pre2.config,
    ensures
        ({
            let r1 = pre1.fresh_record(peer, ns, addrs, ttl, t1);
            let r2 = pre2.fresh_record(peer, ns, addrs, ttl, t2);
            &&& r1.peer == r2.peer
            &&& r1.ns == r2.ns
            &&& r1.addrs == r2.addrs
            &&& r1.ttl == r2.ttl
            &&& r1.registered_at == t1
            &&& r2.registered_at == t2
        }),
{
}

/// Law: at most one registration exists per `(peer, namespace)` pair — two
/// positions of a well-formed store holding the same pair are the same
/// position.
pub proof fn law_at_most_one_registration(st: Store, i: int, j: int)
    requires
        st.wf(),
        0 <= i < st.regs().len(),
        0 <= j < st.regs().len(),
        st.regs()[i].peer == st.regs()[j].peer,
        st.regs()[i].ns == st.regs()[j].ns,
    ensures
        i == j,
{
    if i < j {
        assert(!(st.regs()[i].peer == st.regs()[j].peer && st.regs()[i].ns == st.regs()[j].ns));
    } else if j < i {
        assert(!(st.regs()[j].peer == st.regs()[i].peer && st.regs()[j].ns == st.regs()[i].ns));
    }
}

/// Law: the timer queue and the table agree exactly — every pending timer
/// belongs to a current registration, at that registration's deadline, and
/// every registration has its timer. Renewal replaces record and timer in
/// one transaction, so no stale timer survives to evict a since-renewed
/// registration.
pub proof fn law_no_stale_timer(st: Store, o: u64, d: u64)
    requires
        st.wf(),
    ensures
        st.timers.has_timer(o, d) ==> exists|i: int|
            0 <= i < st.regs().len() && (#[trigger] st.regs()[i]).ordinal == o
                && crate::store::deadline_u64(st.regs()[i]) == d,
        forall|i: int|
            0 <= i < st.regs().len() ==> st.timers.has_timer(
                (#[trigger] st.regs()[i]).ordinal,
                crate::store::deadline_u64(st.regs()[i]),
            ),
{
}

/// Every record a discovery query answers comes from the table and satisfies
/// the query, and every table record satisfying the query is answered.
pub proof fn lemma_discoverable_members(s: Seq<RegV>, ns: Option<Seq<u8>>, now: u64, cursor: u64)
    ensures
        ({
            let d = discoverable(s, ns, now, cursor);
            &&& forall|k: int|
                0 <= k < d.len() ==> discover_match(#[trigger] d[k], ns, now, cursor) && s.contains(
                    d[k],
                )
            &&& forall|i: int|
                0 <= i < s.len() && discover_match(#[trigger] s[i], ns, now, cursor) ==> d.contains(
                    s[i],
                )
        }),
    decreases s.len(),
{
    let d = discoverable(s, ns, now, cursor);
    if s.len() == 0 {
    } else {
        let dl = s.drop_last();
        lemma_discoverable_members(dl, ns, now, cursor);
        let rest = discoverable(dl, ns, now, cursor);
        assert forall|k: int|
            0 <= k < d.len() implies discover_match(#[trigger] d[k], ns, now, cursor)
            && s.contains(d[k]) by {
            if discover_match(s.last(), ns, now, cursor) {
                assert(d == rest.push(s.last()));
                if k < rest.len() {
                    assert(d[k] == rest[k]);
                    let m = choose|m: int| 0 <= m < dl.len() && dl[m] == rest[k];
                    assert(s[m] == d[k]);
                } else {
                    assert(d[k] == s.last());
                    assert(s[s.len() - 1] == s.last());
                }
            } else {
                assert(d == rest);
                let m = choose|m: int| 0 <= m < dl.len() && dl[m] == d[k];
                assert(s[m] == d[k]);
            }
        }
        assert forall|i: int|
            0 <= i < s.len() && discover_match(#[trigger] s[i], ns, now, cursor) implies d.contains(
            s[i],
        ) by {
            if i < s.len() - 1 {
                assert(dl[i] == s[i]);
                assert(rest.contains(s[i]));
                let m = choose|m: int| 0 <= m < rest.len() && rest[m] == s[i];
                if discover_match(s.last(), ns, now, cursor) {
                    assert(d[m] == s[i]);
                } else {
                    assert(d[m] == s[i]);
                }
            } else {
                assert(s[i] == s.last());
                assert(d == rest.push(s.last()));
                assert(d[d.len() - 1] == s[i]);
            }
        }
    }
}

/// Law: a registration expired at `now` is absent from every discovery
/// answer at `now`, and a live one matching the query is present — discovery
/// serves a record exactly while its TTL has not elapsed.
pub proof fn law_ttl_bound(
    s: Seq<RegV>,
    ns: Option<Seq<u8>>,
    now: u64,
    cursor: u64,
    r: RegV,
)
    ensures
        now >= reg_deadline(r) ==> !discoverable(s, ns, now, cursor).contains(r),
        s.contains(r) && is_live(r, now) && (ns is Some ==> r.ns == ns->0) && r.ordinal > cursor
            ==> discoverable(s, ns, now, cursor).contains(r),
{
    lemma_discoverable_members(s, ns, now, cursor);
    let d = discoverable(s, ns, now, cursor);
    if now >= reg_deadline(r) {
        if d.contains(r) {
            let k = choose|k: int| 0 <= k < d.len() && d[k] == r;
            assert(discover_match(d[k], ns, now, cursor));
        }
    }
    if s.contains(r) && is_live(r, now) && (ns is Some ==> r.ns == ns->0) && r.ordinal > cursor {
        let i = choose|i: int| 0 <= i < s.len() && s[i] == r;
        assert(discover_match(s[i], ns, now, cursor));
    }
}

/// The records a query answers keep the table's strict ordinal order and lie
/// strictly after the cursor.
pub proof fn lemma_discoverable_sorted(s: Seq<RegV>, ns: Option<Seq<u8>>, now: u64, cursor: u64)
    requires
        sorted_by_ordinal(s),
    ensures
        sorted_by_ordinal(discoverable(s, ns, now, cursor)),
        forall|k: int|
            0 <= k < discoverable(s, ns, now, cursor).len() ==> (#[trigger] discoverable(
                s,
                ns,
                now,
                cursor,
            )[k]).ordinal > cursor,
    decreases s.len(),
{
    let d = discoverable(s, ns, now, cursor);
    if s.len() == 0 {
    } else {
        let dl = s.drop_last();
        assert(sorted_by_ordinal(dl)) by {
            assert(forall|i: int, j: int|
                0 <= i < j < dl.len() ==> (#[trigger] dl[i]).ordinal < (#[trigger] dl[j]).ordinal)
                by {
                assert(forall|i: int| 0 <= i < dl.len() ==> dl[i] == s[i]);
            }
        }
        lemma_discoverable_sorted(dl, ns, now, cursor);
        lemma_discoverable_members(dl, ns, now, cursor);
        let rest = discoverable(dl, ns, now, cursor);
        if discover_match(s.last(), ns, now, cursor) {
            assert(d == rest.push(s.last()));
            assert forall|i: int, j: int|
                0 <= i < j < d.len() implies (#[trigger] d[i]).ordinal
                < (#[trigger] d[j]).ordinal by {
                if j < d.len() - 1 {
                    assert(d[i] == rest[i] && d[j] == rest[j]);
                } else {
                    assert(d[j] == s.last());
                    assert(d[i] == rest[i]);
                    let m = choose|m: int| 0 <= m < dl.len() && dl[m] == rest[i];
                    assert(s[m].ordinal < s[s.len() - 1].ordinal);
                }
            }
            assert forall|k: int| 0 <= k < d.len() implies (#[trigger] d[k]).ordinal > cursor by {
                if k < d.len() - 1 {
                    assert(d[k] == rest[k]);
                }
            }
        } else {
            assert(d == rest);
        }
    }
}

/// Advancing the cursor from `c` to `t >= c` filters the answer to ordinals
/// after `t`.
proof fn lemma_cursor_advance(s: Seq<RegV>, ns: Option<Seq<u8>>, now: u64, c: u64, t: u64)
    requires
        c <= t,
    ensures
        discoverable(s, ns, now, t) == after_ordinal(discoverable(s, ns, now, c), t),
    decreases s.len(),
{
    if s.len() == 0 {
    } else {
        let dl = s.drop_last();
        lemma_cursor_advance(dl, ns, now, c, t);
        let d_c = discoverable(s, ns, now, c);
        let rest_c = discoverable(dl, ns, now, c);
        if discover_match(s.last(), ns, now, c) {
            assert(d_c == rest_c.push(s.last()));
            assert(d_c.drop_last() =~= rest_c);
            assert(d_c.last() == s.last());
        } else {
            assert(d_c == rest_c);
            assert(!discover_match(s.last(), ns, now, t));
        }
    }
}

/// In a sorted answer whose ordinals all lie after `c`, cutting at the
/// ordinal of position `k - 1` leaves exactly the suffix from `k`.
proof fn lemma_after_ordinal_skip(d: Seq<RegV>, c: u64, k: int)
    requires
        sorted_by_ordinal(d),
        forall|i: int| 0 <= i < d.len() ==> (#[trigger] d[i]).ordinal > c,
        0 <= k <= d.len(),
    ensures
        after_ordinal(
            d,
            if k == 0 {
                c
            } else {
                d[k - 1].ordinal
            },
        ) == d.skip(k),
    decreases d.len(),
{
    let t = if k == 0 {
        c
    } else {
        d[k - 1].ordinal
    };
    if d.len() == 0 {
        assert(after_ordinal(d, t) =~= d.skip(k));
    } else {
        let dl = d.drop_last();
        assert(sorted_by_ordinal(dl) && forall|i: int|
            0 <= i < dl.len() ==> (#[trigger] dl[i]).ordinal > c) by {
            assert(forall|i: int| 0 <= i < dl.len() ==> dl[i] == d[i]);
        }
        if k == d.len() {
            assert(t == d.last().ordinal);
            lemma_after_ordinal_all_cut(d, t);
            assert(d.skip(k) =~= Seq::<RegV>::empty());
        } else {
            lemma_after_ordinal_skip(dl, c, k);
            assert(dl.skip(k) =~= d.skip(k).drop_last());
            assert(d.last().ordinal > t) by {
                if k > 0 {
                    assert(d[k - 1].ordinal < d[d.len() - 1].ordinal);
                }
            }
            assert(after_ordinal(d, t) == after_ordinal(dl, t).push(d.last()));
            assert(d.skip(k).drop_last().push(d.last()) =~= d.skip(k));
        }
    }
}

/// Cutting at an ordinal no smaller than every ordinal of `d` leaves
/// nothing.
proof fn lemma_after_ordinal_all_cut(d: Seq<RegV>, t: u64)
    requires
        forall|i: int| 0 <= i < d.len() ==> (#[trigger] d[i]).ordinal <= t,
    ensures
        after_ordinal(d, t) == Seq::<RegV>::empty(),
    decreases d.len(),
{
    if d.len() == 0 {
        assert(after_ordinal(d, t) =~= Seq::<RegV>::empty());
    } else {
        let dl = d.drop_last();
        assert(forall|i: int| 0 <= i < dl.len() ==> (#[trigger] dl[i]).ordinal <= t) by {
            assert(forall|i: int| 0 <= i < dl.len() ==> dl[i] == d[i]);
        }
        lemma_after_ordinal_all_cut(dl, t);
    }
}

/// Law: paginated discovery is complete and exact. A page of `k` records and
/// a second query resumed at the page's last ordinal partition the full
/// answer: the answer at the original cursor is the page followed by the
/// answer at the new cursor, so repeated queries reconstruct every matching
/// registration exactly once, whatever the page size.
pub proof fn law_discover_pagination_complete(
    s: Seq<RegV>,
    ns: Option<Seq<u8>>,
    now: u64,
    cursor: u64,
    k: int,
)
    requires
        sorted_by_ordinal(s),
        0 <= k <= discoverable(s, ns, now, cursor).len(),
    ensures
        ({
            let found = discoverable(s, ns, now, cursor);
            let next = if k == 0 {
                cursor
            } else {
                found[k - 1].ordinal
            };
            &&& discoverable(s, ns, now, next) == found.skip(k)
            &&& found == found.take(k) + discoverable(s, ns, now, next)
        }),
{
    let found = discoverable(s, ns, now, cursor);
    let next = if k == 0 {
        cursor
    } else {
        found[k - 1].ordinal
    };
    lemma_discoverable_sorted(s, ns, now, cursor);
    assert(cursor <= next) by {
        if k > 0 {
            assert(found[k - 1].ordinal > cursor);
        }
    }
    lemma_cursor_advance(s, ns, now, cursor, next);
    lemma_after_ordinal_skip(found, cursor, k);
    assert(found =~= found.take(k) + found.skip(k));
}

/// `without_pair` keeps every record of another pair.
pub proof fn lemma_without_pair_keeps(s: Seq<RegV>, peer: u64, ns: Seq<u8>, r: RegV)
    requires
        s.contains(r),
        !key_matches(r, peer, ns),
    ensures
        without_pair(s, peer, ns).contains(r),
    decreases s.len(),
{
    let d = without_pair(s, peer, ns);
    let i = choose|i: int| 0 <= i < s.len() && s[i] == r;
    if i == s.len() - 1 {
        assert(s.last() == r);
        assert(d == without_pair(s.drop_last(), peer, ns).push(r));
        assert(d[d.len() - 1] == r);
    } else {
        let dl = s.drop_last();
        assert(dl[i] == r);
        lemma_without_pair_keeps(dl, peer, ns, r);
        let rest = without_pair(dl, peer, ns);
        let m = choose|m: int| 0 <= m < rest.len() && rest[m] == r;
        if key_matches(s.last(), peer, ns) {
            assert(d == rest);
        } else {
            assert(d == rest.push(s.last()));
            assert(d[m] == r);
        }
    }
}

/// Law: registrations of distinct `(peer, namespace)` pairs do not disturb
/// each other — after two successful registrations on distinct pairs, in
/// either serialization order, both records are in the table.
pub proof fn law_distinct_registrations_coexist(
    s: Seq<RegV>,
    first: RegV,
    second: RegV,
)
    requires
        !(first.peer == second.peer && first.ns == second.ns),
    ensures
        ({
            let s1 = without_pair(s, first.peer, first.ns).push(first);
            let s2 = without_pair(s1, second.peer, second.ns).push(second);
            &&& s2.contains(first)
            &&& s2.contains(second)
        }),
{
    let s1 = without_pair(s, first.peer, first.ns).push(first);
    assert(s1[s1.len() - 1] == first);
    assert(s1.contains(first));
    lemma_without_pair_keeps(s1, second.peer, second.ns, first);
    let cut = without_pair(s1, second.peer, second.ns);
    let s2 = cut.push(second);
    let m = choose|m: int| 0 <= m < cut.len() && cut[m] == first;
    assert(s2[m] == first);
    assert(s2[s2.len() - 1] == second);
}

/// Law: concurrent operations on one `(peer, namespace)` pair converge to
/// the deterministic state of whichever was serialized last — after
/// register-then-unregister the pair is absent, after unregister-then-
/// register exactly the registered record is present; there is no state in
/// between and no lost update.
pub proof fn law_same_pair_last_write_wins(s: Seq<RegV>, peer: u64, ns: Seq<u8>, record: RegV)
    requires
        key_matches(record, peer, ns),
    ensures
        without_pair(without_pair(s, peer, ns).push(record), peer, ns) == without_pair(
            s,
            peer,
            ns,
        ),
        !has_reg_in(without_pair(without_pair(s, peer, ns).push(record), peer, ns), peer, ns),
        without_pair(without_pair(s, peer, ns), peer, ns).push(record) == without_pair(
            s,
            peer,
            ns,
        ).push(record),
        has_reg_in(without_pair(s, peer, ns).push(record), peer, ns),
{
    let base = without_pair(s, peer, ns);
    lemma_without_pair_push_match(base, peer, ns, record);
    lemma_without_pair_no_match(s, peer, ns);
    lemma_without_pair_absent(base, peer, ns);
    let reg = base.push(record);
    assert(reg[reg.len() - 1] == record);
    assert(key_matches(reg[reg.len() - 1], peer, ns));
}

/// Dropping a pair from a table whose last record belongs to it drops the
/// last record and the pair's records before it.
proof fn lemma_without_pair_push_match(s: Seq<RegV>, peer: u64, ns: Seq<u8>, r: RegV)
    requires
        key_matches(r, peer, ns),
    ensures
        without_pair(s.push(r), peer, ns) == without_pair(s, peer, ns),
{
    assert(s.push(r).drop_last() =~= s);
    assert(s.push(r).last() == r);
}

} // verus!
