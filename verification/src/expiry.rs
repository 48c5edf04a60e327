//! Time-ordered queue of registration expiry deadlines.
//!
//! The store keeps one timer per registration, keyed by the registration's
//! ordinal. A single waiting process asks for the next deadline, sleeps until
//! it, and then has the store evict everything that is due. Renewal cancels
//! the old timer and schedules the new one inside the same store transaction,
//! so a stale timer can never fire against a renewed registration.

use vstd::prelude::*;

verus! {

/// One pending expiry: the deadline (in seconds) and the ordinal of the
/// registration it belongs to.
#[derive(Clone, Copy, PartialEq, Eq, Structural, Debug)]
pub struct TimerEntry {
    pub deadline: u64,
    pub ordinal: u64,
}

/// Deadlines ordered soonest first.
#[derive(Debug)]
pub struct ExpiryQueue {
    pub slots: Vec<TimerEntry>,
}

impl ExpiryQueue {
    /// Well-formedness: slots are sorted by deadline and no ordinal appears
    /// twice.
    pub open spec fn wf(self) -> bool {
        &&& forall|a: int, b: int|
            0 <= a < b < self.slots@.len() ==> (#[trigger] self.slots@[a]).deadline
                <= (#[trigger] self.slots@[b]).deadline
        &&& forall|a: int, b: int|
            0 <= a < b < self.slots@.len() ==> (#[trigger] self.slots@[a]).ordinal
                != (#[trigger] self.slots@[b]).ordinal
    }

    /// A timer for `ordinal` firing at `deadline` is pending.
    pub open spec fn has_timer(self, ordinal: u64, deadline: u64) -> bool {
        exists|i: int|
            0 <= i < self.slots@.len() && #[trigger] self.slots@[i] == (TimerEntry {
                deadline,
                ordinal,
            })
    }

    /// Some timer for `ordinal` is pending.
    pub open spec fn has_ordinal(self, ordinal: u64) -> bool {
        exists|i: int| 0 <= i < self.slots@.len() && (#[trigger] self.slots@[i]).ordinal == ordinal
    }

    /// An empty queue.
    pub fn new() -> (r: ExpiryQueue)
        ensures
            r.wf(),
            r.slots@.len() == 0,
            forall|o: u64, d: u64| !r.has_timer(o, d),
            forall|o: u64| !r.has_ordinal(o),
    {
        ExpiryQueue { slots: Vec::new() }
    }

    /// Install a timer for a registration that has none yet.
    #[verifier::loop_isolation(false)]
    pub fn schedule(&mut self, deadline: u64, ordinal: u64)
        requires
            old(self).wf(),
            !old(self).has_ordinal(ordinal),
        ensures
            final(self).wf(),
            final(self).slots@.len() == old(self).slots@.len() + 1,
            forall|o: u64, d: u64|
                #![trigger final(self).has_timer(o, d)]
                #![trigger old(self).has_timer(o, d)]
                final(self).has_timer(o, d) <==> (old(self).has_timer(o, d) || (o == ordinal && d
                    == deadline)),
            forall|o: u64|
                #![trigger final(self).has_ordinal(o)]
                #![trigger old(self).has_ordinal(o)]
                final(self).has_ordinal(o) <==> (old(self).has_ordinal(o) || o == ordinal),
    {
        let mut i: usize = 0;
        while i < self.slots.len() && self.slots[i].deadline <= deadline
            invariant
                0 <= i <= self.slots@.len(),
                self.slots@ == old(self).slots@,
                forall|j: int| 0 <= j < i ==> (#[trigger] self.slots@[j]).deadline <= deadline,
            decreases self.slots@.len() - i,
        {
            i = i + 1;
        }
        let entry = TimerEntry { deadline, ordinal };
        self.slots.insert(i, entry);
        proof {
            let s = self.slots@;
            let pre = old(self).slots@;
            let at = i as int;
            assert(forall|j: int| 0 <= j < at ==> #[trigger] s[j] == pre[j]);
            assert(forall|j: int| at < j < s.len() ==> #[trigger] s[j] == pre[j - 1]);
            assert(s[at] == entry);

            assert forall|a: int, b: int| 0 <= a < b < s.len() implies (#[trigger] s[a]).deadline
                <= (#[trigger] s[b]).deadline by {
                if a != at && b != at {
                    let oa = if a < at { a } else { a - 1 };
                    let ob = if b < at { b } else { b - 1 };
                    assert(s[a] == pre[oa] && s[b] == pre[ob]);
                    if oa < ob {
                    } else {
                        assert(oa == ob);
                    }
                } else if b == at {
                    assert(s[a] == pre[a]);
                } else {
                    assert(s[b] == pre[b - 1]);
                    assert(at < self.slots@.len());
                    if at < pre.len() {
                        assert(pre[at].deadline > deadline);
                        if b - 1 >= at {
                            assert(pre[at].deadline <= pre[b - 1].deadline);
                        }
                    }
                }
            }

            assert forall|a: int, b: int| 0 <= a < b < s.len() implies (#[trigger] s[a]).ordinal
                != (#[trigger] s[b]).ordinal by {
                if a != at && b != at {
                    let oa = if a < at { a } else { a - 1 };
                    let ob = if b < at { b } else { b - 1 };
                    assert(s[a] == pre[oa] && s[b] == pre[ob]);
                } else if a == at {
                    assert(s[b] == pre[b - 1]);
                    if s[b].ordinal == ordinal {
                        assert(old(self).has_ordinal(ordinal));
                    }
                } else {
                    assert(s[a] == pre[a]);
                    if s[a].ordinal == ordinal {
                        assert(old(self).has_ordinal(ordinal));
                    }
                }
            }

            assert forall|o: u64, d: u64|
                final(self).has_timer(o, d) <==> (old(self).has_timer(o, d) || (o == ordinal && d
                    == deadline)) by {
                if old(self).has_timer(o, d) {
                    let j = choose|j: int|
                        0 <= j < pre.len() && #[trigger] pre[j] == (TimerEntry {
                            deadline: d,
                            ordinal: o,
                        });
                    let nj = if j < at { j } else { j + 1 };
                    assert(s[nj] == pre[j]);
                    assert(self.has_timer(o, d));
                }
                if o == ordinal && d == deadline {
                    assert(s[at] == (TimerEntry { deadline: d, ordinal: o }));
                    assert(self.has_timer(o, d));
                }
                if self.has_timer(o, d) {
                    let j = choose|j: int|
                        0 <= j < s.len() && #[trigger] s[j] == (TimerEntry {
                            deadline: d,
                            ordinal: o,
                        });
                    if j != at {
                        let oj = if j < at { j } else { j - 1 };
                        assert(s[j] == pre[oj]);
                        assert(old(self).has_timer(o, d));
                    }
                }
            }

            assert forall|o: u64|
                final(self).has_ordinal(o) <==> (old(self).has_ordinal(o) || o == ordinal) by {
                if old(self).has_ordinal(o) {
                    let j = choose|j: int|
                        0 <= j < pre.len() && (#[trigger] pre[j]).ordinal == o;
                    let nj = if j < at { j } else { j + 1 };
                    assert(s[nj] == pre[j]);
                    assert(self.has_ordinal(o));
                }
                if o == ordinal {
                    assert(s[at].ordinal == o);
                    assert(self.has_ordinal(o));
                }
                if self.has_ordinal(o) {
                    let j = choose|j: int| 0 <= j < s.len() && (#[trigger] s[j]).ordinal == o;
                    if j != at {
                        let oj = if j < at { j } else { j - 1 };
                        assert(s[j] == pre[oj]);
                        assert(old(self).has_ordinal(o));
                    }
                }
            }
        }
    }

    /// Cancel the timer for `ordinal`, if one is pending.
    #[verifier::loop_isolation(false)]
    pub fn cancel(&mut self, ordinal: u64)
        requires
            old(self).wf(),
        ensures
            final(self).wf(),
            forall|o: u64, d: u64|
                #![trigger final(self).has_timer(o, d)]
                #![trigger old(self).has_timer(o, d)]
                final(self).has_timer(o, d) <==> (old(self).has_timer(o, d) && o != ordinal),
            forall|o: u64|
                #![trigger final(self).has_ordinal(o)]
                #![trigger old(self).has_ordinal(o)]
                final(self).has_ordinal(o) <==> (old(self).has_ordinal(o) && o != ordinal),
    {
        let mut i: usize = 0;
        while i < self.slots.len()
            invariant
                0 <= i <= self.slots@.len(),
                self.slots@ == old(self).slots@,
                forall|j: int| 0 <= j < i ==> (#[trigger] self.slots@[j]).ordinal != ordinal,
            decreases self.slots@.len() - i,
        {
            if self.slots[i].ordinal == ordinal {
                self.slots.remove(i);
                proof {
                    let s = self.slots@;
                    let pre = old(self).slots@;
                    let at = i as int;
                    assert(forall|j: int| 0 <= j < at ==> #[trigger] s[j] == pre[j]);
                    assert(forall|j: int| at <= j < s.len() ==> #[trigger] s[j] == pre[j + 1]);

                    assert forall|o: u64, d: u64|
                        final(self).has_timer(o, d) <==> (old(self).has_timer(o, d) && o
                            != ordinal) by {
                        if old(self).has_timer(o, d) && o != ordinal {
                            let j = choose|j: int|
                                0 <= j < pre.len() && #[trigger] pre[j] == (TimerEntry {
                                    deadline: d,
                                    ordinal: o,
                                });
                            let nj = if j < at { j } else { j - 1 };
                            assert(s[nj] == pre[j]);
                            assert(self.has_timer(o, d));
                        }
                        if self.has_timer(o, d) {
                            let j = choose|j: int|
                                0 <= j < s.len() && #[trigger] s[j] == (TimerEntry {
                                    deadline: d,
                                    ordinal: o,
                                });
                            let oj = if j < at { j } else { j + 1 };
                            assert(s[j] == pre[oj]);
                            assert(old(self).has_timer(o, d));
                            if o == ordinal {
                                assert(pre[oj].ordinal == pre[at].ordinal);
                            }
                        }
                    }

                    assert forall|o: u64|
                        final(self).has_ordinal(o) <==> (old(self).has_ordinal(o) && o
                            != ordinal) by {
                        if old(self).has_ordinal(o) && o != ordinal {
                            let j = choose|j: int|
                                0 <= j < pre.len() && (#[trigger] pre[j]).ordinal == o;
                            let nj = if j < at { j } else { j - 1 };
                            assert(s[nj] == pre[j]);
                            assert(self.has_ordinal(o));
                        }
                        if self.has_ordinal(o) {
                            let j = choose|j: int|
                                0 <= j < s.len() && (#[trigger] s[j]).ordinal == o;
                            let oj = if j < at { j } else { j + 1 };
                            assert(s[j] == pre[oj]);
                            assert(old(self).has_ordinal(o));
                            if o == ordinal {
                                assert(pre[oj].ordinal == pre[at].ordinal);
                            }
                        }
                    }
                }
                return;
            }
            i = i + 1;
        }
        proof {
            assert forall|o: u64, d: u64|
                final(self).has_timer(o, d) implies (old(self).has_timer(o, d) && o
                != ordinal) by {
                let j = choose|j: int|
                    0 <= j < self.slots@.len() && #[trigger] self.slots@[j] == (TimerEntry {
                        deadline: d,
                        ordinal: o,
                    });
                assert(self.slots@[j].ordinal != ordinal);
            }
            assert forall|o: u64| final(self).has_ordinal(o) implies (old(self).has_ordinal(o) && o
                != ordinal) by {
                let j = choose|j: int|
                    0 <= j < self.slots@.len() && (#[trigger] self.slots@[j]).ordinal == o;
            }
        }
    }

    /// The soonest pending deadline, or `None` when no timer is pending.
    ///
    /// The waiting process sleeps until this instant and then asks the store
    /// to evict everything that is due.
    pub fn next_deadline(&self) -> (r: Option<u64>)
        requires
            self.wf(),
        ensures
            match r {
                Some(d) => {
                    &&& self.slots@.len() > 0
                    &&& self.slots@[0].deadline == d
                    &&& exists|o: u64| #[trigger] self.has_timer(o, d)
                    &&& forall|o: u64, d2: u64| #[trigger] self.has_timer(o, d2) ==> d <= d2
                },
                None => self.slots@.len() == 0,
            },
    {
        if self.slots.len() == 0 {
            None
        } else {
            let d = self.slots[0].deadline;
            proof {
                assert(self.slots@[0] == (TimerEntry {
                    deadline: d,
                    ordinal: self.slots@[0].ordinal,
                }));
                assert(self.has_timer(self.slots@[0].ordinal, d));
                assert forall|o: u64, d2: u64| #[trigger] self.has_timer(o, d2) implies d <= d2 by {
                    let j = choose|j: int|
                        0 <= j < self.slots@.len() && #[trigger] self.slots@[j] == (TimerEntry {
                            deadline: d2,
                            ordinal: o,
                        });
                    if j > 0 {
                        assert(self.slots@[0].deadline <= self.slots@[j].deadline);
                    }
                }
            }
            Some(d)
        }
    }
}

} // verus!
