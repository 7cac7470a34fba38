//! Upstream connection-pool bookkeeping.
//!
//! The pool tracks, per replica address, the ids of the connections
//! currently attributed to that address, and an ordered list of idle
//! connections (newest appended last). Connections themselves live
//! outside this crate and are keyed by their `u64` id; addresses are
//! identified by their index in the fixed, non-empty address list.
//!
//! Time is a millisecond count supplied by the caller. Ids come from a
//! monotonic counter, so they are unique for the pool's lifetime.

use vstd::prelude::*;

verus! {

/// Idle age beyond which a connection is preferentially reused, so
/// that stale sockets are detected (milliseconds).
pub const DEFAULT_FORCE_USE_MS: u64 = 10;

/// Idle age beyond which the sweeper discards a connection
/// (milliseconds).
pub const SWEEP_IDLE_MS: u64 = 10000;

/// One idle pool entry: a connection id and the time it went idle.
#[derive(Clone, Copy, PartialEq, Eq, Structural, Debug)]
pub struct IdleEntry {
    pub id: u64,
    pub idle_since: u64,
}

/// The sweeper's cutoff: entries idle since strictly before it are
/// discarded.
pub open spec fn sweep_cutoff(now: u64) -> u64 {
    if now >= SWEEP_IDLE_MS {
        (now - SWEEP_IDLE_MS) as u64
    } else {
        0
    }
}

/// Is `e` stale at time `now` (idle since before the sweep cutoff)?
pub open spec fn stale_at(e: IdleEntry, now: u64) -> bool {
    e.idle_since < sweep_cutoff(now)
}

/// Does `idle` hold a stale entry with id `x` at time `now`?
pub open spec fn swept_id(idle: Seq<IdleEntry>, now: u64, x: u64) -> bool {
    exists|i: int| 0 <= i < idle.len() && idle[i].id == x && stale_at(idle[i], now)
}

/// Pool bookkeeping: per-address connection ids and the idle list.
pub struct PoolState {
    conns: Vec<Vec<u64>>,
    idle: Vec<IdleEntry>,
    force_use: u64,
    next_id: u64,
}

impl PoolState {
    /// Per-address connection ids; the outer index is the address.
    pub closed spec fn conns_model(self) -> Seq<Seq<u64>> {
        self.conns@.map_values(|l: Vec<u64>| l@)
    }

    /// The idle list, oldest first, newest appended last.
    pub closed spec fn idle_model(self) -> Seq<IdleEntry> {
        self.idle@
    }

    /// The force-use threshold in milliseconds.
    pub closed spec fn force_use_ms(self) -> u64 {
        self.force_use
    }

    /// The next id the pool will hand out.
    pub closed spec fn next_counter(self) -> u64 {
        self.next_id
    }

    /// Is `id` attributed to some address?
    pub open spec fn id_in_conns(self, id: u64) -> bool {
        exists|a: int, k: int|
            0 <= a < self.conns_model().len() && 0 <= k < self.conns_model()[a].len()
                && self.conns_model()[a][k] == id
    }

    /// Is `id` in the idle list?
    pub open spec fn id_in_idle(self, id: u64) -> bool {
        exists|i: int| 0 <= i < self.idle_model().len() && self.idle_model()[i].id == id
    }

    /// Pool accounting invariant: at least one address; ids are unique
    /// within and across address lists; idle ids are unique and each is
    /// attributed to an address; every id is below the counter.
    pub closed spec fn wf(self) -> bool {
        &&& self.conns_model().len() >= 1
        &&& forall|a: int, k1: int, k2: int|
            0 <= a < self.conns_model().len() && 0 <= k1 < k2 < self.conns_model()[a].len()
                ==> #[trigger] self.conns_model()[a][k1] != #[trigger] self.conns_model()[a][k2]
        &&& forall|a1: int, k1: int, a2: int, k2: int|
            0 <= a1 < a2 < self.conns_model().len() && 0 <= k1 < self.conns_model()[a1].len()
                && 0 <= k2 < self.conns_model()[a2].len() ==> #[trigger] self.conns_model(
            )[a1][k1] != #[trigger] self.conns_model()[a2][k2]
        &&& forall|i: int, j: int|
            0 <= i < j < self.idle_model().len() ==> (#[trigger] self.idle_model()[i]).id
                != (#[trigger] self.idle_model()[j]).id
        &&& forall|i: int|
            0 <= i < self.idle_model().len() ==> self.id_in_conns(
                #[trigger] self.idle_model()[i].id,
            )
        &&& forall|a: int, k: int|
            0 <= a < self.conns_model().len() && 0 <= k < self.conns_model()[a].len()
                ==> #[trigger] self.conns_model()[a][k] < self.next_id
    }

    /// A fresh pool over `n_addrs` replica addresses: no connections,
    /// nothing idle, the default force-use threshold.
    pub fn new(n_addrs: usize) -> (r: PoolState)
        requires
            n_addrs >= 1,
        ensures
            r.wf(),
            r.conns_model().len() == n_addrs,
            forall|a: int| 0 <= a < n_addrs ==> #[trigger] r.conns_model()[a] =~= Seq::<
                u64,
            >::empty(),
            r.idle_model() == Seq::<IdleEntry>::empty(),
            r.force_use_ms() == DEFAULT_FORCE_USE_MS,
            r.next_counter() == 0,
    {
        let mut conns: Vec<Vec<u64>> = Vec::new();
        let mut a: usize = 0;
        while a < n_addrs
            invariant
                a <= n_addrs,
                conns@.len() == a,
                forall|j: int| 0 <= j < a ==> #[trigger] conns@[j]@.len() == 0,
            decreases n_addrs - a,
        {
            conns.push(Vec::new());
            a += 1;
        }
        let r = PoolState { conns, idle: Vec::new(), force_use: DEFAULT_FORCE_USE_MS, next_id: 0 };
        proof {
            assert(r.idle_model() =~= Seq::<IdleEntry>::empty());
            assert(forall|j: int|
                0 <= j < n_addrs ==> (#[trigger] r.conns_model()[j]).len() == 0);
        }
        r
    }

    /// Pick an idle connection, walking the idle list from newest to
    /// oldest: any entry idle for at least the force-use threshold is
    /// taken at once; otherwise the oldest entry wins. The chosen entry
    /// leaves the idle list (its id stays attributed to its address).
    /// Returns nothing exactly when the idle list is empty.
    pub fn select(&mut self, now: u64) -> (r: Option<IdleEntry>)
        requires
            old(self).wf(),
        ensures
            final(self).wf(),
            final(self).conns_model() == old(self).conns_model(),
            final(self).force_use_ms() == old(self).force_use_ms(),
            final(self).next_counter() == old(self).next_counter(),
            match r {
                None => old(self).idle_model().len() == 0 && final(self).idle_model() == old(
                    self,
                ).idle_model(),
                Some(e) => {
                    &&& exists|i: int|
                        0 <= i < old(self).idle_model().len() && #[trigger] old(
                            self,
                        ).idle_model()[i] == e && final(self).idle_model() == old(
                            self,
                        ).idle_model().remove(i) && (e.idle_since + old(self).force_use_ms()
                            <= now ==> forall|j: int|
                            i < j < old(self).idle_model().len() ==> (#[trigger] old(
                                self,
                            ).idle_model()[j]).idle_since + old(self).force_use_ms() > now)
                    &&& (exists|j: int|
                        0 <= j < old(self).idle_model().len() && #[trigger] old(
                            self,
                        ).idle_model()[j].idle_since + old(self).force_use_ms() <= now)
                        ==> e.idle_since + old(self).force_use_ms() <= now
                    &&& (forall|j: int|
                        0 <= j < old(self).idle_model().len() ==> #[trigger] old(
                            self,
                        ).idle_model()[j].idle_since + old(self).force_use_ms() > now) ==> (
                    forall|j: int|
                        0 <= j < old(self).idle_model().len() ==> e.idle_since <= #[trigger] old(
                            self,
                        ).idle_model()[j].idle_since)
                },
            },
    {
        let n = self.idle.len();
        if n == 0 {
            return None;
        }
        let fu = self.force_use;
        let mut k: usize = n;
        let mut best: usize = n - 1;
        while k > 0
            invariant
                n == self.idle@.len(),
                n >= 1,
                *self == *old(self),
                self.wf(),
                fu == self.force_use,
                k <= n,
                best < n,
                k < n ==> k <= best,
                k < n ==> forall|j: int|
                    k <= j < n ==> self.idle@[best as int].idle_since <= #[trigger] self.idle@[
                        j
                    ].idle_since,
                k < n ==> forall|j: int|
                    k <= j < n ==> #[trigger] self.idle@[j].idle_since + fu > now,
                k == n ==> best == n - 1,
            decreases k,
        {
            let e_since = self.idle[k - 1].idle_since;
            if now >= fu && e_since <= now - fu {
                let ghost old_idle = self.idle@;
                let e = self.idle.remove(k - 1);
                proof {
                    lemma_idle_remove_wf(*old(self), *self, k - 1);
                }
                return Some(e);
            }
            if k == n {
                best = k - 1;
            } else if e_since < self.idle[best].idle_since {
                best = k - 1;
            }
            k -= 1;
        }
        let e = self.idle.remove(best);
        proof {
            lemma_idle_remove_wf(*old(self), *self, best as int);
            assert forall|j: int|
                0 <= j < old(self).idle_model().len() implies e.idle_since <= #[trigger] old(
                self,
            ).idle_model()[j].idle_since by {}
        }
        Some(e)
    }

    /// Pick the least-loaded address and attribute a fresh id to it.
    /// Used when no idle connection is available: the caller opens a
    /// new connection to the returned address under the returned id.
    pub fn select_addr(&mut self) -> (r: (u64, usize))
        requires
            old(self).wf(),
            old(self).next_counter() < u64::MAX,
        ensures
            final(self).wf(),
            r.1 < old(self).conns_model().len(),
            forall|a: int|
                0 <= a < old(self).conns_model().len() ==> old(self).conns_model()[
                    r.1 as int
                ].len() <= (#[trigger] old(self).conns_model()[a]).len(),
            r.0 == old(self).next_counter(),
            !old(self).id_in_conns(r.0),
            !old(self).id_in_idle(r.0),
            final(self).conns_model() == old(self).conns_model().update(
                r.1 as int,
                old(self).conns_model()[r.1 as int].push(r.0),
            ),
            final(self).id_in_conns(r.0),
            final(self).idle_model() == old(self).idle_model(),
            final(self).force_use_ms() == old(self).force_use_ms(),
            final(self).next_counter() == old(self).next_counter() + 1,
    {
        let n = self.conns.len();
        proof {
            assert(self.conns_model().len() == n);
        }
        let mut best: usize = 0;
        let mut a: usize = 1;
        while a < n
            invariant
                n == self.conns@.len(),
                1 <= a <= n,
                best < a,
                *self == *old(self),
                self.wf(),
                forall|j: int|
                    0 <= j < a ==> self.conns_model()[best as int].len() <= (
                    #[trigger] self.conns_model()[j]).len(),
            decreases n - a,
        {
            if self.conns[a].len() < self.conns[best].len() {
                best = a;
            }
            a += 1;
        }
        let id = self.next_id;
        self.next_id = self.next_id + 1;
        let ghost mid = *self;
        let mut list = self.conns.remove(best);
        let ghost old_list = list@;
        list.push(id);
        self.conns.insert(best, list);
        proof {
            let pre = *old(self);
            let post = *self;
            assert(post.conns@ == pre.conns@.remove(best as int).insert(best as int, list));
            pre.conns@.remove_ensures(best as int);
            pre.conns@.remove(best as int).insert_ensures(best as int, list);
            assert forall|j: int|
                0 <= j < post.conns_model().len() && j != best implies #[trigger] post.conns_model()[j]
                == pre.conns_model()[j] by {
                if j < best {
                    assert(post.conns@[j] == pre.conns@.remove(best as int).insert(
                        best as int,
                        list,
                    )[j]);
                    assert(post.conns@[j] == pre.conns@[j]);
                } else {
                    assert(post.conns@[j] == pre.conns@.remove(best as int)[j - 1]);
                    assert(post.conns@[j] == pre.conns@[j]);
                }
            }
            assert(post.conns_model()[best as int] == list@);
            assert(list@ == pre.conns_model()[best as int].push(id));
            assert(post.conns_model() =~= pre.conns_model().update(
                best as int,
                pre.conns_model()[best as int].push(id),
            ));
            // the fresh id is nowhere in the old pool
            assert(!pre.id_in_conns(id)) by {
                if pre.id_in_conns(id) {
                    let (a0, k0): (int, int) = choose|a0: int, k0: int|
                        0 <= a0 < pre.conns_model().len() && 0 <= k0 < pre.conns_model()[
                            a0
                        ].len() && pre.conns_model()[a0][k0] == id;
                    assert(pre.conns_model()[a0][k0] < pre.next_id);
                }
            }
            assert(!pre.id_in_idle(id)) by {
                if pre.id_in_idle(id) {
                    let i0 = choose|i0: int|
                        0 <= i0 < pre.idle_model().len() && pre.idle_model()[i0].id == id;
                    assert(pre.id_in_conns(pre.idle_model()[i0].id));
                    let (a0, k0): (int, int) = choose|a0: int, k0: int|
                        0 <= a0 < pre.conns_model().len() && 0 <= k0 < pre.conns_model()[
                            a0
                        ].len() && pre.conns_model()[a0][k0] == id;
                    assert(pre.conns_model()[a0][k0] < pre.next_id);
                }
            }
            // invariant pieces for the new state
            let pc = pre.conns_model();
            let qc = post.conns_model();
            let bl = pc[best as int];
            assert(qc[best as int] =~= bl.push(id));
            assert forall|a0: int, k1: int, k2: int|
                0 <= a0 < qc.len() && 0 <= k1 < k2 < qc[a0].len() implies #[trigger] qc[a0][k1]
                != #[trigger] qc[a0][k2] by {
                if a0 == best {
                    if k2 < bl.len() {
                        assert(qc[a0][k1] == bl[k1] && qc[a0][k2] == bl[k2]);
                    } else {
                        assert(qc[a0][k2] == id);
                        assert(qc[a0][k1] == bl[k1]);
                        assert(bl[k1] < pre.next_id);
                    }
                } else {
                    assert(qc[a0] == pc[a0]);
                }
            }
            assert forall|a1: int, k1: int, a2: int, k2: int|
                0 <= a1 < a2 < qc.len() && 0 <= k1 < qc[a1].len() && 0 <= k2 < qc[a2].len()
                implies #[trigger] qc[a1][k1] != #[trigger] qc[a2][k2] by {
                if a1 == best {
                    assert(qc[a2] == pc[a2]);
                    if k1 < bl.len() {
                        assert(qc[a1][k1] == bl[k1]);
                    } else {
                        assert(qc[a1][k1] == id);
                        assert(pc[a2][k2] < pre.next_id);
                    }
                } else if a2 == best {
                    assert(qc[a1] == pc[a1]);
                    if k2 < bl.len() {
                        assert(qc[a2][k2] == bl[k2]);
                    } else {
                        assert(qc[a2][k2] == id);
                        assert(pc[a1][k1] < pre.next_id);
                    }
                } else {
                    assert(qc[a1] == pc[a1] && qc[a2] == pc[a2]);
                }
            }
            assert forall|i: int| 0 <= i < post.idle_model().len() implies post.id_in_conns(
                #[trigger] post.idle_model()[i].id,
            ) by {
                assert(pre.id_in_conns(pre.idle_model()[i].id));
                let (a0, k0): (int, int) = choose|a0: int, k0: int|
                    0 <= a0 < pc.len() && 0 <= k0 < pc[a0].len() && pc[a0][k0] == pre.idle_model()[
                        i
                    ].id;
                if a0 == best {
                    assert(qc[a0][k0] == bl[k0]);
                } else {
                    assert(qc[a0] == pc[a0]);
                }
            }
            assert forall|a0: int, k: int|
                0 <= a0 < qc.len() && 0 <= k < qc[a0].len() implies #[trigger] qc[a0][k]
                < post.next_id by {
                if a0 == best {
                    if k < bl.len() {
                        assert(qc[a0][k] == bl[k]);
                        assert(bl[k] < pre.next_id);
                    } else {
                        assert(qc[a0][k] == id);
                    }
                } else {
                    assert(qc[a0] == pc[a0]);
                    assert(pc[a0][k] < pre.next_id);
                }
            }
            assert(post.wf());
            assert(post.id_in_conns(id)) by {
                assert(qc[best as int][bl.len() as int] == id);
            }
        }
        (id, best)
    }

    /// Return a connection to the idle list, stamped with the time it
    /// went idle. The id must already be attributed to an address and
    /// not be idle yet.
    pub fn push(&mut self, id: u64, now: u64)
        requires
            old(self).wf(),
            old(self).id_in_conns(id),
            !old(self).id_in_idle(id),
        ensures
            final(self).wf(),
            final(self).idle_model() == old(self).idle_model().push(
                IdleEntry { id, idle_since: now },
            ),
            final(self).conns_model() == old(self).conns_model(),
            final(self).force_use_ms() == old(self).force_use_ms(),
            final(self).next_counter() == old(self).next_counter(),
    {
        self.idle.push(IdleEntry { id, idle_since: now });
        proof {
            let pre = *old(self);
            let post = *self;
            let pi = pre.idle_model();
            let qi = post.idle_model();
            assert forall|x: int, y: int| 0 <= x < y < qi.len() implies (#[trigger] qi[x]).id != (
            #[trigger] qi[y]).id by {
                if y < pi.len() {
                    assert(qi[x] == pi[x] && qi[y] == pi[y]);
                } else {
                    assert(qi[y].id == id);
                    assert(qi[x] == pi[x]);
                    if pi[x].id == id {
                        assert(pre.id_in_idle(id));
                    }
                }
            }
            assert forall|i: int| 0 <= i < qi.len() implies post.id_in_conns(
                #[trigger] qi[i].id,
            ) by {
                assert(post.conns_model() == pre.conns_model());
                let x: u64 = if i < pi.len() {
                    assert(qi[i] == pi[i]);
                    assert(pre.id_in_conns(pi[i].id));
                    pi[i].id
                } else {
                    assert(qi[i].id == id);
                    id
                };
                assert(pre.id_in_conns(x));
                let (a0, k0): (int, int) = choose|a0: int, k0: int|
                    0 <= a0 < pre.conns_model().len() && 0 <= k0 < pre.conns_model()[a0].len()
                        && pre.conns_model()[a0][k0] == x;
                assert(post.conns_model()[a0][k0] == x);
            }
            assert(post.wf());
        }
    }

    /// Detach `id` from every address list. The id must not be idle
    /// (it is being discarded after an open failure or a failed
    /// liveness probe). The idle list is untouched.
    pub fn remove_conn(&mut self, id: u64)
        requires
            old(self).wf(),
            !old(self).id_in_idle(id),
        ensures
            final(self).wf(),
            final(self).conns_model().len() == old(self).conns_model().len(),
            forall|a: int|
                0 <= a < old(self).conns_model().len() ==> #[trigger] final(self).conns_model()[a]
                    == old(self).conns_model()[a].filter(|x: u64| x != id),
            !final(self).id_in_conns(id),
            final(self).idle_model() == old(self).idle_model(),
            final(self).force_use_ms() == old(self).force_use_ms(),
            final(self).next_counter() == old(self).next_counter(),
    {
        let n = self.conns.len();
        let mut a: usize = 0;
        while a < n
            invariant
                n == self.conns@.len(),
                a <= n,
                n == old(self).conns_model().len(),
                old(self).wf(),
                !old(self).id_in_idle(id),
                self.idle == old(self).idle,
                self.force_use == old(self).force_use,
                self.next_id == old(self).next_id,
                forall|j: int|
                    0 <= j < a ==> #[trigger] self.conns_model()[j] == old(self).conns_model()[
                        j
                    ].filter(|x: u64| x != id),
                forall|j: int|
                    a <= j < n ==> #[trigger] self.conns_model()[j] == old(self).conns_model()[j],
            decreases n - a,
        {
            let ghost mid = *self;
            let lst = filter_ids(&self.conns[a], id);
            self.conns.remove(a);
            self.conns.insert(a, lst);
            proof {
                assert(self.conns@ == mid.conns@.remove(a as int).insert(a as int, lst));
                mid.conns@.remove_ensures(a as int);
                mid.conns@.remove(a as int).insert_ensures(a as int, lst);
                assert forall|j: int| 0 <= j < n && j != a implies #[trigger] self.conns_model()[j]
                    == mid.conns_model()[j] by {
                    if j < a {
                        assert(self.conns@[j] == mid.conns@[j]);
                    } else {
                        assert(self.conns@[j] == mid.conns@.remove(a as int)[j - 1]);
                        assert(self.conns@[j] == mid.conns@[j]);
                    }
                }
                assert(self.conns_model()[a as int] == lst@);
                assert(mid.conns_model()[a as int] == old(self).conns_model()[a as int]);
            }
            a += 1;
        }
        proof {
            let pre = *old(self);
            let post = *self;
            let pred = |x: u64| x != id;
            assert forall|a0: int, k1: int, k2: int|
                0 <= a0 < post.conns_model().len() && 0 <= k1 < k2 < post.conns_model()[a0].len()
                implies #[trigger] post.conns_model()[a0][k1] != #[trigger] post.conns_model()[
                a0
            ][k2] by {
                lemma_filter_distinct_ids(pre.conns_model()[a0], pred);
            }
            assert forall|a1: int, k1: int, a2: int, k2: int|
                0 <= a1 < a2 < post.conns_model().len() && 0 <= k1 < post.conns_model()[a1].len()
                && 0 <= k2 < post.conns_model()[a2].len() implies #[trigger] post.conns_model()[
                a1
            ][k1] != #[trigger] post.conns_model()[a2][k2] by {
                let s1 = pre.conns_model()[a1];
                let s2 = pre.conns_model()[a2];
                let x1 = post.conns_model()[a1][k1];
                let x2 = post.conns_model()[a2][k2];
                assert(s1.filter(pred).contains(x1));
                assert(s2.filter(pred).contains(x2));
                s1.lemma_filter_contains_rev(pred, x1);
                s2.lemma_filter_contains_rev(pred, x2);
                let j1 = choose|j: int| 0 <= j < s1.len() && s1[j] == x1;
                let j2 = choose|j: int| 0 <= j < s2.len() && s2[j] == x2;
                assert(pre.conns_model()[a1][j1] != pre.conns_model()[a2][j2]);
            }
            assert forall|i: int| 0 <= i < post.idle_model().len() implies post.id_in_conns(
                #[trigger] post.idle_model()[i].id,
            ) by {
                let x = pre.idle_model()[i].id;
                assert(pre.id_in_conns(x));
                let (a0, k0): (int, int) = choose|a0: int, k0: int|
                    0 <= a0 < pre.conns_model().len() && 0 <= k0 < pre.conns_model()[a0].len()
                        && pre.conns_model()[a0][k0] == x;
                assert(x != id) by {
                    if x == id {
                        assert(pre.id_in_idle(id));
                    }
                }
                pre.conns_model()[a0].lemma_filter_contains(pred, k0);
                assert(post.conns_model()[a0].contains(x));
                let k1 = choose|k: int|
                    0 <= k < post.conns_model()[a0].len() && post.conns_model()[a0][k] == x;
                assert(post.conns_model()[a0][k1] == x);
            }
            assert forall|a0: int, k: int|
                0 <= a0 < post.conns_model().len() && 0 <= k < post.conns_model()[a0].len()
                implies #[trigger] post.conns_model()[a0][k] < post.next_id by {
                let s = pre.conns_model()[a0];
                let x = post.conns_model()[a0][k];
                assert(s.filter(pred).contains(x));
                s.lemma_filter_contains_rev(pred, x);
                let j = choose|j: int| 0 <= j < s.len() && s[j] == x;
                assert(pre.conns_model()[a0][j] < pre.next_id);
            }
            assert(post.wf());
            assert(!post.id_in_conns(id)) by {
                if post.id_in_conns(id) {
                    let (a0, k0): (int, int) = choose|a0: int, k0: int|
                        0 <= a0 < post.conns_model().len() && 0 <= k0 < post.conns_model()[
                            a0
                        ].len() && post.conns_model()[a0][k0] == id;
                    pre.conns_model()[a0].lemma_filter_pred(pred, k0);
                }
            }
        }
    }

    /// One sweeper tick: drop every idle entry stale at `now` and
    /// detach its id from its address list. Fresh entries and the ids
    /// of connections in use are untouched.
    pub fn clean(&mut self, now: u64)
        requires
            old(self).wf(),
        ensures
            final(self).wf(),
            final(self).idle_model() == old(self).idle_model().filter(
                (|e: IdleEntry| !stale_at(e, now)),
            ),
            forall|i: int|
                0 <= i < final(self).idle_model().len() ==> (
                #[trigger] final(self).idle_model()[i]).idle_since >= sweep_cutoff(now),
            final(self).conns_model().len() == old(self).conns_model().len(),
            forall|a: int|
                0 <= a < old(self).conns_model().len() ==> #[trigger] final(self).conns_model()[a]
                    == old(self).conns_model()[a].filter(
                    (|x: u64| !swept_id(old(self).idle_model(), now, x)),
                ),
            final(self).force_use_ms() == old(self).force_use_ms(),
            final(self).next_counter() == old(self).next_counter(),
    {
        let cutoff = if now >= SWEEP_IDLE_MS {
            now - SWEEP_IDLE_MS
        } else {
            0
        };
        let n = self.idle.len();
        let mut kept: Vec<IdleEntry> = Vec::new();
        let mut removed: Vec<u64> = Vec::new();
        let mut i: usize = 0;
        proof {
            assert(self.idle@.take(0).filter((|e: IdleEntry| !stale_at(e, now))) =~= Seq::<
                IdleEntry,
            >::empty());
        }
        while i < n
            invariant
                n == self.idle@.len(),
                i <= n,
                *self == *old(self),
                self.wf(),
                cutoff == sweep_cutoff(now),
                kept@ == self.idle@.take(i as int).filter((|e: IdleEntry| !stale_at(e, now))),
                forall|x: u64|
                    #[trigger] removed@.contains(x) <==> swept_id(
                        self.idle@.take(i as int),
                        now,
                        x,
                    ),
            decreases n - i,
        {
            let e = self.idle[i];
            let ghost pre_take = self.idle@.take(i as int);
            let ghost post_take = self.idle@.take(i + 1);
            proof {
                reveal(Seq::filter);
                assert(post_take.drop_last() =~= pre_take);
                assert(post_take.last() == self.idle@[i as int]);
            }
            if e.idle_since < cutoff {
                let ghost removed0 = removed@;
                removed.push(e.id);
                proof {
                    assert forall|x: u64| #[trigger] removed@.contains(x) <==> swept_id(
                        post_take,
                        now,
                        x,
                    ) by {
                        lemma_push_contains(removed0, e.id, x);
                        if removed@.contains(x) {
                            if removed0.contains(x) {
                                let j = choose|j: int|
                                    0 <= j < pre_take.len() && pre_take[j].id == x && stale_at(
                                        pre_take[j],
                                        now,
                                    );
                                assert(post_take[j] == pre_take[j]);
                            } else {
                                assert(x == e.id);
                                assert(post_take[i as int] == e);
                            }
                        }
                        if swept_id(post_take, now, x) {
                            let j = choose|j: int|
                                0 <= j < post_take.len() && post_take[j].id == x && stale_at(
                                    post_take[j],
                                    now,
                                );
                            if j < i {
                                assert(pre_take[j] == post_take[j]);
                            } else {
                                assert(post_take[j] == e);
                            }
                        }
                    }
                }
            } else {
                kept.push(e);
                proof {
                    assert(kept@ == post_take.filter((|e2: IdleEntry| !stale_at(e2, now))));
                    assert forall|x: u64| #[trigger] removed@.contains(x) <==> swept_id(
                        post_take,
                        now,
                        x,
                    ) by {
                        if removed@.contains(x) {
                            let j = choose|j: int|
                                0 <= j < pre_take.len() && pre_take[j].id == x && stale_at(
                                    pre_take[j],
                                    now,
                                );
                            assert(post_take[j] == pre_take[j]);
                        }
                        if swept_id(post_take, now, x) {
                            let j = choose|j: int|
                                0 <= j < post_take.len() && post_take[j].id == x && stale_at(
                                    post_take[j],
                                    now,
                                );
                            if j < i {
                                assert(pre_take[j] == post_take[j]);
                            } else {
                                assert(post_take[j] == e);
                            }
                        }
                    }
                }
            }
            i += 1;
        }
        proof {
            assert(self.idle@.take(n as int) =~= self.idle@);
        }
        let ghost pre = *old(self);
        self.idle = kept;
        let m = self.conns.len();
        let mut a: usize = 0;
        while a < m
            invariant
                m == self.conns@.len(),
                a <= m,
                m == pre.conns_model().len(),
                pre.wf(),
                pre == *old(self),
                self.idle@ == pre.idle_model().filter((|e: IdleEntry| !stale_at(e, now))),
                self.force_use == pre.force_use_ms(),
                self.next_id == pre.next_counter(),
                forall|x: u64|
                    #[trigger] removed@.contains(x) <==> swept_id(pre.idle_model(), now, x),
                forall|j: int|
                    0 <= j < a ==> #[trigger] self.conns_model()[j] == pre.conns_model()[
                        j
                    ].filter((|x: u64| !swept_id(pre.idle_model(), now, x))),
                forall|j: int|
                    a <= j < m ==> #[trigger] self.conns_model()[j] == pre.conns_model()[j],
            decreases m - a,
        {
            let ghost mid = *self;
            let lst = retain_not_removed(&self.conns[a], &removed);
            self.conns.remove(a);
            self.conns.insert(a, lst);
            proof {
                assert(self.conns@ == mid.conns@.remove(a as int).insert(a as int, lst));
                mid.conns@.remove_ensures(a as int);
                mid.conns@.remove(a as int).insert_ensures(a as int, lst);
                assert forall|j: int| 0 <= j < m && j != a implies #[trigger] self.conns_model()[j]
                    == mid.conns_model()[j] by {
                    if j < a {
                        assert(self.conns@[j] == mid.conns@[j]);
                    } else {
                        assert(self.conns@[j] == mid.conns@.remove(a as int)[j - 1]);
                        assert(self.conns@[j] == mid.conns@[j]);
                    }
                }
                assert(self.conns_model()[a as int] == lst@);
                assert(mid.conns_model()[a as int] == pre.conns_model()[a as int]);
                lemma_filter_equiv(
                    pre.conns_model()[a as int],
                    (|x: u64| !removed@.contains(x)),
                    (|x: u64| !swept_id(pre.idle_model(), now, x)),
                );
            }
            a += 1;
        }
        proof {
            let post = *self;
            let cpred = |x: u64| !swept_id(pre.idle_model(), now, x);
            let ipred = |e: IdleEntry| !stale_at(e, now);
            lemma_filter_distinct_idle(pre.idle_model(), ipred);
            assert forall|i2: int|
                0 <= i2 < post.idle_model().len() implies (
            #[trigger] post.idle_model()[i2]).idle_since >= sweep_cutoff(now) by {
                pre.idle_model().lemma_filter_pred(ipred, i2);
            }
            assert forall|a0: int, k1: int, k2: int|
                0 <= a0 < post.conns_model().len() && 0 <= k1 < k2 < post.conns_model()[a0].len()
                implies #[trigger] post.conns_model()[a0][k1] != #[trigger] post.conns_model()[
                a0
            ][k2] by {
                lemma_filter_distinct_ids(pre.conns_model()[a0], cpred);
            }
            assert forall|a1: int, k1: int, a2: int, k2: int|
                0 <= a1 < a2 < post.conns_model().len() && 0 <= k1 < post.conns_model()[a1].len()
                && 0 <= k2 < post.conns_model()[a2].len() implies #[trigger] post.conns_model()[
                a1
            ][k1] != #[trigger] post.conns_model()[a2][k2] by {
                let s1 = pre.conns_model()[a1];
                let s2 = pre.conns_model()[a2];
                let x1 = post.conns_model()[a1][k1];
                let x2 = post.conns_model()[a2][k2];
                assert(s1.filter(cpred).contains(x1));
                assert(s2.filter(cpred).contains(x2));
                s1.lemma_filter_contains_rev(cpred, x1);
                s2.lemma_filter_contains_rev(cpred, x2);
                let j1 = choose|j: int| 0 <= j < s1.len() && s1[j] == x1;
                let j2 = choose|j: int| 0 <= j < s2.len() && s2[j] == x2;
                assert(pre.conns_model()[a1][j1] != pre.conns_model()[a2][j2]);
            }
            assert forall|i2: int| 0 <= i2 < post.idle_model().len() implies post.id_in_conns(
                (#[trigger] post.idle_model()[i2]).id,
            ) by {
                let e = post.idle_model()[i2];
                pre.idle_model().lemma_filter_pred(ipred, i2);
                assert(post.idle_model().contains(e));
                pre.idle_model().lemma_filter_contains_rev(ipred, e);
                let j0 = choose|j: int|
                    0 <= j < pre.idle_model().len() && pre.idle_model()[j] == e;
                assert(pre.id_in_conns(e.id));
                let (a0, k0): (int, int) = choose|a0: int, k0: int|
                    0 <= a0 < pre.conns_model().len() && 0 <= k0 < pre.conns_model()[a0].len()
                        && pre.conns_model()[a0][k0] == e.id;
                assert(!swept_id(pre.idle_model(), now, e.id)) by {
                    if swept_id(pre.idle_model(), now, e.id) {
                        let j1 = choose|j: int|
                            0 <= j < pre.idle_model().len() && pre.idle_model()[j].id == e.id
                                && stale_at(pre.idle_model()[j], now);
                        if j1 != j0 {
                            assert(pre.idle_model()[j0].id != pre.idle_model()[j1].id);
                        }
                    }
                }
                pre.conns_model()[a0].lemma_filter_contains(cpred, k0);
                assert(post.conns_model()[a0].contains(e.id));
                let k1 = choose|k: int|
                    0 <= k < post.conns_model()[a0].len() && post.conns_model()[a0][k] == e.id;
                assert(post.conns_model()[a0][k1] == e.id);
            }
            assert forall|a0: int, k: int|
                0 <= a0 < post.conns_model().len() && 0 <= k < post.conns_model()[a0].len()
                implies #[trigger] post.conns_model()[a0][k] < post.next_id by {
                let s = pre.conns_model()[a0];
                let x = post.conns_model()[a0][k];
                assert(s.filter(cpred).contains(x));
                s.lemma_filter_contains_rev(cpred, x);
                let j = choose|j: int| 0 <= j < s.len() && s[j] == x;
                assert(pre.conns_model()[a0][j] < pre.next_counter());
            }
            assert(post.wf());
        }
    }

    /// The decision at the head of a pooled send: reuse an idle
    /// connection when one is there, otherwise attribute a fresh id to
    /// the least-loaded address for the caller to open. The caller
    /// later calls `push` (liveness probe succeeded) or `remove_conn`
    /// (open or probe failed) with the id.
    pub fn acquire(&mut self, now: u64) -> (r: Acquire)
        requires
            old(self).wf(),
            old(self).next_counter() < u64::MAX,
        ensures
            final(self).wf(),
            final(self).force_use_ms() == old(self).force_use_ms(),
            match r {
                Acquire::Reuse { id } => {
                    &&& exists|i: int|
                        0 <= i < old(self).idle_model().len() && (#[trigger] old(
                            self,
                        ).idle_model()[i]).id == id && final(self).idle_model() == old(
                            self,
                        ).idle_model().remove(i) && ((exists|j: int|
                            0 <= j < old(self).idle_model().len() && (#[trigger] old(
                                self,
                            ).idle_model()[j]).idle_since + old(self).force_use_ms() <= now)
                            ==> old(self).idle_model()[i].idle_since + old(self).force_use_ms()
                            <= now)
                    &&& final(self).conns_model() == old(self).conns_model()
                    &&& final(self).next_counter() == old(self).next_counter()
                    &&& final(self).id_in_conns(id)
                },
                Acquire::Open { id, addr } => {
                    &&& old(self).idle_model().len() == 0
                    &&& addr < old(self).conns_model().len()
                    &&& forall|a: int|
                        0 <= a < old(self).conns_model().len() ==> old(self).conns_model()[
                            addr as int
                        ].len() <= (#[trigger] old(self).conns_model()[a]).len()
                    &&& id == old(self).next_counter()
                    &&& final(self).conns_model() == old(self).conns_model().update(
                        addr as int,
                        old(self).conns_model()[addr as int].push(id),
                    )
                    &&& final(self).idle_model() == old(self).idle_model()
                    &&& final(self).next_counter() == old(self).next_counter() + 1
                    &&& final(self).id_in_conns(id)
                    &&& !final(self).id_in_idle(id)
                },
            },
    {
        let picked = self.select(now);
        match picked {
            Some(e) => {
                proof {
                    let i = choose|i: int|
                        0 <= i < old(self).idle_model().len() && old(self).idle_model()[i] == e
                            && self.idle_model() == old(self).idle_model().remove(i);
                    assert(old(self).id_in_conns(old(self).idle_model()[i].id));
                    assert(self.id_in_conns(e.id));
                }
                Acquire::Reuse { id: e.id }
            },
            None => {
                let (id, addr) = self.select_addr();
                proof {
                    assert(!old(self).id_in_idle(id));
                    if self.id_in_idle(id) {
                        let i = choose|i: int|
                            0 <= i < self.idle_model().len() && self.idle_model()[i].id == id;
                        assert(old(self).idle_model()[i].id == id);
                    }
                }
                Acquire::Open { id, addr }
            },
        }
    }

    /// The number of replica addresses.
    pub fn addr_count(&self) -> (r: usize)
        ensures
            r == self.conns_model().len(),
    {
        self.conns.len()
    }

    /// The number of idle connections.
    pub fn idle_len(&self) -> (r: usize)
        ensures
            r == self.idle_model().len(),
    {
        self.idle.len()
    }

    /// The number of connection ids attributed to address `addr`.
    pub fn conn_count_at(&self, addr: usize) -> (r: usize)
        requires
            addr < self.conns_model().len(),
        ensures
            r == self.conns_model()[addr as int].len(),
    {
        self.conns[addr].len()
    }

    /// Is `id` attributed to some address?
    pub fn has_conn_id(&self, id: u64) -> (r: bool)
        ensures
            r == self.id_in_conns(id),
    {
        let n = self.conns.len();
        let mut a: usize = 0;
        while a < n
            invariant
                n == self.conns@.len(),
                a <= n,
                forall|j: int| 0 <= j < a ==> !(#[trigger] self.conns_model()[j]).contains(id),
            decreases n - a,
        {
            if contains_id(&self.conns[a], id) {
                proof {
                    let k = choose|k: int|
                        0 <= k < self.conns_model()[a as int].len() && self.conns_model()[
                            a as int
                        ][k] == id;
                    assert(self.conns_model()[a as int][k] == id);
                }
                return true;
            }
            a += 1;
        }
        proof {
            if self.id_in_conns(id) {
                let (a0, k0): (int, int) = choose|a0: int, k0: int|
                    0 <= a0 < self.conns_model().len() && 0 <= k0 < self.conns_model()[a0].len()
                        && self.conns_model()[a0][k0] == id;
                assert(self.conns_model()[a0].contains(id));
            }
        }
        false
    }

    /// Is `id` in the idle list?
    pub fn has_idle_id(&self, id: u64) -> (r: bool)
        ensures
            r == self.id_in_idle(id),
    {
        let n = self.idle.len();
        let mut i: usize = 0;
        while i < n
            invariant
                n == self.idle@.len(),
                i <= n,
                forall|j: int| 0 <= j < i ==> (#[trigger] self.idle@[j]).id != id,
            decreases n - i,
        {
            if self.idle[i].id == id {
                proof {
                    assert(self.idle_model()[i as int].id == id);
                }
                return true;
            }
            i += 1;
        }
        false
    }

    /// Has the id counter reached its ceiling, so that no further
    /// connection can be attributed?
    pub fn ids_exhausted(&self) -> (r: bool)
        ensures
            r == (self.next_counter() == u64::MAX),
    {
        self.next_id == u64::MAX
    }
}

/// The decision `acquire` returns: reuse the idle connection with this
/// id, or open a new connection to this address under this id.
#[derive(Clone, Copy, PartialEq, Eq, Structural, Debug)]
pub enum Acquire {
    Reuse { id: u64 },
    Open { id: u64, addr: usize },
}

/// Pool accounting law: under the pool invariant, every idle entry's id
/// is attributed to exactly one address list.
pub proof fn lemma_pool_accounting(p: PoolState, i: int)
    requires
        p.wf(),
        0 <= i < p.idle_model().len(),
    ensures
        exists|a: int|
            0 <= a < p.conns_model().len() && #[trigger] p.conns_model()[a].contains(
                p.idle_model()[i].id,
            ),
        forall|a1: int, a2: int|
            0 <= a1 < p.conns_model().len() && 0 <= a2 < p.conns_model().len()
                && #[trigger] p.conns_model()[a1].contains(p.idle_model()[i].id)
                && #[trigger] p.conns_model()[a2].contains(p.idle_model()[i].id) ==> a1 == a2,
{
    let x = p.idle_model()[i].id;
    assert(p.id_in_conns(x));
    let (a0, k0): (int, int) = choose|a0: int, k0: int|
        0 <= a0 < p.conns_model().len() && 0 <= k0 < p.conns_model()[a0].len()
            && p.conns_model()[a0][k0] == x;
    assert(p.conns_model()[a0].contains(x));
    assert forall|a1: int, a2: int|
        0 <= a1 < p.conns_model().len() && 0 <= a2 < p.conns_model().len()
            && #[trigger] p.conns_model()[a1].contains(x) && #[trigger] p.conns_model()[
        a2
    ].contains(x) implies a1 == a2 by {
        if a1 != a2 {
            let k1 = choose|k: int|
                0 <= k < p.conns_model()[a1].len() && p.conns_model()[a1][k] == x;
            let k2 = choose|k: int|
                0 <= k < p.conns_model()[a2].len() && p.conns_model()[a2][k] == x;
            if a1 < a2 {
                assert(p.conns_model()[a1][k1] != p.conns_model()[a2][k2]);
            } else {
                assert(p.conns_model()[a2][k2] != p.conns_model()[a1][k1]);
            }
        }
    }
}

/// Does `v` hold `x`?
fn contains_id(v: &Vec<u64>, x: u64) -> (r: bool)
    ensures
        r == v@.contains(x),
{
    let mut i: usize = 0;
    while i < v.len()
        invariant
            i <= v@.len(),
            forall|j: int| 0 <= j < i ==> v@[j] != x,
        decreases v@.len() - i,
    {
        if v[i] == x {
            return true;
        }
        i += 1;
    }
    proof {
        if v@.contains(x) {
            let j = choose|j: int| 0 <= j < v@.len() && v@[j] == x;
            assert(v@[j] != x);
        }
    }
    false
}

proof fn lemma_push_contains<T>(s: Seq<T>, x: T, y: T)
    ensures
        s.push(x).contains(y) <==> (s.contains(y) || y == x),
{
    if s.push(x).contains(y) {
        let j = choose|j: int| 0 <= j < s.push(x).len() && s.push(x)[j] == y;
        if j < s.len() {
            assert(s[j] == y);
        }
    }
    if s.contains(y) {
        let j = choose|j: int| 0 <= j < s.len() && s[j] == y;
        assert(s.push(x)[j] == y);
    }
    assert(s.push(x)[s.len() as int] == x);
}

/// Two filters with pointwise-equal predicates agree.
proof fn lemma_filter_equiv(s: Seq<u64>, p1: spec_fn(u64) -> bool, p2: spec_fn(u64) -> bool)
    requires
        forall|j: int| 0 <= j < s.len() ==> (p1(#[trigger] s[j]) <==> p2(s[j])),
    ensures
        s.filter(p1) == s.filter(p2),
    decreases s.len(),
{
    reveal(Seq::filter);
    if s.len() == 0 {
    } else {
        let rest = s.drop_last();
        assert(forall|j: int| 0 <= j < rest.len() ==> rest[j] == s[j]);
        lemma_filter_equiv(rest, p1, p2);
        assert(s.last() == s[s.len() - 1]);
    }
}

/// A list of entries with pairwise-distinct ids keeps them distinct
/// when filtered.
proof fn lemma_filter_distinct_idle(s: Seq<IdleEntry>, pred: spec_fn(IdleEntry) -> bool)
    requires
        forall|k1: int, k2: int|
            0 <= k1 < k2 < s.len() ==> (#[trigger] s[k1]).id != (#[trigger] s[k2]).id,
    ensures
        forall|k1: int, k2: int|
            0 <= k1 < k2 < s.filter(pred).len() ==> (#[trigger] s.filter(pred)[k1]).id != (
            #[trigger] s.filter(pred)[k2]).id,
    decreases s.len(),
{
    reveal(Seq::filter);
    if s.len() == 0 {
    } else {
        let rest = s.drop_last();
        let f = s.filter(pred);
        let fr = rest.filter(pred);
        lemma_filter_distinct_idle(rest, pred);
        rest.lemma_filter_len(pred);
        if pred(s.last()) {
            assert(f == fr.push(s.last()));
            assert forall|k1: int, k2: int| 0 <= k1 < k2 < f.len() implies (
            #[trigger] f[k1]).id != (#[trigger] f[k2]).id by {
                if k2 < fr.len() {
                    assert(f[k1] == fr[k1] && f[k2] == fr[k2]);
                } else {
                    assert(f[k2] == s.last());
                    assert(f[k1] == fr[k1]);
                    assert(fr.contains(fr[k1]));
                    rest.lemma_filter_contains_rev(pred, fr[k1]);
                    let j = choose|j: int| 0 <= j < rest.len() && rest[j] == fr[k1];
                    assert(s[j] == rest[j]);
                    assert(s[j].id != s[s.len() - 1].id);
                }
            }
        } else {
            assert(f == fr);
        }
    }
}

/// Copy `v`, dropping every id listed in `removed`.
fn retain_not_removed(v: &Vec<u64>, removed: &Vec<u64>) -> (r: Vec<u64>)
    ensures
        r@ == v@.filter(|x: u64| !removed@.contains(x)),
{
    let mut r: Vec<u64> = Vec::new();
    let mut i: usize = 0;
    proof {
        assert(v@.take(0).filter(|x: u64| !removed@.contains(x)) =~= Seq::<u64>::empty());
    }
    while i < v.len()
        invariant
            i <= v@.len(),
            r@ == v@.take(i as int).filter(|x: u64| !removed@.contains(x)),
        decreases v@.len() - i,
    {
        let x = v[i];
        proof {
            reveal(Seq::filter);
            assert(v@.take(i + 1).drop_last() =~= v@.take(i as int));
            assert(v@.take(i + 1).last() == v@[i as int]);
        }
        if !contains_id(removed, x) {
            r.push(x);
        }
        i += 1;
    }
    proof {
        assert(v@.take(v@.len() as int) =~= v@);
    }
    r
}

/// Copy `v`, dropping every occurrence of `id`.
fn filter_ids(v: &Vec<u64>, id: u64) -> (r: Vec<u64>)
    ensures
        r@ == v@.filter(|x: u64| x != id),
{
    let mut r: Vec<u64> = Vec::new();
    let mut i: usize = 0;
    proof {
        assert(v@.take(0).filter(|x: u64| x != id) =~= Seq::<u64>::empty());
    }
    while i < v.len()
        invariant
            i <= v@.len(),
            r@ == v@.take(i as int).filter(|x: u64| x != id),
        decreases v@.len() - i,
    {
        let x = v[i];
        proof {
            reveal(Seq::filter);
            assert(v@.take(i + 1).drop_last() =~= v@.take(i as int));
            assert(v@.take(i + 1).last() == v@[i as int]);
        }
        if x != id {
            r.push(x);
        }
        i += 1;
    }
    proof {
        assert(v@.take(v@.len() as int) =~= v@);
    }
    r
}

/// A list of pairwise-distinct ids stays pairwise distinct when
/// filtered.
proof fn lemma_filter_distinct_ids(s: Seq<u64>, pred: spec_fn(u64) -> bool)
    requires
        forall|k1: int, k2: int| 0 <= k1 < k2 < s.len() ==> #[trigger] s[k1] != #[trigger] s[k2],
    ensures
        forall|k1: int, k2: int|
            0 <= k1 < k2 < s.filter(pred).len() ==> #[trigger] s.filter(pred)[k1]
                != #[trigger] s.filter(pred)[k2],
    decreases s.len(),
{
    reveal(Seq::filter);
    if s.len() == 0 {
    } else {
        let rest = s.drop_last();
        let f = s.filter(pred);
        let fr = rest.filter(pred);
        lemma_filter_distinct_ids(rest, pred);
        rest.lemma_filter_len(pred);
        if pred(s.last()) {
            assert(f == fr.push(s.last()));
            assert forall|k1: int, k2: int| 0 <= k1 < k2 < f.len() implies #[trigger] f[k1]
                != #[trigger] f[k2] by {
                if k2 < fr.len() {
                    assert(f[k1] == fr[k1] && f[k2] == fr[k2]);
                } else {
                    assert(f[k2] == s.last());
                    assert(f[k1] == fr[k1]);
                    assert(fr.contains(fr[k1]));
                    rest.lemma_filter_contains_rev(pred, fr[k1]);
                    let j = choose|j: int| 0 <= j < rest.len() && rest[j] == fr[k1];
                    assert(s[j] == rest[j]);
                    assert(s[j] != s[s.len() - 1]);
                }
            }
        } else {
            assert(f == fr);
        }
    }
}

/// Removing one idle entry keeps the pool invariant, the connection
/// lists, the threshold and the counter.
proof fn lemma_idle_remove_wf(pre: PoolState, post: PoolState, i: int)
    requires
        pre.wf(),
        0 <= i < pre.idle_model().len(),
        post.idle_model() == pre.idle_model().remove(i),
        post.conns_model() == pre.conns_model(),
        post.force_use_ms() == pre.force_use_ms(),
        post.next_counter() == pre.next_counter(),
    ensures
        post.wf(),
{
    pre.idle_model().remove_ensures(i);
    let pi = pre.idle_model();
    let qi = post.idle_model();
    assert forall|x: int, y: int| 0 <= x < y < qi.len() implies (#[trigger] qi[x]).id != (
    #[trigger] qi[y]).id by {
        let x0: int = if x < i {
            x
        } else {
            x + 1
        };
        let y0: int = if y < i {
            y
        } else {
            y + 1
        };
        assert(qi[x] == pi[x0]);
        assert(qi[y] == pi[y0]);
        assert(pi[x0].id != pi[y0].id);
    }
    assert forall|x: int| 0 <= x < qi.len() implies post.id_in_conns(#[trigger] qi[x].id) by {
        let x0: int = if x < i {
            x
        } else {
            x + 1
        };
        assert(qi[x] == pi[x0]);
        assert(pre.id_in_conns(pi[x0].id));
    }
}

} // verus!
