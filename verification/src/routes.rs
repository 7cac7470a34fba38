//! Routing table: maps a host and an ordered list of path segments to
//! a service token, with prefix matching.
//!
//! Within each host bucket the routes are kept sorted by path length,
//! ascending, so a lookup returns the matching route with the fewest
//! segments.

use vstd::prelude::*;
use crate::text::bytes_eq;

verus! {

/// A byte vector's deep view is its sequence of bytes.
proof fn lemma_deep_is_view(v: Vec<u8>)
    ensures
        v.deep_view() == v@,
{
    assert(v.deep_view() =~= v@);
}

/// One route: a path (list of exact-match segments) and the token of
/// the service that handles requests under that path.
pub struct Route {
    pub path: Vec<Vec<u8>>,
    pub service: u64,
}

impl Route {
    /// The mathematical value of a route: its segment list and token.
    pub open spec fn model(self) -> (Seq<Seq<u8>>, u64) {
        (self.path.deep_view(), self.service)
    }
}

struct HostBucket {
    host: Vec<u8>,
    routes: Vec<Route>,
}

impl HostBucket {
    spec fn model(self) -> Seq<(Seq<Seq<u8>>, u64)> {
        self.routes@.map_values(|r: Route| r.model())
    }

    spec fn sorted(self) -> bool {
        forall|i: int, j: int|
            0 <= i < j < self.routes@.len() ==> self.routes@[i].path@.len()
                <= self.routes@[j].path@.len()
    }
}

/// `base` is a segment-by-segment prefix of `sup` (it may be shorter or
/// equal, never longer).
pub open spec fn is_seg_prefix(base: Seq<Seq<u8>>, sup: Seq<Seq<u8>>) -> bool {
    base.len() <= sup.len() && forall|i: int| 0 <= i < base.len() ==> base[i] == sup[i]
}

/// Does `base` consist of the first `base.len()` segments of
/// `supplied`?
pub fn starts_with(base: &Vec<Vec<u8>>, supplied: &Vec<Vec<u8>>) -> (r: bool)
    ensures
        r == is_seg_prefix(base.deep_view(), supplied.deep_view()),
{
    proof {
        assert(base.deep_view().len() == base@.len());
        assert(supplied.deep_view().len() == supplied@.len());
    }
    if base.len() > supplied.len() {
        return false;
    }
    let mut i: usize = 0;
    while i < base.len()
        invariant
            base@.len() <= supplied@.len(),
            i <= base@.len(),
            forall|j: int| 0 <= j < i ==> base.deep_view()[j] == supplied.deep_view()[j],
        decreases base@.len() - i,
    {
        proof {
            lemma_deep_is_view(base@[i as int]);
            lemma_deep_is_view(supplied@[i as int]);
            assert(base.deep_view()[i as int] == base@[i as int].deep_view());
            assert(supplied.deep_view()[i as int] == supplied@[i as int].deep_view());
        }
        if !bytes_eq(&base[i], &supplied[i]) {
            proof {
                assert(base.deep_view()[i as int] != supplied.deep_view()[i as int]);
                assert(base.deep_view().len() == base@.len());
                assert(supplied.deep_view().len() == supplied@.len());
            }
            return false;
        }
        i += 1;
    }
    proof {
        assert(base.deep_view().len() == base@.len());
        assert(supplied.deep_view().len() == supplied@.len());
    }
    true
}

/// The routing table. Hosts are exact-match byte strings; each host
/// owns a list of routes sorted by path length ascending.
pub struct Routes {
    buckets: Vec<HostBucket>,
}

impl Routes {
    /// Is some route registered under `host`?
    pub closed spec fn has_host(self, host: Seq<u8>) -> bool {
        exists|b: int| 0 <= b < self.buckets@.len() && self.buckets@[b].host@ == host
    }

    /// The routes registered under `host`, in bucket order, as
    /// (segment list, service token) pairs.
    pub closed spec fn host_routes(self, host: Seq<u8>) -> Seq<(Seq<Seq<u8>>, u64)> {
        if self.has_host(host) {
            let b = choose|b: int|
                0 <= b < self.buckets@.len() && self.buckets@[b].host@ == host;
            self.buckets@[b].model()
        } else {
            Seq::empty()
        }
    }

    /// Has a route `(host, path) -> service` been inserted?
    pub open spec fn has_route(self, host: Seq<u8>, path: Seq<Seq<u8>>, service: u64) -> bool {
        self.host_routes(host).contains((path, service))
    }

    /// Hosts are unique and every bucket is sorted by path length.
    pub closed spec fn wf(self) -> bool {
        &&& forall|i: int, j: int|
            0 <= i < j < self.buckets@.len() ==> self.buckets@[i].host@
                != self.buckets@[j].host@
        &&& forall|b: int| 0 <= b < self.buckets@.len() ==> (#[trigger] self.buckets@[b]).sorted()
    }

    proof fn lemma_bucket_model(self, b: int)
        requires
            self.wf(),
            0 <= b < self.buckets@.len(),
        ensures
            self.has_host(self.buckets@[b].host@),
            self.host_routes(self.buckets@[b].host@) == self.buckets@[b].model(),
    {
        let host = self.buckets@[b].host@;
        assert(self.has_host(host));
        let b2 = choose|b2: int|
            0 <= b2 < self.buckets@.len() && self.buckets@[b2].host@ == host;
        if b2 != b {
            assert(self.buckets@[b2].host@ != self.buckets@[b].host@);
        }
    }

    /// An empty table: no host has any route.
    pub fn new() -> (r: Routes)
        ensures
            r.wf(),
            forall|h: Seq<u8>, p: Seq<Seq<u8>>, s: u64| !r.has_route(h, p, s),
    {
        let r = Routes { buckets: Vec::new() };
        proof {
            assert forall|h: Seq<u8>, p: Seq<Seq<u8>>, s: u64| !r.has_route(h, p, s) by {
                assert(!r.has_host(h));
            }
        }
        r
    }

    /// Register `(host, path) -> service`. Every route inserted before
    /// stays; lookups under other hosts are unaffected.
    pub fn insert(&mut self, host: Vec<u8>, path: Vec<Vec<u8>>, service: u64)
        requires
            old(self).wf(),
        ensures
            final(self).wf(),
            final(self).has_host(host@),
            forall|p2: Seq<Seq<u8>>, s2: u64|
                #[trigger] final(self).has_route(host@, p2, s2) <==> (old(self).has_route(
                    host@,
                    p2,
                    s2,
                ) || (p2 == path.deep_view() && s2 == service)),
            forall|h2: Seq<u8>|
                h2 != host@ ==> #[trigger] final(self).host_routes(h2) == old(self).host_routes(
                    h2,
                ),
    {
        let ghost pathv = path.deep_view();
        let plen = path.len();
        let route = Route { path, service };
        let mut b: usize = 0;
        let n = self.buckets.len();
        while b < n
            invariant
                n == self.buckets@.len(),
                b <= n,
                *self == *old(self),
                self.wf(),
                pathv == path.deep_view(),
                route.path.deep_view() == pathv,
                route.path@.len() == plen,
                route.service == service,
                forall|k: int| 0 <= k < b ==> self.buckets@[k].host@ != host@,
            decreases n - b,
        {
            if bytes_eq(&self.buckets[b].host, &host) {
                let ghost old_table = *self;
                let mut bucket = self.buckets.remove(b);
                let ghost old_bucket = bucket;
                let rlen = bucket.routes.len();
                let mut k: usize = 0;
                while k < rlen && bucket.routes[k].path.len() <= plen
                    invariant
                        rlen == bucket.routes@.len(),
                        k <= rlen,
                        bucket == old_bucket,
                        old_table.wf(),
                        old_bucket.sorted(),
                        route.path.deep_view() == pathv,
                        route.path@.len() == plen,
                        route.service == service,
                        0 <= b < old_table.buckets@.len(),
                        old_bucket == old_table.buckets@[b as int],
                        old_table.buckets@[b as int].host@ == host@,
                        self.buckets@ == old_table.buckets@.remove(b as int),
                        forall|m: int| 0 <= m < k ==> bucket.routes@[m].path@.len() <= plen,
                    decreases rlen - k,
                {
                    k += 1;
                }
                bucket.routes.insert(k, route);
                proof {
                    lemma_insert_index(old_bucket.routes@, k as int, route);
                    lemma_insert_index(old_bucket.model(), k as int, (pathv, service));
                    assert(route.path@.len() == plen);
                    // the new bucket stays sorted
                    assert forall|x: int, y: int|
                        0 <= x < y < bucket.routes@.len() implies bucket.routes@[x].path@.len()
                        <= bucket.routes@[y].path@.len() by {
                        if x < k && y < k {
                            assert(bucket.routes@[x] == old_bucket.routes@[x]);
                            assert(bucket.routes@[y] == old_bucket.routes@[y]);
                            assert(old_bucket.routes@[x].path@.len()
                                <= old_bucket.routes@[y].path@.len());
                        } else if x == k {
                            assert(bucket.routes@[x] == route);
                            assert(bucket.routes@[y] == old_bucket.routes@[y - 1]);
                            assert(k <= y - 1 < rlen);
                            assert(old_bucket.routes@[k as int].path@.len() > plen);
                            if y - 1 > k {
                                assert(old_bucket.routes@[k as int].path@.len()
                                    <= old_bucket.routes@[y - 1].path@.len());
                            }
                        } else if y == k {
                            assert(bucket.routes@[x] == old_bucket.routes@[x]);
                            assert(bucket.routes@[y] == route);
                            assert(old_bucket.routes@[x].path@.len() <= plen);
                        } else if x < k && y > k {
                            assert(bucket.routes@[x] == old_bucket.routes@[x]);
                            assert(bucket.routes@[y] == old_bucket.routes@[y - 1]);
                            if x == y - 1 {
                            } else {
                                assert(old_bucket.routes@[x].path@.len()
                                    <= old_bucket.routes@[y - 1].path@.len());
                            }
                        } else {
                            assert(bucket.routes@[x] == old_bucket.routes@[x - 1]);
                            assert(bucket.routes@[y] == old_bucket.routes@[y - 1]);
                            assert(old_bucket.routes@[x - 1].path@.len()
                                <= old_bucket.routes@[y - 1].path@.len());
                        }
                    }
                    // the new bucket's model is the old one with the
                    // route's model inserted at k
                    let new_model = bucket.model();
                    let rhs = old_bucket.model().insert(k as int, (pathv, service));
                    assert(new_model.len() == rhs.len());
                    assert forall|j: int| 0 <= j < new_model.len() implies new_model[j]
                        == rhs[j] by {
                        if j < k {
                            assert(bucket.routes@[j] == old_bucket.routes@[j]);
                            assert(rhs[j] == old_bucket.model()[j]);
                        } else if j == k {
                            assert(bucket.routes@[j] == route);
                            assert(rhs[j] == (pathv, service));
                        } else {
                            assert(bucket.routes@[j] == old_bucket.routes@[j - 1]);
                            assert(rhs[j] == old_bucket.model()[j - 1]);
                        }
                    }
                    assert(new_model =~= rhs);
                }
                self.buckets.insert(b, bucket);
                proof {
                    let new_table = *self;
                    old_table.buckets@.remove_ensures(b as int);
                    lemma_insert_index(old_table.buckets@.remove(b as int), b as int, bucket);
                    assert forall|m: int|
                        0 <= m < new_table.buckets@.len() implies new_table.buckets@[m].host@
                        == old_table.buckets@[m].host@ && (m != b
                        ==> new_table.buckets@[m] == old_table.buckets@[m]) by {
                        assert(new_table.buckets@ == old_table.buckets@.remove(b as int).insert(
                            b as int,
                            bucket,
                        ));
                        if m < b {
                            assert(new_table.buckets@[m] == old_table.buckets@[m]);
                        } else if m == b {
                            assert(new_table.buckets@[m] == bucket);
                        } else {
                            assert(new_table.buckets@[m] == old_table.buckets@.remove(
                                b as int,
                            )[m - 1]);
                            assert(old_table.buckets@.remove(b as int)[m - 1]
                                == old_table.buckets@[m]);
                        }
                    }
                    assert(new_table.buckets@.len() == old_table.buckets@.len());
                    assert(new_table.wf());
                    new_table.lemma_bucket_model(b as int);
                    old_table.lemma_bucket_model(b as int);
                    assert(new_table.host_routes(host@) == bucket.model());
                    assert(old_table.host_routes(host@) == old_bucket.model());
                    assert forall|p2: Seq<Seq<u8>>, s2: u64|
                        #[trigger] new_table.has_route(host@, p2, s2) <==> (old_table.has_route(
                            host@,
                            p2,
                            s2,
                        ) || (p2 == pathv && s2 == service)) by {
                        lemma_insert_contains(
                            old_bucket.model(),
                            k as int,
                            (pathv, service),
                            (p2, s2),
                        );
                    }
                    assert forall|h2: Seq<u8>| h2 != host@ implies #[trigger] new_table.host_routes(
                        h2,
                    ) == old_table.host_routes(h2) by {
                        lemma_same_hosts_same_routes(old_table, new_table, h2, b as int);
                    }
                }
                return ;
            }
            b += 1;
        }
        let ghost old_table = *self;
        let bucket = HostBucket { host, routes: vec![route] };
        self.buckets.push(bucket);
        proof {
            let new_table = *self;
            assert(new_table.buckets@ == old_table.buckets@.push(bucket));
            assert forall|m: int| 0 <= m < old_table.buckets@.len() implies new_table.buckets@[m]
                == old_table.buckets@[m] by {}
            assert(bucket.routes@ =~= seq![route]);
            assert(bucket.sorted());
            assert(new_table.wf());
            new_table.lemma_bucket_model(old_table.buckets@.len() as int);
            assert(new_table.host_routes(host@) == bucket.model());
            assert(bucket.model() =~= seq![(pathv, service)]);
            assert(!old_table.has_host(host@));
            assert forall|p2: Seq<Seq<u8>>, s2: u64|
                #[trigger] new_table.has_route(host@, p2, s2) <==> (old_table.has_route(
                    host@,
                    p2,
                    s2,
                ) || (p2 == pathv && s2 == service)) by {
                if new_table.has_route(host@, p2, s2) {
                    let m = choose|m: int|
                        0 <= m < bucket.model().len() && bucket.model()[m] == (p2, s2);
                    assert(m == 0);
                }
                if p2 == pathv && s2 == service {
                    assert(bucket.model()[0] == (p2, s2));
                }
            }
            assert forall|h2: Seq<u8>| h2 != host@ implies #[trigger] new_table.host_routes(h2)
                == old_table.host_routes(h2) by {
                if new_table.has_host(h2) {
                    let b2 = choose|b2: int|
                        0 <= b2 < new_table.buckets@.len() && new_table.buckets@[b2].host@ == h2;
                    assert(b2 < old_table.buckets@.len());
                    assert(old_table.has_host(h2));
                    old_table.lemma_bucket_model(b2);
                    assert(old_table.host_routes(h2) == old_table.buckets@[b2].model());
                    new_table.lemma_bucket_model(b2);
                } else {
                    if old_table.has_host(h2) {
                        let b2 = choose|b2: int|
                            0 <= b2 < old_table.buckets@.len() && old_table.buckets@[b2].host@
                                == h2;
                        assert(new_table.buckets@[b2].host@ == h2);
                    }
                }
            }
        }
    }

    /// `s` serves `(host, q)`: some inserted route under `host` with
    /// token `s` is a prefix of `q`, and no inserted prefix of `q`
    /// under `host` has fewer segments.
    pub open spec fn serves(self, host: Seq<u8>, q: Seq<Seq<u8>>, s: u64) -> bool {
        exists|p: Seq<Seq<u8>>|
            {
                &&& #[trigger] self.has_route(host, p, s)
                &&& is_seg_prefix(p, q)
                &&& forall|p2: Seq<Seq<u8>>, s2: u64|
                    #[trigger] self.has_route(host, p2, s2) && is_seg_prefix(p2, q) ==> p.len()
                        <= p2.len()
            }
    }

    /// No inserted route under `host` is a prefix of `q`.
    pub open spec fn no_match(self, host: Seq<u8>, q: Seq<Seq<u8>>) -> bool {
        forall|p: Seq<Seq<u8>>, s: u64|
            #[trigger] self.has_route(host, p, s) ==> !is_seg_prefix(p, q)
    }

    /// Look up the service for `host` and the supplied path segments.
    ///
    /// Returns the token of a route whose path is a segment prefix of
    /// `segments` and has the fewest segments among all such routes
    /// under `host`; returns nothing exactly when no inserted route
    /// under `host` is a prefix of `segments`.
    pub fn find(&self, host: &Vec<u8>, segments: &Vec<Vec<u8>>) -> (r: Option<u64>)
        requires
            self.wf(),
        ensures
            match r {
                Some(s) => self.serves(host@, segments.deep_view(), s),
                None => self.no_match(host@, segments.deep_view()),
            },
    {
        let mut b: usize = 0;
        let n = self.buckets.len();
        while b < n
            invariant
                n == self.buckets@.len(),
                b <= n,
                self.wf(),
                forall|k: int| 0 <= k < b ==> self.buckets@[k].host@ != host@,
            decreases n - b,
        {
            if bytes_eq(&self.buckets[b].host, host) {
                proof {
                    self.lemma_bucket_model(b as int);
                }
                let ghost model = self.buckets@[b as int].model();
                let rlen = self.buckets[b].routes.len();
                let mut k: usize = 0;
                while k < rlen
                    invariant
                        b < self.buckets@.len(),
                        rlen == self.buckets@[b as int].routes@.len(),
                        k <= rlen,
                        self.wf(),
                        model == self.buckets@[b as int].model(),
                        self.host_routes(host@) == model,
                        forall|m: int|
                            0 <= m < k ==> !is_seg_prefix(
                                #[trigger] model[m].0,
                                segments.deep_view(),
                            ),
                    decreases rlen - k,
                {
                    if starts_with(&self.buckets[b].routes[k].path, segments) {
                        let s = self.buckets[b].routes[k].service;
                        proof {
                            let p = self.buckets@[b as int].routes@[k as int].path.deep_view();
                            assert(model[k as int] == (p, s));
                            assert(self.has_route(host@, p, s));
                            assert forall|p2: Seq<Seq<u8>>, s2: u64|
                                self.has_route(host@, p2, s2) && is_seg_prefix(
                                    p2,
                                    segments.deep_view(),
                                ) implies p.len() <= p2.len() by {
                                let m = choose|m: int|
                                    0 <= m < model.len() && model[m] == (p2, s2);
                                assert(model[m].0 == p2);
                                assert(!(m < k)) by {
                                    if m < k {
                                        assert(!is_seg_prefix(model[m].0, segments.deep_view()));
                                    }
                                }
                                assert(self.buckets@[b as int].sorted());
                                if m > k {
                                    assert(self.buckets@[b as int].routes@[k as int].path@.len()
                                        <= self.buckets@[b as int].routes@[m].path@.len());
                                }
                                assert(p2.len()
                                    == self.buckets@[b as int].routes@[m].path@.len());
                                assert(p.len()
                                    == self.buckets@[b as int].routes@[k as int].path@.len());
                            }
                            assert(self.serves(host@, segments.deep_view(), s));
                        }
                        return Some(s);
                    }
                    k += 1;
                }
                proof {
                    assert forall|p: Seq<Seq<u8>>, s: u64|
                        self.has_route(host@, p, s) implies !is_seg_prefix(
                        p,
                        segments.deep_view(),
                    ) by {
                        let m = choose|m: int| 0 <= m < model.len() && model[m] == (p, s);
                        assert(!is_seg_prefix(model[m].0, segments.deep_view()));
                    }
                }
                return None;
            }
            b += 1;
        }
        proof {
            assert forall|p: Seq<Seq<u8>>, s: u64| self.has_route(host@, p, s) implies
                !is_seg_prefix(p, segments.deep_view()) by {
                assert(!self.has_host(host@));
            }
        }
        None
    }
}

proof fn lemma_insert_index<T>(s: Seq<T>, k: int, x: T)
    requires
        0 <= k <= s.len(),
    ensures
        s.insert(k, x).len() == s.len() + 1,
        forall|j: int| 0 <= j < k ==> #[trigger] s.insert(k, x)[j] == s[j],
        s.insert(k, x)[k] == x,
        forall|j: int| k < j < s.len() + 1 ==> #[trigger] s.insert(k, x)[j] == s[j - 1],
{
    s.insert_ensures(k, x);
    assert forall|j: int| k < j < s.len() + 1 implies #[trigger] s.insert(k, x)[j] == s[j
        - 1] by {
        assert(s.insert(k, x)[(j - 1) + 1] == s[j - 1]);
    }
}

proof fn lemma_insert_contains<T>(s: Seq<T>, k: int, x: T, y: T)
    requires
        0 <= k <= s.len(),
    ensures
        s.insert(k, x).contains(y) <==> (s.contains(y) || y == x),
{
    let t = s.insert(k, x);
    lemma_insert_index(s, k, x);
    if t.contains(y) {
        let i = choose|i: int| 0 <= i < t.len() && t[i] == y;
        if i < k {
            assert(s[i] == y);
        } else if i == k {
            assert(y == x);
        } else {
            assert(s[i - 1] == y);
        }
    }
    if s.contains(y) {
        let i = choose|i: int| 0 <= i < s.len() && s[i] == y;
        if i < k {
            assert(t[i] == y);
        } else {
            assert(t[i + 1] == y);
        }
    }
    if y == x {
        assert(t[k] == y);
    }
}

proof fn lemma_same_hosts_same_routes(a: Routes, b: Routes, h: Seq<u8>, changed: int)
    requires
        a.wf(),
        b.wf(),
        a.buckets@.len() == b.buckets@.len(),
        forall|m: int|
            0 <= m < a.buckets@.len() ==> #[trigger] b.buckets@[m].host@ == a.buckets@[m].host@,
        forall|m: int|
            0 <= m < a.buckets@.len() && m != changed ==> #[trigger] b.buckets@[m]
                == a.buckets@[m],
        0 <= changed < a.buckets@.len(),
        h != a.buckets@[changed].host@,
    ensures
        b.host_routes(h) == a.host_routes(h),
{
    if a.has_host(h) {
        let m = choose|m: int| 0 <= m < a.buckets@.len() && a.buckets@[m].host@ == h;
        assert(b.buckets@[m].host@ == h);
        assert(b.has_host(h));
        a.lemma_bucket_model(m);
        b.lemma_bucket_model(m);
        assert(m != changed);
    } else {
        if b.has_host(h) {
            let m = choose|m: int| 0 <= m < b.buckets@.len() && b.buckets@[m].host@ == h;
            assert(a.buckets@[m].host@ == h);
        }
    }
}

} // verus!
