//! Certificate store: maps lowercased server names to certified-key
//! tokens, with a configurable fallback name for clients that send no
//! server name.
//!
//! Key material itself lives outside this crate; the store tracks each
//! key by an opaque `u64` token chosen by the caller.

use vstd::prelude::*;
use crate::text::{bytes_eq, lower_bytes, to_lowercase};

verus! {

struct CertEntry {
    name: Vec<u8>,
    key: u64,
}

/// Host-keyed lookup of certified keys, with a fallback name.
pub struct CertStore {
    entries: Vec<CertEntry>,
    fallback_name: Vec<u8>,
}

impl CertStore {
    /// The key token stored under `name`, if any. Names are stored
    /// lowercased.
    pub closed spec fn stored(self, name: Seq<u8>) -> Option<u64> {
        if exists|i: int| 0 <= i < self.entries@.len() && self.entries@[i].name@ == name {
            let i = choose|i: int|
                0 <= i < self.entries@.len() && self.entries@[i].name@ == name;
            Some(self.entries@[i].key)
        } else {
            None
        }
    }

    /// The lowercased fallback name used when a client sends no server
    /// name.
    pub closed spec fn fallback(self) -> Seq<u8> {
        self.fallback_name@
    }

    /// Stored names are unique.
    pub closed spec fn wf(self) -> bool {
        forall|i: int, j: int|
            0 <= i < j < self.entries@.len() ==> self.entries@[i].name@
                != self.entries@[j].name@
    }

    /// The name a lookup resolves: the client's server name, lowercased,
    /// or the fallback name when the client sent none.
    pub open spec fn resolution_name(self, server_name: Option<Seq<u8>>) -> Seq<u8> {
        match server_name {
            Some(n) => lower_bytes(n),
            None => self.fallback(),
        }
    }

    proof fn lemma_stored_at(self, i: int)
        requires
            self.wf(),
            0 <= i < self.entries@.len(),
        ensures
            self.stored(self.entries@[i].name@) == Some(self.entries@[i].key),
    {
        let name = self.entries@[i].name@;
        assert(exists|j: int| 0 <= j < self.entries@.len() && self.entries@[j].name@ == name);
        let j = choose|j: int| 0 <= j < self.entries@.len() && self.entries@[j].name@ == name;
        if j != i {
            assert(self.entries@[i].name@ != self.entries@[j].name@);
        }
    }

    /// An empty store remembering the (lowercased) fallback name.
    pub fn new(fallback_name: Vec<u8>) -> (r: CertStore)
        ensures
            r.wf(),
            r.fallback() == lower_bytes(fallback_name@),
            forall|n: Seq<u8>| r.stored(n) is None,
    {
        let r = CertStore { entries: Vec::new(), fallback_name: to_lowercase(&fallback_name) };
        proof {
            assert forall|n: Seq<u8>| r.stored(n) is None by {
                assert(r.entries@.len() == 0);
            }
        }
        r
    }

    /// Store `key` under the lowercased `name`, returning the token it
    /// overwrites, if any. Other names are unaffected.
    pub fn insert(&mut self, name: Vec<u8>, key: u64) -> (prev: Option<u64>)
        requires
            old(self).wf(),
        ensures
            final(self).wf(),
            prev == old(self).stored(lower_bytes(name@)),
            final(self).stored(lower_bytes(name@)) == Some(key),
            forall|n: Seq<u8>|
                n != lower_bytes(name@) ==> #[trigger] final(self).stored(n) == old(self).stored(
                    n,
                ),
            final(self).fallback() == old(self).fallback(),
    {
        let lname = to_lowercase(&name);
        let mut i: usize = 0;
        let n = self.entries.len();
        while i < n
            invariant
                n == self.entries@.len(),
                i <= n,
                *self == *old(self),
                self.wf(),
                lname@ == lower_bytes(name@),
                forall|j: int| 0 <= j < i ==> self.entries@[j].name@ != lname@,
            decreases n - i,
        {
            if bytes_eq(&self.entries[i].name, &lname) {
                let ghost old_store = *self;
                let prev_key = self.entries[i].key;
                proof {
                    old_store.lemma_stored_at(i as int);
                }
                let old_entry = self.entries.remove(i);
                self.entries.insert(i, CertEntry { name: old_entry.name, key });
                proof {
                    let new_store = *self;
                    old_store.entries@.remove_ensures(i as int);
                    old_store.entries@.remove(i as int).insert_ensures(
                        i as int,
                        new_store.entries@[i as int],
                    );
                    assert forall|m: int|
                        0 <= m < new_store.entries@.len() implies new_store.entries@[m].name@
                        == old_store.entries@[m].name@ && (m != i
                        ==> new_store.entries@[m] == old_store.entries@[m]) by {
                        if m < i {
                            assert(new_store.entries@[m] == old_store.entries@.remove(
                                i as int,
                            ).insert(i as int, new_store.entries@[i as int])[m]);
                        } else if m > i {
                            assert(new_store.entries@[m] == old_store.entries@.remove(
                                i as int,
                            )[m - 1]);
                        }
                    }
                    assert(new_store.wf());
                    assert(new_store.entries@[i as int].name@ == lname@);
                    assert(new_store.entries@[i as int].key == key);
                    new_store.lemma_stored_at(i as int);
                    assert forall|n2: Seq<u8>| n2 != lname@ implies #[trigger] new_store.stored(
                        n2,
                    ) == old_store.stored(n2) by {
                        lemma_same_names_same_stored(old_store, new_store, n2, i as int);
                    }
                }
                return Some(prev_key);
            }
            i += 1;
        }
        let ghost old_store = *self;
        let entry = CertEntry { name: lname, key };
        self.entries.push(entry);
        proof {
            let new_store = *self;
            assert(new_store.entries@ == old_store.entries@.push(entry));
            assert(new_store.wf());
            assert(forall|j: int|
                0 <= j < old_store.entries@.len() ==> #[trigger] new_store.entries@[j]
                    == old_store.entries@[j]);
            new_store.lemma_stored_at(old_store.entries@.len() as int);
            assert(old_store.stored(lower_bytes(name@)) is None);
            assert forall|n2: Seq<u8>| n2 != lower_bytes(name@) implies
                #[trigger] new_store.stored(n2) == old_store.stored(n2) by {
                if exists|j: int|
                    0 <= j < new_store.entries@.len() && new_store.entries@[j].name@ == n2 {
                    let j = choose|j: int|
                        0 <= j < new_store.entries@.len() && new_store.entries@[j].name@ == n2;
                    assert(j < old_store.entries@.len());
                    assert(old_store.entries@[j].name@ == n2);
                    old_store.lemma_stored_at(j);
                    new_store.lemma_stored_at(j);
                } else {
                    if exists|j: int|
                        0 <= j < old_store.entries@.len() && old_store.entries@[j].name@ == n2 {
                        let j = choose|j: int|
                            0 <= j < old_store.entries@.len() && old_store.entries@[j].name@
                                == n2;
                        assert(new_store.entries@[j].name@ == n2);
                    }
                }
            }
        }
        None
    }

    /// Resolve a client hello: look up the client's server name
    /// (case-insensitively), or the fallback name when none was sent.
    /// Returns the stored key token, or nothing on a miss.
    pub fn resolve(&self, server_name: &Option<Vec<u8>>) -> (r: Option<u64>)
        requires
            self.wf(),
        ensures
            r == self.stored(self.resolution_name(server_name.deep_view())),
    {
        let key = match server_name {
            Some(n) => to_lowercase(n),
            None => crate::text::copy_bytes(&self.fallback_name),
        };
        let mut i: usize = 0;
        let n = self.entries.len();
        while i < n
            invariant
                n == self.entries@.len(),
                i <= n,
                self.wf(),
                key@ == self.resolution_name(server_name.deep_view()),
                forall|j: int| 0 <= j < i ==> self.entries@[j].name@ != key@,
            decreases n - i,
        {
            if bytes_eq(&self.entries[i].name, &key) {
                proof {
                    self.lemma_stored_at(i as int);
                }
                return Some(self.entries[i].key);
            }
            i += 1;
        }
        proof {
            if exists|j: int| 0 <= j < self.entries@.len() && self.entries@[j].name@ == key@ {
                let j = choose|j: int|
                    0 <= j < self.entries@.len() && self.entries@[j].name@ == key@;
                assert(self.entries@[j].name@ != key@);
            }
        }
        None
    }
}

proof fn lemma_same_names_same_stored(a: CertStore, b: CertStore, n: Seq<u8>, changed: int)
    requires
        a.wf(),
        b.wf(),
        a.entries@.len() == b.entries@.len(),
        forall|m: int|
            0 <= m < a.entries@.len() ==> #[trigger] b.entries@[m].name@ == a.entries@[m].name@,
        forall|m: int|
            0 <= m < a.entries@.len() && m != changed ==> #[trigger] b.entries@[m]
                == a.entries@[m],
        0 <= changed < a.entries@.len(),
        n != a.entries@[changed].name@,
    ensures
        b.stored(n) == a.stored(n),
{
    if exists|j: int| 0 <= j < a.entries@.len() && a.entries@[j].name@ == n {
        let j = choose|j: int| 0 <= j < a.entries@.len() && a.entries@[j].name@ == n;
        assert(b.entries@[j].name@ == n);
        a.lemma_stored_at(j);
        b.lemma_stored_at(j);
        assert(j != changed);
    } else {
        if exists|j: int| 0 <= j < b.entries@.len() && b.entries@[j].name@ == n {
            let j = choose|j: int| 0 <= j < b.entries@.len() && b.entries@[j].name@ == n;
            assert(a.entries@[j].name@ == n);
        }
    }
}

/// Certificate resolution law: a client hello whose server name is
/// stored (case-insensitively) resolves to the stored key; with no
/// server name, or an unknown one, the fallback key is returned exactly
/// when the fallback name is stored.
pub proof fn lemma_certificate_resolution(store: CertStore, sni: Option<Seq<u8>>)
    ensures
        match sni {
            Some(n) => store.resolution_name(sni) == lower_bytes(n),
            None => store.resolution_name(sni) == store.fallback(),
        },
        sni is None ==> (store.stored(store.resolution_name(sni)) is Some <==> store.stored(
            store.fallback(),
        ) is Some),
{
}

} // verus!
