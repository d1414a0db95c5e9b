use vstd::prelude::*;

verus! {

use crate::account::User;

/// A cache key: the account login together with the archived-state filter,
/// since both determine the upstream query.
pub struct CacheKey {
    pub login: String,
    pub is_archived: Option<bool>,
}

/// The mathematical image of a key.
pub open spec fn key_view(k: CacheKey) -> (Seq<char>, Option<bool>) {
    (k.login@, k.is_archived)
}

/// One key's state: a computation is in flight, or a result is stored until
/// its expiry instant.
pub enum CacheEntry {
    Computing,
    Ready { result: User, expires_at: u64 },
}

/// What a lookup tells its caller to do.
pub enum Lookup {
    /// A fresh result was stored: use it.
    Hit(User),
    /// Another caller is computing this key: await that computation.
    Wait,
    /// The caller must run the pipeline and then report the outcome.
    Compute,
}

/// The entry stored under a key, the later binding winning.
pub open spec fn spec_get(
    entries: Seq<(CacheKey, CacheEntry)>,
    kv: (Seq<char>, Option<bool>),
) -> Option<CacheEntry>
    decreases entries.len(),
{
    if entries.len() == 0 {
        None
    } else if key_view(entries.last().0) == kv {
        Some(entries.last().1)
    } else {
        spec_get(entries.drop_last(), kv)
    }
}

/// Every two entries are for different keys.
pub open spec fn unique_keys(entries: Seq<(CacheKey, CacheEntry)>) -> bool {
    forall|i: int, j: int|
        0 <= i < j < entries.len() ==> key_view(entries[i].0) != key_view(entries[j].0)
}

/// With unique keys, the entry that matches a key is the stored one.
proof fn lemma_spec_get_at(entries: Seq<(CacheKey, CacheEntry)>, i: int)
    requires
        unique_keys(entries),
        0 <= i < entries.len(),
    ensures
        spec_get(entries, key_view(entries[i].0)) == Some(entries[i].1),
    decreases entries.len(),
{
    if i == entries.len() - 1 {
    } else {
        assert(key_view(entries.last().0) != key_view(entries[i].0));
        assert(forall|a: int, b: int|
            0 <= a < b < entries.len() - 1 ==> #[trigger] entries.drop_last()[a] == entries[a]
                && #[trigger] entries.drop_last()[b] == entries[b]);
        lemma_spec_get_at(entries.drop_last(), i);
    }
}

/// A key no entry carries is absent.
proof fn lemma_spec_get_absent(entries: Seq<(CacheKey, CacheEntry)>, kv: (Seq<char>, Option<bool>))
    requires
        forall|i: int| 0 <= i < entries.len() ==> key_view((#[trigger] entries[i]).0) != kv,
    ensures
        spec_get(entries, kv) is None,
    decreases entries.len(),
{
    if entries.len() > 0 {
        assert(forall|i: int|
            0 <= i < entries.len() - 1 ==> #[trigger] entries.drop_last()[i] == entries[i]);
        lemma_spec_get_absent(entries.drop_last(), kv);
    }
}

/// Removing the entry at `i` removes its key and leaves every other key's
/// binding alone.
proof fn lemma_spec_get_remove(entries: Seq<(CacheKey, CacheEntry)>, i: int)
    requires
        unique_keys(entries),
        0 <= i < entries.len(),
    ensures
        unique_keys(entries.remove(i)),
        spec_get(entries.remove(i), key_view(entries[i].0)) is None,
        forall|kv: (Seq<char>, Option<bool>)|
            kv != key_view(entries[i].0) ==> #[trigger] spec_get(entries.remove(i), kv)
                == spec_get(entries, kv),
    decreases entries.len(),
{
    let r = entries.remove(i);
    assert(forall|a: int| 0 <= a < i ==> #[trigger] r[a] == entries[a]);
    assert(forall|a: int| i <= a < r.len() ==> #[trigger] r[a] == entries[a + 1]);
    assert(unique_keys(r));
    assert forall|a: int| 0 <= a < r.len() implies key_view((#[trigger] r[a]).0) != key_view(
        entries[i].0,
    ) by {}
    lemma_spec_get_absent(r, key_view(entries[i].0));
    assert forall|kv: (Seq<char>, Option<bool>)| kv != key_view(entries[i].0) implies #[trigger] spec_get(
        r,
        kv,
    ) == spec_get(entries, kv) by {
        lemma_spec_get_skip(entries, i, kv);
    }
}

/// The binding of any other key survives one removal.
proof fn lemma_spec_get_skip(
    entries: Seq<(CacheKey, CacheEntry)>,
    i: int,
    kv: (Seq<char>, Option<bool>),
)
    requires
        0 <= i < entries.len(),
        key_view(entries[i].0) != kv,
    ensures
        spec_get(entries.remove(i), kv) == spec_get(entries, kv),
    decreases entries.len(),
{
    let r = entries.remove(i);
    if i == entries.len() - 1 {
        assert(r =~= entries.drop_last());
    } else {
        assert(r.last() == entries.last());
        if key_view(entries.last().0) == kv {
        } else {
            assert(r.drop_last() =~= entries.drop_last().remove(i));
            lemma_spec_get_skip(entries.drop_last(), i, kv);
        }
    }
}

/// The per-account result cache: at most one entry per key, each either a
/// computation in flight or a stored result with its expiry instant.
pub struct ResultCache {
    entries: Vec<(CacheKey, CacheEntry)>,
    ttl: u64,
}

impl ResultCache {
    /// The cache's well-formedness: one entry per key.
    pub closed spec fn wf(&self) -> bool {
        unique_keys(self.entries@)
    }

    /// The entry stored under `kv`.
    pub closed spec fn get(&self, kv: (Seq<char>, Option<bool>)) -> Option<CacheEntry> {
        spec_get(self.entries@, kv)
    }

    /// The fixed freshness window, in seconds.
    pub closed spec fn spec_ttl(&self) -> u64 {
        self.ttl
    }

    /// An empty cache with the given freshness window.
    pub fn new(ttl: u64) -> (res: Self)
        ensures
            res.wf(),
            res.spec_ttl() == ttl,
            forall|kv: (Seq<char>, Option<bool>)| #[trigger] res.get(kv) is None,
    {
        let res = ResultCache { entries: Vec::new(), ttl };
        proof {
            assert forall|kv: (Seq<char>, Option<bool>)| #[trigger] res.get(kv) is None by {
                lemma_spec_get_absent(res.entries@, kv);
            }
        }
        res
    }

    /// The index of the entry for `key`, if one exists.
    fn find(&self, key: &CacheKey) -> (res: Option<usize>)
        ensures
            match res {
                Some(i) => 0 <= i < self.entries@.len() && key_view(self.entries@[i as int].0)
                    == key_view(*key),
                None => forall|i: int|
                    0 <= i < self.entries@.len() ==> key_view((#[trigger] self.entries@[i]).0)
                        != key_view(*key),
            },
    {
        let mut i: usize = 0;
        while i < self.entries.len()
            invariant
                i <= self.entries@.len(),
                forall|q: int|
                    0 <= q < i ==> key_view((#[trigger] self.entries@[q]).0) != key_view(*key),
            decreases self.entries@.len() - i,
        {
            let same_login = self.entries[i].0.login == key.login;
            let same_filter = match (&self.entries[i].0.is_archived, &key.is_archived) {
                (None, None) => true,
                (Some(a), Some(b)) => *a == *b,
                _ => false,
            };
            if same_login && same_filter {
                return Some(i);
            }
            assert(key_view(self.entries@[i as int].0) != key_view(*key));
            i = i + 1;
        }
        None
    }

    /// One cache lookup at instant `now`.  A fresh stored result is a hit;
    /// an in-flight computation tells the caller to wait for it and starts
    /// no second one; anything else (no entry, or one that expired) marks
    /// the key in flight and tells the caller to compute.
    pub fn lookup(&mut self, key: &CacheKey, now: u64) -> (res: Lookup)
        requires
            old(self).wf(),
        ensures
            final(self).wf(),
            final(self).spec_ttl() == old(self).spec_ttl(),
            ({
                let kv = key_view(*key);
                match old(self).get(kv) {
                    Some(CacheEntry::Computing) => res is Wait && final(self).get(kv) == old(
                        self,
                    ).get(kv) && (forall|kv2: (Seq<char>, Option<bool>)|
                        #[trigger] final(self).get(kv2) == old(self).get(kv2)),
                    Some(CacheEntry::Ready { result, expires_at }) => {
                        if now < expires_at {
                            &&& res matches Lookup::Hit(u) && u@ == result@
                            &&& forall|kv2: (Seq<char>, Option<bool>)|
                                #[trigger] final(self).get(kv2) == old(self).get(kv2)
                        } else {
                            &&& res is Compute
                            &&& final(self).get(kv) matches Some(e) && e is Computing
                            &&& forall|kv2: (Seq<char>, Option<bool>)|
                                kv2 != kv ==> #[trigger] final(self).get(kv2) == old(self).get(
                                    kv2,
                                )
                        }
                    },
                    None => {
                        &&& res is Compute
                        &&& final(self).get(kv) matches Some(e) && e is Computing
                        &&& forall|kv2: (Seq<char>, Option<bool>)|
                            kv2 != kv ==> #[trigger] final(self).get(kv2) == old(self).get(kv2)
                    },
                }
            }),
    {
        let ghost kv = key_view(*key);
        match self.find(key) {
            Some(i) => {
                proof {
                    lemma_spec_get_at(self.entries@, i as int);
                }
                let fresh = match &self.entries[i].1 {
                    CacheEntry::Computing => {
                        return Lookup::Wait;
                    },
                    CacheEntry::Ready { result, expires_at } => {
                        if now < *expires_at {
                            Some(result.clone())
                        } else {
                            None
                        }
                    },
                };
                match fresh {
                    Some(u) => Lookup::Hit(u),
                    None => {
                        let ghost pre = self.entries@;
                        let removed = self.entries.remove(i);
                        proof {
                            lemma_spec_get_remove(pre, i as int);
                        }
                        let ghost mid = self.entries@;
                        self.entries.push(
                            (CacheKey { login: key.login.clone(), is_archived: key.is_archived },
                            CacheEntry::Computing),
                        );
                        proof {
                            assert(self.entries@.drop_last() =~= mid);
                            assert(self.entries@.last().0.login@ == key.login@);
                            assert(key_view(self.entries@.last().0) == kv);
                            assert forall|kv2: (Seq<char>, Option<bool>)| kv2 != kv implies #[trigger] spec_get(
                                self.entries@,
                                kv2,
                            ) == spec_get(pre, kv2) by {
                                assert(spec_get(self.entries@, kv2) == spec_get(mid, kv2));
                                lemma_spec_get_skip(pre, i as int, kv2);
                            }
                            assert(unique_keys(self.entries@)) by {
                                assert(forall|a: int|
                                    0 <= a < mid.len() ==> key_view(
                                        (#[trigger] self.entries@[a]).0,
                                    ) != kv);
                            }
                        }
                        Lookup::Compute
                    },
                }
            },
            None => {
                let ghost pre = self.entries@;
                proof {
                    lemma_spec_get_absent(pre, kv);
                }
                self.entries.push(
                    (CacheKey { login: key.login.clone(), is_archived: key.is_archived },
                    CacheEntry::Computing),
                );
                proof {
                    assert(self.entries@.drop_last() =~= pre);
                    assert(self.entries@.last().0.login@ == key.login@);
                    assert(key_view(self.entries@.last().0) == kv);
                    assert forall|kv2: (Seq<char>, Option<bool>)| kv2 != kv implies #[trigger] spec_get(
                        self.entries@,
                        kv2,
                    ) == spec_get(pre, kv2) by {
                        assert(spec_get(self.entries@, kv2) == spec_get(pre, kv2));
                    }
                    assert(unique_keys(self.entries@)) by {
                        assert(forall|a: int|
                            0 <= a < pre.len() ==> key_view((#[trigger] self.entries@[a]).0)
                                != kv);
                    }
                }
                Lookup::Compute
            },
        }
    }

    /// Stores a finished computation: the key holds the result until
    /// `now + ttl`, and every other key is untouched.
    pub fn complete(&mut self, key: &CacheKey, result: User, now: u64)
        requires
            old(self).wf(),
            now + old(self).spec_ttl() <= u64::MAX,
        ensures
            final(self).wf(),
            final(self).spec_ttl() == old(self).spec_ttl(),
            final(self).get(key_view(*key)) matches Some(e) && e matches CacheEntry::Ready {
                result: r,
                expires_at,
            } && r@ == result@ && expires_at == now + old(self).spec_ttl(),
            forall|kv2: (Seq<char>, Option<bool>)|
                kv2 != key_view(*key) ==> #[trigger] final(self).get(kv2) == old(self).get(kv2),
    {
        let ghost kv = key_view(*key);
        let ghost orig = self.entries@;
        match self.find(key) {
            Some(i) => {
                let ghost pre = self.entries@;
                let removed = self.entries.remove(i);
                proof {
                    lemma_spec_get_remove(pre, i as int);
                }
            },
            None => {
                proof {
                    lemma_spec_get_absent(self.entries@, kv);
                }
            },
        }
        let ghost mid = self.entries@;
        proof {
            assert(forall|a: int|
                0 <= a < mid.len() ==> key_view((#[trigger] mid[a]).0) != kv);
            assert(forall|kv2: (Seq<char>, Option<bool>)|
                kv2 != kv ==> #[trigger] spec_get(mid, kv2) == spec_get(orig, kv2));
        }
        let expires_at = now + self.ttl;
        self.entries.push(
            (CacheKey { login: key.login.clone(), is_archived: key.is_archived },
            CacheEntry::Ready { result, expires_at }),
        );
        proof {
            assert(self.entries@.drop_last() =~= mid);
            assert(self.entries@.last().0.login@ == key.login@);
            assert(key_view(self.entries@.last().0) == kv);
            assert forall|kv2: (Seq<char>, Option<bool>)| kv2 != kv implies #[trigger] spec_get(
                self.entries@,
                kv2,
            ) == spec_get(orig, kv2) by {
                assert(spec_get(self.entries@, kv2) == spec_get(mid, kv2));
            }
            assert(unique_keys(self.entries@)) by {
                assert(forall|a: int|
                    0 <= a < mid.len() ==> key_view((#[trigger] self.entries@[a]).0) != kv);
            }
        }
    }

    /// Drops a failed computation: the key reverts to absent, so the next
    /// lookup retries; failures are never stored.
    pub fn fail(&mut self, key: &CacheKey)
        requires
            old(self).wf(),
        ensures
            final(self).wf(),
            final(self).spec_ttl() == old(self).spec_ttl(),
            final(self).get(key_view(*key)) is None,
            forall|kv2: (Seq<char>, Option<bool>)|
                kv2 != key_view(*key) ==> #[trigger] final(self).get(kv2) == old(self).get(kv2),
    {
        let ghost kv = key_view(*key);
        match self.find(key) {
            Some(i) => {
                let ghost pre = self.entries@;
                let removed = self.entries.remove(i);
                proof {
                    lemma_spec_get_remove(pre, i as int);
                }
            },
            None => {
                proof {
                    lemma_spec_get_absent(self.entries@, kv);
                }
            },
        }
    }
}

} // verus!
