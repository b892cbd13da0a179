//! A cache of looked-up host names with time-to-live eviction.
//!
//! Resolution itself is the caller's: it hands each completed resolution in
//! as plain values. The cache keeps at most one entry per host, stamped
//! with the time it was inserted, and evicts entries that have not been
//! refreshed for [`TTL_MS`] milliseconds.

use vstd::prelude::*;

use crate::addr::{addr_lt_spec, Addr};
use crate::ping_loop::lemma_addr_order;

verus! {

/// How long a cached resolution lives without being refreshed, in
/// milliseconds.
pub const TTL_MS: u64 = 15_000;

/// A name lookup error.
#[derive(Debug, Clone, PartialEq, Eq)]
pub struct NameError {
    /// The name that was looked up.
    pub name: String,
    /// The error during name resolution.
    pub error: String,
}

/// When two name errors carry the same name and message.
pub open spec fn name_error_eq(a: NameError, b: NameError) -> bool {
    a.name@ == b.name@ && a.error@ == b.error@
}

/// A result from a cache name lookup: the errors seen and the addresses
/// found, the addresses sorted and deduplicated.
#[derive(Debug, Clone, PartialEq, Eq)]
pub struct CacheNameResult {
    /// One error per name that failed to resolve.
    pub errors: Vec<NameError>,
    /// The resolved addresses, strictly ascending.
    pub addresses: Vec<Addr>,
}

impl CacheNameResult {
    /// The addresses are strictly ascending, so each appears once, and
    /// each failed name appears at most once among the errors.
    pub open spec fn wf(&self) -> bool {
        &&& forall|i: int, j: int|
            0 <= i < j < self.addresses@.len() ==> addr_lt_spec(
                #[trigger] self.addresses@[i],
                #[trigger] self.addresses@[j],
            )
        &&& forall|i: int, j: int|
            0 <= i < j < self.errors@.len() ==> (#[trigger] self.errors@[i].name)@
                != (#[trigger] self.errors@[j].name)@
    }

    /// An empty resolution.
    pub fn new() -> (r: CacheNameResult)
        ensures
            r.wf(),
            r.errors@.len() == 0,
            r.addresses@.len() == 0,
    {
        CacheNameResult { errors: Vec::new(), addresses: Vec::new() }
    }

    /// Whether an error is recorded for this name.
    pub open spec fn has_error_name(&self, m: Seq<char>) -> bool {
        exists|i: int|
            0 <= i < self.errors@.len() && (#[trigger] self.errors@[i].name)@ == m
    }

    /// Insert a resolved address at its sorted position; an address
    /// already present is left as is, so the list stays strictly
    /// ascending and deduplicated.
    pub fn add_address(&mut self, a: Addr)
        requires
            old(self).wf(),
        ensures
            final(self).wf(),
            final(self).addresses@.contains(a),
            forall|x: Addr|
                x != a ==> (final(self).addresses@.contains(x) == old(self).addresses@.contains(
                    x,
                )),
            final(self).errors == old(self).errors,
    {
        let n = self.addresses.len();
        let mut i: usize = 0;
        while i < n && self.addresses[i].lt(&a)
            invariant
                *self == *old(self),
                n == self.addresses@.len(),
                0 <= i <= n,
                forall|k: int| 0 <= k < i ==> addr_lt_spec(#[trigger] self.addresses@[k], a),
            decreases n - i,
        {
            i = i + 1;
        }
        if i < n && self.addresses[i] == a {
            proof {
                assert(self.addresses@[i as int] == a);
                assert(self.addresses@.contains(a));
            }
            return ;
        }
        let ghost before = self.addresses@;
        proof {
            lemma_addr_order();
            before.insert_ensures(i as int, a);
        }
        self.addresses.insert(i, a);
        proof {
            let after = self.addresses@;
            assert(after[i as int] == a);
            assert(after.contains(a));
            assert forall|p: int, q: int|
                0 <= p < q < after.len() implies addr_lt_spec(
                #[trigger] after[p],
                #[trigger] after[q],
            ) by {
                if q < i {
                    assert(after[p] == before[p] && after[q] == before[q]);
                } else if p > i {
                    assert(after[p] == before[p - 1] && after[q] == before[q - 1]);
                } else if p < i && q == i {
                    assert(after[p] == before[p]);
                } else if p == i && q > i {
                    assert(after[q] == before[q - 1]);
                    if i < n {
                        assert(!addr_lt_spec(before[i as int], a));
                        assert(before[i as int] != a);
                        assert(addr_lt_spec(a, before[i as int]));
                    }
                    if i < q - 1 {
                        assert(addr_lt_spec(before[i as int], before[q - 1]));
                    }
                } else {
                    assert(after[p] == before[p] && after[q] == before[q - 1]);
                    assert(addr_lt_spec(before[p], a));
                    if i <= q - 2 {
                        assert(addr_lt_spec(a, before[i as int]));
                        if i < q - 1 {
                            assert(addr_lt_spec(before[i as int], before[q - 1]));
                        }
                    }
                }
            }
            assert forall|x: Addr|
                x != a implies (after.contains(x) == before.contains(x)) by {
                if before.contains(x) {
                    let j = choose|j: int| 0 <= j < before.len() && #[trigger] before[j] == x;
                    if j < i {
                        assert(after[j] == x);
                    } else {
                        assert(after[j + 1] == x);
                    }
                }
                if after.contains(x) {
                    let j = choose|j: int| 0 <= j < after.len() && #[trigger] after[j] == x;
                    assert(j != i);
                    if j < i {
                        assert(before[j] == x);
                    } else {
                        assert(before[j - 1] == x);
                    }
                }
            }
        }
    }

    /// Record a name's resolution error, replacing any earlier error of
    /// the same name, so each failed name appears once.
    pub fn add_error(&mut self, name: String, error: String)
        requires
            old(self).wf(),
        ensures
            final(self).wf(),
            final(self).has_error_name(name@),
            forall|i: int|
                0 <= i < final(self).errors@.len() && (#[trigger] final(self).errors@[i].name)@
                    == name@ ==> final(self).errors@[i].error@ == error@,
            forall|m: Seq<char>|
                m != name@ ==> #[trigger] final(self).has_error_name(m) == old(
                    self,
                ).has_error_name(m),
            forall|i: int|
                0 <= i < final(self).errors@.len() && (#[trigger] final(self).errors@[i].name)@
                    != name@ ==> old(self).errors@.contains(final(self).errors@[i]),
            final(self).addresses == old(self).addresses,
    {
        let n = self.errors.len();
        let mut i: usize = 0;
        while i < n && !(self.errors[i].name == name)
            invariant
                *self == *old(self),
                n == self.errors@.len(),
                0 <= i <= n,
                forall|k: int| 0 <= k < i ==> (#[trigger] self.errors@[k].name)@ != name@,
            decreases n - i,
        {
            i = i + 1;
        }
        let entry = NameError { name, error };
        let ghost before = self.errors@;
        if i < n {
            vstd::pervasive::VecAdditionalExecFns::set(&mut self.errors, i, entry);
            proof {
                let after = self.errors@;
                assert(after[i as int].name@ == name@);
                assert forall|m: Seq<char>|
                    m != name@ implies #[trigger] self.has_error_name(m) == old(
                    self,
                ).has_error_name(m) by {
                    if old(self).has_error_name(m) {
                        let j = choose|j: int|
                            0 <= j < before.len() && (#[trigger] before[j].name)@ == m;
                        assert(j != i);
                        assert(after[j].name@ == m);
                    }
                    if self.has_error_name(m) {
                        let j = choose|j: int|
                            0 <= j < after.len() && (#[trigger] after[j].name)@ == m;
                        assert(j != i);
                        assert(before[j].name@ == m);
                    }
                }
                assert forall|p: int|
                    0 <= p < after.len() && (#[trigger] after[p].name)@ != name@
                        implies before.contains(after[p]) by {
                    assert(p != i);
                    assert(after[p] == before[p]);
                }
            }
        } else {
            self.errors.push(entry);
            proof {
                let after = self.errors@;
                assert(after[n as int].name@ == name@);
                assert forall|m: Seq<char>|
                    m != name@ implies #[trigger] self.has_error_name(m) == old(
                    self,
                ).has_error_name(m) by {
                    if old(self).has_error_name(m) {
                        let j = choose|j: int|
                            0 <= j < before.len() && (#[trigger] before[j].name)@ == m;
                        assert(after[j].name@ == m);
                    }
                    if self.has_error_name(m) {
                        let j = choose|j: int|
                            0 <= j < after.len() && (#[trigger] after[j].name)@ == m;
                        assert(j != n);
                        assert(before[j].name@ == m);
                    }
                }
                assert forall|p: int|
                    0 <= p < after.len() && (#[trigger] after[p].name)@ != name@
                        implies before.contains(after[p]) by {
                    assert(p != n);
                    assert(after[p] == before[p]);
                }
            }
        }
    }

    /// Whether another resolution carries the same errors and addresses.
    pub fn same(&self, other: &CacheNameResult) -> (r: bool)
        ensures
            r == result_eq(*self, *other),
    {
        if self.errors.len() != other.errors.len() {
            return false;
        }
        if self.addresses.len() != other.addresses.len() {
            return false;
        }
        let n = self.errors.len();
        let mut i: usize = 0;
        while i < n
            invariant
                n == self.errors@.len(),
                n == other.errors@.len(),
                0 <= i <= n,
                forall|k: int|
                    0 <= k < i ==> name_error_eq(
                        #[trigger] self.errors@[k],
                        #[trigger] other.errors@[k],
                    ),
            decreases n - i,
        {
            if !(self.errors[i].name == other.errors[i].name) {
                return false;
            }
            if !(self.errors[i].error == other.errors[i].error) {
                return false;
            }
            i = i + 1;
        }
        let m = self.addresses.len();
        let mut j: usize = 0;
        while j < m
            invariant
                m == self.addresses@.len(),
                m == other.addresses@.len(),
                n == self.errors@.len(),
                n == other.errors@.len(),
                forall|k: int|
                    0 <= k < n ==> name_error_eq(
                        #[trigger] self.errors@[k],
                        #[trigger] other.errors@[k],
                    ),
                0 <= j <= m,
                forall|k: int| 0 <= k < j ==> #[trigger] self.addresses@[k] == other.addresses@[k],
            decreases m - j,
        {
            if !(self.addresses[j] == other.addresses[j]) {
                return false;
            }
            j = j + 1;
        }
        proof {
            assert(self.addresses@ =~= other.addresses@);
        }
        true
    }
}

/// When two resolutions are the same: equally many errors, pairwise the
/// same, and the identical address list.
pub open spec fn result_eq(a: CacheNameResult, b: CacheNameResult) -> bool {
    &&& a.errors@.len() == b.errors@.len()
    &&& forall|k: int|
        0 <= k < a.errors@.len() ==> name_error_eq(#[trigger] a.errors@[k], #[trigger] b.errors@[k])
    &&& a.addresses@ == b.addresses@
}

/// One cached resolution.
pub struct CacheEntry {
    /// The host the resolution belongs to.
    pub host: u128,
    /// The resolution.
    pub result: CacheNameResult,
    /// When the entry was inserted, in monotonic milliseconds.
    pub last: u64,
}

/// Whether a cache entry is still fresh at time `now`.
pub open spec fn fresh_spec(last: u64, now: u64) -> bool {
    now <= last || now - last <= TTL_MS
}

/// A cache of looked-up host names, at most one entry per host.
pub struct HostNameCache {
    entries: Vec<CacheEntry>,
}

impl HostNameCache {
    /// The cached entries.
    pub closed spec fn entry_seq(&self) -> Seq<CacheEntry> {
        self.entries@
    }

    /// Each host has at most one entry.
    pub open spec fn wf(&self) -> bool {
        forall|i: int, j: int|
            0 <= i < j < self.entry_seq().len() ==> #[trigger] self.entry_seq()[i].host
                != #[trigger] self.entry_seq()[j].host
    }

    /// Whether the cache holds an entry for this host.
    pub open spec fn has(&self, host: u128) -> bool {
        exists|i: int| 0 <= i < self.entry_seq().len() && #[trigger] self.entry_seq()[i].host == host
    }

    /// The entry the cache holds for this host.
    pub open spec fn entry_at(&self, host: u128) -> CacheEntry {
        self.entry_seq()[choose|i: int|
            0 <= i < self.entry_seq().len() && #[trigger] self.entry_seq()[i].host == host]
    }

    /// In a well-formed cache, every entry holding this host is the one
    /// entry for it.
    pub proof fn lemma_entry_at(&self, host: u128)
        requires
            self.wf(),
            self.has(host),
        ensures
            forall|i: int|
                0 <= i < self.entry_seq().len() && #[trigger] self.entry_seq()[i].host == host
                    ==> self.entry_seq()[i] == self.entry_at(host),
            self.entry_at(host).host == host,
    {
        let w = choose|i: int|
            0 <= i < self.entry_seq().len() && #[trigger] self.entry_seq()[i].host == host;
        assert forall|i: int|
            0 <= i < self.entry_seq().len() && #[trigger] self.entry_seq()[i].host == host
                implies self.entry_seq()[i] == self.entry_at(host) by {
            if i != w {
                assert(false);
            }
        }
    }

    /// Construct a new host name cache.
    pub fn new() -> (r: HostNameCache)
        ensures
            r.wf(),
            r.entry_seq().len() == 0,
    {
        HostNameCache { entries: Vec::new() }
    }

    /// Get the cached resolution for a host, if one is held.
    pub fn get(&self, host: u128) -> (r: Option<&CacheNameResult>)
        requires
            self.wf(),
        ensures
            r is Some == self.has(host),
            r is Some ==> *r->0 == self.entry_at(host).result,
    {
        let n = self.entries.len();
        let mut i: usize = 0;
        while i < n && self.entries[i].host != host
            invariant
                n == self.entry_seq().len(),
                0 <= i <= n,
                forall|k: int| 0 <= k < i ==> #[trigger] self.entry_seq()[k].host != host,
            decreases n - i,
        {
            i = i + 1;
        }
        if i < n {
            proof {
                self.lemma_entry_at(host);
            }
            Some(&self.entries[i].result)
        } else {
            None
        }
    }

    /// Insert a resolution for a host with a fresh timestamp, replacing any
    /// entry the host already has.
    pub fn insert(&mut self, host: u128, result: CacheNameResult, now: u64)
        requires
            old(self).wf(),
        ensures
            final(self).wf(),
            final(self).has(host),
            final(self).entry_at(host).result == result,
            final(self).entry_at(host).last == now,
            forall|h: u128|
                h != host ==> #[trigger] final(self).has(h) == old(self).has(h),
            forall|h: u128|
                h != host && old(self).has(h) ==> #[trigger] final(self).entry_at(h) == old(
                    self,
                ).entry_at(h),
    {
        let n = self.entries.len();
        let mut i: usize = 0;
        while i < n && self.entries[i].host != host
            invariant
                *self == *old(self),
                n == self.entry_seq().len(),
                0 <= i <= n,
                forall|k: int| 0 <= k < i ==> #[trigger] self.entry_seq()[k].host != host,
            decreases n - i,
        {
            i = i + 1;
        }
        let entry = CacheEntry { host, result, last: now };
        let ghost before = self.entries@;
        if i < n {
            vstd::pervasive::VecAdditionalExecFns::set(&mut self.entries, i, entry);
        } else {
            self.entries.push(entry);
        }
        proof {
            let after = self.entry_seq();
            assert(after[i as int].host == host);
            assert(self.has(host));
            self.lemma_entry_at(host);
            assert forall|h: u128|
                h != host implies #[trigger] self.has(h) == old(self).has(h) by {
                if old(self).has(h) {
                    let j = choose|j: int|
                        0 <= j < before.len() && #[trigger] before[j].host == h;
                    assert(j != i);
                    assert(after[j].host == h);
                }
                if self.has(h) {
                    let j = choose|j: int|
                        0 <= j < after.len() && #[trigger] after[j].host == h;
                    assert(j != i);
                    assert(before[j].host == h);
                }
            }
            assert forall|h: u128|
                h != host && old(self).has(h) implies #[trigger] self.entry_at(h) == old(
                self,
            ).entry_at(h) by {
                old(self).lemma_entry_at(h);
                let j = choose|j: int|
                    0 <= j < before.len() && #[trigger] before[j].host == h;
                assert(j != i);
                assert(after[j] == before[j]);
                assert(self.has(h));
                self.lemma_entry_at(h);
            }
        }
    }

    /// The host of some entry that is no longer fresh, while one exists.
    fn find_expired(&self, now: u64) -> (r: Option<usize>)
        ensures
            r is Some ==> r->0 < self.entry_seq().len() && !fresh_spec(
                self.entry_seq()[r->0 as int].last,
                now,
            ),
            r is None ==> forall|k: int|
                0 <= k < self.entry_seq().len() ==> fresh_spec(
                    #[trigger] self.entry_seq()[k].last,
                    now,
                ),
    {
        let n = self.entries.len();
        let mut i: usize = 0;
        while i < n
            invariant
                n == self.entry_seq().len(),
                0 <= i <= n,
                forall|k: int| 0 <= k < i ==> fresh_spec(#[trigger] self.entry_seq()[k].last, now),
            decreases n - i,
        {
            let last = self.entries[i].last;
            let age = if now >= last {
                now - last
            } else {
                0
            };
            if age > TTL_MS {
                return Some(i);
            }
            i = i + 1;
        }
        None
    }

    /// Evict entries that have not been refreshed for [`TTL_MS`]: an entry
    /// stays exactly when it is still fresh at `now`.
    pub fn evict_old(&mut self, now: u64)
        requires
            old(self).wf(),
        ensures
            final(self).wf(),
            forall|h: u128|
                #[trigger] final(self).has(h) == (old(self).has(h) && fresh_spec(
                    old(self).entry_at(h).last,
                    now,
                )),
            forall|h: u128|
                final(self).has(h) ==> #[trigger] final(self).entry_at(h) == old(self).entry_at(h),
    {
        loop
            invariant
                self.wf(),
                forall|h: u128|
                    #[trigger] self.has(h) ==> old(self).has(h) && self.entry_at(h) == old(
                        self,
                    ).entry_at(h),
                forall|h: u128|
                    old(self).has(h) && fresh_spec(old(self).entry_at(h).last, now)
                        ==> #[trigger] self.has(h),
            ensures
                self.wf(),
                forall|h: u128|
                    #[trigger] self.has(h) == (old(self).has(h) && fresh_spec(
                        old(self).entry_at(h).last,
                        now,
                    )),
                forall|h: u128|
                    self.has(h) ==> #[trigger] self.entry_at(h) == old(self).entry_at(h),
            decreases self.entry_seq().len(),
        {
            let idx = match self.find_expired(now) {
                Some(idx) => idx,
                None => {
                    proof {
                        assert forall|h: u128|
                            #[trigger] self.has(h) == (old(self).has(h) && fresh_spec(
                                old(self).entry_at(h).last,
                                now,
                            )) by {
                            if self.has(h) {
                                self.lemma_entry_at(h);
                                let j = choose|j: int|
                                    0 <= j < self.entry_seq().len()
                                        && #[trigger] self.entry_seq()[j].host == h;
                                assert(fresh_spec(self.entry_seq()[j].last, now));
                            }
                        }
                    }
                    break ;
                },
            };
            let ghost before = *self;
            let ghost gone = self.entries@[idx as int].host;
            proof {
                self.entries@.remove_ensures(idx as int);
                assert(before.has(gone));
                before.lemma_entry_at(gone);
            }
            self.entries.remove(idx);
            proof {
                let after = self.entry_seq();
                let b = before.entry_seq();
                assert forall|h: u128|
                    #[trigger] self.has(h) implies old(self).has(h) && self.entry_at(h) == old(
                    self,
                ).entry_at(h) by {
                    let j = choose|j: int| 0 <= j < after.len() && #[trigger] after[j].host == h;
                    let j0 = if j < idx {
                        j
                    } else {
                        j + 1
                    };
                    assert(after[j] == b[j0]);
                    assert(before.has(h));
                    self.lemma_entry_at(h);
                    before.lemma_entry_at(h);
                    assert(self.entry_at(h) == before.entry_at(h));
                }
                assert forall|h: u128|
                    old(self).has(h) && fresh_spec(old(self).entry_at(h).last, now)
                        implies #[trigger] self.has(h) by {
                    assert(before.has(h));
                    before.lemma_entry_at(h);
                    let j0 = choose|j0: int| 0 <= j0 < b.len() && #[trigger] b[j0].host == h;
                    if j0 == idx {
                        assert(b[idx as int] == before.entry_at(h));
                        assert(before.entry_at(h) == old(self).entry_at(h));
                        assert(!fresh_spec(old(self).entry_at(h).last, now));
                        assert(false);
                    } else if j0 < idx {
                        assert(after[j0].host == h);
                    } else {
                        assert(after[j0 - 1].host == h);
                    }
                }
            }
        }
    }
}

} // verus!
