//! The probe scheduler: per-(host, address) ping/timeout state machine,
//! deadline queue, reply and timeout correlation, and snapshot publication.
//!
//! All times are milliseconds on a monotonic clock, as plain `u64` values
//! handed in by the caller. The caller drives the scheduler from its event
//! loop: it reports elapsed deadlines, completed resolutions, send results
//! and replies, and performs the sends and waits the scheduler asks for.

use vstd::prelude::*;

use crate::addr::{addr_lt_spec, Addr};
use crate::pinger::Outcome;

verus! {

/// Which ICMP family a result came from.
#[derive(Debug, Clone, Copy, PartialEq, Eq, Hash, Structural)]
pub enum PingKind {
    V4,
    V6,
}

/// One ping result for one target address.
#[derive(Debug, Clone, Copy, PartialEq, Eq, Structural)]
pub struct PingResult {
    /// The ICMP family the reply arrived on.
    pub kind: PingKind,
    /// The ICMP message type that came back.
    pub outcome: Outcome,
    /// The ICMP code that came back.
    pub code: u8,
    /// The sequence field of the reply header.
    pub sequence: u16,
    /// The round-trip time, in milliseconds.
    pub rtt: u64,
    /// When the reply was seen, in monotonic milliseconds.
    pub sampled: u64,
    /// The address that was pinged.
    pub target: Addr,
    /// The source address of the reply.
    pub source: Addr,
    /// The local address the reply was delivered to.
    pub dest: Addr,
    /// The checksum carried on the wire.
    pub checksum: u16,
    /// The checksum recomputed over the delivered payload.
    pub expected_checksum: u16,
}

/// The kind of ping error: scoped either to one target address or to one
/// looked-up host name.
#[derive(Debug, Clone)]
pub enum PingErrorKind {
    Address(Addr),
    Host(String),
}

/// When two error kinds count as the same: same address, or same name.
pub open spec fn kind_eq(a: PingErrorKind, b: PingErrorKind) -> bool {
    match (a, b) {
        (PingErrorKind::Address(x), PingErrorKind::Address(y)) => x == y,
        (PingErrorKind::Host(m), PingErrorKind::Host(n)) => m@ == n@,
        _ => false,
    }
}

impl PingErrorKind {
    /// Coerces to an address if possible.
    pub fn as_address(&self) -> (r: Option<Addr>)
        ensures
            r == match *self {
                PingErrorKind::Address(addr) => Some(addr),
                PingErrorKind::Host(_) => None::<Addr>,
            },
    {
        match self {
            PingErrorKind::Address(addr) => Some(*addr),
            PingErrorKind::Host(_) => None,
        }
    }

    /// Coerces to a host name if possible.
    pub fn as_host(&self) -> (r: Option<&str>)
        ensures
            self is Host ==> r is Some && r->0@ == self->Host_0@,
            self is Address ==> r is None,
    {
        match self {
            PingErrorKind::Address(_) => None,
            PingErrorKind::Host(name) => Some(name.as_str()),
        }
    }

    /// Whether this kind counts as the same as another.
    pub fn same(&self, other: &PingErrorKind) -> (r: bool)
        ensures
            r == kind_eq(*self, *other),
    {
        match (self, other) {
            (PingErrorKind::Address(x), PingErrorKind::Address(y)) => x == y,
            (PingErrorKind::Host(m), PingErrorKind::Host(n)) => *m == *n,
            _ => false,
        }
    }
}

/// One ping error, with the message text and when it was recorded.
#[derive(Debug, Clone)]
pub struct PingError {
    /// The message text.
    pub error: String,
    /// What the error is scoped to.
    pub kind: PingErrorKind,
    /// When the error was recorded, in monotonic milliseconds.
    pub sampled: u64,
}

/// When two errors are the same record.
pub open spec fn error_eq(a: PingError, b: PingError) -> bool {
    a.error@ == b.error@ && kind_eq(a.kind, b.kind) && a.sampled == b.sampled
}

/// How recording the result `r` takes a snapshot from `p0` to `p1`: `r`
/// stands as the one result for its target, any error scoped to that
/// address is gone, and everything else is untouched.
pub open spec fn result_rel(p0: Pinged, p1: Pinged, r: PingResult) -> bool {
    &&& p1.wf()
    &&& p1.results@.contains(r)
    &&& forall|x: PingResult|
        x.target != r.target ==> (p1.results@.contains(x) == p0.results@.contains(x))
    &&& forall|i: int|
        0 <= i < p1.results@.len() && p1.results@[i].target == r.target ==> p1.results@[i] == r
    &&& forall|k: PingErrorKind|
        !kind_eq(k, PingErrorKind::Address(r.target)) ==> (p1.has_error(k) == p0.has_error(k))
    &&& !p1.has_error(PingErrorKind::Address(r.target))
    &&& forall|e: PingError| p1.errors@.contains(e) ==> p0.errors@.contains(e)
}

/// How recording the error `e` takes a snapshot from `p0` to `p1`: an
/// error of `e`'s kind with `e`'s message stands, a result for an
/// address-scoped error's address is gone, errors of other kinds are
/// untouched, and an error of a kind not seen before is appended.
pub open spec fn error_rel(p0: Pinged, p1: Pinged, e: PingError) -> bool {
    &&& p1.wf()
    &&& p1.has_error(e.kind)
    &&& forall|i: int|
        0 <= i < p1.errors@.len() && kind_eq(p1.errors@[i].kind, e.kind) ==> error_eq(
            #[trigger] p1.errors@[i],
            e,
        )
    &&& forall|k: PingErrorKind| !kind_eq(k, e.kind) ==> (p1.has_error(k) == p0.has_error(k))
    &&& forall|x: PingResult|
        p1.results@.contains(x) == (p0.results@.contains(x) && !kind_eq(
            e.kind,
            PingErrorKind::Address(x.target),
        ))
    &&& (!p0.has_error(e.kind) ==> p1.errors@ == p0.errors@.push(e))
}

/// The published snapshot for one host: its current results and errors.
#[derive(Debug, Clone)]
pub struct Pinged {
    /// Current errors, at most one per kind.
    pub errors: Vec<PingError>,
    /// Current results, sorted by target, at most one per target.
    pub results: Vec<PingResult>,
}

impl Pinged {
    /// Results are strictly sorted by target, error kinds are pairwise
    /// distinct, and no address carries both a result and an error.
    pub open spec fn wf(&self) -> bool {
        &&& forall|i: int, j: int|
            0 <= i < j < self.results@.len() ==> addr_lt_spec(
                #[trigger] self.results@[i].target,
                #[trigger] self.results@[j].target,
            )
        &&& forall|i: int, j: int|
            0 <= i < j < self.errors@.len() ==> !kind_eq(
                #[trigger] self.errors@[i].kind,
                #[trigger] self.errors@[j].kind,
            )
        &&& forall|i: int, j: int|
            0 <= i < self.errors@.len() && 0 <= j < self.results@.len() ==> !kind_eq(
                #[trigger] self.errors@[i].kind,
                PingErrorKind::Address(#[trigger] self.results@[j].target),
            )
    }

    /// Whether some result is recorded for this target.
    pub open spec fn has_result(&self, a: Addr) -> bool {
        exists|i: int| 0 <= i < self.results@.len() && #[trigger] self.results@[i].target == a
    }

    /// Whether some error of this kind is recorded.
    pub open spec fn has_error(&self, k: PingErrorKind) -> bool {
        exists|i: int| 0 <= i < self.errors@.len() && kind_eq(#[trigger] self.errors@[i].kind, k)
    }

    /// An empty snapshot.
    pub fn new() -> (r: Pinged)
        ensures
            r.wf(),
            r.errors@.len() == 0,
            r.results@.len() == 0,
    {
        Pinged { errors: Vec::new(), results: Vec::new() }
    }

    /// Clear both lists.
    pub fn reset(&mut self)
        ensures
            final(self).wf(),
            final(self).errors@.len() == 0,
            final(self).results@.len() == 0,
    {
        self.errors.clear();
        self.results.clear();
    }

    /// Record a result: it replaces any result with the same target, prunes
    /// any error scoped to that address, and keeps the results sorted.
    pub fn result(&mut self, result: PingResult)
        requires
            old(self).wf(),
        ensures
            result_rel(*old(self), *final(self), result),
    {
        self.prune_error_for(result.target);
        let ghost pruned = *self;
        let mut i: usize = 0;
        let n = self.results.len();
        while i < n && self.results[i].target.lt(&result.target)
            invariant
                *self == pruned,
                n == self.results@.len(),
                0 <= i <= n,
                forall|k: int| 0 <= k < i ==> addr_lt_spec(
                    #[trigger] self.results@[k].target,
                    result.target,
                ),
            decreases n - i,
        {
            i = i + 1;
        }
        proof {
            assert(self.errors@ == pruned.errors@);
        }
        if i < n && self.results[i].target == result.target {
            let ghost before = self.results@;
            vstd::pervasive::VecAdditionalExecFns::set(&mut self.results, i, result);
            proof {
                lemma_addr_order();
                assert(self.results@[i as int] == result);
                assert forall|k: int|
                    0 <= k < self.results@.len() implies #[trigger] self.results@[k].target
                    == before[k].target by {}
                assert forall|x: PingResult| x.target != result.target implies (
                self.results@.contains(x) == before.contains(x)) by {
                    if before.contains(x) {
                        let j = choose|j: int| 0 <= j < before.len() && before[j] == x;
                        assert(self.results@[j] == x);
                    }
                    if self.results@.contains(x) {
                        let j = choose|j: int|
                            0 <= j < self.results@.len() && self.results@[j] == x;
                        assert(before[j] == x);
                    }
                }
            }
        } else {
            let ghost before = self.results@;
            proof {
                lemma_addr_order();
                before.insert_ensures(i as int, result);
            }
            self.results.insert(i, result);
            proof {
                assert(self.results@[i as int] == result);
                assert forall|k: int, l: int|
                    0 <= k < l < self.results@.len() implies addr_lt_spec(
                    #[trigger] self.results@[k].target,
                    #[trigger] self.results@[l].target,
                ) by {
                    if l < i {
                        assert(self.results@[k] == before[k] && self.results@[l] == before[l]);
                    } else if k > i {
                        assert(self.results@[k] == before[k - 1] && self.results@[l] == before[l
                            - 1]);
                    } else if k < i && l == i {
                        assert(self.results@[k] == before[k]);
                    } else if k == i && l > i {
                        assert(self.results@[l] == before[l - 1]);
                        if i < n {
                            assert(addr_lt_spec(result.target, before[i as int].target));
                        }
                    } else if k < i && l > i {
                        assert(self.results@[k] == before[k] && self.results@[l] == before[l - 1]);
                    }
                }
                assert forall|x: PingResult| x.target != result.target implies (
                self.results@.contains(x) == before.contains(x)) by {
                    if before.contains(x) {
                        let j = choose|j: int| 0 <= j < before.len() && before[j] == x;
                        if j < i {
                            assert(self.results@[j] == x);
                        } else {
                            assert(self.results@[j + 1] == x);
                        }
                    }
                    if self.results@.contains(x) {
                        let j = choose|j: int|
                            0 <= j < self.results@.len() && self.results@[j] == x;
                        if j < i {
                            assert(before[j] == x);
                        } else {
                            assert(before[j - 1] == x);
                        }
                    }
                }
            }
        }
    }

    /// Remove the error scoped to this address, if one is recorded.
    fn prune_error_for(&mut self, target: Addr)
        requires
            old(self).wf(),
        ensures
            final(self).wf(),
            final(self).results == old(self).results,
            !final(self).has_error(PingErrorKind::Address(target)),
            forall|k: PingErrorKind|
                !kind_eq(k, PingErrorKind::Address(target)) ==> (final(self).has_error(k)
                    == old(self).has_error(k)),
            forall|e: PingError|
                final(self).errors@.contains(e) ==> old(self).errors@.contains(e),
    {
        let n = self.errors.len();
        let mut i: usize = 0;
        while i < n && !matches_address(&self.errors[i].kind, &target)
            invariant
                n == self.errors@.len(),
                0 <= i <= n,
                forall|k: int| 0 <= k < i ==> !kind_eq(
                    #[trigger] self.errors@[k].kind,
                    PingErrorKind::Address(target),
                ),
            decreases n - i,
        {
            i = i + 1;
        }
        if i < n {
            let ghost before = self.errors@;
            proof {
                before.remove_ensures(i as int);
                lemma_kind_eq_trans();
            }
            self.errors.remove(i);
            proof {
                assert forall|k: int|
                    0 <= k < self.errors@.len() implies !kind_eq(
                    #[trigger] self.errors@[k].kind,
                    PingErrorKind::Address(target),
                ) by {
                    if k >= i {
                        assert(self.errors@[k] == before[k + 1]);
                    } else {
                        assert(self.errors@[k] == before[k]);
                    }
                }
                assert forall|k: PingErrorKind|
                    !kind_eq(k, PingErrorKind::Address(target)) implies (self.has_error(k)
                    == old(self).has_error(k)) by {
                    if old(self).has_error(k) {
                        let j = choose|j: int|
                            0 <= j < before.len() && kind_eq(#[trigger] before[j].kind, k);
                        if j < i {
                            assert(kind_eq(self.errors@[j].kind, k));
                        } else {
                            assert(j != i);
                            assert(kind_eq(self.errors@[j - 1].kind, k));
                        }
                    }
                    if self.has_error(k) {
                        let j = choose|j: int|
                            0 <= j < self.errors@.len() && kind_eq(
                                #[trigger] self.errors@[j].kind,
                                k,
                            );
                        if j < i {
                            assert(kind_eq(before[j].kind, k));
                        } else {
                            assert(kind_eq(before[j + 1].kind, k));
                        }
                    }
                }
                assert forall|e: PingError| self.errors@.contains(e) implies before.contains(
                    e,
                ) by {
                    let k = choose|k: int|
                        0 <= k < self.errors@.len() && #[trigger] self.errors@[k] == e;
                    if k < i {
                        assert(before[k] == e);
                    } else {
                        assert(before[k + 1] == e);
                    }
                }
            }
        }
    }

    /// Record an error: it replaces any error of the same kind, and when it
    /// is scoped to an address it prunes any result for that address.
    pub fn error(&mut self, error: PingError)
        requires
            old(self).wf(),
        ensures
            error_rel(*old(self), *final(self), error),
    {
        if let PingErrorKind::Address(addr) = &error.kind {
            let a = *addr;
            let mut i: usize = 0;
            let n = self.results.len();
            while i < n && self.results[i].target != a
                invariant
                    n == self.results@.len(),
                    0 <= i <= n,
                    forall|k: int| 0 <= k < i ==> #[trigger] self.results@[k].target != a,
                decreases n - i,
            {
                i = i + 1;
            }
            if i < n {
                let ghost before = self.results@;
                proof {
                    before.remove_ensures(i as int);
                    lemma_addr_order();
                }
                self.results.remove(i);
                proof {
                    assert forall|k: int, l: int|
                        0 <= k < l < self.results@.len() implies addr_lt_spec(
                        #[trigger] self.results@[k].target,
                        #[trigger] self.results@[l].target,
                    ) by {
                        let k0 = if k < i {
                            k
                        } else {
                            k + 1
                        };
                        let l0 = if l < i {
                            l
                        } else {
                            l + 1
                        };
                        assert(self.results@[k] == before[k0] && self.results@[l] == before[l0]);
                    }
                    assert forall|x: PingResult|
                        self.results@.contains(x) == (old(self).results@.contains(x) && x.target
                            != a) by {
                        if old(self).results@.contains(x) && x.target != a {
                            let j = choose|j: int|
                                0 <= j < before.len() && #[trigger] before[j] == x;
                            if j < i {
                                assert(self.results@[j] == x);
                            } else {
                                assert(j != i);
                                assert(self.results@[j - 1] == x);
                            }
                        }
                        if self.results@.contains(x) {
                            let j = choose|j: int|
                                0 <= j < self.results@.len() && #[trigger] self.results@[j] == x;
                            if j < i {
                                assert(before[j] == x);
                            } else {
                                assert(before[j + 1] == x);
                                assert(before[j + 1].target != a);
                            }
                        }
                    }
                }
            }
        }
        let ghost mid_results = self.results@;
        let n = self.errors.len();
        let mut i: usize = 0;
        while i < n && !self.errors[i].kind.same(&error.kind)
            invariant
                n == self.errors@.len(),
                0 <= i <= n,
                self.results@ == mid_results,
                forall|k: int| 0 <= k < i ==> !kind_eq(#[trigger] self.errors@[k].kind, error.kind),
            decreases n - i,
        {
            i = i + 1;
        }
        if i < n {
            let ghost before = self.errors@;
            proof {
                lemma_kind_eq_trans();
            }
            vstd::pervasive::VecAdditionalExecFns::set(&mut self.errors, i, error);
            proof {
                assert(self.errors@[i as int] == error);
                assert(kind_eq(error.kind, error.kind));
                assert forall|k: PingErrorKind|
                    !kind_eq(k, error.kind) implies (self.has_error(k) == old(self).has_error(
                    k)) by {
                    if old(self).has_error(k) {
                        let j = choose|j: int|
                            0 <= j < before.len() && kind_eq(#[trigger] before[j].kind, k);
                        assert(j != i);
                        assert(kind_eq(self.errors@[j].kind, k));
                    }
                    if self.has_error(k) {
                        let j = choose|j: int|
                            0 <= j < self.errors@.len() && kind_eq(
                                #[trigger] self.errors@[j].kind,
                                k,
                            );
                        assert(j != i);
                        assert(kind_eq(before[j].kind, k));
                    }
                }
            }
        } else {
            let ghost before = self.errors@;
            proof {
                lemma_kind_eq_trans();
            }
            self.errors.push(error);
            proof {
                assert(self.errors@[n as int] == error);
                assert(kind_eq(error.kind, error.kind));
                assert forall|k: PingErrorKind|
                    !kind_eq(k, error.kind) implies (self.has_error(k) == old(self).has_error(
                    k)) by {
                    if old(self).has_error(k) {
                        let j = choose|j: int|
                            0 <= j < before.len() && kind_eq(#[trigger] before[j].kind, k);
                        assert(kind_eq(self.errors@[j].kind, k));
                    }
                    if self.has_error(k) {
                        let j = choose|j: int|
                            0 <= j < self.errors@.len() && kind_eq(
                                #[trigger] self.errors@[j].kind,
                                k,
                            );
                        assert(j != n);
                        assert(kind_eq(before[j].kind, k));
                    }
                }
            }
        }
    }
}

/// Whether an error kind is scoped to exactly this address.
fn matches_address(kind: &PingErrorKind, target: &Addr) -> (r: bool)
    ensures
        r == kind_eq(*kind, PingErrorKind::Address(*target)),
{
    match kind {
        PingErrorKind::Address(a) => a == target,
        PingErrorKind::Host(_) => false,
    }
}

/// The address order is a strict total order.
pub proof fn lemma_addr_order()
    ensures
        forall|a: Addr, b: Addr|
            #[trigger] addr_lt_spec(a, b) || #[trigger] addr_lt_spec(b, a) || a == b,
        forall|a: Addr, b: Addr, c: Addr|
            #[trigger] addr_lt_spec(a, b) && #[trigger] addr_lt_spec(b, c) ==> addr_lt_spec(a, c),
        forall|a: Addr, b: Addr| #[trigger] addr_lt_spec(a, b) ==> !addr_lt_spec(b, a) && a != b,
{
}

/// Kind equality is transitive and symmetric.
pub proof fn lemma_kind_eq_trans()
    ensures
        forall|a: PingErrorKind, b: PingErrorKind, c: PingErrorKind|
            #[trigger] kind_eq(a, b) && #[trigger] kind_eq(b, c) ==> kind_eq(a, c),
        forall|a: PingErrorKind, b: PingErrorKind|
            #[trigger] kind_eq(a, b) == kind_eq(b, a),
{
}

/// If a host snapshot is well formed, no address has both a result and an
/// error: the two lists are disjoint by address.
pub proof fn lemma_results_errors_disjoint(p: &Pinged, a: Addr)
    requires
        p.wf(),
        p.has_result(a),
    ensures
        !p.has_error(PingErrorKind::Address(a)),
{
}


/// A probe is either due to be pinged, or waiting for its reply to time
/// out.
#[derive(Debug, Clone, Copy, PartialEq, Eq, Structural)]
pub enum ProbeState {
    /// The next deadline sends an echo request.
    Ping,
    /// An echo request is outstanding; the next deadline is its timeout.
    Timeout,
}

/// How long to wait for a reply before recording a timeout, in
/// milliseconds.
pub const TIMEOUT_MS: u64 = 10_000;

/// How long to wait before probing an address again, in milliseconds.
pub const NEXT_MS: u64 = 1_000;

/// Every monotonic time handed to the scheduler stays below this bound, so
/// that deadline arithmetic cannot overflow.
pub const TIME_LIMIT: u64 = 0x4000_0000_0000_0000;

/// The key a task is ordered by: deadline first, then host, then address,
/// so that scheduling is deterministic.
#[derive(Debug, Clone, Copy, PartialEq, Eq, Structural)]
pub struct Key {
    /// When the task is due, in monotonic milliseconds.
    pub deadline: u64,
    /// The host the probed address belongs to.
    pub host: u128,
    /// The probed address.
    pub addr: Addr,
}

/// Strict lexicographic order on `(deadline, host, addr)`.
pub open spec fn key_lt_spec(a: Key, b: Key) -> bool {
    ||| a.deadline < b.deadline
    ||| (a.deadline == b.deadline && a.host < b.host)
    ||| (a.deadline == b.deadline && a.host == b.host && addr_lt_spec(a.addr, b.addr))
}

/// The key order is a strict total order.
pub proof fn lemma_key_order()
    ensures
        forall|a: Key, b: Key|
            #[trigger] key_lt_spec(a, b) || #[trigger] key_lt_spec(b, a) || a == b,
        forall|a: Key, b: Key, c: Key|
            #[trigger] key_lt_spec(a, b) && #[trigger] key_lt_spec(b, c) ==> key_lt_spec(a, c),
        forall|a: Key, b: Key| #[trigger] key_lt_spec(a, b) ==> !key_lt_spec(b, a) && a != b,
{
    lemma_addr_order();
}

/// Strict comparison in the order given by [`key_lt_spec`].
fn key_lt(a: Key, b: Key) -> (r: bool)
    ensures
        r == key_lt_spec(a, b),
{
    if a.deadline != b.deadline {
        a.deadline < b.deadline
    } else if a.host != b.host {
        a.host < b.host
    } else {
        a.addr.lt(&b.addr)
    }
}

/// One scheduled probe.
#[derive(Debug, Clone, Copy, PartialEq, Eq, Structural)]
pub struct Task {
    /// The ordering key, which holds the deadline and the probe identity.
    pub key: Key,
    /// What the next deadline does.
    pub what: ProbeState,
    /// The correlation token of the outstanding echo request, while the
    /// task waits in [`ProbeState::Timeout`].
    pub token: Option<u64>,
}

/// The scheduled probes, held in two indices that never diverge: a keyed
/// list for lookup by `(host, addr)` and a deadline-ordered list for
/// finding the soonest task.
pub struct Tasks {
    modified: bool,
    tasks: Vec<Task>,
    timeouts: Vec<Key>,
}

impl Tasks {
    /// The keyed index.
    pub closed spec fn task_seq(&self) -> Seq<Task> {
        self.tasks@
    }

    /// The deadline-ordered index.
    pub closed spec fn timeout_seq(&self) -> Seq<Key> {
        self.timeouts@
    }

    /// Whether an index was changed since the deadline was last read.
    pub closed spec fn is_modified(&self) -> bool {
        self.modified
    }

    /// The two indices agree: the deadline list is strictly sorted, every
    /// task's key appears in it, every entry of it is some task's key, and
    /// no `(host, addr)` pair has two tasks. Tokens are only held by tasks
    /// waiting for a timeout, and deadlines stay bounded.
    pub open spec fn wf(&self) -> bool {
        &&& forall|i: int, j: int|
            0 <= i < j < self.timeout_seq().len() ==> key_lt_spec(
                #[trigger] self.timeout_seq()[i],
                #[trigger] self.timeout_seq()[j],
            )
        &&& forall|i: int|
            0 <= i < self.task_seq().len() ==> self.timeout_seq().contains(
                #[trigger] self.task_seq()[i].key,
            )
        &&& forall|i: int|
            0 <= i < self.timeout_seq().len() ==> exists|j: int|
                0 <= j < self.task_seq().len() && #[trigger] self.task_seq()[j].key
                    == #[trigger] self.timeout_seq()[i]
        &&& forall|i: int, j: int|
            0 <= i < j < self.task_seq().len() ==> !(#[trigger] self.task_seq()[i].key.host
                == #[trigger] self.task_seq()[j].key.host && self.task_seq()[i].key.addr
                == self.task_seq()[j].key.addr)
        &&& forall|i: int|
            0 <= i < self.task_seq().len() ==> (#[trigger] self.task_seq()[i].token is Some
                ==> self.task_seq()[i].what == ProbeState::Timeout)
        &&& forall|i: int|
            0 <= i < self.task_seq().len() ==> #[trigger] self.task_seq()[i].key.deadline
                <= TIME_LIMIT + TIMEOUT_MS
    }

    /// Whether a task is scheduled for this `(host, addr)` pair.
    pub open spec fn has(&self, h: u128, a: Addr) -> bool {
        exists|i: int|
            0 <= i < self.task_seq().len() && #[trigger] self.task_seq()[i].key.host == h
                && self.task_seq()[i].key.addr == a
    }

    /// The task scheduled for this pair.
    pub open spec fn task_at(&self, h: u128, a: Addr) -> Task {
        self.task_seq()[choose|i: int|
            0 <= i < self.task_seq().len() && #[trigger] self.task_seq()[i].key.host == h
                && self.task_seq()[i].key.addr == a]
    }

    /// In a well-formed queue, every task holding this pair is the one task
    /// scheduled for it.
    pub proof fn lemma_task_at(&self, h: u128, a: Addr)
        requires
            self.wf(),
            self.has(h, a),
        ensures
            forall|i: int|
                0 <= i < self.task_seq().len() && #[trigger] self.task_seq()[i].key.host == h
                    && self.task_seq()[i].key.addr == a ==> self.task_seq()[i] == self.task_at(
                    h,
                    a,
                ),
            self.task_at(h, a).key.host == h,
            self.task_at(h, a).key.addr == a,
    {
        let w = choose|i: int|
            0 <= i < self.task_seq().len() && #[trigger] self.task_seq()[i].key.host == h
                && self.task_seq()[i].key.addr == a;
        assert forall|i: int|
            0 <= i < self.task_seq().len() && #[trigger] self.task_seq()[i].key.host == h
                && self.task_seq()[i].key.addr == a implies self.task_seq()[i] == self.task_at(
            h,
            a,
        ) by {
            if i != w {
                assert(false);
            }
        }
    }

    /// Two queues with equal indices agree on well-formedness, scheduled
    /// pairs and their tasks, whatever their bookkeeping flags hold.
    pub proof fn lemma_same_view(s1: Tasks, s2: Tasks)
        requires
            s1.task_seq() == s2.task_seq(),
            s1.timeout_seq() == s2.timeout_seq(),
        ensures
            s1.wf() == s2.wf(),
            forall|h: u128, a: Addr| #[trigger] s1.has(h, a) == #[trigger] s2.has(h, a),
            forall|h: u128, a: Addr|
                s1.wf() && #[trigger] s1.has(h, a) ==> #[trigger] s1.task_at(h, a) == s2.task_at(
                    h,
                    a,
                ),
    {
        assert forall|h: u128, a: Addr| #[trigger] s1.has(h, a) == #[trigger] s2.has(h, a) by {
            if s1.has(h, a) {
                let i = choose|i: int|
                    0 <= i < s1.task_seq().len() && #[trigger] s1.task_seq()[i].key.host == h
                        && s1.task_seq()[i].key.addr == a;
                assert(s2.task_seq()[i].key.host == h && s2.task_seq()[i].key.addr == a);
            }
            if s2.has(h, a) {
                let i = choose|i: int|
                    0 <= i < s2.task_seq().len() && #[trigger] s2.task_seq()[i].key.host == h
                        && s2.task_seq()[i].key.addr == a;
                assert(s1.task_seq()[i].key.host == h && s1.task_seq()[i].key.addr == a);
            }
        }
        if s1.wf() {
            assert(s2.wf());
        }
        if s2.wf() {
            assert(s1.wf());
        }
        assert forall|h: u128, a: Addr|
            s1.wf() && #[trigger] s1.has(h, a) implies #[trigger] s1.task_at(h, a) == s2.task_at(
            h,
            a,
        ) by {
            s1.lemma_task_at(h, a);
            s2.lemma_task_at(h, a);
            let i = choose|i: int|
                0 <= i < s2.task_seq().len() && #[trigger] s2.task_seq()[i].key.host == h
                    && s2.task_seq()[i].key.addr == a;
            assert(s1.task_seq()[i] == s1.task_at(h, a));
            assert(s2.task_seq()[i] == s2.task_at(h, a));
        }
    }

    /// An empty queue.
    pub fn new() -> (r: Tasks)
        ensures
            r.wf(),
            r.task_seq().len() == 0,
            r.timeout_seq().len() == 0,
            !r.is_modified(),
    {
        Tasks { modified: false, tasks: Vec::new(), timeouts: Vec::new() }
    }

    /// Whether no task is scheduled.
    pub fn is_empty(&self) -> (r: bool)
        ensures
            r == (self.timeout_seq().len() == 0),
    {
        self.timeouts.is_empty()
    }

    /// Get the next deadline, once per round of modifications: `None` while
    /// nothing changed since the last call, so the caller re-arms its timer
    /// only when needed.
    pub fn next_deadline(&mut self) -> (r: Option<u64>)
        requires
            old(self).wf(),
        ensures
            final(self).wf(),
            final(self).task_seq() == old(self).task_seq(),
            final(self).timeout_seq() == old(self).timeout_seq(),
            !final(self).is_modified(),
            r == if old(self).is_modified() && old(self).timeout_seq().len() > 0 {
                Some(old(self).timeout_seq()[0].deadline)
            } else {
                None::<u64>
            },
    {
        if !self.modified {
            return None;
        }
        self.modified = false;
        if self.timeouts.len() == 0 {
            return None;
        }
        Some(self.timeouts[0].deadline)
    }

    /// The key of the soonest task: the head of the deadline-ordered index.
    pub fn min_key(&self) -> (r: Option<Key>)
        requires
            self.wf(),
        ensures
            r == if self.timeout_seq().len() > 0 {
                Some(self.timeout_seq()[0])
            } else {
                None::<Key>
            },
            r is Some ==> forall|i: int|
                0 <= i < self.timeout_seq().len() ==> !key_lt_spec(
                    #[trigger] self.timeout_seq()[i],
                    r->0,
                ),
    {
        proof {
            lemma_key_order();
        }
        if self.timeouts.len() == 0 {
            None
        } else {
            Some(self.timeouts[0])
        }
    }

    /// Look up the task for a pair.
    pub fn get(&self, host: u128, addr: Addr) -> (r: Option<Task>)
        requires
            self.wf(),
        ensures
            r == if self.has(host, addr) {
                Some(self.task_at(host, addr))
            } else {
                None::<Task>
            },
    {
        let n = self.tasks.len();
        let mut i: usize = 0;
        while i < n && !(self.tasks[i].key.host == host && self.tasks[i].key.addr == addr)
            invariant
                n == self.task_seq().len(),
                0 <= i <= n,
                forall|k: int|
                    0 <= k < i ==> !(#[trigger] self.task_seq()[k].key.host == host
                        && self.task_seq()[k].key.addr == addr),
            decreases n - i,
        {
            i = i + 1;
        }
        if i < n {
            proof {
                self.lemma_task_at(host, addr);
            }
            Some(self.tasks[i])
        } else {
            None
        }
    }

    /// Remove the task for a pair from both indices, returning it.
    pub fn remove(&mut self, host: u128, addr: Addr) -> (r: Option<Task>)
        requires
            old(self).wf(),
        ensures
            final(self).wf(),
            r == if old(self).has(host, addr) {
                Some(old(self).task_at(host, addr))
            } else {
                None::<Task>
            },
            !final(self).has(host, addr),
            forall|h: u128, a: Addr|
                !(h == host && a == addr) ==> (#[trigger] final(self).has(h, a) == old(self).has(
                    h,
                    a,
                ) && (old(self).has(h, a) ==> final(self).task_at(h, a) == old(self).task_at(
                    h,
                    a,
                ))),
            old(self).has(host, addr) ==> final(self).is_modified(),
            !old(self).has(host, addr) ==> *final(self) == *old(self),
            old(self).has(host, addr) ==> final(self).task_seq().len() == old(
                self,
            ).task_seq().len() - 1 && final(self).timeout_seq().len() == old(
                self,
            ).timeout_seq().len() - 1,
    {
        let n = self.tasks.len();
        let mut i: usize = 0;
        while i < n && !(self.tasks[i].key.host == host && self.tasks[i].key.addr == addr)
            invariant
                n == self.task_seq().len(),
                0 <= i <= n,
                *self == *old(self),
                forall|k: int|
                    0 <= k < i ==> !(#[trigger] self.task_seq()[k].key.host == host
                        && self.task_seq()[k].key.addr == addr),
            decreases n - i,
        {
            i = i + 1;
        }
        if i >= n {
            return None;
        }
        proof {
            self.lemma_task_at(host, addr);
        }
        let ghost tasks0 = self.tasks@;
        let ghost timeouts0 = self.timeouts@;
        proof {
            tasks0.remove_ensures(i as int);
        }
        let t = self.tasks.remove(i);
        let m = self.timeouts.len();
        let mut j: usize = 0;
        while j < m && !(self.timeouts[j] == t.key)
            invariant
                m == self.timeout_seq().len(),
                0 <= j <= m,
                self.timeouts@ == timeouts0,
                forall|k: int| 0 <= k < j ==> #[trigger] timeouts0[k] != t.key,
            decreases m - j,
        {
            j = j + 1;
        }
        if j >= m {
            proof {
                assert(timeouts0.contains(t.key));
                let w = choose|w: int| 0 <= w < timeouts0.len() && timeouts0[w] == t.key;
                assert(false);
            }
            return None;
        }
        proof {
            timeouts0.remove_ensures(j as int);
            lemma_key_order();
        }
        self.timeouts.remove(j);
        self.modified = true;
        proof {
            let tasks1 = self.task_seq();
            let timeouts1 = self.timeout_seq();
            assert forall|p: int, q: int|
                0 <= p < q < timeouts1.len() implies key_lt_spec(
                #[trigger] timeouts1[p],
                #[trigger] timeouts1[q],
            ) by {
                let p0 = if p < j { p } else { p + 1 };
                let q0 = if q < j { q } else { q + 1 };
                assert(timeouts1[p] == timeouts0[p0] && timeouts1[q] == timeouts0[q0]);
            }
            assert forall|p: int|
                0 <= p < tasks1.len() implies timeouts1.contains(#[trigger] tasks1[p].key) by {
                let p0 = if p < i { p } else { p + 1 };
                assert(tasks1[p] == tasks0[p0]);
                let w = choose|w: int| 0 <= w < timeouts0.len() && timeouts0[w] == tasks0[p0].key;
                if w == j {
                    assert(tasks0[p0].key == t.key);
                    assert(p0 != i);
                    assert(false);
                } else if w < j {
                    assert(timeouts1[w] == tasks1[p].key);
                } else {
                    assert(timeouts1[w - 1] == tasks1[p].key);
                }
            }
            assert forall|p: int|
                0 <= p < timeouts1.len() implies exists|q: int|
                0 <= q < tasks1.len() && #[trigger] tasks1[q].key == #[trigger] timeouts1[p] by {
                let p0 = if p < j { p } else { p + 1 };
                assert(timeouts1[p] == timeouts0[p0]);
                let q0 = choose|q0: int|
                    0 <= q0 < tasks0.len() && #[trigger] tasks0[q0].key == timeouts0[p0];
                if q0 == i {
                    assert(timeouts0[p0] == t.key);
                    assert(p0 != j);
                    assert(false);
                } else if q0 < i {
                    assert(tasks1[q0].key == timeouts1[p]);
                } else {
                    assert(tasks1[q0 - 1].key == timeouts1[p]);
                }
            }
            assert forall|h: u128, a: Addr|
                !(h == host && a == addr) implies (#[trigger] self.has(h, a) == old(self).has(
                h,
                a,
            ) && (old(self).has(h, a) ==> self.task_at(h, a) == old(self).task_at(h, a))) by {
                if old(self).has(h, a) {
                    old(self).lemma_task_at(h, a);
                    let q0 = choose|q0: int|
                        0 <= q0 < tasks0.len() && #[trigger] tasks0[q0].key.host == h
                            && tasks0[q0].key.addr == a;
                    assert(q0 != i);
                    if q0 < i {
                        assert(tasks1[q0] == tasks0[q0]);
                    } else {
                        assert(tasks1[q0 - 1] == tasks0[q0]);
                    }
                    assert(self.has(h, a));
                    self.lemma_task_at(h, a);
                }
                if self.has(h, a) {
                    let q = choose|q: int|
                        0 <= q < tasks1.len() && #[trigger] tasks1[q].key.host == h
                            && tasks1[q].key.addr == a;
                    let q0 = if q < i { q } else { q + 1 };
                    assert(tasks1[q] == tasks0[q0]);
                    assert(old(self).has(h, a));
                }
            }
            assert forall|p: int|
                0 <= p < tasks1.len() implies !(#[trigger] tasks1[p].key.host == host
                && tasks1[p].key.addr == addr) by {
                let p0 = if p < i { p } else { p + 1 };
                assert(tasks1[p] == tasks0[p0]);
            }
        }
        Some(t)
    }
}


impl Tasks {
    /// Insert a task for `key`'s pair with this state and token, replacing
    /// any task the pair already has, and keep both indices in step.
    fn insert_full(&mut self, key: Key, what: ProbeState, token: Option<u64>)
        requires
            old(self).wf(),
            key.deadline <= TIME_LIMIT + TIMEOUT_MS,
            token is Some ==> what == ProbeState::Timeout,
        ensures
            final(self).wf(),
            final(self).has(key.host, key.addr),
            final(self).task_at(key.host, key.addr) == (Task { key, what, token }),
            forall|h: u128, a: Addr|
                !(h == key.host && a == key.addr) ==> (#[trigger] final(self).has(h, a) == old(
                    self,
                ).has(h, a) && (old(self).has(h, a) ==> final(self).task_at(h, a) == old(
                    self,
                ).task_at(h, a))),
            final(self).is_modified(),
    {
        let _ = self.remove(key.host, key.addr);
        let ghost b = *self;
        self.tasks.push(Task { key, what, token });
        let ghost pushed = *self;
        let m = self.timeouts.len();
        let mut pos: usize = 0;
        while pos < m && key_lt(self.timeouts[pos], key)
            invariant
                *self == pushed,
                m == self.timeout_seq().len(),
                0 <= pos <= m,
                forall|k: int|
                    0 <= k < pos ==> key_lt_spec(#[trigger] self.timeout_seq()[k], key),
            decreases m - pos,
        {
            pos = pos + 1;
        }
        proof {
            lemma_key_order();
            b.timeouts@.insert_ensures(pos as int, key);
            assert forall|w: int| 0 <= w < b.timeout_seq().len() implies #[trigger] b.timeout_seq(
            )[w] != key by {
                if b.timeout_seq()[w] == key {
                    let q = choose|q: int|
                        0 <= q < b.task_seq().len() && #[trigger] b.task_seq()[q].key
                            == #[trigger] b.timeout_seq()[w];
                    assert(b.has(key.host, key.addr));
                }
            }
        }
        self.timeouts.insert(pos, key);
        self.modified = true;
        proof {
            let tasks0 = b.task_seq();
            let timeouts0 = b.timeout_seq();
            let tasks1 = self.task_seq();
            let timeouts1 = self.timeout_seq();
            let nt = tasks0.len() as int;
            assert(tasks1 == tasks0.push(Task { key, what, token }));
            assert(tasks1[nt] == (Task { key, what, token }));
            assert forall|p: int, q: int|
                0 <= p < q < timeouts1.len() implies key_lt_spec(
                #[trigger] timeouts1[p],
                #[trigger] timeouts1[q],
            ) by {
                if q < pos {
                    assert(timeouts1[p] == timeouts0[p] && timeouts1[q] == timeouts0[q]);
                } else if p > pos {
                    assert(timeouts1[p] == timeouts0[p - 1] && timeouts1[q] == timeouts0[q - 1]);
                } else if p < pos && q == pos {
                    assert(timeouts1[p] == timeouts0[p]);
                } else if p == pos && q > pos {
                    assert(timeouts1[q] == timeouts0[q - 1]);
                    assert(!key_lt_spec(timeouts0[pos as int], key) || pos == m);
                    if (pos as int) < q - 1 {
                        assert(key_lt_spec(timeouts0[pos as int], timeouts0[q - 1]));
                    }
                    assert(key_lt_spec(key, timeouts0[q - 1]));
                } else {
                    assert(timeouts1[p] == timeouts0[p] && timeouts1[q] == timeouts0[q - 1]);
                    assert(key_lt_spec(timeouts0[p], key));
                    if (pos as int) <= q - 2 {
                        assert(!key_lt_spec(timeouts0[pos as int], key));
                        assert(key_lt_spec(key, timeouts0[pos as int]));
                        assert(key_lt_spec(timeouts0[pos as int], timeouts0[q - 1]));
                    }
                    assert(key_lt_spec(timeouts0[p], timeouts0[q - 1]));
                }
            }
            assert forall|p: int|
                0 <= p < tasks1.len() implies timeouts1.contains(#[trigger] tasks1[p].key) by {
                if p < nt {
                    assert(tasks1[p] == tasks0[p]);
                    let w = choose|w: int|
                        0 <= w < timeouts0.len() && timeouts0[w] == tasks0[p].key;
                    if w < pos {
                        assert(timeouts1[w] == tasks1[p].key);
                    } else {
                        assert(timeouts1[w + 1] == tasks1[p].key);
                    }
                } else {
                    assert(timeouts1[pos as int] == key);
                }
            }
            assert forall|p: int|
                0 <= p < timeouts1.len() implies exists|q: int|
                0 <= q < tasks1.len() && #[trigger] tasks1[q].key == #[trigger] timeouts1[p] by {
                if p == pos {
                    assert(tasks1[nt].key == timeouts1[p]);
                } else {
                    let p0 = if p < pos {
                        p
                    } else {
                        p - 1
                    };
                    assert(timeouts1[p] == timeouts0[p0]);
                    let q = choose|q: int|
                        0 <= q < tasks0.len() && #[trigger] tasks0[q].key
                            == #[trigger] timeouts0[p0];
                    assert(tasks1[q].key == timeouts1[p]);
                }
            }
            assert forall|p: int, q: int|
                0 <= p < q < tasks1.len() implies !(#[trigger] tasks1[p].key.host
                == #[trigger] tasks1[q].key.host && tasks1[p].key.addr == tasks1[q].key.addr) by {
                if q == nt {
                    assert(tasks1[p] == tasks0[p]);
                    if tasks1[p].key.host == key.host && tasks1[p].key.addr == key.addr {
                        assert(b.has(key.host, key.addr));
                    }
                }
            }
            assert(self.has(key.host, key.addr));
            self.lemma_task_at(key.host, key.addr);
            assert(self.task_at(key.host, key.addr) == tasks1[nt]);
            assert forall|h: u128, a: Addr|
                !(h == key.host && a == key.addr) implies (#[trigger] self.has(h, a) == old(
                self,
            ).has(h, a) && (old(self).has(h, a) ==> self.task_at(h, a) == old(self).task_at(
                h,
                a,
            ))) by {
                if b.has(h, a) {
                    b.lemma_task_at(h, a);
                    let q = choose|q: int|
                        0 <= q < tasks0.len() && #[trigger] tasks0[q].key.host == h
                            && tasks0[q].key.addr == a;
                    assert(tasks1[q] == tasks0[q]);
                    assert(self.has(h, a));
                    self.lemma_task_at(h, a);
                }
                if self.has(h, a) {
                    let q = choose|q: int|
                        0 <= q < tasks1.len() && #[trigger] tasks1[q].key.host == h
                            && tasks1[q].key.addr == a;
                    assert(q != nt);
                    assert(tasks1[q] == tasks0[q]);
                    assert(b.has(h, a));
                }
            }
        }
    }

    /// Insert a freshly scheduled probe for `key`'s pair, replacing any
    /// task the pair already has.
    pub fn insert(&mut self, key: Key, what: ProbeState)
        requires
            old(self).wf(),
            key.deadline <= TIME_LIMIT + TIMEOUT_MS,
        ensures
            final(self).wf(),
            final(self).has(key.host, key.addr),
            final(self).task_at(key.host, key.addr) == (Task { key, what, token: None::<u64> }),
            forall|h: u128, a: Addr|
                !(h == key.host && a == key.addr) ==> (#[trigger] final(self).has(h, a) == old(
                    self,
                ).has(h, a) && (old(self).has(h, a) ==> final(self).task_at(h, a) == old(
                    self,
                ).task_at(h, a))),
            final(self).is_modified(),
    {
        self.insert_full(key, what, None);
    }

    /// Move the pair's task to a new deadline, state and token; without a
    /// task for the pair, nothing changes.
    pub fn reschedule(&mut self, host: u128, addr: Addr, deadline: u64, what: ProbeState, token: Option<u64>)
        requires
            old(self).wf(),
            deadline <= TIME_LIMIT + TIMEOUT_MS,
            token is Some ==> what == ProbeState::Timeout,
        ensures
            final(self).wf(),
            old(self).has(host, addr) ==> {
                &&& final(self).has(host, addr)
                &&& final(self).task_at(host, addr) == (Task {
                    key: Key { deadline, host, addr },
                    what,
                    token,
                })
                &&& final(self).is_modified()
            },
            !old(self).has(host, addr) ==> *final(self) == *old(self),
            forall|h: u128, a: Addr|
                !(h == host && a == addr) ==> #[trigger] final(self).has(h, a) == old(self).has(
                    h,
                    a,
                ),
            forall|h: u128, a: Addr|
                !(h == host && a == addr) && old(self).has(h, a)
                    ==> #[trigger] final(self).task_at(h, a) == old(self).task_at(h, a),
    {
        let ghost s0 = *self;
        let found = match self.remove(host, addr) {
            Some(_) => true,
            None => false,
        };
        let ghost s1 = *self;
        if found {
            self.insert_full(Key { deadline, host, addr }, what, token);
            proof {
                assert forall|h: u128, a: Addr|
                    !(h == host && a == addr) implies #[trigger] self.has(h, a) == s0.has(
                    h,
                    a,
                ) by {
                    assert(self.has(h, a) == s1.has(h, a));
                    assert(s1.has(h, a) == s0.has(h, a));
                }
                assert forall|h: u128, a: Addr|
                    !(h == host && a == addr) && s0.has(h, a) implies #[trigger] self.task_at(
                    h,
                    a,
                ) == s0.task_at(h, a) by {
                    assert(s1.has(h, a) == s0.has(h, a));
                    assert(self.has(h, a) == s1.has(h, a));
                    assert(s1.task_at(h, a) == s0.task_at(h, a));
                    assert(self.task_at(h, a) == s1.task_at(h, a));
                }
            }
        }
    }

    /// The address of some task of this host, while it has one.
    fn find_host_addr(&self, host: u128) -> (r: Option<Addr>)
        ensures
            r is Some ==> self.has(host, r->0),
            r is None ==> forall|a: Addr| !self.has(host, a),
    {
        let n = self.tasks.len();
        let mut i: usize = 0;
        while i < n && self.tasks[i].key.host != host
            invariant
                n == self.task_seq().len(),
                0 <= i <= n,
                forall|k: int| 0 <= k < i ==> #[trigger] self.task_seq()[k].key.host != host,
            decreases n - i,
        {
            i = i + 1;
        }
        if i < n {
            Some(self.tasks[i].key.addr)
        } else {
            None
        }
    }

    /// Remove every task of this host from both indices.
    pub fn remove_by_id(&mut self, host: u128)
        requires
            old(self).wf(),
        ensures
            final(self).wf(),
            forall|a: Addr| !final(self).has(host, a),
            forall|h: u128, a: Addr|
                h != host ==> (#[trigger] final(self).has(h, a) == old(self).has(h, a) && (old(
                    self,
                ).has(h, a) ==> final(self).task_at(h, a) == old(self).task_at(h, a))),
            final(self).is_modified(),
    {
        self.modified = true;
        proof {
            Tasks::lemma_same_view(*self, *old(self));
        }
        loop
            invariant
                self.wf(),
                self.is_modified(),
                forall|h: u128, a: Addr|
                    h != host ==> (#[trigger] self.has(h, a) == old(self).has(h, a) && (old(
                        self,
                    ).has(h, a) ==> self.task_at(h, a) == old(self).task_at(h, a))),
            ensures
                self.wf(),
                self.is_modified(),
                forall|a: Addr| !self.has(host, a),
                forall|h: u128, a: Addr|
                    h != host ==> (#[trigger] self.has(h, a) == old(self).has(h, a) && (old(
                        self,
                    ).has(h, a) ==> self.task_at(h, a) == old(self).task_at(h, a))),
            decreases self.task_seq().len(),
        {
            let next = self.find_host_addr(host);
            match next {
                None => {
                    break ;
                },
                Some(a) => {
                    let _ = self.remove(host, a);
                },
            }
        }
    }

    /// Remove every task whose host is not in `keep`.
    pub fn retain_hosts(&mut self, keep: &Vec<u128>)
        requires
            old(self).wf(),
        ensures
            final(self).wf(),
            forall|h: u128, a: Addr|
                !keep@.contains(h) ==> !final(self).has(h, a),
            forall|h: u128, a: Addr|
                keep@.contains(h) ==> (#[trigger] final(self).has(h, a) == old(self).has(h, a)
                    && (old(self).has(h, a) ==> final(self).task_at(h, a) == old(self).task_at(
                    h,
                    a,
                ))),
            final(self).is_modified(),
    {
        self.modified = true;
        proof {
            Tasks::lemma_same_view(*self, *old(self));
        }
        loop
            invariant
                self.wf(),
                self.is_modified(),
                forall|h: u128, a: Addr|
                    keep@.contains(h) ==> (#[trigger] self.has(h, a) == old(self).has(h, a) && (
                    old(self).has(h, a) ==> self.task_at(h, a) == old(self).task_at(h, a))),
                forall|h: u128, a: Addr|
                    #[trigger] self.has(h, a) ==> old(self).has(h, a),
            ensures
                self.wf(),
                self.is_modified(),
                forall|h: u128, a: Addr| !keep@.contains(h) ==> !self.has(h, a),
                forall|h: u128, a: Addr|
                    keep@.contains(h) ==> (#[trigger] self.has(h, a) == old(self).has(h, a) && (
                    old(self).has(h, a) ==> self.task_at(h, a) == old(self).task_at(h, a))),
            decreases self.task_seq().len(),
        {
            let next = self.find_stale(keep);
            match next {
                None => {
                    break ;
                },
                Some((h, a)) => {
                    let _ = self.remove(h, a);
                },
            }
        }
    }

    /// Some task whose host is not in `keep`, while one exists.
    fn find_stale(&self, keep: &Vec<u128>) -> (r: Option<(u128, Addr)>)
        ensures
            r is Some ==> self.has((r->0).0, (r->0).1) && !keep@.contains((r->0).0),
            r is None ==> forall|h: u128, a: Addr|
                #[trigger] self.has(h, a) ==> keep@.contains(h),
    {
        let n = self.tasks.len();
        let mut i: usize = 0;
        while i < n && contains_host(keep, self.tasks[i].key.host)
            invariant
                n == self.task_seq().len(),
                0 <= i <= n,
                forall|k: int|
                    0 <= k < i ==> keep@.contains(#[trigger] self.task_seq()[k].key.host),
            decreases n - i,
        {
            i = i + 1;
        }
        if i < n {
            Some((self.tasks[i].key.host, self.tasks[i].key.addr))
        } else {
            None
        }
    }
}

/// Whether a host id is in the list.
fn contains_host(v: &Vec<u128>, h: u128) -> (r: bool)
    ensures
        r == v@.contains(h),
{
    let n = v.len();
    let mut i: usize = 0;
    while i < n
        invariant
            n == v@.len(),
            0 <= i <= n,
            forall|k: int| 0 <= k < i ==> #[trigger] v@[k] != h,
        decreases n - i,
    {
        if v[i] == h {
            return true;
        }
        i = i + 1;
    }
    false
}

/// In a well-formed queue the two indices agree exactly: every `(host,
/// addr)` pair in the keyed list has exactly one entry in the deadline
/// list, carrying the identical key, and every deadline entry is the key
/// of exactly one task.
pub proof fn lemma_indices_agree(t: &Tasks)
    requires
        t.wf(),
    ensures
        forall|i: int|
            0 <= i < t.task_seq().len() ==> t.timeout_seq().contains(
                #[trigger] t.task_seq()[i].key,
            ),
        forall|j1: int, j2: int|
            0 <= j1 < j2 < t.timeout_seq().len() ==> t.timeout_seq()[j1] != t.timeout_seq()[j2],
        forall|j: int|
            0 <= j < t.timeout_seq().len() ==> exists|i: int|
                0 <= i < t.task_seq().len() && #[trigger] t.task_seq()[i].key
                    == #[trigger] t.timeout_seq()[j],
        forall|i1: int, i2: int|
            0 <= i1 < i2 < t.task_seq().len() ==> t.task_seq()[i1].key != t.task_seq()[i2].key,
{
    lemma_key_order();
    assert forall|j: int|
        0 <= j < t.timeout_seq().len() implies exists|i: int|
        0 <= i < t.task_seq().len() && #[trigger] t.task_seq()[i].key
            == #[trigger] t.timeout_seq()[j] by {
        let i = choose|i: int|
            0 <= i < t.task_seq().len() && #[trigger] t.task_seq()[i].key
                == #[trigger] t.timeout_seq()[j];
        assert(t.task_seq()[i].key == t.timeout_seq()[j]);
    }
    assert forall|i1: int, i2: int|
        0 <= i1 < i2 < t.task_seq().len() implies t.task_seq()[i1].key
        != t.task_seq()[i2].key by {
        assert(!(t.task_seq()[i1].key.host == t.task_seq()[i2].key.host && t.task_seq()[
        i1].key.addr == t.task_seq()[i2].key.addr));
    }
}


/// One host's published snapshot in the store.
pub struct StoreEntry {
    /// The host the snapshot belongs to.
    pub host: u128,
    /// The snapshot.
    pub pinged: Pinged,
}

/// The snapshot store: the single source of user-visible truth, one
/// snapshot per host.
pub struct Store {
    entries: Vec<StoreEntry>,
}

impl Store {
    /// The stored snapshots.
    pub closed spec fn entry_seq(&self) -> Seq<StoreEntry> {
        self.entries@
    }

    /// Each host has at most one snapshot, and each snapshot is well
    /// formed.
    pub open spec fn wf(&self) -> bool {
        &&& forall|i: int, j: int|
            0 <= i < j < self.entry_seq().len() ==> #[trigger] self.entry_seq()[i].host
                != #[trigger] self.entry_seq()[j].host
        &&& forall|i: int|
            0 <= i < self.entry_seq().len() ==> (#[trigger] self.entry_seq()[i].pinged).wf()
    }

    /// Whether the store holds a snapshot for this host.
    pub open spec fn has_host(&self, host: u128) -> bool {
        exists|i: int| 0 <= i < self.entry_seq().len() && #[trigger] self.entry_seq()[i].host == host
    }

    /// The snapshot the store holds for this host.
    pub open spec fn pinged_at(&self, host: u128) -> Pinged {
        self.entry_seq()[choose|i: int|
            0 <= i < self.entry_seq().len() && #[trigger] self.entry_seq()[i].host == host].pinged
    }

    /// In a well-formed store, every entry holding this host carries the
    /// one snapshot for it.
    pub proof fn lemma_pinged_at(&self, host: u128)
        requires
            self.wf(),
            self.has_host(host),
        ensures
            forall|i: int|
                0 <= i < self.entry_seq().len() && #[trigger] self.entry_seq()[i].host == host
                    ==> self.entry_seq()[i].pinged == self.pinged_at(host),
            self.pinged_at(host).wf(),
    {
        let w = choose|i: int|
            0 <= i < self.entry_seq().len() && #[trigger] self.entry_seq()[i].host == host;
        assert forall|i: int|
            0 <= i < self.entry_seq().len() && #[trigger] self.entry_seq()[i].host == host
                implies self.entry_seq()[i].pinged == self.pinged_at(host) by {
            if i != w {
                assert(false);
            }
        }
    }

    /// Replacing one entry's snapshot, keeping its host, leaves every other
    /// host's snapshot as it was.
    pub proof fn lemma_frame_update(s0: Store, s1: Store, i: int, host: u128)
        requires
            s0.wf(),
            0 <= i < s0.entry_seq().len(),
            s1.entry_seq().len() == s0.entry_seq().len(),
            forall|k: int|
                0 <= k < s0.entry_seq().len() && k != i ==> #[trigger] s1.entry_seq()[k]
                    == s0.entry_seq()[k],
            s0.entry_seq()[i].host == host,
            s1.entry_seq()[i].host == host,
        ensures
            s1.has_host(host),
            forall|h: u128| h != host ==> #[trigger] s1.has_host(h) == s0.has_host(h),
            s1.wf() ==> forall|h: u128|
                h != host && s0.has_host(h) ==> #[trigger] s1.pinged_at(h) == s0.pinged_at(h),
    {
        assert(s1.entry_seq()[i].host == host);
        assert(s1.has_host(host));
        assert forall|h: u128| h != host implies #[trigger] s1.has_host(h) == s0.has_host(h) by {
            if s0.has_host(h) {
                let j = choose|j: int|
                    0 <= j < s0.entry_seq().len() && #[trigger] s0.entry_seq()[j].host == h;
                assert(j != i);
                assert(s1.entry_seq()[j].host == h);
            }
            if s1.has_host(h) {
                let j = choose|j: int|
                    0 <= j < s1.entry_seq().len() && #[trigger] s1.entry_seq()[j].host == h;
                assert(j != i);
                assert(s0.entry_seq()[j].host == h);
            }
        }
        if s1.wf() {
            assert forall|h: u128|
                h != host && s0.has_host(h) implies #[trigger] s1.pinged_at(h) == s0.pinged_at(
                h,
            ) by {
                s0.lemma_pinged_at(h);
                let j = choose|j: int|
                    0 <= j < s0.entry_seq().len() && #[trigger] s0.entry_seq()[j].host == h;
                assert(j != i);
                assert(s1.entry_seq()[j] == s0.entry_seq()[j]);
                assert(s1.has_host(h));
                s1.lemma_pinged_at(h);
            }
        }
    }

    /// An empty store.
    pub fn new() -> (r: Store)
        ensures
            r.wf(),
            r.entry_seq().len() == 0,
    {
        Store { entries: Vec::new() }
    }

    /// Read the snapshot for a host.
    pub fn get(&self, host: u128) -> (r: Option<&Pinged>)
        requires
            self.wf(),
        ensures
            r is Some == self.has_host(host),
            r is Some ==> *r->0 == self.pinged_at(host),
    {
        let n = self.entries.len();
        let mut i: usize = 0;
        while i < n && self.entries[i].host != host
            invariant
                n == self.entry_seq().len(),
                0 <= i <= n,
                forall|k: int| 0 <= k < i ==> #[trigger] self.entry_seq()[k].host != host,
            decreases n - i,
        {
            i = i + 1;
        }
        if i < n {
            proof {
                self.lemma_pinged_at(host);
            }
            Some(&self.entries[i].pinged)
        } else {
            None
        }
    }

    /// Drop the snapshot of a host.
    pub fn remove_host(&mut self, host: u128)
        requires
            old(self).wf(),
        ensures
            final(self).wf(),
            !final(self).has_host(host),
            forall|h: u128| h != host ==> #[trigger] final(self).has_host(h) == old(self).has_host(h),
            forall|h: u128|
                h != host && old(self).has_host(h) ==> #[trigger] final(self).pinged_at(h) == old(
                    self,
                ).pinged_at(h),
            old(self).has_host(host) ==> final(self).entry_seq().len() == old(
                self,
            ).entry_seq().len() - 1,
            !old(self).has_host(host) ==> *final(self) == *old(self),
    {
        let n = self.entries.len();
        let mut i: usize = 0;
        while i < n && self.entries[i].host != host
            invariant
                *self == *old(self),
                n == self.entry_seq().len(),
                0 <= i <= n,
                forall|k: int| 0 <= k < i ==> #[trigger] self.entry_seq()[k].host != host,
            decreases n - i,
        {
            i = i + 1;
        }
        if i >= n {
            return ;
        }
        proof {
            assert(old(self).has_host(host));
        }
        let ghost before = self.entries@;
        proof {
            before.remove_ensures(i as int);
        }
        self.entries.remove(i);
        proof {
            let after = self.entry_seq();
            assert forall|k: int|
                0 <= k < after.len() implies #[trigger] after[k].host != host by {
                let k0 = if k < i {
                    k
                } else {
                    k + 1
                };
                assert(after[k] == before[k0]);
            }
            assert forall|h: u128|
                h != host implies #[trigger] self.has_host(h) == old(self).has_host(h) by {
                if old(self).has_host(h) {
                    let j = choose|j: int| 0 <= j < before.len() && #[trigger] before[j].host == h;
                    assert(j != i);
                    if j < i {
                        assert(after[j].host == h);
                    } else {
                        assert(after[j - 1].host == h);
                    }
                }
                if self.has_host(h) {
                    let j = choose|j: int| 0 <= j < after.len() && #[trigger] after[j].host == h;
                    let j0 = if j < i {
                        j
                    } else {
                        j + 1
                    };
                    assert(before[j0].host == h);
                }
            }
            assert forall|h: u128|
                h != host && old(self).has_host(h) implies #[trigger] self.pinged_at(h) == old(
                self,
            ).pinged_at(h) by {
                old(self).lemma_pinged_at(h);
                let j = choose|j: int| 0 <= j < before.len() && #[trigger] before[j].host == h;
                assert(j != i);
                if j < i {
                    assert(after[j] == before[j]);
                } else {
                    assert(after[j - 1] == before[j]);
                }
                assert(self.has_host(h));
                self.lemma_pinged_at(h);
            }
        }
    }

    /// Find the index of the snapshot for a host, creating an empty one if
    /// none is held yet.
    fn entry_or_default(&mut self, host: u128) -> (r: usize)
        requires
            old(self).wf(),
        ensures
            final(self).wf(),
            r < final(self).entry_seq().len(),
            final(self).entry_seq()[r as int].host == host,
            final(self).has_host(host),
            old(self).has_host(host) ==> *final(self) == *old(self) && final(self).pinged_at(host)
                == old(self).pinged_at(host),
            !old(self).has_host(host) ==> {
                &&& final(self).entry_seq().len() == old(self).entry_seq().len() + 1
                &&& forall|k: int|
                    0 <= k < old(self).entry_seq().len() ==> #[trigger] final(self).entry_seq()[k]
                        == old(self).entry_seq()[k]
                &&& final(self).pinged_at(host).errors@.len() == 0
                &&& final(self).pinged_at(host).results@.len() == 0
            },
            forall|h: u128| h != host ==> #[trigger] final(self).has_host(h) == old(self).has_host(h),
            forall|h: u128|
                h != host && old(self).has_host(h) ==> #[trigger] final(self).pinged_at(h) == old(
                    self,
                ).pinged_at(h),
    {
        let n = self.entries.len();
        let mut i: usize = 0;
        while i < n && self.entries[i].host != host
            invariant
                *self == *old(self),
                n == self.entry_seq().len(),
                0 <= i <= n,
                forall|k: int| 0 <= k < i ==> #[trigger] self.entry_seq()[k].host != host,
            decreases n - i,
        {
            i = i + 1;
        }
        if i < n {
            proof {
                self.lemma_pinged_at(host);
            }
            return i;
        }
        let ghost before = self.entries@;
        self.entries.push(StoreEntry { host, pinged: Pinged::new() });
        proof {
            let after = self.entry_seq();
            assert(after[n as int].host == host);
            assert(self.has_host(host));
            assert forall|h: u128|
                h != host implies #[trigger] self.has_host(h) == old(self).has_host(h) by {
                if old(self).has_host(h) {
                    let j = choose|j: int| 0 <= j < before.len() && #[trigger] before[j].host == h;
                    assert(after[j].host == h);
                }
                if self.has_host(h) {
                    let j = choose|j: int| 0 <= j < after.len() && #[trigger] after[j].host == h;
                    assert(j != n);
                    assert(before[j].host == h);
                }
            }
            assert forall|h: u128|
                h != host && old(self).has_host(h) implies #[trigger] self.pinged_at(h) == old(
                self,
            ).pinged_at(h) by {
                old(self).lemma_pinged_at(h);
                let j = choose|j: int| 0 <= j < before.len() && #[trigger] before[j].host == h;
                assert(after[j] == before[j]);
                assert(self.has_host(h));
                self.lemma_pinged_at(h);
            }
        }
        n
    }

    /// Replace the snapshot at an index, as one step of an update.
    fn put_pinged(&mut self, i: usize, host: u128, pinged: Pinged)
        requires
            old(self).wf(),
            i < old(self).entry_seq().len(),
            old(self).entry_seq()[i as int].host == host,
            pinged.wf(),
        ensures
            final(self).wf(),
            final(self).entry_seq() == old(self).entry_seq().update(
                i as int,
                StoreEntry { host, pinged },
            ),
            final(self).has_host(host),
            final(self).pinged_at(host) == pinged,
            forall|h: u128| h != host ==> #[trigger] final(self).has_host(h) == old(self).has_host(h),
            forall|h: u128|
                h != host && old(self).has_host(h) ==> #[trigger] final(self).pinged_at(h) == old(
                    self,
                ).pinged_at(h),
    {
        let ghost before = self.entries@;
        vstd::pervasive::VecAdditionalExecFns::set(&mut self.entries, i, StoreEntry { host, pinged });
        proof {
            let after = self.entry_seq();
            assert(after[i as int].host == host);
            assert(self.has_host(host));
            self.lemma_pinged_at(host);
            assert forall|h: u128|
                h != host implies #[trigger] self.has_host(h) == old(self).has_host(h) by {
                if old(self).has_host(h) {
                    let j = choose|j: int| 0 <= j < before.len() && #[trigger] before[j].host == h;
                    assert(j != i);
                    assert(after[j].host == h);
                }
                if self.has_host(h) {
                    let j = choose|j: int| 0 <= j < after.len() && #[trigger] after[j].host == h;
                    assert(j != i);
                    assert(before[j].host == h);
                }
            }
            assert forall|h: u128|
                h != host && old(self).has_host(h) implies #[trigger] self.pinged_at(h) == old(
                self,
            ).pinged_at(h) by {
                old(self).lemma_pinged_at(h);
                let j = choose|j: int| 0 <= j < before.len() && #[trigger] before[j].host == h;
                assert(j != i);
                assert(after[j] == before[j]);
                assert(self.has_host(h));
                self.lemma_pinged_at(h);
            }
        }
    }

    /// Give a host a fresh, empty snapshot.
    pub fn reset_host(&mut self, host: u128)
        requires
            old(self).wf(),
        ensures
            final(self).wf(),
            final(self).has_host(host),
            final(self).pinged_at(host).errors@.len() == 0,
            final(self).pinged_at(host).results@.len() == 0,
            forall|h: u128| h != host ==> #[trigger] final(self).has_host(h) == old(self).has_host(h),
            forall|h: u128|
                h != host && old(self).has_host(h) ==> #[trigger] final(self).pinged_at(h) == old(
                    self,
                ).pinged_at(h),
    {
        let i = self.entry_or_default(host);
        self.put_pinged(i, host, Pinged::new());
    }

    /// Record a result in a host's snapshot, creating the snapshot first
    /// when the host has none.
    pub fn result(&mut self, host: u128, r: PingResult)
        requires
            old(self).wf(),
        ensures
            final(self).wf(),
            final(self).has_host(host),
            old(self).has_host(host) ==> result_rel(
                old(self).pinged_at(host),
                final(self).pinged_at(host),
                r,
            ),
            !old(self).has_host(host) ==> final(self).pinged_at(host).results@ =~= seq![r]
                && final(self).pinged_at(host).errors@.len() == 0,
            forall|h: u128| h != host ==> #[trigger] final(self).has_host(h) == old(self).has_host(h),
            forall|h: u128|
                h != host && old(self).has_host(h) ==> #[trigger] final(self).pinged_at(h) == old(
                    self,
                ).pinged_at(h),
    {
        let i = self.entry_or_default(host);
        let ghost mid = *self;
        let mut entry = StoreEntry { host, pinged: Pinged::new() };
        vstd::pervasive::VecAdditionalExecFns::set_and_swap(&mut self.entries, i, &mut entry);
        let ghost swapped = *self;
        proof {
            mid.lemma_pinged_at(host);
            assert(entry.pinged == mid.pinged_at(host));
            assert(swapped.wf());
            Store::lemma_frame_update(mid, swapped, i as int, host);
        }
        entry.pinged.result(r);
        self.put_pinged(i, host, entry.pinged);
        proof {
            assert(result_rel(mid.pinged_at(host), self.pinged_at(host), r));
            assert forall|h: u128|
                h != host implies #[trigger] self.has_host(h) == old(self).has_host(h) by {
                assert(self.has_host(h) == swapped.has_host(h));
                assert(swapped.has_host(h) == mid.has_host(h));
                assert(mid.has_host(h) == old(self).has_host(h));
            }
            assert forall|h: u128|
                h != host && old(self).has_host(h) implies #[trigger] self.pinged_at(h) == old(
                self,
            ).pinged_at(h) by {
                assert(mid.has_host(h) && swapped.has_host(h));
                assert(self.pinged_at(h) == swapped.pinged_at(h));
                assert(swapped.pinged_at(h) == mid.pinged_at(h));
                assert(mid.pinged_at(h) == old(self).pinged_at(h));
            }
            if !old(self).has_host(host) {
                let p = self.pinged_at(host);
                lemma_addr_order();
                assert(mid.pinged_at(host).results@.len() == 0);
                assert(mid.pinged_at(host).errors@.len() == 0);
                assert forall|k: int| 0 <= k < p.results@.len() implies p.results@[k] == r by {
                    if p.results@[k].target != r.target {
                        assert(p.results@.contains(p.results@[k]));
                        assert(mid.pinged_at(host).results@.contains(p.results@[k]));
                    }
                }
                assert(p.results@.len() >= 1) by {
                    assert(p.results@.contains(r));
                }
                assert(p.results@.len() <= 1) by {
                    if p.results@.len() >= 2 {
                        assert(p.results@[0] == r && p.results@[1] == r);
                        assert(addr_lt_spec(p.results@[0].target, p.results@[1].target));
                    }
                }
                assert(p.results@ =~= seq![r]);
                assert(p.errors@.len() == 0) by {
                    if p.errors@.len() > 0 {
                        assert(p.errors@.contains(p.errors@[0]));
                        assert(mid.pinged_at(host).errors@.contains(p.errors@[0]));
                    }
                }
            }
        }
    }

    /// Record an error in a host's snapshot, creating the snapshot first
    /// when the host has none.
    pub fn error(&mut self, host: u128, e: PingError)
        requires
            old(self).wf(),
        ensures
            final(self).wf(),
            final(self).has_host(host),
            old(self).has_host(host) ==> error_rel(
                old(self).pinged_at(host),
                final(self).pinged_at(host),
                e,
            ),
            !old(self).has_host(host) ==> final(self).pinged_at(host).errors@ =~= seq![e]
                && final(self).pinged_at(host).results@.len() == 0,
            forall|h: u128| h != host ==> #[trigger] final(self).has_host(h) == old(self).has_host(h),
            forall|h: u128|
                h != host && old(self).has_host(h) ==> #[trigger] final(self).pinged_at(h) == old(
                    self,
                ).pinged_at(h),
    {
        let i = self.entry_or_default(host);
        let ghost mid = *self;
        let mut entry = StoreEntry { host, pinged: Pinged::new() };
        vstd::pervasive::VecAdditionalExecFns::set_and_swap(&mut self.entries, i, &mut entry);
        let ghost swapped = *self;
        proof {
            mid.lemma_pinged_at(host);
            assert(entry.pinged == mid.pinged_at(host));
            assert(swapped.wf());
            Store::lemma_frame_update(mid, swapped, i as int, host);
        }
        entry.pinged.error(e);
        self.put_pinged(i, host, entry.pinged);
        proof {
            assert(error_rel(mid.pinged_at(host), self.pinged_at(host), e));
            assert forall|h: u128|
                h != host implies #[trigger] self.has_host(h) == old(self).has_host(h) by {
                assert(self.has_host(h) == swapped.has_host(h));
                assert(swapped.has_host(h) == mid.has_host(h));
                assert(mid.has_host(h) == old(self).has_host(h));
            }
            assert forall|h: u128|
                h != host && old(self).has_host(h) implies #[trigger] self.pinged_at(h) == old(
                self,
            ).pinged_at(h) by {
                assert(mid.has_host(h) && swapped.has_host(h));
                assert(self.pinged_at(h) == swapped.pinged_at(h));
                assert(swapped.pinged_at(h) == mid.pinged_at(h));
                assert(mid.pinged_at(h) == old(self).pinged_at(h));
            }
            if !old(self).has_host(host) {
                let p = self.pinged_at(host);
                assert(mid.pinged_at(host).results@.len() == 0);
                assert(mid.pinged_at(host).errors@.len() == 0);
                assert(!mid.pinged_at(host).has_error(e.kind));
                assert(p.errors@ == mid.pinged_at(host).errors@.push(e));
                assert(p.errors@ =~= seq![e]);
                assert(p.results@.len() == 0) by {
                    if p.results@.len() > 0 {
                        assert(p.results@.contains(p.results@[0]));
                        assert(mid.pinged_at(host).results@.contains(p.results@[0]));
                    }
                }
            }
        }
    }

    /// Keep only the snapshots of hosts in `keep`.
    pub fn retain_hosts(&mut self, keep: &Vec<u128>)
        requires
            old(self).wf(),
        ensures
            final(self).wf(),
            forall|h: u128| !keep@.contains(h) ==> !final(self).has_host(h),
            forall|h: u128|
                keep@.contains(h) ==> #[trigger] final(self).has_host(h) == old(self).has_host(h),
            forall|h: u128|
                keep@.contains(h) && old(self).has_host(h) ==> #[trigger] final(self).pinged_at(h)
                    == old(self).pinged_at(h),
    {
        loop
            invariant
                self.wf(),
                forall|h: u128|
                    #[trigger] self.has_host(h) ==> old(self).has_host(h) && self.pinged_at(h)
                        == old(self).pinged_at(h),
                forall|h: u128|
                    keep@.contains(h) && old(self).has_host(h) ==> #[trigger] self.has_host(h),
            ensures
                self.wf(),
                forall|h: u128| !keep@.contains(h) ==> !self.has_host(h),
                forall|h: u128|
                    keep@.contains(h) ==> #[trigger] self.has_host(h) == old(self).has_host(h),
                forall|h: u128|
                    keep@.contains(h) && old(self).has_host(h) ==> #[trigger] self.pinged_at(h)
                        == old(self).pinged_at(h),
            decreases self.entry_seq().len(),
        {
            let ghost prev = *self;
            let stale = self.find_stale_host(keep);
            match stale {
                None => {
                    proof {
                        assert forall|h: u128|
                            keep@.contains(h) implies #[trigger] self.has_host(h) == old(
                            self,
                        ).has_host(h) by {
                            if self.has_host(h) {
                            }
                            if old(self).has_host(h) {
                            }
                        }
                        assert forall|h: u128|
                            keep@.contains(h) && old(self).has_host(h)
                                implies #[trigger] self.pinged_at(h) == old(self).pinged_at(h) by {
                            assert(self.has_host(h));
                        }
                    }
                    break ;
                },
                Some(h) => {
                    self.remove_host(h);
                    proof {
                        assert forall|h2: u128|
                            #[trigger] self.has_host(h2) implies old(self).has_host(h2)
                            && self.pinged_at(h2) == old(self).pinged_at(h2) by {
                            assert(h2 != h);
                            assert(self.has_host(h2) == prev.has_host(h2));
                            assert(self.pinged_at(h2) == prev.pinged_at(h2));
                        }
                        assert forall|h2: u128|
                            keep@.contains(h2) && old(self).has_host(h2)
                                implies #[trigger] self.has_host(h2) by {
                            assert(h2 != h);
                            assert(prev.has_host(h2));
                        }
                    }
                },
            }
        }
    }

    /// The host of some snapshot that is not in `keep`, while one exists.
    fn find_stale_host(&self, keep: &Vec<u128>) -> (r: Option<u128>)
        requires
            self.wf(),
        ensures
            r is Some ==> self.has_host(r->0) && !keep@.contains(r->0),
            r is None ==> forall|h: u128| #[trigger] self.has_host(h) ==> keep@.contains(h),
    {
        let n = self.entries.len();
        let mut i: usize = 0;
        while i < n && contains_host(keep, self.entries[i].host)
            invariant
                n == self.entry_seq().len(),
                0 <= i <= n,
                forall|k: int| 0 <= k < i ==> keep@.contains(#[trigger] self.entry_seq()[k].host),
            decreases n - i,
        {
            i = i + 1;
        }
        if i < n {
            Some(self.entries[i].host)
        } else {
            None
        }
    }
}


/// One in-flight echo request: its correlation token, the probe it belongs
/// to, and when it was sent.
#[derive(Debug, Clone, Copy, PartialEq, Eq, Structural)]
pub struct DeferEntry {
    /// The token embedded in the echo payload.
    pub token: u64,
    /// The host being probed.
    pub host: u128,
    /// The address being probed.
    pub addr: Addr,
    /// When the request was sent, in monotonic milliseconds.
    pub started: u64,
}

/// A host's last published resolution, kept to detect address-set churn.
pub struct Domain {
    /// The host the resolution belongs to.
    pub host: u128,
    /// The resolution.
    pub result: crate::host_name_cache::CacheNameResult,
}

/// What the caller must do after a deadline fired.
#[derive(Debug, Clone, Copy, PartialEq, Eq, Structural)]
pub enum Dispatch {
    /// No task was due.
    Idle,
    /// The due task's address is not unicast-eligible; its task was
    /// dropped.
    Dropped { host: u128, addr: Addr },
    /// Send an echo request to `addr` carrying `token`, then report back
    /// with `ping_sent` or `ping_failed`.
    Send { host: u128, addr: Addr, token: u64 },
    /// The due probe timed out; its error was recorded and it was
    /// rescheduled.
    TimedOut { host: u128, addr: Addr },
}

/// A deferred entry is live: its probe's task exists, waits in `Timeout`,
/// carries the entry's token, and its deadline is the send time plus the
/// timeout.
pub open spec fn defer_linked(t: Tasks, d: DeferEntry) -> bool {
    &&& t.has(d.host, d.addr)
    &&& t.task_at(d.host, d.addr).token == Some(d.token)
    &&& t.task_at(d.host, d.addr).what == ProbeState::Timeout
    &&& t.task_at(d.host, d.addr).key.deadline == d.started + TIMEOUT_MS
    &&& d.started <= TIME_LIMIT
}

/// The probe scheduler's whole state: the dual-index task queue, the
/// in-flight requests, the published snapshots, and the last seen
/// resolutions.
pub struct Scheduler {
    tasks: Tasks,
    deferred: Vec<DeferEntry>,
    store: Store,
    domains: Vec<Domain>,
    next_token: u64,
}

impl Scheduler {
    /// The task queue.
    pub closed spec fn task_queue(&self) -> Tasks {
        self.tasks
    }

    /// The in-flight echo requests.
    pub closed spec fn deferred_seq(&self) -> Seq<DeferEntry> {
        self.deferred@
    }

    /// The snapshot store.
    pub closed spec fn store_view(&self) -> Store {
        self.store
    }

    /// The remembered resolutions.
    pub closed spec fn domain_seq(&self) -> Seq<Domain> {
        self.domains@
    }

    /// The token the next echo request will carry.
    pub closed spec fn token_counter(&self) -> u64 {
        self.next_token
    }

    /// Whether an in-flight request carries this token.
    pub open spec fn has_token(&self, t: u64) -> bool {
        exists|i: int|
            0 <= i < self.deferred_seq().len() && #[trigger] self.deferred_seq()[i].token == t
    }

    /// The in-flight request carrying this token.
    pub open spec fn defer_at(&self, t: u64) -> DeferEntry {
        self.deferred_seq()[choose|i: int|
            0 <= i < self.deferred_seq().len() && #[trigger] self.deferred_seq()[i].token == t]
    }

    /// The scheduler is consistent: both component structures are well
    /// formed, remembered resolutions are one per host, tokens are unique,
    /// every deferred entry is live ([`defer_linked`]), and every task
    /// holding a token has its deferred entry.
    pub open spec fn wf(&self) -> bool {
        &&& self.task_queue().wf()
        &&& self.store_view().wf()
        &&& forall|i: int, j: int|
            0 <= i < j < self.domain_seq().len() ==> #[trigger] self.domain_seq()[i].host
                != #[trigger] self.domain_seq()[j].host
        &&& forall|i: int, j: int|
            0 <= i < j < self.deferred_seq().len() ==> #[trigger] self.deferred_seq()[i].token
                != #[trigger] self.deferred_seq()[j].token
        &&& forall|i: int|
            0 <= i < self.deferred_seq().len() ==> defer_linked(
                self.task_queue(),
                #[trigger] self.deferred_seq()[i],
            )
        &&& forall|h: u128, a: Addr|
            self.task_queue().has(h, a) && (#[trigger] self.task_queue().task_at(h, a).token)
                is Some ==> exists|j: int|
                0 <= j < self.deferred_seq().len() && #[trigger] self.deferred_seq()[j]
                    == (DeferEntry {
                    token: self.task_queue().task_at(h, a).token->0,
                    host: h,
                    addr: a,
                    started: (self.task_queue().task_at(h, a).key.deadline - TIMEOUT_MS) as u64,
                })
    }

    /// Every token in the deferred map belongs to a task currently waiting
    /// in `Timeout` and carrying that token.
    pub proof fn lemma_deferred_tokens_live(&self, i: int)
        requires
            self.wf(),
            0 <= i < self.deferred_seq().len(),
        ensures
            self.task_queue().has(self.deferred_seq()[i].host, self.deferred_seq()[i].addr),
            self.task_queue().task_at(self.deferred_seq()[i].host, self.deferred_seq()[i].addr).token
                == Some(self.deferred_seq()[i].token),
            self.task_queue().task_at(self.deferred_seq()[i].host, self.deferred_seq()[i].addr).what
                == ProbeState::Timeout,
    {
    }

    /// Two in-flight requests never probe the same pair: their tasks would
    /// have to carry both tokens.
    pub proof fn lemma_deferred_pairs_unique(&self, i: int, j: int)
        requires
            self.wf(),
            0 <= i < self.deferred_seq().len(),
            0 <= j < self.deferred_seq().len(),
            i != j,
        ensures
            !(self.deferred_seq()[i].host == self.deferred_seq()[j].host
                && self.deferred_seq()[i].addr == self.deferred_seq()[j].addr),
    {
        let di = self.deferred_seq()[i];
        let dj = self.deferred_seq()[j];
        if di.host == dj.host && di.addr == dj.addr {
            assert(defer_linked(self.task_queue(), di));
            assert(defer_linked(self.task_queue(), dj));
            assert(di.token == dj.token);
            assert(false);
        }
    }

    /// A fresh scheduler with no hosts.
    pub fn new() -> (r: Scheduler)
        ensures
            r.wf(),
            r.task_queue().task_seq().len() == 0,
            r.deferred_seq().len() == 0,
            r.store_view().entry_seq().len() == 0,
            r.domain_seq().len() == 0,
    {
        Scheduler {
            tasks: Tasks::new(),
            deferred: Vec::new(),
            store: Store::new(),
            domains: Vec::new(),
            next_token: 0,
        }
    }

    /// Read a host's published snapshot.
    pub fn snapshot(&self, host: u128) -> (r: Option<&Pinged>)
        requires
            self.wf(),
        ensures
            r is Some == self.store_view().has_host(host),
            r is Some ==> *r->0 == self.store_view().pinged_at(host),
    {
        self.store.get(host)
    }

    /// Get the next deadline, once per round of modifications.
    pub fn next_deadline(&mut self) -> (r: Option<u64>)
        requires
            old(self).wf(),
        ensures
            final(self).wf(),
            final(self).task_queue().task_seq() == old(self).task_queue().task_seq(),
            final(self).task_queue().timeout_seq() == old(self).task_queue().timeout_seq(),
            final(self).deferred_seq() == old(self).deferred_seq(),
            final(self).store_view() == old(self).store_view(),
            final(self).domain_seq() == old(self).domain_seq(),
            final(self).token_counter() == old(self).token_counter(),
            r == if old(self).task_queue().is_modified() && old(
                self,
            ).task_queue().timeout_seq().len() > 0 {
                Some(old(self).task_queue().timeout_seq()[0].deadline)
            } else {
                None::<u64>
            },
    {
        let ghost before = *self;
        let r = self.tasks.next_deadline();
        proof {
            Tasks::lemma_same_view(self.task_queue(), before.task_queue());
            assert forall|h: u128, a: Addr|
                self.task_queue().has(h, a) && (#[trigger] self.task_queue().task_at(h, a).token)
                    is Some implies exists|j: int|
                0 <= j < self.deferred_seq().len() && #[trigger] self.deferred_seq()[j]
                    == (DeferEntry {
                    token: self.task_queue().task_at(h, a).token->0,
                    host: h,
                    addr: a,
                    started: (self.task_queue().task_at(h, a).key.deadline - TIMEOUT_MS) as u64,
                }) by {
                assert(before.task_queue().has(h, a));
                assert(before.task_queue().task_at(h, a) == self.task_queue().task_at(h, a));
                assert(before.task_queue().task_at(h, a).token is Some);
                let j = choose|j: int|
                    0 <= j < before.deferred_seq().len() && #[trigger] before.deferred_seq()[j]
                        == (DeferEntry {
                        token: before.task_queue().task_at(h, a).token->0,
                        host: h,
                        addr: a,
                        started: (before.task_queue().task_at(h, a).key.deadline
                            - TIMEOUT_MS) as u64,
                    });
                assert(self.deferred_seq()[j] == (DeferEntry {
                    token: self.task_queue().task_at(h, a).token->0,
                    host: h,
                    addr: a,
                    started: (self.task_queue().task_at(h, a).key.deadline - TIMEOUT_MS) as u64,
                }));
            }
            assert forall|i: int|
                0 <= i < self.deferred_seq().len() implies defer_linked(
                self.task_queue(),
                #[trigger] self.deferred_seq()[i],
            ) by {
                assert(defer_linked(before.task_queue(), self.deferred_seq()[i]));
                let d = self.deferred_seq()[i];
                assert(before.task_queue().task_at(d.host, d.addr) == self.task_queue().task_at(
                    d.host,
                    d.addr,
                ));
            }
            assert(self.task_queue().wf());
            assert(self.store_view().wf());
            assert(self.domains@ == old(self).domains@);
            assert(self.domain_seq() == old(self).domain_seq());
            assert(forall|i: int, j: int|
                0 <= i < j < self.domain_seq().len() ==> #[trigger] self.domain_seq()[i].host
                    != #[trigger] self.domain_seq()[j].host);
            assert(forall|i: int, j: int|
                0 <= i < j < self.deferred_seq().len() ==> #[trigger] self.deferred_seq()[i].token
                    != #[trigger] self.deferred_seq()[j].token);
        }
        r
    }

    /// Whether any probe is scheduled.
    pub fn is_empty(&self) -> (r: bool)
        requires
            self.wf(),
        ensures
            r == (self.task_queue().timeout_seq().len() == 0),
    {
        self.tasks.is_empty()
    }
}


/// Tokens in a deferred list are pairwise distinct.
pub open spec fn tokens_distinct(v: Seq<DeferEntry>) -> bool {
    forall|i: int, j: int|
        0 <= i < j < v.len() ==> #[trigger] v[i].token != #[trigger] v[j].token
}

/// The index of some entry of `v` with this host, while one exists.
fn find_deferred_host(v: &Vec<DeferEntry>, host: u128) -> (r: Option<usize>)
    ensures
        r is Some ==> r->0 < v@.len() && v@[r->0 as int].host == host,
        r is None ==> forall|k: int| 0 <= k < v@.len() ==> #[trigger] v@[k].host != host,
{
    let n = v.len();
    let mut i: usize = 0;
    while i < n && v[i].host != host
        invariant
            n == v@.len(),
            0 <= i <= n,
            forall|k: int| 0 <= k < i ==> #[trigger] v@[k].host != host,
        decreases n - i,
    {
        i = i + 1;
    }
    if i < n {
        Some(i)
    } else {
        None
    }
}

/// The index of some entry of `v` whose host is not in `keep`, while one
/// exists.
fn find_deferred_stale(v: &Vec<DeferEntry>, keep: &Vec<u128>) -> (r: Option<usize>)
    ensures
        r is Some ==> r->0 < v@.len() && !keep@.contains(v@[r->0 as int].host),
        r is None ==> forall|k: int| 0 <= k < v@.len() ==> keep@.contains(#[trigger] v@[k].host),
{
    let n = v.len();
    let mut i: usize = 0;
    while i < n && contains_host(keep, v[i].host)
        invariant
            n == v@.len(),
            0 <= i <= n,
            forall|k: int| 0 <= k < i ==> keep@.contains(#[trigger] v@[k].host),
        decreases n - i,
    {
        i = i + 1;
    }
    if i < n {
        Some(i)
    } else {
        None
    }
}

/// Remove one entry, keeping the rest in order.
fn remove_deferred_at(v: &mut Vec<DeferEntry>, i: usize)
    requires
        tokens_distinct(old(v)@),
        i < old(v)@.len(),
    ensures
        tokens_distinct(final(v)@),
        final(v)@.len() == old(v)@.len() - 1,
        forall|d: DeferEntry| #[trigger] final(v)@.contains(d) ==> old(v)@.contains(d),
        forall|d: DeferEntry|
            old(v)@.contains(d) && d.token != old(v)@[i as int].token
                ==> #[trigger] final(v)@.contains(d),
        !final(v)@.contains(old(v)@[i as int]),
{
    let ghost before = v@;
    proof {
        before.remove_ensures(i as int);
    }
    v.remove(i);
    proof {
        assert forall|p: int, q: int|
            0 <= p < q < v@.len() implies #[trigger] v@[p].token != #[trigger] v@[q].token by {
            let p0 = if p < i {
                p
            } else {
                p + 1
            };
            let q0 = if q < i {
                q
            } else {
                q + 1
            };
            assert(v@[p] == before[p0] && v@[q] == before[q0]);
        }
        assert forall|d: DeferEntry| #[trigger] v@.contains(d) implies before.contains(d) by {
            let p = choose|p: int| 0 <= p < v@.len() && #[trigger] v@[p] == d;
            let p0 = if p < i {
                p
            } else {
                p + 1
            };
            assert(before[p0] == d);
        }
        assert forall|d: DeferEntry|
            before.contains(d) && d.token != before[i as int].token implies #[trigger] v@.contains(
            d,
        ) by {
            let p0 = choose|p0: int| 0 <= p0 < before.len() && #[trigger] before[p0] == d;
            if p0 < i {
                assert(v@[p0] == d);
            } else {
                assert(p0 != i);
                assert(v@[p0 - 1] == d);
            }
        }
        assert(!v@.contains(before[i as int])) by {
            if v@.contains(before[i as int]) {
                let p = choose|p: int|
                    0 <= p < v@.len() && #[trigger] v@[p] == before[i as int];
                let p0 = if p < i {
                    p
                } else {
                    p + 1
                };
                assert(v@[p] == before[p0]);
                assert(p0 != i);
                assert(before[p0].token != before[i as int].token);
            }
        }
    }
}

/// Remove every entry of this host from a deferred list.
fn remove_deferred_by_host(v: &mut Vec<DeferEntry>, host: u128)
    requires
        tokens_distinct(old(v)@),
    ensures
        tokens_distinct(final(v)@),
        forall|d: DeferEntry|
            #[trigger] final(v)@.contains(d) == (old(v)@.contains(d) && d.host != host),
{
    loop
        invariant
            tokens_distinct(v@),
            forall|d: DeferEntry| #[trigger] v@.contains(d) ==> old(v)@.contains(d),
            forall|d: DeferEntry|
                old(v)@.contains(d) && d.host != host ==> #[trigger] v@.contains(d),
        ensures
            tokens_distinct(v@),
            forall|d: DeferEntry|
                #[trigger] v@.contains(d) == (old(v)@.contains(d) && d.host != host),
        decreases v@.len(),
    {
        let found = find_deferred_host(v, host);
        match found {
            None => {
                proof {
                    assert forall|d: DeferEntry|
                        #[trigger] v@.contains(d) == (old(v)@.contains(d) && d.host != host) by {
                        if v@.contains(d) {
                            let p = choose|p: int| 0 <= p < v@.len() && #[trigger] v@[p] == d;
                            assert(v@[p].host != host);
                        }
                    }
                }
                break ;
            },
            Some(i) => {
                let ghost prev = v@;
                let ghost gone = v@[i as int];
                remove_deferred_at(v, i);
                proof {
                    assert forall|d: DeferEntry|
                        old(v)@.contains(d) && d.host != host implies #[trigger] v@.contains(
                        d,
                    ) by {
                        assert(prev.contains(d));
                        if d.token == gone.token {
                            let p = choose|p: int|
                                0 <= p < prev.len() && #[trigger] prev[p] == d;
                            if p != i {
                                assert(prev[p].token != prev[i as int].token);
                            }
                            assert(d == gone);
                            assert(false);
                        }
                    }
                }
            },
        }
    }
}

/// Remove every entry whose host is not in `keep` from a deferred list.
fn remove_deferred_stale(v: &mut Vec<DeferEntry>, keep: &Vec<u128>)
    requires
        tokens_distinct(old(v)@),
    ensures
        tokens_distinct(final(v)@),
        forall|d: DeferEntry|
            #[trigger] final(v)@.contains(d) == (old(v)@.contains(d) && keep@.contains(d.host)),
{
    loop
        invariant
            tokens_distinct(v@),
            forall|d: DeferEntry| #[trigger] v@.contains(d) ==> old(v)@.contains(d),
            forall|d: DeferEntry|
                old(v)@.contains(d) && keep@.contains(d.host) ==> #[trigger] v@.contains(d),
        ensures
            tokens_distinct(v@),
            forall|d: DeferEntry|
                #[trigger] v@.contains(d) == (old(v)@.contains(d) && keep@.contains(d.host)),
        decreases v@.len(),
    {
        let found = find_deferred_stale(v, keep);
        match found {
            None => {
                proof {
                    assert forall|d: DeferEntry|
                        #[trigger] v@.contains(d) == (old(v)@.contains(d) && keep@.contains(
                            d.host,
                        )) by {
                        if v@.contains(d) {
                            let p = choose|p: int| 0 <= p < v@.len() && #[trigger] v@[p] == d;
                            assert(keep@.contains(v@[p].host));
                        }
                    }
                }
                break ;
            },
            Some(i) => {
                let ghost prev = v@;
                let ghost gone = v@[i as int];
                remove_deferred_at(v, i);
                proof {
                    assert forall|d: DeferEntry|
                        old(v)@.contains(d) && keep@.contains(d.host) implies #[trigger] v@.contains(
                        d,
                    ) by {
                        assert(prev.contains(d));
                        if d.token == gone.token {
                            let p = choose|p: int|
                                0 <= p < prev.len() && #[trigger] prev[p] == d;
                            if p != i {
                                assert(prev[p].token != prev[i as int].token);
                            }
                            assert(d == gone);
                            assert(false);
                        }
                    }
                }
            },
        }
    }
}


impl Scheduler {
    /// Whether a resolution was remembered for this host.
    pub open spec fn has_domain(&self, host: u128) -> bool {
        exists|i: int|
            0 <= i < self.domain_seq().len() && #[trigger] self.domain_seq()[i].host == host
    }

    /// The remembered resolution for this host.
    pub open spec fn domain_result_at(&self, host: u128) -> crate::host_name_cache::CacheNameResult {
        self.domain_seq()[choose|i: int|
            0 <= i < self.domain_seq().len() && #[trigger] self.domain_seq()[i].host == host].result
    }

    /// Whether this host's remembered resolution is the same as `res`.
    fn domain_same(&self, host: u128, res: &crate::host_name_cache::CacheNameResult) -> (r: bool)
        requires
            self.wf(),
        ensures
            r == (self.has_domain(host) && crate::host_name_cache::result_eq(
                self.domain_result_at(host),
                *res,
            )),
    {
        let n = self.domains.len();
        let mut i: usize = 0;
        while i < n && self.domains[i].host != host
            invariant
                n == self.domain_seq().len(),
                0 <= i <= n,
                forall|k: int| 0 <= k < i ==> #[trigger] self.domain_seq()[k].host != host,
            decreases n - i,
        {
            i = i + 1;
        }
        if i < n {
            proof {
                let w = choose|w: int|
                    0 <= w < self.domain_seq().len() && #[trigger] self.domain_seq()[w].host
                        == host;
                assert(w == i);
            }
            self.domains[i].result.same(res)
        } else {
            false
        }
    }

    /// Remember a host's resolution, replacing what was remembered before.
    fn set_domain(&mut self, host: u128, res: crate::host_name_cache::CacheNameResult)
        requires
            forall|i: int, j: int|
                0 <= i < j < old(self).domain_seq().len() ==> #[trigger] old(
                    self,
                ).domain_seq()[i].host != #[trigger] old(self).domain_seq()[j].host,
        ensures
            final(self).has_domain(host),
            final(self).domain_result_at(host) == res,
            forall|i: int, j: int|
                0 <= i < j < final(self).domain_seq().len()
                    ==> #[trigger] final(self).domain_seq()[i].host
                    != #[trigger] final(self).domain_seq()[j].host,
            final(self).task_queue() == old(self).task_queue(),
            final(self).deferred_seq() == old(self).deferred_seq(),
            final(self).store_view() == old(self).store_view(),
            final(self).token_counter() == old(self).token_counter(),
    {
        let n = self.domains.len();
        let mut i: usize = 0;
        while i < n && self.domains[i].host != host
            invariant
                *self == *old(self),
                n == self.domain_seq().len(),
                0 <= i <= n,
                forall|k: int| 0 <= k < i ==> #[trigger] self.domain_seq()[k].host != host,
            decreases n - i,
        {
            i = i + 1;
        }
        let ghost before = self.domains@;
        if i < n {
            vstd::pervasive::VecAdditionalExecFns::set(
                &mut self.domains,
                i,
                Domain { host, result: res },
            );
        } else {
            self.domains.push(Domain { host, result: res });
        }
        proof {
            let after = self.domain_seq();
            assert(after[i as int].host == host);
            assert(self.has_domain(host));
            let w = choose|w: int|
                0 <= w < after.len() && #[trigger] after[w].host == host;
            assert forall|p: int, q: int|
                0 <= p < q < after.len() implies #[trigger] after[p].host
                != #[trigger] after[q].host by {
                if p != i && q != i {
                    assert(after[p] == before[p] && after[q] == before[q]);
                }
            }
            assert(w == i);
        }
    }

    /// Take one completed resolution for a host. If it is the same as the
    /// remembered one, nothing changes. Otherwise the host's prior tasks
    /// and in-flight requests are wiped, its snapshot is replaced by the
    /// resolution's name errors, and one `Ping` task per resolved address
    /// is scheduled for now.
    pub fn on_resolution(
        &mut self,
        host: u128,
        res: crate::host_name_cache::CacheNameResult,
        now: u64,
    ) -> (changed: bool)
        requires
            old(self).wf(),
            res.wf(),
            now <= TIME_LIMIT,
        ensures
            final(self).wf(),
            changed == !(old(self).has_domain(host) && crate::host_name_cache::result_eq(
                old(self).domain_result_at(host),
                res,
            )),
            !changed ==> *final(self) == *old(self),
            changed ==> {
                &&& forall|k: int|
                    0 <= k < res.addresses@.len() ==> final(self).task_queue().has(
                        host,
                        #[trigger] res.addresses@[k],
                    )
                &&& forall|k: int|
                    0 <= k < res.addresses@.len() ==> final(self).task_queue().task_at(
                        host,
                        #[trigger] res.addresses@[k],
                    ) == (Task {
                        key: Key { deadline: now, host, addr: res.addresses@[k] },
                        what: ProbeState::Ping,
                        token: None::<u64>,
                    })
                &&& forall|a: Addr|
                    #[trigger] final(self).task_queue().has(host, a) ==> res.addresses@.contains(a)
                &&& forall|i: int|
                    0 <= i < final(self).deferred_seq().len()
                        ==> #[trigger] final(self).deferred_seq()[i].host != host
                &&& final(self).store_view().has_host(host)
                &&& final(self).store_view().pinged_at(host).results@.len() == 0
                &&& final(self).store_view().pinged_at(host).errors@.len() == res.errors@.len()
                &&& forall|k: int|
                    0 <= k < res.errors@.len() ==> {
                        let e = #[trigger] final(self).store_view().pinged_at(host).errors@[k];
                        &&& kind_eq(e.kind, PingErrorKind::Host(res.errors@[k].name))
                        &&& e.error@ == res.errors@[k].error@
                        &&& e.sampled == now
                    }
                &&& final(self).has_domain(host)
                &&& final(self).domain_result_at(host) == res
            },
            changed ==> forall|h: u128, a: Addr|
                h != host ==> #[trigger] final(self).task_queue().has(h, a)
                    == old(self).task_queue().has(h, a),
            changed ==> forall|h: u128, a: Addr|
                h != host && old(self).task_queue().has(h, a)
                    ==> #[trigger] final(self).task_queue().task_at(h, a)
                    == old(self).task_queue().task_at(h, a),
            changed ==> forall|h: u128|
                h != host ==> #[trigger] final(self).store_view().has_host(h)
                    == old(self).store_view().has_host(h),
            changed ==> forall|h: u128|
                h != host && old(self).store_view().has_host(h)
                    ==> #[trigger] final(self).store_view().pinged_at(h)
                    == old(self).store_view().pinged_at(h),
            final(self).token_counter() == old(self).token_counter(),
    {
        if self.domain_same(host, &res) {
            return false;
        }
        self.tasks.remove_by_id(host);
        remove_deferred_by_host(&mut self.deferred, host);
        let ghost s1 = *self;
        proof {
            assert(self.store == old(self).store);
            assert(self.store_view().wf());
        }
        self.store.reset_host(host);
        let n_err = res.errors.len();
        let mut k: usize = 0;
        while k < n_err
            invariant
                n_err == res.errors@.len(),
                0 <= k <= n_err,
                res.wf(),
                now <= TIME_LIMIT,
                self.tasks == s1.tasks,
                self.deferred == s1.deferred,
                self.domains == s1.domains,
                self.next_token == s1.next_token,
                self.store_view().wf(),
                self.store_view().has_host(host),
                self.store_view().pinged_at(host).results@.len() == 0,
                self.store_view().pinged_at(host).errors@.len() == k,
                forall|j: int|
                    0 <= j < k ==> {
                        let e = #[trigger] self.store_view().pinged_at(host).errors@[j];
                        &&& kind_eq(e.kind, PingErrorKind::Host(res.errors@[j].name))
                        &&& e.error@ == res.errors@[j].error@
                        &&& e.sampled == now
                    },
                forall|h: u128|
                    h != host ==> #[trigger] self.store_view().has_host(h) == s1.store_view().has_host(
                        h,
                    ),
                forall|h: u128|
                    h != host && s1.store_view().has_host(h) ==> #[trigger] self.store_view().pinged_at(
                        h,
                    ) == s1.store_view().pinged_at(h),
            decreases n_err - k,
        {
            let ghost p0 = self.store_view().pinged_at(host);
            let name = self.clone_name(&res, k);
            let message = self.clone_message(&res, k);
            let e = PingError { error: message, kind: PingErrorKind::Host(name), sampled: now };
            proof {
                assert(!p0.has_error(e.kind)) by {
                    lemma_kind_eq_trans();
                    if p0.has_error(e.kind) {
                        let j = choose|j: int|
                            0 <= j < p0.errors@.len() && kind_eq(
                                #[trigger] p0.errors@[j].kind,
                                e.kind,
                            );
                        assert(kind_eq(p0.errors@[j].kind, PingErrorKind::Host(res.errors@[j].name)));
                        assert(kind_eq(PingErrorKind::Host(res.errors@[j].name), e.kind));
                        assert(res.errors@[j].name@ == res.errors@[k as int].name@);
                        assert(j < k);
                        assert(res.errors@[j].name@ != res.errors@[k as int].name@);
                    }
                }
            }
            self.store.error(host, e);
            proof {
                assert(error_rel(p0, self.store_view().pinged_at(host), e));
                assert(self.store_view().pinged_at(host).errors@ == p0.errors@.push(e));
                assert forall|x: PingResult|
                    !self.store_view().pinged_at(host).results@.contains(x) by {
                    if self.store_view().pinged_at(host).results@.contains(x) {
                        assert(p0.results@.contains(x));
                    }
                }
                assert(self.store_view().pinged_at(host).results@.len() == 0) by {
                    let rs = self.store_view().pinged_at(host).results@;
                    if rs.len() > 0 {
                        assert(rs.contains(rs[0]));
                    }
                }
            }
            k = k + 1;
        }
        let ghost s2 = *self;
        let n_addr = res.addresses.len();
        let mut m: usize = 0;
        while m < n_addr
            invariant
                n_addr == res.addresses@.len(),
                0 <= m <= n_addr,
                res.wf(),
                now <= TIME_LIMIT,
                self.deferred == s2.deferred,
                self.domains == s2.domains,
                self.store == s2.store,
                self.next_token == s2.next_token,
                self.task_queue().wf(),
                forall|j: int|
                    0 <= j < m ==> self.task_queue().has(host, #[trigger] res.addresses@[j]),
                forall|j: int|
                    0 <= j < m ==> self.task_queue().task_at(host, #[trigger] res.addresses@[j])
                        == (Task {
                        key: Key { deadline: now, host, addr: res.addresses@[j] },
                        what: ProbeState::Ping,
                        token: None::<u64>,
                    }),
                forall|a: Addr|
                    #[trigger] self.task_queue().has(host, a) ==> exists|j: int|
                        0 <= j < m && res.addresses@[j] == a,
                forall|h: u128, a: Addr|
                    h != host ==> #[trigger] self.task_queue().has(h, a) == s2.task_queue().has(
                        h,
                        a,
                    ),
                forall|h: u128, a: Addr|
                    h != host && s2.task_queue().has(h, a) ==> #[trigger] self.task_queue().task_at(
                        h,
                        a,
                    ) == s2.task_queue().task_at(h, a),
            decreases n_addr - m,
        {
            let ghost tprev = self.task_queue();
            let addr = res.addresses[m];
            self.tasks.insert(
                Key { deadline: now, host, addr },
                ProbeState::Ping,
            );
            proof {
                lemma_addr_order();
                assert forall|h: u128, a: Addr|
                    h != host implies #[trigger] self.task_queue().has(h, a)
                    == s2.task_queue().has(h, a) by {
                    assert(self.task_queue().has(h, a) == tprev.has(h, a));
                }
                assert forall|h: u128, a: Addr|
                    h != host && s2.task_queue().has(h, a)
                        implies #[trigger] self.task_queue().task_at(h, a)
                    == s2.task_queue().task_at(h, a) by {
                    assert(tprev.has(h, a));
                    assert(self.task_queue().has(h, a));
                    assert(self.task_queue().task_at(h, a) == tprev.task_at(h, a));
                    assert(tprev.task_at(h, a) == s2.task_queue().task_at(h, a));
                }
                assert forall|a: Addr|
                    #[trigger] self.task_queue().has(host, a) implies exists|j: int|
                    0 <= j < m + 1 && res.addresses@[j] == a by {
                    if a != addr {
                        assert(tprev.has(host, a));
                        let j = choose|j: int| 0 <= j < m && res.addresses@[j] == a;
                        assert(0 <= j < m + 1 && res.addresses@[j] == a);
                    } else {
                        assert(res.addresses@[m as int] == a);
                    }
                }
                assert forall|j: int|
                    0 <= j < m + 1 implies self.task_queue().has(
                    host,
                    #[trigger] res.addresses@[j],
                ) && self.task_queue().task_at(host, res.addresses@[j]) == (Task {
                    key: Key { deadline: now, host, addr: res.addresses@[j] },
                    what: ProbeState::Ping,
                    token: None::<u64>,
                }) by {
                    if j < m {
                        assert(addr_lt_spec(res.addresses@[j], res.addresses@[m as int]));
                        assert(res.addresses@[j] != addr);
                        assert(tprev.has(host, res.addresses@[j]));
                        assert(self.task_queue().has(host, res.addresses@[j]));
                        assert(self.task_queue().task_at(host, res.addresses@[j])
                            == tprev.task_at(host, res.addresses@[j]));
                    }
                }
            }
            m = m + 1;
        }
        proof {
            assert(self.domain_seq() == s2.domain_seq());
            assert(s2.domain_seq() == s1.domain_seq());
            assert(s1.domain_seq() == old(self).domain_seq());
        }
        self.set_domain(host, res);
        proof {
            self.lemma_wf_after_rebuild(*old(self), s1, s2, host, now);
            assert(self.token_counter() == s2.token_counter());
            assert(s2.token_counter() == s1.token_counter());
            assert(s1.token_counter() == old(self).token_counter());
        }
        true
    }

    /// Clone one failed name out of a resolution.
    fn clone_name(&self, res: &crate::host_name_cache::CacheNameResult, k: usize) -> (r: String)
        requires
            k < res.errors@.len(),
        ensures
            r@ == res.errors@[k as int].name@,
    {
        res.errors[k].name.clone()
    }

    /// Clone one resolution error message out of a resolution.
    fn clone_message(&self, res: &crate::host_name_cache::CacheNameResult, k: usize) -> (r: String)
        requires
            k < res.errors@.len(),
        ensures
            r@ == res.errors@[k as int].error@,
    {
        res.errors[k].error.clone()
    }

    /// After a host's state was rebuilt, the scheduler is consistent
    /// again: the host's in-flight requests are gone and its new tasks
    /// hold no tokens, while every other host kept its state.
    proof fn lemma_wf_after_rebuild(
        &self,
        s0: Scheduler,
        s1: Scheduler,
        s2: Scheduler,
        host: u128,
        now: u64,
    )
        requires
            s0.wf(),
            self.task_queue().wf(),
            self.store_view().wf(),
            forall|i: int, j: int|
                0 <= i < j < self.domain_seq().len() ==> #[trigger] self.domain_seq()[i].host
                    != #[trigger] self.domain_seq()[j].host,
            tokens_distinct(self.deferred_seq()),
            forall|d: DeferEntry|
                #[trigger] self.deferred_seq().contains(d) == (s0.deferred_seq().contains(d)
                    && d.host != host),
            forall|h: u128, a: Addr|
                h != host ==> #[trigger] self.task_queue().has(h, a) == s0.task_queue().has(h, a),
            forall|h: u128, a: Addr|
                h != host && s0.task_queue().has(h, a) ==> #[trigger] self.task_queue().task_at(
                    h,
                    a,
                ) == s0.task_queue().task_at(h, a),
            forall|a: Addr|
                #[trigger] self.task_queue().has(host, a) ==> self.task_queue().task_at(
                    host,
                    a,
                ).token is None,
        ensures
            self.wf(),
    {
        assert forall|i: int|
            0 <= i < self.deferred_seq().len() implies defer_linked(
            self.task_queue(),
            #[trigger] self.deferred_seq()[i],
        ) by {
            let d = self.deferred_seq()[i];
            assert(self.deferred_seq().contains(d));
            assert(s0.deferred_seq().contains(d));
            let j = choose|j: int|
                0 <= j < s0.deferred_seq().len() && #[trigger] s0.deferred_seq()[j] == d;
            assert(defer_linked(s0.task_queue(), d));
            assert(self.task_queue().has(d.host, d.addr));
            assert(self.task_queue().task_at(d.host, d.addr) == s0.task_queue().task_at(
                d.host,
                d.addr,
            ));
        }
        assert forall|h: u128, a: Addr|
            self.task_queue().has(h, a) && (#[trigger] self.task_queue().task_at(h, a).token)
                is Some implies exists|j: int|
            0 <= j < self.deferred_seq().len() && #[trigger] self.deferred_seq()[j]
                == (DeferEntry {
                token: self.task_queue().task_at(h, a).token->0,
                host: h,
                addr: a,
                started: (self.task_queue().task_at(h, a).key.deadline - TIMEOUT_MS) as u64,
            }) by {
            assert(h != host);
            assert(s0.task_queue().has(h, a));
            assert(s0.task_queue().task_at(h, a).token is Some);
            let j = choose|j: int|
                0 <= j < s0.deferred_seq().len() && #[trigger] s0.deferred_seq()[j]
                    == (DeferEntry {
                    token: s0.task_queue().task_at(h, a).token->0,
                    host: h,
                    addr: a,
                    started: (s0.task_queue().task_at(h, a).key.deadline - TIMEOUT_MS) as u64,
                });
            let d = s0.deferred_seq()[j];
            assert(s0.deferred_seq().contains(d));
            assert(defer_linked(s0.task_queue(), d));
            assert(d.host == h && h != host);
            assert(self.deferred_seq().contains(d));
            let p = choose|p: int|
                0 <= p < self.deferred_seq().len() && #[trigger] self.deferred_seq()[p] == d;
            assert(self.deferred_seq()[p] == (DeferEntry {
                token: self.task_queue().task_at(h, a).token->0,
                host: h,
                addr: a,
                started: (self.task_queue().task_at(h, a).key.deadline - TIMEOUT_MS) as u64,
            }));
        }
    }
}


impl Scheduler {
    /// Any two in-flight entries carrying this token are the same entry.
    pub proof fn lemma_defer_at(&self, token: u64)
        requires
            self.wf(),
            self.has_token(token),
        ensures
            forall|i: int|
                0 <= i < self.deferred_seq().len() && #[trigger] self.deferred_seq()[i].token
                    == token ==> self.deferred_seq()[i] == self.defer_at(token),
            self.defer_at(token).token == token,
    {
        let w = choose|i: int|
            0 <= i < self.deferred_seq().len() && #[trigger] self.deferred_seq()[i].token == token;
        assert forall|i: int|
            0 <= i < self.deferred_seq().len() && #[trigger] self.deferred_seq()[i].token == token
                implies self.deferred_seq()[i] == self.defer_at(token) by {
            if i != w {
                assert(false);
            }
        }
    }

    /// The index of the in-flight entry carrying this token, if any.
    fn find_token_idx(&self, token: u64) -> (r: Option<usize>)
        ensures
            r is Some ==> r->0 < self.deferred_seq().len() && self.deferred_seq()[r->0 as int].token
                == token,
            r is None ==> !self.has_token(token),
    {
        let n = self.deferred.len();
        let mut i: usize = 0;
        while i < n && self.deferred[i].token != token
            invariant
                n == self.deferred_seq().len(),
                0 <= i <= n,
                forall|k: int| 0 <= k < i ==> #[trigger] self.deferred_seq()[k].token != token,
            decreases n - i,
        {
            i = i + 1;
        }
        if i < n {
            Some(i)
        } else {
            None
        }
    }

    /// Register a successfully sent echo request: the probe's task moves to
    /// `Timeout` with its deadline one timeout ahead, holding the token,
    /// and the token maps to the probe. A token already in flight, a probe
    /// without a task, or a task not due for a ping leaves everything
    /// unchanged.
    pub fn ping_sent(&mut self, host: u128, addr: Addr, token: u64, now: u64)
        requires
            old(self).wf(),
            now <= TIME_LIMIT,
        ensures
            final(self).wf(),
            ({
                let ok = !old(self).has_token(token) && old(self).task_queue().has(host, addr)
                    && old(self).task_queue().task_at(host, addr).what == ProbeState::Ping;
                &&& !ok ==> *final(self) == *old(self)
                &&& ok ==> {
                    &&& final(self).has_token(token)
                    &&& final(self).defer_at(token) == (DeferEntry { token, host, addr, started: now })
                    &&& final(self).task_queue().has(host, addr)
                    &&& final(self).task_queue().task_at(host, addr) == (Task {
                        key: Key { deadline: (now + TIMEOUT_MS) as u64, host, addr },
                        what: ProbeState::Timeout,
                        token: Some(token),
                    })
                    &&& forall|h: u128, a: Addr|
                        !(h == host && a == addr) ==> #[trigger] final(self).task_queue().has(h, a)
                            == old(self).task_queue().has(h, a)
                    &&& forall|h: u128, a: Addr|
                        !(h == host && a == addr) && old(self).task_queue().has(h, a)
                            ==> #[trigger] final(self).task_queue().task_at(h, a)
                            == old(self).task_queue().task_at(h, a)
                    &&& forall|d: DeferEntry|
                        #[trigger] old(self).deferred_seq().contains(d)
                            ==> final(self).deferred_seq().contains(d)
                    &&& final(self).store_view() == old(self).store_view()
                }
            }),
            final(self).token_counter() == old(self).token_counter(),
    {
        let free = match self.find_token_idx(token) {
            Some(_) => false,
            None => true,
        };
        if !free {
            return ;
        }
        let t = match self.tasks.get(host, addr) {
            Some(t) => t,
            None => {
                return ;
            },
        };
        match t.what {
            ProbeState::Timeout => {
                return ;
            },
            ProbeState::Ping => {},
        }
        let ghost s0 = *self;
        self.deferred.push(DeferEntry { token, host, addr, started: now });
        let ghost s1 = *self;
        self.tasks.reschedule(host, addr, now + TIMEOUT_MS, ProbeState::Timeout, Some(token));
        proof {
            let nd = s0.deferred_seq().len() as int;
            assert(self.deferred_seq() == s0.deferred_seq().push(
                DeferEntry { token, host, addr, started: now },
            ));
            assert(self.deferred_seq()[nd] == (DeferEntry { token, host, addr, started: now }));
            assert(self.domain_seq() == old(self).domain_seq());
            assert forall|i: int, j: int|
                0 <= i < j < self.deferred_seq().len() implies #[trigger] self.deferred_seq()[i].token
                != #[trigger] self.deferred_seq()[j].token by {
                if j == nd {
                    assert(s0.deferred_seq()[i].token != token);
                }
            }
            assert forall|i: int|
                0 <= i < self.deferred_seq().len() implies defer_linked(
                self.task_queue(),
                #[trigger] self.deferred_seq()[i],
            ) by {
                let d = self.deferred_seq()[i];
                if i < nd {
                    assert(d == s0.deferred_seq()[i]);
                    assert(defer_linked(s0.task_queue(), d));
                    assert(!(d.host == host && d.addr == addr));
                    assert(self.task_queue().has(d.host, d.addr));
                    assert(self.task_queue().task_at(d.host, d.addr) == s0.task_queue().task_at(
                        d.host,
                        d.addr,
                    ));
                } else {
                    assert(self.task_queue().task_at(host, addr) == (Task {
                        key: Key { deadline: (now + TIMEOUT_MS) as u64, host, addr },
                        what: ProbeState::Timeout,
                        token: Some(token),
                    }));
                }
            }
            assert forall|h: u128, a: Addr|
                self.task_queue().has(h, a) && (#[trigger] self.task_queue().task_at(h, a).token)
                    is Some implies exists|j: int|
                0 <= j < self.deferred_seq().len() && #[trigger] self.deferred_seq()[j]
                    == (DeferEntry {
                    token: self.task_queue().task_at(h, a).token->0,
                    host: h,
                    addr: a,
                    started: (self.task_queue().task_at(h, a).key.deadline - TIMEOUT_MS) as u64,
                }) by {
                if h == host && a == addr {
                    assert(self.deferred_seq()[nd] == (DeferEntry {
                        token: self.task_queue().task_at(h, a).token->0,
                        host: h,
                        addr: a,
                        started: (self.task_queue().task_at(h, a).key.deadline
                            - TIMEOUT_MS) as u64,
                    }));
                } else {
                    assert(s0.task_queue().has(h, a));
                    assert(self.task_queue().task_at(h, a) == s0.task_queue().task_at(h, a));
                    assert(s0.task_queue().task_at(h, a).token is Some);
                    let j = choose|j: int|
                        0 <= j < s0.deferred_seq().len() && #[trigger] s0.deferred_seq()[j]
                            == (DeferEntry {
                            token: s0.task_queue().task_at(h, a).token->0,
                            host: h,
                            addr: a,
                            started: (s0.task_queue().task_at(h, a).key.deadline
                                - TIMEOUT_MS) as u64,
                        });
                    assert(self.deferred_seq()[j] == (DeferEntry {
                        token: self.task_queue().task_at(h, a).token->0,
                        host: h,
                        addr: a,
                        started: (self.task_queue().task_at(h, a).key.deadline
                            - TIMEOUT_MS) as u64,
                    }));
                }
            }
            assert forall|d: DeferEntry|
                #[trigger] s0.deferred_seq().contains(d) implies self.deferred_seq().contains(
                d,
            ) by {
                let p = choose|p: int|
                    0 <= p < s0.deferred_seq().len() && #[trigger] s0.deferred_seq()[p] == d;
                assert(self.deferred_seq()[p] == d);
            }
            assert(self.deferred_seq()[nd].token == token);
            assert(self.has_token(token));
            assert(self.defer_at(token) == (DeferEntry { token, host, addr, started: now })) by {
                let w = choose|i: int|
                    0 <= i < self.deferred_seq().len() && #[trigger] self.deferred_seq()[i].token
                        == token;
                if w != nd {
                    assert(self.deferred_seq()[w].token != self.deferred_seq()[nd].token);
                }
            }
        }
    }

    /// Register a failed echo send: the error text is recorded against the
    /// address and the probe is rescheduled one retry interval ahead. A
    /// probe without a task, or one not due for a ping, leaves everything
    /// unchanged.
    pub fn ping_failed(&mut self, host: u128, addr: Addr, message: String, now: u64)
        requires
            old(self).wf(),
            now <= TIME_LIMIT,
        ensures
            final(self).wf(),
            ({
                let ok = old(self).task_queue().has(host, addr) && old(self).task_queue().task_at(
                    host,
                    addr,
                ).what == ProbeState::Ping;
                let e = PingError {
                    error: message,
                    kind: PingErrorKind::Address(addr),
                    sampled: now,
                };
                &&& !ok ==> *final(self) == *old(self)
                &&& ok ==> {
                    &&& final(self).task_queue().has(host, addr)
                    &&& final(self).task_queue().task_at(host, addr) == (Task {
                        key: Key { deadline: (now + NEXT_MS) as u64, host, addr },
                        what: ProbeState::Ping,
                        token: None::<u64>,
                    })
                    &&& final(self).store_view().has_host(host)
                    &&& old(self).store_view().has_host(host) ==> error_rel(
                        old(self).store_view().pinged_at(host),
                        final(self).store_view().pinged_at(host),
                        e,
                    )
                    &&& !old(self).store_view().has_host(host)
                        ==> final(self).store_view().pinged_at(host).errors@ =~= seq![e]
                    &&& final(self).deferred_seq() == old(self).deferred_seq()
                    &&& forall|h: u128, a: Addr|
                        !(h == host && a == addr) ==> #[trigger] final(self).task_queue().has(h, a)
                            == old(self).task_queue().has(h, a)
                    &&& forall|h: u128, a: Addr|
                        !(h == host && a == addr) && old(self).task_queue().has(h, a)
                            ==> #[trigger] final(self).task_queue().task_at(h, a)
                            == old(self).task_queue().task_at(h, a)
                    &&& forall|h: u128|
                        h != host ==> #[trigger] final(self).store_view().has_host(h)
                            == old(self).store_view().has_host(h)
                    &&& forall|h: u128|
                        h != host && old(self).store_view().has_host(h)
                            ==> #[trigger] final(self).store_view().pinged_at(h)
                            == old(self).store_view().pinged_at(h)
                }
            }),
            final(self).token_counter() == old(self).token_counter(),
    {
        let t = match self.tasks.get(host, addr) {
            Some(t) => t,
            None => {
                return ;
            },
        };
        match t.what {
            ProbeState::Timeout => {
                return ;
            },
            ProbeState::Ping => {},
        }
        let ghost s0 = *self;
        self.store.error(
            host,
            PingError { error: message, kind: PingErrorKind::Address(addr), sampled: now },
        );
        let ghost s1 = *self;
        self.tasks.reschedule(host, addr, now + NEXT_MS, ProbeState::Ping, None);
        proof {
            assert(self.deferred_seq() == s0.deferred_seq());
            assert(s0.deferred_seq() == old(self).deferred_seq());
            assert(self.domain_seq() == old(self).domain_seq());
            assert forall|i: int|
                0 <= i < self.deferred_seq().len() implies defer_linked(
                self.task_queue(),
                #[trigger] self.deferred_seq()[i],
            ) by {
                let d = self.deferred_seq()[i];
                assert(old(self).deferred_seq().contains(d));
                assert(defer_linked(s0.task_queue(), d));
                assert(!(d.host == host && d.addr == addr));
                assert(self.task_queue().has(d.host, d.addr));
                assert(self.task_queue().task_at(d.host, d.addr) == s0.task_queue().task_at(
                    d.host,
                    d.addr,
                ));
            }
            assert forall|h: u128, a: Addr|
                self.task_queue().has(h, a) && (#[trigger] self.task_queue().task_at(h, a).token)
                    is Some implies exists|j: int|
                0 <= j < self.deferred_seq().len() && #[trigger] self.deferred_seq()[j]
                    == (DeferEntry {
                    token: self.task_queue().task_at(h, a).token->0,
                    host: h,
                    addr: a,
                    started: (self.task_queue().task_at(h, a).key.deadline - TIMEOUT_MS) as u64,
                }) by {
                assert(!(h == host && a == addr));
                assert(s0.task_queue().has(h, a));
                assert(self.task_queue().task_at(h, a) == s0.task_queue().task_at(h, a));
                assert(s0.task_queue().task_at(h, a).token is Some);
                let j = choose|j: int|
                    0 <= j < s0.deferred_seq().len() && #[trigger] s0.deferred_seq()[j]
                        == (DeferEntry {
                        token: s0.task_queue().task_at(h, a).token->0,
                        host: h,
                        addr: a,
                        started: (s0.task_queue().task_at(h, a).key.deadline - TIMEOUT_MS) as u64,
                    });
                assert(self.deferred_seq()[j] == (DeferEntry {
                    token: self.task_queue().task_at(h, a).token->0,
                    host: h,
                    addr: a,
                    started: (self.task_queue().task_at(h, a).key.deadline - TIMEOUT_MS) as u64,
                }));
            }
        }
    }
}


impl Scheduler {
    /// The result recorded for a reply, as a value.
    pub open spec fn reply_result(
        d: DeferEntry,
        kind: PingKind,
        r: crate::pinger::Response,
        now: u64,
    ) -> PingResult {
        PingResult {
            kind,
            outcome: r.outcome,
            code: r.code,
            sequence: r.sequence,
            rtt: if now >= d.started {
                (now - d.started) as u64
            } else {
                0
            },
            sampled: now,
            target: d.addr,
            source: r.source,
            dest: r.dest,
            checksum: r.checksum,
            expected_checksum: r.expected_checksum,
        }
    }

    /// Take one reply or kernel error correlated by its embedded token.
    /// An unknown token is dropped. A known token's probe gets the
    /// response recorded as its result, and its task returns to `Ping`,
    /// due one retry interval after the request went out (or now,
    /// whichever is later).
    pub fn on_reply(
        &mut self,
        token: u64,
        kind: PingKind,
        r: &crate::pinger::Response,
        now: u64,
    )
        requires
            old(self).wf(),
            now <= TIME_LIMIT,
        ensures
            final(self).wf(),
            !old(self).has_token(token) ==> *final(self) == *old(self),
            old(self).has_token(token) ==> {
                let d = old(self).defer_at(token);
                let rr = Scheduler::reply_result(d, kind, *r, now);
                let deadline = if d.started + NEXT_MS > now {
                    (d.started + NEXT_MS) as u64
                } else {
                    now
                };
                &&& !final(self).has_token(token)
                &&& final(self).task_queue().has(d.host, d.addr)
                &&& final(self).task_queue().task_at(d.host, d.addr) == (Task {
                    key: Key { deadline, host: d.host, addr: d.addr },
                    what: ProbeState::Ping,
                    token: None::<u64>,
                })
                &&& final(self).store_view().has_host(d.host)
                &&& old(self).store_view().has_host(d.host) ==> result_rel(
                    old(self).store_view().pinged_at(d.host),
                    final(self).store_view().pinged_at(d.host),
                    rr,
                )
                &&& !old(self).store_view().has_host(d.host)
                    ==> final(self).store_view().pinged_at(d.host).results@ =~= seq![rr]
                &&& forall|h: u128, a: Addr|
                    !(h == d.host && a == d.addr) ==> #[trigger] final(self).task_queue().has(h, a)
                        == old(self).task_queue().has(h, a)
                &&& forall|h: u128, a: Addr|
                    !(h == d.host && a == d.addr) && old(self).task_queue().has(h, a)
                        ==> #[trigger] final(self).task_queue().task_at(h, a)
                        == old(self).task_queue().task_at(h, a)
                &&& forall|h: u128|
                    h != d.host ==> #[trigger] final(self).store_view().has_host(h)
                        == old(self).store_view().has_host(h)
                &&& forall|h: u128|
                    h != d.host && old(self).store_view().has_host(h)
                        ==> #[trigger] final(self).store_view().pinged_at(h)
                        == old(self).store_view().pinged_at(h)
                &&& forall|e: DeferEntry|
                    e != d ==> #[trigger] final(self).deferred_seq().contains(e)
                        == old(self).deferred_seq().contains(e)
            },
            final(self).token_counter() == old(self).token_counter(),
    {
        let i = match self.find_token_idx(token) {
            Some(i) => i,
            None => {
                return ;
            },
        };
        proof {
            assert(self.has_token(token));
            self.lemma_defer_at(token);
            assert(self.deferred_seq()[i as int] == self.defer_at(token));
        }
        let d = self.deferred[i];
        let ghost s0 = *self;
        proof {
            assert(defer_linked(s0.task_queue(), d));
        }
        remove_deferred_at(&mut self.deferred, i);
        let ghost s1 = *self;
        let rtt = if now >= d.started {
            now - d.started
        } else {
            0
        };
        self.store.result(
            d.host,
            PingResult {
                kind,
                outcome: r.outcome,
                code: r.code,
                sequence: r.sequence,
                rtt,
                sampled: now,
                target: d.addr,
                source: r.source,
                dest: r.dest,
                checksum: r.checksum,
                expected_checksum: r.expected_checksum,
            },
        );
        let deadline = if d.started + NEXT_MS > now {
            d.started + NEXT_MS
        } else {
            now
        };
        self.tasks.reschedule(d.host, d.addr, deadline, ProbeState::Ping, None);
        proof {
            assert(self.deferred_seq() == s1.deferred_seq());
            assert(self.domain_seq() == old(self).domain_seq());
            assert(!self.deferred_seq().contains(d));
            assert(!self.has_token(token)) by {
                if self.has_token(token) {
                    let w = choose|w: int|
                        0 <= w < self.deferred_seq().len() && #[trigger] self.deferred_seq()[w].token
                            == token;
                    let e = self.deferred_seq()[w];
                    assert(self.deferred_seq().contains(e));
                    assert(s0.deferred_seq().contains(e));
                    let w0 = choose|w0: int|
                        0 <= w0 < s0.deferred_seq().len() && #[trigger] s0.deferred_seq()[w0] == e;
                    if w0 != i {
                        assert(s0.deferred_seq()[w0].token != s0.deferred_seq()[i as int].token);
                    }
                    assert(e == d);
                }
            }
            assert forall|p: int|
                0 <= p < self.deferred_seq().len() implies defer_linked(
                self.task_queue(),
                #[trigger] self.deferred_seq()[p],
            ) by {
                let e = self.deferred_seq()[p];
                assert(self.deferred_seq().contains(e));
                assert(s0.deferred_seq().contains(e));
                assert(defer_linked(s0.task_queue(), e));
                assert(!(e.host == d.host && e.addr == d.addr)) by {
                    if e.host == d.host && e.addr == d.addr {
                        assert(e.token == d.token);
                        assert(e == d);
                    }
                }
                assert(self.task_queue().has(e.host, e.addr));
                assert(self.task_queue().task_at(e.host, e.addr) == s0.task_queue().task_at(
                    e.host,
                    e.addr,
                ));
            }
            assert forall|h: u128, a: Addr|
                self.task_queue().has(h, a) && (#[trigger] self.task_queue().task_at(h, a).token)
                    is Some implies exists|j: int|
                0 <= j < self.deferred_seq().len() && #[trigger] self.deferred_seq()[j]
                    == (DeferEntry {
                    token: self.task_queue().task_at(h, a).token->0,
                    host: h,
                    addr: a,
                    started: (self.task_queue().task_at(h, a).key.deadline - TIMEOUT_MS) as u64,
                }) by {
                assert(!(h == d.host && a == d.addr));
                assert(s0.task_queue().has(h, a));
                assert(self.task_queue().task_at(h, a) == s0.task_queue().task_at(h, a));
                assert(s0.task_queue().task_at(h, a).token is Some);
                let j0 = choose|j0: int|
                    0 <= j0 < s0.deferred_seq().len() && #[trigger] s0.deferred_seq()[j0]
                        == (DeferEntry {
                        token: s0.task_queue().task_at(h, a).token->0,
                        host: h,
                        addr: a,
                        started: (s0.task_queue().task_at(h, a).key.deadline - TIMEOUT_MS) as u64,
                    });
                let e = s0.deferred_seq()[j0];
                assert(e.token != d.token) by {
                    if e.token == d.token {
                        if j0 != i {
                            assert(s0.deferred_seq()[j0].token != s0.deferred_seq()[i as int].token);
                        }
                        assert(e == d);
                    }
                }
                assert(self.deferred_seq().contains(e));
                let p = choose|p: int|
                    0 <= p < self.deferred_seq().len() && #[trigger] self.deferred_seq()[p] == e;
                assert(self.deferred_seq()[p] == (DeferEntry {
                    token: self.task_queue().task_at(h, a).token->0,
                    host: h,
                    addr: a,
                    started: (self.task_queue().task_at(h, a).key.deadline - TIMEOUT_MS) as u64,
                }));
            }
            assert forall|e: DeferEntry|
                e != d implies #[trigger] self.deferred_seq().contains(e) == s0.deferred_seq().contains(
                e,
            ) by {
                if s0.deferred_seq().contains(e) {
                    assert(e.token != d.token) by {
                        if e.token == d.token {
                            let w0 = choose|w0: int|
                                0 <= w0 < s0.deferred_seq().len() && #[trigger] s0.deferred_seq()[w0]
                                    == e;
                            if w0 != i {
                                assert(s0.deferred_seq()[w0].token
                                    != s0.deferred_seq()[i as int].token);
                            }
                        }
                    }
                }
            }
        }
    }
}


impl Scheduler {
    /// Pop the soonest deadline and dispatch it.
    ///
    /// A due `Ping` task either asks the caller to send an echo request
    /// carrying a fresh token ([`Dispatch::Send`]) or, for an address that
    /// is not unicast-eligible, is silently dropped. A due `Timeout` task
    /// records a `"timeout"` error against its address, forgets its
    /// in-flight token, and returns to `Ping` one retry interval ahead.
    pub fn on_deadline(&mut self, now: u64) -> (r: Dispatch)
        requires
            old(self).wf(),
            now <= TIME_LIMIT,
        ensures
            final(self).wf(),
            r is Idle ==> *final(self) == *old(self) && old(self).task_queue().timeout_seq().len()
                == 0,
            old(self).task_queue().timeout_seq().len() == 0 ==> r is Idle,
            old(self).task_queue().timeout_seq().len() > 0 ==> {
                let key = old(self).task_queue().timeout_seq()[0];
                let t = old(self).task_queue().task_at(key.host, key.addr);
                &&& r != Dispatch::Idle
                &&& match r {
                    Dispatch::Idle => false,
                    Dispatch::Send { host, addr, token } => {
                        &&& host == key.host
                        &&& addr == key.addr
                        &&& t.what == ProbeState::Ping
                        &&& crate::addr::unicast_spec(addr)
                        &&& token == old(self).token_counter()
                        &&& final(self).token_counter() == if old(self).token_counter()
                            == u64::MAX {
                            0u64
                        } else {
                            (old(self).token_counter() + 1) as u64
                        }
                        &&& final(self).task_queue() == old(self).task_queue()
                        &&& final(self).deferred_seq() == old(self).deferred_seq()
                        &&& final(self).store_view() == old(self).store_view()
                    },
                    Dispatch::Dropped { host, addr } => {
                        &&& host == key.host
                        &&& addr == key.addr
                        &&& t.what == ProbeState::Ping
                        &&& !crate::addr::unicast_spec(addr)
                        &&& !final(self).task_queue().has(host, addr)
                        &&& final(self).deferred_seq() == old(self).deferred_seq()
                        &&& final(self).store_view() == old(self).store_view()
                        &&& final(self).token_counter() == old(self).token_counter()
                        &&& forall|h: u128, a: Addr|
                            !(h == host && a == addr)
                                ==> #[trigger] final(self).task_queue().has(h, a)
                                == old(self).task_queue().has(h, a)
                    },
                    Dispatch::TimedOut { host, addr } => {
                        &&& host == key.host
                        &&& addr == key.addr
                        &&& t.what == ProbeState::Timeout
                        &&& final(self).task_queue().has(host, addr)
                        &&& final(self).task_queue().task_at(host, addr) == (Task {
                            key: Key { deadline: (now + NEXT_MS) as u64, host, addr },
                            what: ProbeState::Ping,
                            token: None::<u64>,
                        })
                        &&& t.token is Some ==> !final(self).has_token(t.token->0)
                        &&& final(self).token_counter() == old(self).token_counter()
                        &&& final(self).store_view().has_host(host)
                        &&& final(self).store_view().pinged_at(host).has_error(
                            PingErrorKind::Address(addr),
                        )
                        &&& forall|i: int|
                            0 <= i < final(self).store_view().pinged_at(host).errors@.len()
                                && kind_eq(
                                final(self).store_view().pinged_at(host).errors@[i].kind,
                                PingErrorKind::Address(addr),
                            ) ==> {
                                let e = #[trigger] final(self).store_view().pinged_at(
                                    host,
                                ).errors@[i];
                                e.error@ == "timeout"@ && e.sampled == now
                            }
                        &&& forall|h: u128, a: Addr|
                            !(h == host && a == addr)
                                ==> #[trigger] final(self).task_queue().has(h, a)
                                == old(self).task_queue().has(h, a)
                        &&& forall|h: u128, a: Addr|
                            !(h == host && a == addr) && old(self).task_queue().has(h, a)
                                ==> #[trigger] final(self).task_queue().task_at(h, a)
                                == old(self).task_queue().task_at(h, a)
                        &&& forall|h: u128|
                            h != host ==> #[trigger] final(self).store_view().has_host(h)
                                == old(self).store_view().has_host(h)
                        &&& forall|h: u128|
                            h != host && old(self).store_view().has_host(h)
                                ==> #[trigger] final(self).store_view().pinged_at(h)
                                == old(self).store_view().pinged_at(h)
                    },
                }
            },
    {
        let key = match self.tasks.min_key() {
            Some(key) => key,
            None => {
                return Dispatch::Idle;
            },
        };
        proof {
            assert(self.task_queue().timeout_seq().len() > 0);
            let j = choose|j: int|
                0 <= j < self.task_queue().task_seq().len()
                    && #[trigger] self.task_queue().task_seq()[j].key
                    == self.task_queue().timeout_seq()[0];
            assert(self.task_queue().task_seq()[j].key.host == key.host
                && self.task_queue().task_seq()[j].key.addr == key.addr);
            assert(self.task_queue().has(key.host, key.addr));
        }
        let t = match self.tasks.get(key.host, key.addr) {
            Some(t) => t,
            None => {
                proof {
                    assert(false);
                }
                return Dispatch::Idle;
            },
        };
        match t.what {
            ProbeState::Ping => {
                if crate::addr::is_unicast(&key.addr) {
                    let token = self.next_token;
                    if self.next_token == u64::MAX {
                        self.next_token = 0;
                    } else {
                        self.next_token = self.next_token + 1;
                    }
                    proof {
                        assert(self.tasks == old(self).tasks);
                        assert(self.deferred@ == old(self).deferred@);
                        assert(self.store == old(self).store);
                        assert(self.domain_seq() == old(self).domain_seq());
                        assert forall|i: int|
                            0 <= i < self.deferred_seq().len() implies defer_linked(
                            self.task_queue(),
                            #[trigger] self.deferred_seq()[i],
                        ) by {
                            assert(defer_linked(old(self).task_queue(), old(self).deferred_seq()[i]));
                        }
                        assert forall|h: u128, a: Addr|
                            self.task_queue().has(h, a) && (#[trigger] self.task_queue().task_at(
                                h,
                                a,
                            ).token) is Some implies exists|j: int|
                            0 <= j < self.deferred_seq().len() && #[trigger] self.deferred_seq()[j]
                                == (DeferEntry {
                                token: self.task_queue().task_at(h, a).token->0,
                                host: h,
                                addr: a,
                                started: (self.task_queue().task_at(h, a).key.deadline
                                    - TIMEOUT_MS) as u64,
                            }) by {
                            assert(old(self).task_queue().has(h, a));
                            assert(old(self).task_queue().task_at(h, a).token is Some);
                        }
                    }
                    Dispatch::Send { host: key.host, addr: key.addr, token }
                } else {
                    let ghost s0 = *self;
                    let _ = self.tasks.remove(key.host, key.addr);
                    proof {
                        assert(self.deferred@ == old(self).deferred@);
                        assert(self.domain_seq() == old(self).domain_seq());
                        assert(self.store == old(self).store);
                        assert forall|i: int|
                            0 <= i < self.deferred_seq().len() implies defer_linked(
                            self.task_queue(),
                            #[trigger] self.deferred_seq()[i],
                        ) by {
                            let d = self.deferred_seq()[i];
                            assert(defer_linked(s0.task_queue(), d));
                            assert(!(d.host == key.host && d.addr == key.addr));
                            assert(self.task_queue().has(d.host, d.addr));
                            assert(self.task_queue().task_at(d.host, d.addr)
                                == s0.task_queue().task_at(d.host, d.addr));
                        }
                        assert forall|h: u128, a: Addr|
                            self.task_queue().has(h, a) && (#[trigger] self.task_queue().task_at(
                                h,
                                a,
                            ).token) is Some implies exists|j: int|
                            0 <= j < self.deferred_seq().len() && #[trigger] self.deferred_seq()[j]
                                == (DeferEntry {
                                token: self.task_queue().task_at(h, a).token->0,
                                host: h,
                                addr: a,
                                started: (self.task_queue().task_at(h, a).key.deadline
                                    - TIMEOUT_MS) as u64,
                            }) by {
                            assert(!(h == key.host && a == key.addr));
                            assert(s0.task_queue().has(h, a));
                            assert(self.task_queue().task_at(h, a) == s0.task_queue().task_at(
                                h,
                                a,
                            ));
                            assert(s0.task_queue().task_at(h, a).token is Some);
                        }
                    }
                    Dispatch::Dropped { host: key.host, addr: key.addr }
                }
            },
            ProbeState::Timeout => {
                let ghost s0 = *self;
                match t.token {
                    Some(tok) => {
                        let idx = match self.find_token_idx(tok) {
                            Some(idx) => idx,
                            None => {
                                proof {
                                    assert(false);
                                }
                                return Dispatch::Idle;
                            },
                        };
                        proof {
                            assert(self.deferred_seq()[idx as int].token == tok);
                            assert(self.has_token(tok));
                        }
                        remove_deferred_at(&mut self.deferred, idx);
                        proof {
                            assert(!self.has_token(tok)) by {
                                if self.has_token(tok) {
                                    let w = choose|w: int|
                                        0 <= w < self.deferred_seq().len()
                                            && #[trigger] self.deferred_seq()[w].token == tok;
                                    let e = self.deferred_seq()[w];
                                    assert(self.deferred_seq().contains(e));
                                    assert(s0.deferred_seq().contains(e));
                                    let w0 = choose|w0: int|
                                        0 <= w0 < s0.deferred_seq().len()
                                            && #[trigger] s0.deferred_seq()[w0] == e;
                                    if w0 != idx {
                                        assert(s0.deferred_seq()[w0].token
                                            != s0.deferred_seq()[idx as int].token);
                                    }
                                    assert(e == s0.deferred_seq()[idx as int]);
                                }
                            }
                        }
                    },
                    None => {},
                }
                let ghost s1 = *self;
                self.store.error(
                    key.host,
                    PingError {
                        error: timeout_message(),
                        kind: PingErrorKind::Address(key.addr),
                        sampled: now,
                    },
                );
                let ghost s2 = *self;
                self.tasks.reschedule(key.host, key.addr, now + NEXT_MS, ProbeState::Ping, None);
                proof {
                    self.lemma_wf_after_timeout(s0, s1, key, t, now);
                    assert(self.store_view() == s2.store_view());
                    if !s1.store_view().has_host(key.host) {
                        let es = s2.store_view().pinged_at(key.host).errors@;
                        assert(es.len() == 1);
                        assert(kind_eq(es[0].kind, PingErrorKind::Address(key.addr)));
                    }
                    assert(self.store_view().pinged_at(key.host).has_error(
                        PingErrorKind::Address(key.addr),
                    ));
                }
                Dispatch::TimedOut { host: key.host, addr: key.addr }
            },
        }
    }

    /// After a timeout was recorded, the scheduler is consistent again.
    proof fn lemma_wf_after_timeout(&self, s0: Scheduler, s1: Scheduler, key: Key, t: Task, now: u64)
        requires
            s0.wf(),
            now <= TIME_LIMIT,
            s0.task_queue().has(key.host, key.addr),
            t == s0.task_queue().task_at(key.host, key.addr),
            self.task_queue().wf(),
            self.store_view().wf(),
            self.domain_seq() == s0.domain_seq(),
            tokens_distinct(self.deferred_seq()),
            forall|e: DeferEntry|
                #[trigger] self.deferred_seq().contains(e) ==> s0.deferred_seq().contains(e),
            forall|e: DeferEntry|
                s0.deferred_seq().contains(e) && (t.token is Some ==> e.token != t.token->0)
                    ==> #[trigger] self.deferred_seq().contains(e),
            t.token is None ==> self.deferred_seq() == s0.deferred_seq(),
            forall|e: DeferEntry|
                t.token is Some ==> !(#[trigger] self.deferred_seq().contains(e) && e.token
                    == t.token->0),
            self.task_queue().has(key.host, key.addr),
            self.task_queue().task_at(key.host, key.addr).token is None,
            forall|h: u128, a: Addr|
                !(h == key.host && a == key.addr) ==> #[trigger] self.task_queue().has(h, a)
                    == s0.task_queue().has(h, a),
            forall|h: u128, a: Addr|
                !(h == key.host && a == key.addr) && s0.task_queue().has(h, a)
                    ==> #[trigger] self.task_queue().task_at(h, a) == s0.task_queue().task_at(
                    h,
                    a,
                ),
        ensures
            self.wf(),
    {
        assert forall|i: int|
            0 <= i < self.deferred_seq().len() implies defer_linked(
            self.task_queue(),
            #[trigger] self.deferred_seq()[i],
        ) by {
            let e = self.deferred_seq()[i];
            assert(self.deferred_seq().contains(e));
            assert(s0.deferred_seq().contains(e));
            assert(defer_linked(s0.task_queue(), e));
            assert(!(e.host == key.host && e.addr == key.addr)) by {
                if e.host == key.host && e.addr == key.addr {
                    assert(s0.task_queue().task_at(key.host, key.addr).token == Some(e.token));
                    assert(t.token == Some(e.token));
                    assert(!(self.deferred_seq().contains(e) && e.token == t.token->0));
                }
            }
            assert(self.task_queue().has(e.host, e.addr));
            assert(self.task_queue().task_at(e.host, e.addr) == s0.task_queue().task_at(
                e.host,
                e.addr,
            ));
        }
        assert forall|h: u128, a: Addr|
            self.task_queue().has(h, a) && (#[trigger] self.task_queue().task_at(h, a).token)
                is Some implies exists|j: int|
            0 <= j < self.deferred_seq().len() && #[trigger] self.deferred_seq()[j]
                == (DeferEntry {
                token: self.task_queue().task_at(h, a).token->0,
                host: h,
                addr: a,
                started: (self.task_queue().task_at(h, a).key.deadline - TIMEOUT_MS) as u64,
            }) by {
            assert(!(h == key.host && a == key.addr));
            assert(s0.task_queue().has(h, a));
            assert(self.task_queue().task_at(h, a) == s0.task_queue().task_at(h, a));
            assert(s0.task_queue().task_at(h, a).token is Some);
            let j0 = choose|j0: int|
                0 <= j0 < s0.deferred_seq().len() && #[trigger] s0.deferred_seq()[j0]
                    == (DeferEntry {
                    token: s0.task_queue().task_at(h, a).token->0,
                    host: h,
                    addr: a,
                    started: (s0.task_queue().task_at(h, a).key.deadline - TIMEOUT_MS) as u64,
                });
            let e = s0.deferred_seq()[j0];
            assert(defer_linked(s0.task_queue(), e));
            assert(t.token is Some ==> e.token != t.token->0) by {
                if t.token is Some && e.token == t.token->0 {
                    assert(s0.task_queue().task_at(key.host, key.addr).token == t.token);
                    assert(s0.deferred_seq().contains(e));
                    assert(e.host == h && e.addr == a);
                    assert(s0.task_queue().task_at(e.host, e.addr).token == Some(e.token));
                    assert(s0.task_queue().task_at(key.host, key.addr).token == Some(e.token));
                    let m = choose|m: int|
                        0 <= m < s0.deferred_seq().len() && #[trigger] s0.deferred_seq()[m].token
                            == e.token && s0.deferred_seq()[m].host == key.host
                            && s0.deferred_seq()[m].addr == key.addr;
                    assert(false);
                }
            }
            assert(self.deferred_seq().contains(e));
            let p = choose|p: int|
                0 <= p < self.deferred_seq().len() && #[trigger] self.deferred_seq()[p] == e;
            assert(self.deferred_seq()[p] == (DeferEntry {
                token: self.task_queue().task_at(h, a).token->0,
                host: h,
                addr: a,
                started: (self.task_queue().task_at(h, a).key.deadline - TIMEOUT_MS) as u64,
            }));
        }
    }
}

/// The error text a timed-out probe records.
fn timeout_message() -> (r: String)
    ensures
        r@ == "timeout"@,
{
    "timeout".to_owned()
}


impl Scheduler {
    /// The host of some remembered resolution that is not in `keep`.
    fn find_stale_domain(&self, keep: &Vec<u128>) -> (r: Option<u128>)
        ensures
            r is Some ==> self.has_domain(r->0) && !keep@.contains(r->0),
            r is None ==> forall|h: u128| #[trigger] self.has_domain(h) ==> keep@.contains(h),
    {
        let n = self.domains.len();
        let mut i: usize = 0;
        while i < n && contains_host(keep, self.domains[i].host)
            invariant
                n == self.domain_seq().len(),
                0 <= i <= n,
                forall|k: int| 0 <= k < i ==> keep@.contains(#[trigger] self.domain_seq()[k].host),
            decreases n - i,
        {
            i = i + 1;
        }
        if i < n {
            Some(self.domains[i].host)
        } else {
            None
        }
    }

    /// Forget the remembered resolution of one host.
    fn remove_domain(&mut self, host: u128)
        requires
            forall|i: int, j: int|
                0 <= i < j < old(self).domain_seq().len() ==> #[trigger] old(
                    self,
                ).domain_seq()[i].host != #[trigger] old(self).domain_seq()[j].host,
        ensures
            forall|i: int, j: int|
                0 <= i < j < final(self).domain_seq().len()
                    ==> #[trigger] final(self).domain_seq()[i].host
                    != #[trigger] final(self).domain_seq()[j].host,
            !final(self).has_domain(host),
            forall|h: u128|
                h != host ==> #[trigger] final(self).has_domain(h) == old(self).has_domain(h),
            old(self).has_domain(host) ==> final(self).domain_seq().len() == old(
                self,
            ).domain_seq().len() - 1,
            !old(self).has_domain(host) ==> *final(self) == *old(self),
            final(self).task_queue() == old(self).task_queue(),
            final(self).deferred_seq() == old(self).deferred_seq(),
            final(self).store_view() == old(self).store_view(),
            final(self).token_counter() == old(self).token_counter(),
    {
        let n = self.domains.len();
        let mut i: usize = 0;
        while i < n && self.domains[i].host != host
            invariant
                *self == *old(self),
                n == self.domain_seq().len(),
                0 <= i <= n,
                forall|k: int| 0 <= k < i ==> #[trigger] self.domain_seq()[k].host != host,
            decreases n - i,
        {
            i = i + 1;
        }
        if i >= n {
            return ;
        }
        proof {
            assert(old(self).has_domain(host));
        }
        let ghost before = self.domains@;
        proof {
            before.remove_ensures(i as int);
        }
        self.domains.remove(i);
        proof {
            let after = self.domain_seq();
            assert forall|p: int, q: int|
                0 <= p < q < after.len() implies #[trigger] after[p].host
                != #[trigger] after[q].host by {
                let p0 = if p < i {
                    p
                } else {
                    p + 1
                };
                let q0 = if q < i {
                    q
                } else {
                    q + 1
                };
                assert(after[p] == before[p0] && after[q] == before[q0]);
            }
            assert forall|k: int|
                0 <= k < after.len() implies #[trigger] after[k].host != host by {
                let k0 = if k < i {
                    k
                } else {
                    k + 1
                };
                assert(after[k] == before[k0]);
            }
            assert forall|h: u128|
                h != host implies #[trigger] self.has_domain(h) == old(self).has_domain(h) by {
                if old(self).has_domain(h) {
                    let j = choose|j: int| 0 <= j < before.len() && #[trigger] before[j].host == h;
                    assert(j != i);
                    if j < i {
                        assert(after[j].host == h);
                    } else {
                        assert(after[j - 1].host == h);
                    }
                }
                if self.has_domain(h) {
                    let j = choose|j: int| 0 <= j < after.len() && #[trigger] after[j].host == h;
                    let j0 = if j < i {
                        j
                    } else {
                        j + 1
                    };
                    assert(before[j0].host == h);
                }
            }
        }
    }

    /// Take the current host set: all state of hosts that disappeared is
    /// dropped, deterministically; hosts still present keep everything.
    pub fn on_hosts(&mut self, current: &Vec<u128>)
        requires
            old(self).wf(),
        ensures
            final(self).wf(),
            forall|h: u128, a: Addr|
                !current@.contains(h) ==> !final(self).task_queue().has(h, a),
            forall|h: u128| !current@.contains(h) ==> !final(self).store_view().has_host(h),
            forall|h: u128| !current@.contains(h) ==> !final(self).has_domain(h),
            forall|i: int|
                0 <= i < final(self).deferred_seq().len() ==> current@.contains(
                    #[trigger] final(self).deferred_seq()[i].host,
                ),
            forall|h: u128, a: Addr|
                current@.contains(h) ==> #[trigger] final(self).task_queue().has(h, a) == old(
                    self,
                ).task_queue().has(h, a),
            forall|h: u128, a: Addr|
                current@.contains(h) && old(self).task_queue().has(h, a)
                    ==> #[trigger] final(self).task_queue().task_at(h, a)
                    == old(self).task_queue().task_at(h, a),
            forall|h: u128|
                current@.contains(h) ==> #[trigger] final(self).store_view().has_host(h) == old(
                    self,
                ).store_view().has_host(h),
            forall|h: u128|
                current@.contains(h) && old(self).store_view().has_host(h)
                    ==> #[trigger] final(self).store_view().pinged_at(h)
                    == old(self).store_view().pinged_at(h),
            forall|d: DeferEntry|
                #[trigger] final(self).deferred_seq().contains(d) == (old(
                    self,
                ).deferred_seq().contains(d) && current@.contains(d.host)),
            final(self).token_counter() == old(self).token_counter(),
    {
        self.tasks.retain_hosts(current);
        remove_deferred_stale(&mut self.deferred, current);
        let ghost s1 = *self;
        proof {
            assert(self.store == old(self).store);
        }
        self.store.retain_hosts(current);
        let ghost s2 = *self;
        proof {
            assert(self.domain_seq() == old(self).domain_seq());
        }
        loop
            invariant
                forall|i: int, j: int|
                    0 <= i < j < self.domain_seq().len() ==> #[trigger] self.domain_seq()[i].host
                        != #[trigger] self.domain_seq()[j].host,
                self.task_queue() == s2.task_queue(),
                self.deferred_seq() == s2.deferred_seq(),
                self.store_view() == s2.store_view(),
                self.token_counter() == s2.token_counter(),
            ensures
                forall|i: int, j: int|
                    0 <= i < j < self.domain_seq().len() ==> #[trigger] self.domain_seq()[i].host
                        != #[trigger] self.domain_seq()[j].host,
                forall|h: u128| #[trigger] self.has_domain(h) ==> current@.contains(h),
                self.task_queue() == s2.task_queue(),
                self.deferred_seq() == s2.deferred_seq(),
                self.store_view() == s2.store_view(),
                self.token_counter() == s2.token_counter(),
            decreases self.domain_seq().len(),
        {
            let stale = self.find_stale_domain(current);
            match stale {
                None => {
                    proof {
                        assert forall|h: u128|
                            #[trigger] self.has_domain(h) implies current@.contains(h) by {}
                    }
                    break ;
                },
                Some(h) => {
                    self.remove_domain(h);
                },
            }
        }
        proof {
            assert(self.token_counter() == s2.token_counter());
            assert(s2.token_counter() == s1.token_counter());
            assert(s1.token_counter() == old(self).token_counter());
            assert forall|h: u128|
                !current@.contains(h) implies !self.has_domain(h) by {}
            assert forall|h: u128, a: Addr|
                current@.contains(h) && old(self).task_queue().has(h, a)
                    implies #[trigger] self.task_queue().task_at(h, a)
                == old(self).task_queue().task_at(h, a) by {
                assert(self.task_queue().has(h, a) == old(self).task_queue().has(h, a));
            }
            assert forall|i: int|
                0 <= i < self.deferred_seq().len() implies current@.contains(
                #[trigger] self.deferred_seq()[i].host,
            ) by {
                let d = self.deferred_seq()[i];
                assert(self.deferred_seq().contains(d));
                assert(old(self).deferred_seq().contains(d) && current@.contains(d.host));
            }
            assert forall|i: int|
                0 <= i < self.deferred_seq().len() implies defer_linked(
                self.task_queue(),
                #[trigger] self.deferred_seq()[i],
            ) by {
                let d = self.deferred_seq()[i];
                assert(self.deferred_seq().contains(d));
                assert(old(self).deferred_seq().contains(d) && current@.contains(d.host));
                assert(defer_linked(old(self).task_queue(), d));
                assert(self.task_queue().has(d.host, d.addr) == old(self).task_queue().has(
                    d.host,
                    d.addr,
                ));
                assert(self.task_queue().task_at(d.host, d.addr) == old(self).task_queue().task_at(
                    d.host,
                    d.addr,
                ));
            }
            assert forall|h: u128, a: Addr|
                self.task_queue().has(h, a) && (#[trigger] self.task_queue().task_at(h, a).token)
                    is Some implies exists|j: int|
                0 <= j < self.deferred_seq().len() && #[trigger] self.deferred_seq()[j]
                    == (DeferEntry {
                    token: self.task_queue().task_at(h, a).token->0,
                    host: h,
                    addr: a,
                    started: (self.task_queue().task_at(h, a).key.deadline - TIMEOUT_MS) as u64,
                }) by {
                assert(current@.contains(h)) by {
                    if !current@.contains(h) {
                        assert(!self.task_queue().has(h, a));
                    }
                }
                assert(old(self).task_queue().has(h, a));
                assert(self.task_queue().task_at(h, a) == old(self).task_queue().task_at(h, a));
                assert(old(self).task_queue().task_at(h, a).token is Some);
                let j0 = choose|j0: int|
                    0 <= j0 < old(self).deferred_seq().len() && #[trigger] old(
                        self,
                    ).deferred_seq()[j0] == (DeferEntry {
                        token: old(self).task_queue().task_at(h, a).token->0,
                        host: h,
                        addr: a,
                        started: (old(self).task_queue().task_at(h, a).key.deadline
                            - TIMEOUT_MS) as u64,
                    });
                let e = old(self).deferred_seq()[j0];
                assert(old(self).deferred_seq().contains(e));
                assert(e.host == h);
                assert(self.deferred_seq().contains(e));
                let p = choose|p: int|
                    0 <= p < self.deferred_seq().len() && #[trigger] self.deferred_seq()[p] == e;
                assert(self.deferred_seq()[p] == (DeferEntry {
                    token: self.task_queue().task_at(h, a).token->0,
                    host: h,
                    addr: a,
                    started: (self.task_queue().task_at(h, a).key.deadline - TIMEOUT_MS) as u64,
                }));
            }
        }
    }
}

} // verus!
