//! A small name-to-URL redirect store.
//!
//! Short names are registered once and resolved to absolute destination
//! URLs. Two interchangeable backends implement one mapping interface: a
//! purely in-memory store, and an append-only-log store that rebuilds its
//! in-memory cache by replaying a durable log. A registry owns the one
//! active backend; request-level registration and resolution go through it.

pub mod input_validation;
pub mod log_format;
pub mod storage;
pub mod url;

use crate::log_format::encode_record;
use crate::url::abs_url_of;
use crate::url::Url;
use vstd::prelude::*;

verus! {

/// The effect of one insert-if-absent call: it succeeds exactly when the
/// name is absent, and then extends the mapping by the pair; otherwise it
/// leaves the mapping alone.
pub open spec fn insert_outcome(
    m0: Map<Seq<char>, Seq<char>>,
    n: Seq<char>,
    u: Seq<char>,
    r: bool,
    m1: Map<Seq<char>, Seq<char>>,
) -> bool {
    &&& r == !m0.contains_key(n)
    &&& m1 == if r {
        m0.insert(n, u)
    } else {
        m0
    }
}

/// Fold a sequence of insert-if-absent operations over a mapping: each
/// operation `(n, u)` inserts `u` under `n` only when `n` is still absent.
pub open spec fn apply_adds(
    m: Map<Seq<char>, Seq<char>>,
    ops: Seq<(Seq<char>, Seq<char>)>,
) -> Map<Seq<char>, Seq<char>>
    decreases ops.len(),
{
    if ops.len() == 0 {
        m
    } else {
        let rest = apply_adds(m, ops.drop_last());
        let op = ops.last();
        if rest.contains_key(op.0) {
            rest
        } else {
            rest.insert(op.0, op.1)
        }
    }
}

/// One insert-if-absent call performs exactly one step of `apply_adds`.
pub proof fn lemma_insert_outcome_is_apply_add(
    m0: Map<Seq<char>, Seq<char>>,
    n: Seq<char>,
    u: Seq<char>,
    r: bool,
    m1: Map<Seq<char>, Seq<char>>,
)
    requires
        insert_outcome(m0, n, u, r, m1),
    ensures
        m1 == apply_adds(m0, seq![(n, u)]),
{
    let ops = seq![(n, u)];
    assert(ops.len() == 1);
    assert(ops.drop_last() =~= Seq::<(Seq<char>, Seq<char>)>::empty());
    assert(apply_adds(m0, ops.drop_last()) == m0);
    assert(ops.last() == (n, u));
}

/// Uniqueness: of two inserts for the same name, starting from a mapping
/// without it, exactly the first succeeds, and the mapping thereafter holds
/// the first URL. The registry serializes all calls under one guard, so any
/// two concurrent inserts for one name perform these two steps in some
/// order.
pub proof fn lemma_uniqueness(
    m0: Map<Seq<char>, Seq<char>>,
    n: Seq<char>,
    u1: Seq<char>,
    u2: Seq<char>,
    r1: bool,
    m1: Map<Seq<char>, Seq<char>>,
    r2: bool,
    m2: Map<Seq<char>, Seq<char>>,
)
    requires
        !m0.contains_key(n),
        insert_outcome(m0, n, u1, r1, m1),
        insert_outcome(m1, n, u2, r2, m2),
    ensures
        r1,
        !r2,
        m2 == m1,
        m1.contains_key(n),
        m1[n] == u1,
{
}

/// Write-once: once a mapping holds a name, no later sequence of
/// insert-if-absent operations changes what the name resolves to.
pub proof fn lemma_write_once(
    m0: Map<Seq<char>, Seq<char>>,
    n: Seq<char>,
    ops: Seq<(Seq<char>, Seq<char>)>,
)
    requires
        m0.contains_key(n),
    ensures
        apply_adds(m0, ops).contains_key(n),
        apply_adds(m0, ops)[n] == m0[n],
    decreases ops.len(),
{
    if ops.len() > 0 {
        lemma_write_once(m0, n, ops.drop_last());
    }
}

/// Absence: a name never inserted stays absent under any sequence of
/// insert-if-absent operations for other names.
pub proof fn lemma_absence(
    m0: Map<Seq<char>, Seq<char>>,
    n: Seq<char>,
    ops: Seq<(Seq<char>, Seq<char>)>,
)
    requires
        !m0.contains_key(n),
        forall|i: int| 0 <= i < ops.len() ==> (#[trigger] ops[i]).0 != n,
    ensures
        !apply_adds(m0, ops).contains_key(n),
    decreases ops.len(),
{
    if ops.len() > 0 {
        assert forall|i: int|
            0 <= i < ops.drop_last().len() implies (#[trigger] ops.drop_last()[i]).0 != n by {
            assert(ops[i].0 != n);
        }
        lemma_absence(m0, n, ops.drop_last());
        assert(ops.last() == ops[ops.len() - 1]);
    }
}

/// The key-value mapping interface both backends implement.
///
/// A backend is a finite mapping from names to canonical URL texts.
/// `lookup` reads it; `maybe_insert` is the one atomic test-and-set. A
/// persistent backend additionally queues, for every successful insert, the
/// one record the durable log must gain; the process shell drains the queue
/// with `take_pending` and appends the records to the backing file (a failed
/// append is swallowed there: the in-memory insert stands, a documented
/// limitation).
pub trait UrlMap: Sized {
    /// The name-to-URL mapping this backend currently holds.
    spec fn mapping(&self) -> Map<Seq<char>, Seq<char>>;

    /// Records queued for the durable log and not yet drained.
    spec fn pending_records(&self) -> Seq<Seq<char>>;

    /// Whether successful inserts queue a durable record.
    spec fn persists(&self) -> bool;

    /// Pure read: the URL the name resolves to, if any.
    fn lookup(&self, key: &str) -> (r: Option<&Url>)
        ensures
            match r {
                Some(u) => self.mapping().contains_key(key@) && u@ == self.mapping()[key@],
                None => !self.mapping().contains_key(key@),
            },
    ;

    /// Atomic test-and-set: commits the pair and returns true iff the name
    /// was absent.
    fn maybe_insert(&mut self, key: &str, value: Url) -> (r: bool)
        ensures
            insert_outcome(old(self).mapping(), key@, value@, r, final(self).mapping()),
            final(self).pending_records() == if r && old(self).persists() {
                old(self).pending_records().push(encode_record(key@, value@))
            } else {
                old(self).pending_records()
            },
            final(self).persists() == old(self).persists(),
    ;

    /// Hand out the queued durable records, oldest first, emptying the
    /// queue; the mapping is untouched.
    fn take_pending(&mut self) -> (r: Vec<String>)
        ensures
            r.deep_view() == old(self).pending_records(),
            final(self).pending_records() == Seq::<Seq<char>>::empty(),
            final(self).mapping() == old(self).mapping(),
            final(self).persists() == old(self).persists(),
    ;
}

/// Outcome of a registration request.
#[derive(Debug)]
pub enum RegisterOutcome {
    /// The pair was inserted.
    Created,
    /// The name was already taken; nothing changed.
    Conflict,
    /// The candidate URL is not absolute; the reason, nothing changed.
    InvalidUrl(String),
}

/// A resolved redirect: the destination URL a request's first path segment
/// mapped to.
#[derive(Debug)]
pub struct RedirectToken {
    pub url: Url,
}

/// Outcome of resolving a request's first path segment.
#[derive(Debug)]
pub enum Resolution {
    /// No path segment was present; the route does not apply.
    NotApplicable,
    /// The segment names no registered redirect.
    NotFound,
    /// The segment resolved to this destination.
    Found(RedirectToken),
}

/// The process-wide registry: owns the one active backend for the process
/// lifetime. Callers serialize access through one mutual-exclusion guard
/// owned by the process shell.
pub struct RedirectConfig<S: UrlMap> {
    store: S,
}

impl<S: UrlMap> RedirectConfig<S> {
    /// The mapping the active backend holds.
    pub closed spec fn mapping(&self) -> Map<Seq<char>, Seq<char>> {
        self.store.mapping()
    }

    /// The records the active backend has queued for the durable log.
    pub closed spec fn pending_records(&self) -> Seq<Seq<char>> {
        self.store.pending_records()
    }

    /// Whether the active backend persists inserts.
    pub closed spec fn persists(&self) -> bool {
        self.store.persists()
    }

    /// Fix the backend chosen at startup.
    pub fn new(store: S) -> (r: Self)
        ensures
            r.mapping() == store.mapping(),
            r.pending_records() == store.pending_records(),
            r.persists() == store.persists(),
    {
        RedirectConfig { store }
    }

    /// Forward an insert-if-absent to the active backend.
    pub fn add(&mut self, name: &str, url: Url) -> (r: bool)
        ensures
            insert_outcome(old(self).mapping(), name@, url@, r, final(self).mapping()),
            final(self).pending_records() == if r && old(self).persists() {
                old(self).pending_records().push(encode_record(name@, url@))
            } else {
                old(self).pending_records()
            },
            final(self).persists() == old(self).persists(),
    {
        self.store.maybe_insert(name, url)
    }

    /// Forward a lookup to the active backend.
    pub fn lookup(&self, name: &str) -> (r: Option<&Url>)
        ensures
            match r {
                Some(u) => self.mapping().contains_key(name@) && u@ == self.mapping()[name@],
                None => !self.mapping().contains_key(name@),
            },
    {
        self.store.lookup(name)
    }

    /// Drain the queued durable records.
    pub fn take_pending(&mut self) -> (r: Vec<String>)
        ensures
            r.deep_view() == old(self).pending_records(),
            final(self).pending_records() == Seq::<Seq<char>>::empty(),
            final(self).mapping() == old(self).mapping(),
            final(self).persists() == old(self).persists(),
    {
        self.store.take_pending()
    }

    /// A registration request: validate the candidate URL, then insert if
    /// the name is free. An invalid URL never reaches the mapping.
    pub fn register(&mut self, name: &str, raw_url: String) -> (r: RegisterOutcome)
        ensures
            r is InvalidUrl <==> abs_url_of(raw_url@) is None,
            r is Conflict <==> (abs_url_of(raw_url@) is Some
                && old(self).mapping().contains_key(name@)),
            r is Created <==> (abs_url_of(raw_url@) is Some
                && !old(self).mapping().contains_key(name@)),
            !(r is Created) ==> final(self).mapping() == old(self).mapping()
                && final(self).pending_records() == old(self).pending_records(),
            r is Created ==> (abs_url_of(raw_url@) matches Some(u)
                && final(self).mapping() == old(self).mapping().insert(name@, u)
                && final(self).pending_records() == (if old(self).persists() {
                    old(self).pending_records().push(encode_record(name@, u))
                } else {
                    old(self).pending_records()
                })),
            final(self).persists() == old(self).persists(),
    {
        match Url::parse(raw_url) {
            Err(reason) => RegisterOutcome::InvalidUrl(reason),
            Ok(url) => {
                if self.add(name, url) {
                    RegisterOutcome::Created
                } else {
                    RegisterOutcome::Conflict
                }
            },
        }
    }

    /// Resolve a request's first path segment: no segment means the route
    /// does not apply; an unknown segment is not found; a known one yields
    /// its destination. A pure read.
    pub fn resolve(&self, segment: Option<&str>) -> (r: Resolution)
        ensures
            r is NotApplicable <==> segment is None,
            r is NotFound <==> (segment matches Some(s) && !self.mapping().contains_key(s@)),
            r matches Resolution::Found(t) ==> (segment matches Some(s)
                && self.mapping().contains_key(s@) && t.url@ == self.mapping()[s@]),
            (segment matches Some(s) && self.mapping().contains_key(s@)) ==> r is Found,
    {
        match segment {
            None => Resolution::NotApplicable,
            Some(seg) => match self.lookup(seg) {
                None => Resolution::NotFound,
                Some(u) => Resolution::Found(RedirectToken { url: u.clone() }),
            },
        }
    }
}

} // verus!
