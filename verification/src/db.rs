//! The key-value store: a map from byte-string keys to values with
//! per-key expiration, plus the expiration index that the background
//! reclaimer walks.
//!
//! [`State`] is the whole shared state; the caller guards it with one
//! exclusive lock and hands every operation the current time as a plain
//! millisecond count.  `get` never checks the expiry: a value past its
//! time-to-live stays visible until a purge cycle removes it, which is
//! the documented staleness window.

use vstd::prelude::*;

verus! {

use vstd::slice::slice_to_vec;
use crate::resp::utils::bytes_eq;
use crate::resp::utils::push_all;

/// One stored value and the instant (in milliseconds) at which it
/// expires, if any.
pub struct Entry {
    /// The stored byte-string value.
    pub data: Vec<u8>,
    /// The expiry instant, or `None` for a value that never expires.
    pub expires_at: Option<u64>,
}

/// The store's state: the entries, the expiration index ordered by
/// expiry instant, and the shutdown flag that stops the reclaimer.
pub struct State {
    entries: Vec<(Vec<u8>, Entry)>,
    expirations: Vec<(u64, Vec<u8>)>,
    shutdown: bool,
}

/// Strict lexicographic order on byte strings: the shorter prefix
/// comes first; otherwise the first differing byte decides.
pub open spec fn bytes_lt(a: Seq<u8>, b: Seq<u8>) -> bool
    decreases a.len(),
{
    if b.len() == 0 {
        false
    } else if a.len() == 0 {
        true
    } else if a[0] < b[0] {
        true
    } else if a[0] > b[0] {
        false
    } else {
        bytes_lt(a.skip(1), b.skip(1))
    }
}

/// The order of the expiration index: by expiry instant ascending,
/// then by key ascending.
pub open spec fn pair_lt(a: (u64, Seq<u8>), b: (u64, Seq<u8>)) -> bool {
    a.0 < b.0 || (a.0 == b.0 && bytes_lt(a.1, b.1))
}

/// The view of one stored index pair.
pub open spec fn pview(x: (u64, Vec<u8>)) -> (u64, Seq<u8>) {
    (x.0, x.1@)
}

/// No byte string precedes itself.
proof fn lemma_bytes_lt_irrefl(a: Seq<u8>)
    ensures
        !bytes_lt(a, a),
    decreases a.len(),
{
    if a.len() > 0 {
        lemma_bytes_lt_irrefl(a.skip(1));
    }
}

/// Distinct byte strings are ordered one way or the other.
proof fn lemma_bytes_lt_connex(a: Seq<u8>, b: Seq<u8>)
    requires
        a != b,
    ensures
        bytes_lt(a, b) || bytes_lt(b, a),
    decreases a.len(),
{
    if a.len() == 0 && b.len() == 0 {
        assert(a =~= b);
    }
    if a.len() > 0 && b.len() > 0 && a[0] == b[0] {
        assert(a.skip(1) != b.skip(1)) by {
            if a.skip(1) == b.skip(1) {
                assert(a.skip(1).len() == a.len() - 1);
                assert(b.skip(1).len() == b.len() - 1);
                assert(a.len() == b.len());
                assert forall|i: int| 0 <= i < a.len() implies a[i] == b[i] by {
                    if i > 0 {
                        assert(a.skip(1)[i - 1] == a[i]);
                        assert(b.skip(1)[i - 1] == b[i]);
                    }
                }
                assert(a =~= b);
            }
        }
        lemma_bytes_lt_connex(a.skip(1), b.skip(1));
    }
}

/// The byte-string order is transitive.
proof fn lemma_bytes_lt_trans(a: Seq<u8>, b: Seq<u8>, c: Seq<u8>)
    requires
        bytes_lt(a, b),
        bytes_lt(b, c),
    ensures
        bytes_lt(a, c),
    decreases a.len(),
{
    if a.len() > 0 && b.len() > 0 && c.len() > 0 && a[0] == b[0] && b[0] == c[0] {
        lemma_bytes_lt_trans(a.skip(1), b.skip(1), c.skip(1));
    }
}

/// One step of the byte-by-byte comparison: while the heads agree, the
/// order of the tails decides.
proof fn lemma_bytes_lt_skip_step(a: Seq<u8>, b: Seq<u8>, i: int)
    requires
        0 <= i < a.len(),
        i < b.len(),
        a[i] == b[i],
    ensures
        bytes_lt(a.skip(i), b.skip(i)) == bytes_lt(a.skip(i + 1), b.skip(i + 1)),
{
    assert(a.skip(i)[0] == a[i]);
    assert(b.skip(i)[0] == b[i]);
    assert(a.skip(i).skip(1) =~= a.skip(i + 1));
    assert(b.skip(i).skip(1) =~= b.skip(i + 1));
}

/// Compares two byte strings in the lexicographic order.
fn bytes_lt_exec(a: &[u8], b: &[u8]) -> (r: bool)
    ensures
        r == bytes_lt(a@, b@),
{
    proof {
        assert(a@.skip(0) =~= a@);
        assert(b@.skip(0) =~= b@);
    }
    let mut i: usize = 0;
    while i < a.len() && i < b.len()
        invariant
            0 <= i <= a@.len(),
            i <= b@.len(),
            bytes_lt(a@, b@) == bytes_lt(a@.skip(i as int), b@.skip(i as int)),
        decreases a@.len() - i,
    {
        if a[i] < b[i] {
            return true;
        }
        if a[i] > b[i] {
            return false;
        }
        proof {
            lemma_bytes_lt_skip_step(a@, b@, i as int);
        }
        i = i + 1;
    }
    proof {
        assert(a@.skip(i as int).len() == 0 || b@.skip(i as int).len() == 0);
    }
    i < b.len()
}

/// Compares two index pairs: expiry instant first, then key.
fn pair_lt_exec(a: &(u64, Vec<u8>), b: &(u64, Vec<u8>)) -> (r: bool)
    ensures
        r == pair_lt(pview(*a), pview(*b)),
{
    if a.0 < b.0 {
        true
    } else if a.0 > b.0 {
        false
    } else {
        bytes_lt_exec(a.1.as_slice(), b.1.as_slice())
    }
}

/// First-match lookup of `k` in an entry list: the value and expiry of
/// the first entry whose key is `k`.
pub closed spec fn alist_lookup(s: Seq<(Vec<u8>, Entry)>, k: Seq<u8>) -> Option<
    (Seq<u8>, Option<u64>),
>
    decreases s.len(),
{
    if s.len() == 0 {
        None
    } else if s[0].0@ == k {
        Some((s[0].1.data@, s[0].1.expires_at))
    } else {
        alist_lookup(s.skip(1), k)
    }
}

impl State {
    /// The store's abstract contents: the map from each present key to
    /// its value and optional expiry instant.
    pub closed spec fn contents(self) -> Map<Seq<u8>, (Seq<u8>, Option<u64>)> {
        Map::new(
            |k: Seq<u8>| alist_lookup(self.entries@, k) is Some,
            |k: Seq<u8>| alist_lookup(self.entries@, k).unwrap(),
        )
    }

    /// The expiration index as (expiry instant, key) pairs, earliest
    /// instant first.
    pub closed spec fn index(self) -> Seq<(u64, Seq<u8>)> {
        Seq::new(
            self.expirations@.len(),
            |i: int| (self.expirations@[i].0, self.expirations@[i].1@),
        )
    }

    /// Whether the store has been told to shut down.
    pub closed spec fn spec_shutdown(self) -> bool {
        self.shutdown
    }

    /// Keys and values in iteration order, for the diagnostic listing.
    pub closed spec fn entries_seq(self) -> Seq<(Seq<u8>, Seq<u8>)> {
        Seq::new(self.entries@.len(), |i: int| (self.entries@[i].0@, self.entries@[i].1.data@))
    }

    /// The earliest pending expiry instant, if any expiry is pending.
    pub open spec fn next_expiry(self) -> Option<u64> {
        if self.index().len() == 0 {
            None
        } else {
            Some(self.index()[0].0)
        }
    }

    /// Well-formedness: keys are distinct; the index is strictly
    /// ordered by expiry instant ascending then key ascending; and a
    /// pair `(t, k)` sits in the index exactly when the entry for `k`
    /// expires at `t`.
    pub closed spec fn wf(self) -> bool {
        let es = self.entries@;
        let xs = self.expirations@;
        &&& forall|i: int, j: int|
            0 <= i < j < es.len() ==> (#[trigger] es[i].0@) != (#[trigger] es[j].0@)
        &&& forall|i: int, j: int|
            #![trigger xs[i], xs[j]]
            0 <= i < j < xs.len() ==> pair_lt(pview(xs[i]), pview(xs[j]))
        &&& forall|i: int|
            0 <= i < xs.len() ==> (match alist_lookup(es, (#[trigger] xs[i]).1@) {
                Some(e) => e.1 == Some(xs[i].0),
                None => false,
            })
        &&& forall|j: int|
            0 <= j < es.len() ==> (match (#[trigger] es[j]).1.expires_at {
                Some(t) => exists|i: int|
                    0 <= i < xs.len() && (#[trigger] xs[i]).0 == t && xs[i].1@ == es[j].0@,
                None => true,
            })
    }
}

/// When `k` first matches at position `i`, the lookup answers that
/// entry.
proof fn lemma_lookup_first_match(s: Seq<(Vec<u8>, Entry)>, k: Seq<u8>, i: int)
    requires
        0 <= i < s.len(),
        s[i].0@ == k,
        forall|j: int| 0 <= j < i ==> (#[trigger] s[j].0@) != k,
    ensures
        alist_lookup(s, k) == Some((s[i].1.data@, s[i].1.expires_at)),
    decreases i,
{
    if i > 0 {
        let t = s.skip(1);
        assert forall|j: int| 0 <= j < i - 1 implies (#[trigger] t[j].0@) != k by {
            assert(t[j] == s[j + 1]);
        }
        assert(t[i - 1] == s[i]);
        lemma_lookup_first_match(t, k, i - 1);
    }
}

/// When no entry carries `k`, the lookup misses.
proof fn lemma_lookup_absent(s: Seq<(Vec<u8>, Entry)>, k: Seq<u8>)
    requires
        forall|j: int| 0 <= j < s.len() ==> (#[trigger] s[j].0@) != k,
    ensures
        alist_lookup(s, k) is None,
    decreases s.len(),
{
    if s.len() > 0 {
        let t = s.skip(1);
        assert forall|j: int| 0 <= j < t.len() implies (#[trigger] t[j].0@) != k by {
            assert(t[j] == s[j + 1]);
        }
        lemma_lookup_absent(t, k);
    }
}

/// A lookup hit names a position that holds it.
proof fn lemma_lookup_some_position(s: Seq<(Vec<u8>, Entry)>, k: Seq<u8>)
    requires
        alist_lookup(s, k) is Some,
    ensures
        exists|i: int|
            0 <= i < s.len() && (#[trigger] s[i]).0@ == k && alist_lookup(s, k) == Some(
                (s[i].1.data@, s[i].1.expires_at),
            ),
    decreases s.len(),
{
    if s.len() > 0 {
        if s[0].0@ == k {
            assert(0 <= 0 < s.len() && s[0].0@ == k && alist_lookup(s, k) == Some(
                (s[0].1.data@, s[0].1.expires_at),
            ));
        } else {
            let t = s.skip(1);
            lemma_lookup_some_position(t, k);
            let w = choose|i: int|
                0 <= i < t.len() && (#[trigger] t[i]).0@ == k && alist_lookup(t, k) == Some(
                    (t[i].1.data@, t[i].1.expires_at),
                );
            assert(s[w + 1] == t[w]);
            assert(0 <= w + 1 < s.len() && s[w + 1].0@ == k && alist_lookup(s, k) == Some(
                (s[w + 1].1.data@, s[w + 1].1.expires_at),
            ));
        }
    }
}

/// Removing position `i` erases exactly its key from the lookup, when
/// keys are distinct.
proof fn lemma_lookup_remove(s: Seq<(Vec<u8>, Entry)>, i: int, k2: Seq<u8>)
    requires
        0 <= i < s.len(),
        forall|p: int, q: int|
            0 <= p < q < s.len() ==> (#[trigger] s[p].0@) != (#[trigger] s[q].0@),
    ensures
        alist_lookup(s.remove(i), k2) == if k2 == s[i].0@ {
            None::<(Seq<u8>, Option<u64>)>
        } else {
            alist_lookup(s, k2)
        },
    decreases s.len(),
{
    let r = s.remove(i);
    if i == 0 {
        assert(r =~= s.skip(1));
        if k2 == s[0].0@ {
            assert forall|j: int| 0 <= j < r.len() implies (#[trigger] r[j].0@) != k2 by {
                assert(r[j] == s[j + 1]);
            }
            lemma_lookup_absent(r, k2);
        }
    } else {
        assert(r[0] == s[0]);
        if s[0].0@ == k2 {
            assert(k2 != s[i].0@);
        } else {
            let t = s.skip(1);
            assert forall|p: int, q: int| 0 <= p < q < t.len() implies (#[trigger] t[p].0@) != (
            #[trigger] t[q].0@) by {
                assert(t[p] == s[p + 1]);
                assert(t[q] == s[q + 1]);
            }
            assert(t[i - 1] == s[i]);
            lemma_lookup_remove(t, i - 1, k2);
            assert(r.skip(1) =~= t.remove(i - 1));
        }
    }
}

/// Appending an entry with a fresh key adds exactly that key to the
/// lookup.
proof fn lemma_lookup_push(s: Seq<(Vec<u8>, Entry)>, p: (Vec<u8>, Entry), k2: Seq<u8>)
    requires
        forall|j: int| 0 <= j < s.len() ==> (#[trigger] s[j].0@) != p.0@,
    ensures
        alist_lookup(s.push(p), k2) == if k2 == p.0@ {
            Some((p.1.data@, p.1.expires_at))
        } else {
            alist_lookup(s, k2)
        },
    decreases s.len(),
{
    let r = s.push(p);
    if s.len() == 0 {
        assert(r[0] == p);
        if k2 != p.0@ {
            assert(r.skip(1) =~= Seq::<(Vec<u8>, Entry)>::empty());
            assert(alist_lookup(Seq::<(Vec<u8>, Entry)>::empty(), k2) is None);
        }
    } else {
        assert(r[0] == s[0]);
        let t = s.skip(1);
        assert forall|j: int| 0 <= j < t.len() implies (#[trigger] t[j].0@) != p.0@ by {
            assert(t[j] == s[j + 1]);
        }
        lemma_lookup_push(t, p, k2);
        assert(r.skip(1) =~= t.push(p));
    }
}

/// Finds the first entry with the given key, if one is there.
fn find_key(entries: &Vec<(Vec<u8>, Entry)>, key: &[u8]) -> (r: Option<usize>)
    ensures
        match r {
            Some(i) => i < entries@.len() && entries@[i as int].0@ == key@ && forall|j: int|
                0 <= j < i ==> (#[trigger] entries@[j].0@) != key@,
            None => forall|j: int| 0 <= j < entries@.len() ==> (#[trigger] entries@[j].0@) != key@,
        },
{
    let mut i: usize = 0;
    while i < entries.len()
        invariant
            0 <= i <= entries@.len(),
            forall|j: int| 0 <= j < i ==> (#[trigger] entries@[j].0@) != key@,
        decreases entries@.len() - i,
    {
        if bytes_eq(entries[i].0.as_slice(), key) {
            return Some(i);
        }
        i = i + 1;
    }
    None
}

/// Finds the index pair `(t, key)`; the caller warrants that it is
/// there.
fn find_pair(xs: &Vec<(u64, Vec<u8>)>, t: u64, key: &[u8]) -> (i: usize)
    requires
        exists|j: int| 0 <= j < xs@.len() && (#[trigger] xs@[j]).0 == t && xs@[j].1@ == key@,
    ensures
        i < xs@.len() && xs@[i as int].0 == t && xs@[i as int].1@ == key@,
{
    let mut i: usize = 0;
    while i < xs.len()
        invariant
            0 <= i <= xs@.len(),
            exists|j: int| i <= j < xs@.len() && (#[trigger] xs@[j]).0 == t && xs@[j].1@ == key@,
        decreases xs@.len() - i,
    {
        if xs[i].0 == t && bytes_eq(xs[i].1.as_slice(), key) {
            return i;
        }
        proof {
            let w = choose|j: int|
                i <= j < xs@.len() && (#[trigger] xs@[j]).0 == t && xs@[j].1@ == key@;
            assert(w != i);
        }
        i = i + 1;
    }
    proof {
        assert(false);
    }
    0
}

impl State {
    /// A fresh, empty store that is not shutting down.
    pub fn new() -> (s: State)
        ensures
            s.wf(),
            s.contents() == Map::<Seq<u8>, (Seq<u8>, Option<u64>)>::empty(),
            s.index() == Seq::<(u64, Seq<u8>)>::empty(),
            !s.spec_shutdown(),
    {
        let s = State { entries: Vec::new(), expirations: Vec::new(), shutdown: false };
        proof {
            assert(s.index() =~= Seq::<(u64, Seq<u8>)>::empty());
            assert(s.contents() =~= Map::<Seq<u8>, (Seq<u8>, Option<u64>)>::empty());
        }
        s
    }

    /// Looks the key up and hands back a copy of its value.  The expiry
    /// is deliberately not checked here: a value past its time-to-live
    /// stays visible until the reclaimer purges it.
    pub fn get(&self, key: &[u8]) -> (r: Option<Vec<u8>>)
        ensures
            r is Some <==> self.contents().dom().contains(key@),
            r is Some ==> r.unwrap()@ == self.contents()[key@].0,
    {
        match find_key(&self.entries, key) {
            Some(i) => {
                proof {
                    lemma_lookup_first_match(self.entries@, key@, i as int);
                }
                Some(slice_to_vec(self.entries[i].1.data.as_slice()))
            },
            None => {
                proof {
                    lemma_lookup_absent(self.entries@, key@);
                }
                None
            },
        }
    }

    /// Whether the store has been told to shut down.
    pub fn is_shutdown(&self) -> (r: bool)
        ensures
            r == self.spec_shutdown(),
    {
        self.shutdown
    }

    /// Raises the shutdown flag; nothing else changes.  The caller then
    /// wakes the reclaimer once so that it observes the flag.
    pub fn begin_shutdown(&mut self)
        ensures
            final(self).spec_shutdown(),
            final(self).contents() == old(self).contents(),
            final(self).index() == old(self).index(),
            old(self).wf() ==> final(self).wf(),
    {
        self.shutdown = true;
        proof {
            assert(final(self).contents() =~= old(self).contents());
            assert(final(self).index() =~= old(self).index());
        }
    }

    /// The earliest pending expiry instant, if any.
    pub fn next_expiration(&self) -> (r: Option<u64>)
        ensures
            r == self.next_expiry(),
    {
        if self.expirations.len() == 0 {
            None
        } else {
            Some(self.expirations[0].0)
        }
    }
}

/// When some position holds `k`, the lookup hits.
proof fn lemma_lookup_present(s: Seq<(Vec<u8>, Entry)>, k: Seq<u8>, i: int)
    requires
        0 <= i < s.len(),
        s[i].0@ == k,
    ensures
        alist_lookup(s, k) is Some,
    decreases i,
{
    if s[0].0@ != k {
        let t = s.skip(1);
        assert(t[i - 1] == s[i]);
        lemma_lookup_present(t, k, i - 1);
    }
}

/// The expiry instant that a store at `now` with duration `expiry`
/// yields: `now + expiry`, or nothing for a value without expiry.
pub open spec fn expiry_instant(expiry: Option<u64>, now: u64) -> Option<u64> {
    match expiry {
        Some(d) => Some((now + d) as u64),
        None => None,
    }
}

/// Whether an entry is due for removal at `now`.
pub open spec fn entry_due(e: (Seq<u8>, Option<u64>), now: u64) -> bool {
    match e.1 {
        Some(t) => t <= now,
        None => false,
    }
}

/// The contents that survive a purge at `now`: exactly the entries not
/// yet due.
pub open spec fn purged(m: Map<Seq<u8>, (Seq<u8>, Option<u64>)>, now: u64) -> Map<
    Seq<u8>,
    (Seq<u8>, Option<u64>),
> {
    Map::new(|k: Seq<u8>| m.dom().contains(k) && !entry_due(m[k], now), |k: Seq<u8>| m[k])
}

/// What one purge pass reports to the reclaimer.
#[derive(Debug, PartialEq, Eq, Structural)]
pub enum PurgeOutcome {
    /// The store is shutting down; the reclaimer must exit its loop.
    Shutdown,
    /// No expiry is pending; the reclaimer waits for a wake signal
    /// alone.
    Idle,
    /// The earliest remaining expiry instant; the reclaimer sleeps
    /// until then or until a wake signal, whichever comes first.
    NextExpiry(u64),
}

/// The index order is transitive.
proof fn lemma_pair_lt_trans(a: (u64, Seq<u8>), b: (u64, Seq<u8>), c: (u64, Seq<u8>))
    requires
        pair_lt(a, b),
        pair_lt(b, c),
    ensures
        pair_lt(a, c),
{
    if a.0 == b.0 && b.0 == c.0 {
        lemma_bytes_lt_trans(a.1, b.1, c.1);
    }
}

/// Inserts `(t, key)` into the index before the first pair that
/// follows it in the index order, and reports the position used.  The
/// key must not already have a pair.
fn insert_sorted(xs: &mut Vec<(u64, Vec<u8>)>, t: u64, key: Vec<u8>) -> (p: usize)
    requires
        forall|i: int, j: int|
            #![trigger old(xs)@[i], old(xs)@[j]]
            0 <= i < j < old(xs)@.len() ==> pair_lt(pview(old(xs)@[i]), pview(old(xs)@[j])),
        forall|i: int| 0 <= i < old(xs)@.len() ==> (#[trigger] old(xs)@[i]).1@ != key@,
    ensures
        p <= old(xs)@.len(),
        final(xs)@.len() == old(xs)@.len() + 1,
        forall|i: int| 0 <= i < p ==> final(xs)@[i] == old(xs)@[i],
        final(xs)@[p as int] == (t, key),
        forall|i: int| p < i < final(xs)@.len() ==> final(xs)@[i] == old(xs)@[i - 1],
        forall|i: int| 0 <= i < p ==> pair_lt(pview(#[trigger] old(xs)@[i]), (t, key@)),
        forall|i: int| p <= i < old(xs)@.len() ==> pair_lt((t, key@), pview(#[trigger] old(xs)@[i])),
{
    let probe: (u64, Vec<u8>) = (t, key);
    let mut p: usize = 0;
    while p < xs.len() && pair_lt_exec(&xs[p], &probe)
        invariant
            0 <= p <= xs@.len(),
            pview(probe) == (t, key@),
            forall|i: int| 0 <= i < p ==> pair_lt(pview(#[trigger] xs@[i]), (t, key@)),
        decreases xs@.len() - p,
    {
        p = p + 1;
    }
    proof {
        assert forall|i: int| p <= i < xs@.len() implies pair_lt(
            (t, key@),
            pview(#[trigger] xs@[i]),
        ) by {
            if i == p as int {
                lemma_bytes_lt_connex(key@, xs@[i].1@);
            } else {
                lemma_bytes_lt_connex(key@, xs@[p as int].1@);
                lemma_pair_lt_trans((t, key@), pview(xs@[p as int]), pview(xs@[i]));
            }
        }
        old(xs)@.insert_ensures(p as int, (t, key));
    }
    xs.insert(p, probe);
    p
}

/// Replacing a key's entry is, at the level of the contents map, one
/// insertion.
proof fn lemma_contents_insert(
    pre: State,
    mid: State,
    post: State,
    key: Seq<u8>,
    value: Seq<u8>,
    when: Option<u64>,
)
    requires
        mid.contents() == pre.contents().remove(key),
        forall|k2: Seq<u8>|
            #![trigger alist_lookup(post.entries@, k2)]
            alist_lookup(post.entries@, k2) == (if k2 == key {
                Some((value, when))
            } else {
                alist_lookup(mid.entries@, k2)
            }),
    ensures
        post.contents() == pre.contents().insert(key, (value, when)),
{
    let goal = pre.contents().insert(key, (value, when));
    assert forall|k2: Seq<u8>|
        #[trigger] post.contents().dom().contains(k2) == goal.dom().contains(k2) by {
        if k2 != key {
            assert(mid.contents().dom().contains(k2) == pre.contents().remove(key).dom().contains(
                k2,
            ));
        }
    }
    assert forall|k2: Seq<u8>| post.contents().dom().contains(k2) implies #[trigger] post.contents()[k2]
        == goal[k2] by {
        if k2 != key {
            assert(mid.contents()[k2] == pre.contents().remove(key)[k2]);
        }
    }
    assert(post.contents() =~= goal);
}

impl State {
    /// Removes the entry for `key` together with its index pair, if the
    /// key is present; afterwards no index pair carries the key.
    fn remove_key(&mut self, key: &[u8])
        requires
            old(self).wf(),
        ensures
            final(self).wf(),
            final(self).contents() == old(self).contents().remove(key@),
            final(self).spec_shutdown() == old(self).spec_shutdown(),
            forall|i: int|
                0 <= i < final(self).expirations@.len() ==> (#[trigger] final(self).expirations@[i]).1@ != key@,
            alist_lookup(final(self).entries@, key@) is None,
    {
        let ghost pre = *self;
        match find_key(&self.entries, key) {
            None => {
                proof {
                    lemma_lookup_absent(self.entries@, key@);
                    assert forall|i: int| 0 <= i < self.expirations@.len() implies (
                    #[trigger] self.expirations@[i]).1@ != key@ by {}
                    assert(self.contents() =~= pre.contents().remove(key@));
                }
            },
            Some(i) => {
                proof {
                    lemma_lookup_first_match(self.entries@, key@, i as int);
                }
                let ghost es0 = self.entries@;
                let ghost xs0 = self.expirations@;
                let prev = self.entries.remove(i);
                proof {
                    es0.remove_ensures(i as int);
                    assert forall|k2: Seq<u8>| true implies #[trigger] alist_lookup(
                        self.entries@,
                        k2,
                    ) == (if k2 == key@ {
                        None::<(Seq<u8>, Option<u64>)>
                    } else {
                        alist_lookup(es0, k2)
                    }) by {
                        lemma_lookup_remove(es0, i as int, k2);
                    }
                }
                match prev.1.expires_at {
                    Some(t0) => {
                        proof {
                            assert(es0[i as int].1.expires_at == Some(t0));
                        }
                        let j = find_pair(&self.expirations, t0, key);
                        self.expirations.remove(j);
                        proof {
                            xs0.remove_ensures(j as int);
                            let xs1 = self.expirations@;
                            // No surviving pair carries the key: a second
                            // pair for it would equal the removed one.
                            assert forall|q: int| 0 <= q < xs1.len() implies (
                            #[trigger] xs1[q]).1@ != key@ by {
                                let q0 = if q < j {
                                    q
                                } else {
                                    q + 1
                                };
                                assert(xs1[q] == xs0[q0]);
                                if xs0[q0].1@ == key@ {
                                    assert(xs0[q0].0 == t0);
                                    assert(pview(xs0[q0]) == (t0, key@));
                                    assert(pview(xs0[j as int]) == (t0, key@));
                                    lemma_bytes_lt_irrefl(key@);
                                }
                            }
                            assert forall|q: int|
                                0 <= q < xs1.len() implies match alist_lookup(
                                self.entries@,
                                (#[trigger] xs1[q]).1@,
                            ) {
                                Some(e) => e.1 == Some(xs1[q].0),
                                None => false,
                            } by {
                                let q0 = if q < j {
                                    q
                                } else {
                                    q + 1
                                };
                                assert(xs1[q] == xs0[q0]);
                            }
                            assert forall|q: int|
                                0 <= q < self.entries@.len() implies match (#[trigger] self
                                .entries@[q]).1.expires_at {
                                Some(t) => exists|w: int|
                                    0 <= w < xs1.len() && (#[trigger] xs1[w]).0 == t && xs1[w].1@
                                        == self.entries@[q].0@,
                                None => true,
                            } by {
                                let q0 = if q < i {
                                    q
                                } else {
                                    q + 1
                                };
                                assert(self.entries@[q] == es0[q0]);
                                match es0[q0].1.expires_at {
                                    Some(t) => {
                                        let w0 = choose|w: int|
                                            0 <= w < xs0.len() && (#[trigger] xs0[w]).0 == t
                                                && xs0[w].1@ == es0[q0].0@;
                                        lemma_lookup_present(es0, es0[q0].0@, q0);
                                        assert(es0[q0].0@ != key@);
                                        assert(w0 != j);
                                        let w1 = if w0 < j {
                                            w0
                                        } else {
                                            w0 - 1
                                        };
                                        assert(xs1[w1] == xs0[w0]);
                                        assert(0 <= w1 < xs1.len() && xs1[w1].0 == t && xs1[w1].1@
                                            == self.entries@[q].0@);
                                    },
                                    None => {},
                                }
                            }
                            assert(self.contents() =~= pre.contents().remove(key@));
                        }
                    },
                    None => {
                        proof {
                            let xs1 = self.expirations@;
                            assert forall|q: int| 0 <= q < xs1.len() implies (
                            #[trigger] xs1[q]).1@ != key@ by {}
                            assert forall|q: int|
                                0 <= q < self.entries@.len() implies match (#[trigger] self
                                .entries@[q]).1.expires_at {
                                Some(t) => exists|w: int|
                                    0 <= w < xs1.len() && (#[trigger] xs1[w]).0 == t && xs1[w].1@
                                        == self.entries@[q].0@,
                                None => true,
                            } by {
                                let q0 = if q < i {
                                    q
                                } else {
                                    q + 1
                                };
                                assert(self.entries@[q] == es0[q0]);
                            }
                            assert(self.contents() =~= pre.contents().remove(key@));
                        }
                    },
                }
            },
        }
    }

    /// Stores `value` under `key`, always succeeding.  With an expiry
    /// duration the entry expires at `now + expiry`; a previous entry
    /// for the key, and its index pair if any, is replaced first.  The
    /// result says whether the reclaimer must be woken: exactly when a
    /// new expiry is pending and either nothing was pending before or
    /// the new instant is strictly earlier than the earliest pending
    /// one.
    pub fn set(&mut self, key: Vec<u8>, value: Vec<u8>, expiry: Option<u64>, now: u64) -> (notify:
        bool)
        requires
            old(self).wf(),
            expiry matches Some(d) ==> now + d <= u64::MAX,
        ensures
            final(self).wf(),
            final(self).contents() == old(self).contents().insert(
                key@,
                (value@, expiry_instant(expiry, now)),
            ),
            final(self).spec_shutdown() == old(self).spec_shutdown(),
            notify == (match expiry_instant(expiry, now) {
                Some(w) => match old(self).next_expiry() {
                    Some(first) => w < first,
                    None => true,
                },
                None => false,
            }),
    {
        let when: Option<u64> = match expiry {
            Some(d) => Some(now + d),
            None => None,
        };
        let notify: bool = match when {
            Some(w) => match self.next_expiration() {
                Some(first) => w < first,
                None => true,
            },
            None => false,
        };
        let ghost pre = *self;
        self.remove_key(key.as_slice());
        let ghost mid = *self;
        proof {
            assert forall|j: int| 0 <= j < mid.entries@.len() implies (
            #[trigger] mid.entries@[j].0@) != key@ by {
                if mid.entries@[j].0@ == key@ {
                    lemma_lookup_present(mid.entries@, key@, j);
                }
            }
        }
        match when {
            Some(w) => {
                let key2: Vec<u8> = slice_to_vec(key.as_slice());
                let entry = Entry { data: value, expires_at: Some(w) };
                self.entries.push((key, entry));
                proof {
                    assert forall|k2: Seq<u8>| true implies #[trigger] alist_lookup(
                        self.entries@,
                        k2,
                    ) == (if k2 == key@ {
                        Some((value@, Some(w)))
                    } else {
                        alist_lookup(mid.entries@, k2)
                    }) by {
                        lemma_lookup_push(
                            mid.entries@,
                            (key, Entry { data: value, expires_at: Some(w) }),
                            k2,
                        );
                    }
                }
                let ghost xs1 = self.expirations@;
                let ghost es2 = self.entries@;
                let p = insert_sorted(&mut self.expirations, w, key2);
                proof {
                    let xs2 = self.expirations@;
                    // strictly ordered, so duplicate-free
                    assert forall|a: int, b: int|
                        #![trigger xs2[a], xs2[b]]
                        0 <= a < b < xs2.len() implies pair_lt(pview(xs2[a]), pview(xs2[b])) by {
                        let a0 = if a < p as int {
                            a
                        } else {
                            a - 1
                        };
                        let b0 = if b < p as int {
                            b
                        } else {
                            b - 1
                        };
                        if a == p as int {
                            assert(xs2[b] == xs1[b0]);
                        } else if b == p as int {
                            assert(xs2[a] == xs1[a0]);
                        } else {
                            assert(xs2[a] == xs1[a0]);
                            assert(xs2[b] == xs1[b0]);
                        }
                    }
                    // every pair matches its entry's expiry
                    assert forall|q: int|
                        0 <= q < xs2.len() implies match alist_lookup(
                        es2,
                        (#[trigger] xs2[q]).1@,
                    ) {
                        Some(e) => e.1 == Some(xs2[q].0),
                        None => false,
                    } by {
                        if q != p as int {
                            let q0 = if q < p as int {
                                q
                            } else {
                                q - 1
                            };
                            assert(xs2[q] == xs1[q0]);
                            assert(xs1[q0].1@ != key@);
                        }
                    }
                    // every expiring entry has its pair
                    assert forall|q: int|
                        0 <= q < es2.len() implies match (#[trigger] es2[q]).1.expires_at {
                        Some(t) => exists|w2: int|
                            0 <= w2 < xs2.len() && (#[trigger] xs2[w2]).0 == t && xs2[w2].1@
                                == es2[q].0@,
                        None => true,
                    } by {
                        if q == es2.len() - 1 {
                            assert(xs2[p as int].0 == w && xs2[p as int].1@ == es2[q].0@);
                        } else {
                            assert(es2[q] == mid.entries@[q]);
                            match es2[q].1.expires_at {
                                Some(t) => {
                                    let w0 = choose|w2: int|
                                        0 <= w2 < xs1.len() && (#[trigger] xs1[w2]).0 == t
                                            && xs1[w2].1@ == mid.entries@[q].0@;
                                    let w1 = if w0 < p as int {
                                        w0
                                    } else {
                                        w0 + 1
                                    };
                                    assert(xs2[w1] == xs1[w0]);
                                    assert(0 <= w1 < xs2.len() && xs2[w1].0 == t && xs2[w1].1@
                                        == es2[q].0@);
                                },
                                None => {},
                            }
                        }
                    }
                    lemma_contents_insert(pre, mid, *self, key@, value@, Some(w));
                }
            },
            None => {
                let entry = Entry { data: value, expires_at: None };
                self.entries.push((key, entry));
                proof {
                    assert forall|k2: Seq<u8>| true implies #[trigger] alist_lookup(
                        self.entries@,
                        k2,
                    ) == (if k2 == key@ {
                        Some((value@, None::<u64>))
                    } else {
                        alist_lookup(mid.entries@, k2)
                    }) by {
                        lemma_lookup_push(
                            mid.entries@,
                            (key, Entry { data: value, expires_at: None }),
                            k2,
                        );
                    }
                    let es2 = self.entries@;
                    let xs2 = self.expirations@;
                    assert forall|q: int|
                        0 <= q < xs2.len() implies match alist_lookup(
                        es2,
                        (#[trigger] xs2[q]).1@,
                    ) {
                        Some(e) => e.1 == Some(xs2[q].0),
                        None => false,
                    } by {
                        assert(xs2[q].1@ != key@);
                    }
                    assert forall|q: int|
                        0 <= q < es2.len() implies match (#[trigger] es2[q]).1.expires_at {
                        Some(t) => exists|w2: int|
                            0 <= w2 < xs2.len() && (#[trigger] xs2[w2]).0 == t && xs2[w2].1@
                                == es2[q].0@,
                        None => true,
                    } by {
                        if q < es2.len() - 1 {
                            assert(es2[q] == mid.entries@[q]);
                        }
                    }
                    lemma_contents_insert(pre, mid, *self, key@, value@, None::<u64>);
                }
            },
        }
        notify
    }

    /// One purge pass for the reclaimer.  With shutdown raised it
    /// reports `Shutdown` and changes nothing.  Otherwise it removes
    /// every entry whose expiry is at or before `now` and reports the
    /// earliest remaining expiry instant, or `Idle` when no expiry is
    /// pending any more.
    #[verifier::loop_isolation(false)]
    pub fn purge_expired_keys(&mut self, now: u64) -> (r: PurgeOutcome)
        requires
            old(self).wf(),
        ensures
            final(self).wf(),
            final(self).spec_shutdown() == old(self).spec_shutdown(),
            old(self).spec_shutdown() ==> r == PurgeOutcome::Shutdown && *final(self) == *old(
                self,
            ),
            !old(self).spec_shutdown() ==> final(self).contents() == purged(
                old(self).contents(),
                now,
            ),
            !old(self).spec_shutdown() ==> match r {
                PurgeOutcome::Shutdown => false,
                PurgeOutcome::Idle => final(self).next_expiry() is None,
                PurgeOutcome::NextExpiry(t) => final(self).next_expiry() == Some(t) && t > now,
            },
    {
        if self.shutdown {
            return PurgeOutcome::Shutdown;
        }
        let ghost pre = *self;
        while self.expirations.len() > 0 && self.expirations[0].0 <= now
            invariant
                self.wf(),
                self.shutdown == false,
                forall|k: Seq<u8>|
                    #![trigger alist_lookup(self.entries@, k)]
                    (alist_lookup(self.entries@, k) is Some ==> alist_lookup(pre.entries@, k)
                        == alist_lookup(self.entries@, k)) && (alist_lookup(self.entries@, k)
                        is None ==> (alist_lookup(pre.entries@, k) is None || entry_due(
                        alist_lookup(pre.entries@, k).unwrap(),
                        now,
                    ))),
            decreases self.expirations@.len(),
        {
            let ghost st0 = *self;
            let ghost es0 = self.entries@;
            let ghost xs0 = self.expirations@;
            proof {
                assert(st0.wf());
                assert(match alist_lookup(es0, (st0.expirations@[0]).1@) {
                    Some(e) => e.1 == Some(st0.expirations@[0].0),
                    None => false,
                });
            }
            let pair = self.expirations.remove(0);
            proof {
                xs0.remove_ensures(0);
            }
            let i = match find_key(&self.entries, pair.1.as_slice()) {
                Some(i) => i,
                None => {
                    proof {
                        lemma_lookup_some_position(es0, pair.1@);
                        assert(false);
                    }
                    0
                },
            };
            proof {
                lemma_lookup_first_match(es0, pair.1@, i as int);
            }
            self.entries.remove(i);
            proof {
                es0.remove_ensures(i as int);
                let t0 = pair.0;
                let k0 = pair.1@;
                let es1 = self.entries@;
                let xs1 = self.expirations@;
                assert(alist_lookup(es0, k0) == Some((es0[i as int].1.data@, Some(t0))));
                assert forall|k2: Seq<u8>| true implies #[trigger] alist_lookup(es1, k2) == (if k2
                    == k0 {
                    None::<(Seq<u8>, Option<u64>)>
                } else {
                    alist_lookup(es0, k2)
                }) by {
                    lemma_lookup_remove(es0, i as int, k2);
                }
                // surviving pairs have other keys
                assert forall|q: int| 0 <= q < xs1.len() implies (#[trigger] xs1[q]).1@ != k0 by {
                    assert(xs1[q] == xs0[q + 1]);
                    if xs0[q + 1].1@ == k0 {
                        assert(xs0[q + 1].0 == t0);
                        assert(pview(xs0[q + 1]) == (t0, k0));
                        assert(pview(xs0[0]) == (t0, k0));
                        lemma_bytes_lt_irrefl(k0);
                    }
                }
                // pair/entry correspondence still holds
                assert forall|q: int|
                    0 <= q < xs1.len() implies match alist_lookup(es1, (#[trigger] xs1[q]).1@) {
                    Some(e) => e.1 == Some(xs1[q].0),
                    None => false,
                } by {
                    assert(xs1[q] == xs0[q + 1]);
                }
                assert forall|q: int|
                    0 <= q < es1.len() implies match (#[trigger] es1[q]).1.expires_at {
                    Some(t) => exists|w: int|
                        0 <= w < xs1.len() && (#[trigger] xs1[w]).0 == t && xs1[w].1@ == es1[q].0@,
                    None => true,
                } by {
                    let q0 = if q < i as int {
                        q
                    } else {
                        q + 1
                    };
                    assert(es1[q] == es0[q0]);
                    match es0[q0].1.expires_at {
                        Some(t) => {
                            let w0 = choose|w: int|
                                0 <= w < xs0.len() && (#[trigger] xs0[w]).0 == t && xs0[w].1@
                                    == es0[q0].0@;
                            lemma_lookup_present(es0, es0[q0].0@, q0);
                            assert(es0[q0].0@ != k0);
                            assert(w0 != 0);
                            assert(xs1[w0 - 1] == xs0[w0]);
                            assert(0 <= w0 - 1 < xs1.len() && xs1[w0 - 1].0 == t && xs1[w0 - 1].1@
                                == es1[q].0@);
                        },
                        None => {},
                    }
                }
            }
        }
        proof {
            let goal = purged(pre.contents(), now);
            assert forall|k: Seq<u8>|
                #[trigger] self.contents().dom().contains(k) == goal.dom().contains(k) by {
                if alist_lookup(self.entries@, k) is Some {
                    // a surviving entry is not due: its pair would sit at
                    // or before the front of the sorted index
                    let e = alist_lookup(self.entries@, k).unwrap();
                    lemma_lookup_some_position(self.entries@, k);
                    let q = choose|q: int|
                        0 <= q < self.entries@.len() && (#[trigger] self.entries@[q]).0@ == k
                            && alist_lookup(self.entries@, k) == Some(
                            (self.entries@[q].1.data@, self.entries@[q].1.expires_at),
                        );
                    match self.entries@[q].1.expires_at {
                        Some(t) => {
                            let w = choose|w: int|
                                0 <= w < self.expirations@.len() && (
                                #[trigger] self.expirations@[w]).0 == t
                                    && self.expirations@[w].1@ == self.entries@[q].0@;
                            assert(self.expirations@[0].0 <= self.expirations@[w].0);
                            assert(t > now);
                        },
                        None => {},
                    }
                }
            }
            assert forall|k: Seq<u8>| self.contents().dom().contains(k) implies #[trigger] self.contents()[k]
                == goal[k] by {}
            assert(self.contents() =~= goal);
        }
        if self.expirations.len() == 0 {
            PurgeOutcome::Idle
        } else {
            PurgeOutcome::NextExpiry(self.expirations[0].0)
        }
    }

    /// Snapshots up to `limit` entries (10 when no limit is given) as
    /// `key: value` byte strings, in iteration order.  A diagnostic
    /// view: expiry is not consulted.
    pub fn list(&self, limit: Option<usize>) -> (r: Vec<Vec<u8>>)
        ensures
            r@.len() == (if (match limit {
                Some(l) => l as int,
                None => 10int,
            }) <= self.entries_seq().len() {
                match limit {
                    Some(l) => l as int,
                    None => 10int,
                }
            } else {
                self.entries_seq().len() as int
            }),
            forall|i: int|
                0 <= i < r@.len() ==> (#[trigger] r@[i])@ == self.entries_seq()[i].0 + seq![
                    58u8,
                    32u8,
                ] + self.entries_seq()[i].1,
            limit is None ==> r@.len() <= 10,
            limit matches Some(l) ==> r@.len() <= l,
    {
        let cap: usize = match limit {
            Some(l) => l,
            None => 10,
        };
        let n: usize = if cap <= self.entries.len() {
            cap
        } else {
            self.entries.len()
        };
        let mut out: Vec<Vec<u8>> = Vec::new();
        let mut i: usize = 0;
        while i < n
            invariant
                0 <= i <= n <= self.entries@.len(),
                out@.len() == i,
                forall|j: int|
                    0 <= j < i ==> (#[trigger] out@[j])@ == self.entries_seq()[j].0 + seq![
                        58u8,
                        32u8,
                    ] + self.entries_seq()[j].1,
            decreases n - i,
        {
            let mut line: Vec<u8> = slice_to_vec(self.entries[i].0.as_slice());
            line.push(58);
            line.push(32);
            push_all(&mut line, self.entries[i].1.data.as_slice());
            proof {
                assert(line@ =~= self.entries_seq()[i as int].0 + seq![58u8, 32u8]
                    + self.entries_seq()[i as int].1);
            }
            out.push(line);
            i = i + 1;
        }
        out
    }
}

/// The entry listing is backed by one in-memory vector, so its length
/// fits the machine's word.
pub proof fn lemma_entries_len_bound(s: State)
    ensures
        s.entries_seq().len() <= usize::MAX,
{
    assert(vstd::std_specs::vec::spec_vec_len(&s.entries) == s.entries@.len());
    assert(s.entries_seq().len() == s.entries@.len());
}

/// Law: after storing `(v, e)` under `k`, a lookup of `k` yields
/// exactly `(v, e)` — a store with no expiry followed at once by a read
/// of the same key returns the value just written.
pub proof fn lemma_set_then_get(
    m: Map<Seq<u8>, (Seq<u8>, Option<u64>)>,
    k: Seq<u8>,
    v: Seq<u8>,
    e: Option<u64>,
)
    ensures
        m.insert(k, (v, e)).dom().contains(k),
        m.insert(k, (v, e))[k] == (v, e),
{
}

/// Law: stores under distinct keys do not disturb one another; after
/// two stores under different keys, both values are visible.
pub proof fn lemma_disjoint_sets_visible(
    m: Map<Seq<u8>, (Seq<u8>, Option<u64>)>,
    k1: Seq<u8>,
    v1: Seq<u8>,
    e1: Option<u64>,
    k2: Seq<u8>,
    v2: Seq<u8>,
    e2: Option<u64>,
)
    requires
        k1 != k2,
    ensures
        m.insert(k1, (v1, e1)).insert(k2, (v2, e2))[k1] == (v1, e1),
        m.insert(k1, (v1, e1)).insert(k2, (v2, e2))[k2] == (v2, e2),
        m.insert(k1, (v1, e1)).insert(k2, (v2, e2)).dom().contains(k1),
        m.insert(k1, (v1, e1)).insert(k2, (v2, e2)).dom().contains(k2),
{
}

/// Law: a value's survival of a purge cycle is decided by its expiry
/// alone.  A value stored to expire at `t` is still read back after a
/// purge at any `now` before `t`, and is gone after a purge at or past
/// `t`; a value without expiry survives every purge.
pub proof fn lemma_expiry_visibility(
    m: Map<Seq<u8>, (Seq<u8>, Option<u64>)>,
    k: Seq<u8>,
    v: Seq<u8>,
    t: u64,
    now: u64,
)
    ensures
        now < t ==> purged(m.insert(k, (v, Some(t))), now).dom().contains(k) && purged(
            m.insert(k, (v, Some(t))),
            now,
        )[k] == (v, Some(t)),
        t <= now ==> !purged(m.insert(k, (v, Some(t))), now).dom().contains(k),
        purged(m.insert(k, (v, None)), now).dom().contains(k) && purged(
            m.insert(k, (v, None)),
            now,
        )[k] == (v, None::<u64>),
{
}

/// Law: the head of a well-formed expiration index is the earliest
/// pending expiry — what the reclaimer sleeps until.
pub proof fn lemma_next_expiry_is_earliest(s: State)
    requires
        s.wf(),
    ensures
        match s.next_expiry() {
            Some(t) => forall|i: int|
                0 <= i < s.index().len() ==> t <= (#[trigger] s.index()[i]).0,
            None => s.index().len() == 0,
        },
{
    let xs = s.expirations@;
    if xs.len() > 0 {
        let t = xs[0].0;
        assert forall|i: int| 0 <= i < s.index().len() implies t <= (
        #[trigger] s.index()[i]).0 by {
            if i > 0 {
                assert(pair_lt(pview(xs[0]), pview(xs[i])));
            }
        }
    }
}

/// Law: the expiration index holds exactly one pair for each key with a
/// pending expiry — pair keys are distinct, every pair matches its
/// entry's expiry, and every expiring entry has its pair.  Repeated
/// stores on one key therefore never leave more than one pair for it.
pub proof fn lemma_index_exact(s: State)
    requires
        s.wf(),
    ensures
        forall|i: int, j: int|
            0 <= i < j < s.index().len() ==> (#[trigger] s.index()[i]).1 != (
            #[trigger] s.index()[j]).1,
        forall|i: int|
            0 <= i < s.index().len() ==> s.contents().dom().contains((#[trigger] s.index()[i]).1)
                && s.contents()[s.index()[i].1].1 == Some(s.index()[i].0),
        forall|k: Seq<u8>|
            s.contents().dom().contains(k) && (#[trigger] s.contents()[k]).1 is Some ==> exists|
                i: int,
            |
                0 <= i < s.index().len() && (#[trigger] s.index()[i]) == (
                    s.contents()[k].1.unwrap(),
                    k,
                ),
{
    let es = s.entries@;
    let xs = s.expirations@;
    assert forall|i: int, j: int| 0 <= i < j < s.index().len() implies (
    #[trigger] s.index()[i]).1 != (#[trigger] s.index()[j]).1 by {
        if xs[i].1@ == xs[j].1@ {
            assert(match alist_lookup(es, xs[i].1@) {
                Some(e) => e.1 == Some(xs[i].0),
                None => false,
            });
            assert(match alist_lookup(es, xs[j].1@) {
                Some(e) => e.1 == Some(xs[j].0),
                None => false,
            });
            assert(pview(xs[i]) == pview(xs[j]));
            lemma_bytes_lt_irrefl(xs[i].1@);
        }
    }
    assert forall|k: Seq<u8>|
        s.contents().dom().contains(k) && (#[trigger] s.contents()[k]).1 is Some implies exists|
        i: int,
    |
        0 <= i < s.index().len() && (#[trigger] s.index()[i]) == (
            s.contents()[k].1.unwrap(),
            k,
        ) by {
        lemma_lookup_some_position(es, k);
        let q = choose|q: int|
            0 <= q < es.len() && (#[trigger] es[q]).0@ == k && alist_lookup(es, k) == Some(
                (es[q].1.data@, es[q].1.expires_at),
            );
        let t = s.contents()[k].1.unwrap();
        assert(es[q].1.expires_at == Some(t));
        let w = choose|w: int|
            0 <= w < xs.len() && (#[trigger] xs[w]).0 == t && xs[w].1@ == es[q].0@;
        assert(s.index()[w] == (t, k));
    }
}

} // verus!
