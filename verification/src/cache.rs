use vstd::prelude::*;

verus! {

/// Largest number of decode tasks that may be outstanding at the same time.
/// Requests beyond this ceiling are left undispatched until a slot frees.
pub const MAX_CONCURRENT_LOADS: usize = 10;

/// The state the cache records for one image path.
#[derive(Clone, Copy, PartialEq, Eq, Debug)]
pub enum ThumbState {
    /// Never dispatched: the cache holds no entry for the key.
    Absent,
    /// A decode task is outstanding and its result has not been observed yet.
    Pending,
    /// Decoding finished; the renderer holds a texture under this handle.
    Ready(u64),
    /// Decoding was attempted once and permanently produced no bitmap.
    Failed,
}

/// First handle recorded for a key in an association list, if any.
pub open spec fn lookup(s: Seq<(String, u64)>, k: Seq<char>) -> Option<u64>
    decreases s.len(),
{
    if s.len() == 0 {
        None
    } else if s[0].0@ == k {
        Some(s[0].1)
    } else {
        lookup(s.drop_first(), k)
    }
}

/// Whether some string of the sequence reads as `k`.
pub open spec fn has_str(s: Seq<String>, k: Seq<char>) -> bool {
    exists|i: int| 0 <= i < s.len() && s[i]@ == k
}

/// Whether some entry of the association list is keyed by `k`.
pub open spec fn has_key(s: Seq<(String, u64)>, k: Seq<char>) -> bool {
    exists|i: int| 0 <= i < s.len() && s[i].0@ == k
}

/// Per-key thumbnail bookkeeping: which keys hold a renderable texture,
/// which have a decode task outstanding, and which failed permanently.
///
/// A key is in at most one of the three tables; a key in none of them was
/// never dispatched, so no eager work happens for keys never asked for. Once
/// a key reaches `Ready` or `Failed` it never leaves that state: no operation
/// of the cache removes or rewrites such an entry.
pub struct ThumbnailCache {
    ready: Vec<(String, u64)>,
    pending: Vec<String>,
    failed: Vec<String>,
}

impl ThumbnailCache {
    /// The tables hold each key at most once, never in two tables at once,
    /// and the number of outstanding tasks stays under the ceiling.
    pub closed spec fn wf(self) -> bool {
        &&& forall|i: int, j: int|
            0 <= i < j < self.ready@.len() ==> self.ready@[i].0@ != self.ready@[j].0@
        &&& forall|i: int, j: int|
            0 <= i < j < self.pending@.len() ==> self.pending@[i]@ != self.pending@[j]@
        &&& forall|i: int, j: int|
            0 <= i < j < self.failed@.len() ==> self.failed@[i]@ != self.failed@[j]@
        &&& forall|i: int, j: int|
            0 <= i < self.ready@.len() && 0 <= j < self.pending@.len()
                ==> self.ready@[i].0@ != self.pending@[j]@
        &&& forall|i: int, j: int|
            0 <= i < self.ready@.len() && 0 <= j < self.failed@.len()
                ==> self.ready@[i].0@ != self.failed@[j]@
        &&& forall|i: int, j: int|
            0 <= i < self.pending@.len() && 0 <= j < self.failed@.len()
                ==> self.pending@[i]@ != self.failed@[j]@
        &&& self.pending@.len() <= MAX_CONCURRENT_LOADS
    }

    /// Number of decode tasks currently outstanding.
    pub closed spec fn in_flight(self) -> nat {
        self.pending@.len()
    }

    /// The state recorded for key `k`: `Absent` when no table holds it.
    pub closed spec fn state_of(self, k: Seq<char>) -> ThumbState {
        match lookup(self.ready@, k) {
            Some(h) => ThumbState::Ready(h),
            None => if has_str(self.pending@, k) {
                ThumbState::Pending
            } else if has_str(self.failed@, k) {
                ThumbState::Failed
            } else {
                ThumbState::Absent
            },
        }
    }

    /// A fresh cache: every key is `Absent` and nothing is outstanding,
    /// so no work has been done for any key before its first request.
    pub fn new() -> (c: ThumbnailCache)
        ensures
            c.wf(),
            c.in_flight() == 0,
            forall|k: Seq<char>| c.state_of(k) is Absent,
    {
        ThumbnailCache { ready: Vec::new(), pending: Vec::new(), failed: Vec::new() }
    }

    /// Number of decode tasks currently outstanding; never above the ceiling.
    pub fn pending_count(&self) -> (n: usize)
        requires
            self.wf(),
        ensures
            n == self.in_flight(),
            n <= MAX_CONCURRENT_LOADS,
    {
        self.pending.len()
    }

    /// Reads the recorded state of `key` and changes nothing, so two probes
    /// of the same key with no resolution in between report the same state.
    pub fn probe(&self, key: &String) -> (r: ThumbState)
        ensures
            r == self.state_of(key@),
    {
        let mut i: usize = 0;
        while i < self.ready.len()
            invariant
                i <= self.ready@.len(),
                forall|j: int| 0 <= j < i ==> self.ready@[j].0@ != key@,
            decreases self.ready@.len() - i,
        {
            if self.ready[i].0 == *key {
                proof {
                    lemma_lookup_first(self.ready@, i as int, key@);
                }
                return ThumbState::Ready(self.ready[i].1);
            }
            i += 1;
        }
        proof {
            lemma_lookup_none(self.ready@, key@);
        }
        if contains_str(&self.pending, key) {
            ThumbState::Pending
        } else if contains_str(&self.failed, key) {
            ThumbState::Failed
        } else {
            ThumbState::Absent
        }
    }

    /// Admits a never-seen key as an outstanding decode task, if the ceiling
    /// leaves room. Returns whether the caller must now spawn the task.
    ///
    /// A key already `Pending`, `Ready` or `Failed` is never re-admitted, and
    /// the call then changes nothing: resolved outcomes are permanent and a
    /// request beyond the ceiling is simply deferred. No other key's state
    /// moves.
    pub fn try_dispatch(&mut self, key: &String) -> (dispatched: bool)
        requires
            old(self).wf(),
        ensures
            final(self).wf(),
            dispatched == (old(self).state_of(key@) is Absent
                && old(self).in_flight() < MAX_CONCURRENT_LOADS),
            dispatched ==> final(self).state_of(key@) is Pending
                && final(self).in_flight() == old(self).in_flight() + 1,
            !dispatched ==> *final(self) == *old(self),
            forall|k: Seq<char>| k != key@ ==> final(self).state_of(k) == old(self).state_of(k),
    {
        let state = self.probe(key);
        match state {
            ThumbState::Absent => {},
            _ => {
                return false;
            },
        }
        if self.pending.len() >= MAX_CONCURRENT_LOADS {
            return false;
        }
        proof {
            lemma_lookup_iff(self.ready@, key@);
        }
        self.pending.push(key.clone());
        proof {
            let sp = self.pending@;
            let op = old(self).pending@;
            lemma_has_str_push(op, *key, key@);
            assert forall|k: Seq<char>| k != key@ implies final(self).state_of(k) == old(
                self,
            ).state_of(k) by {
                lemma_has_str_push(op, *key, k);
            }
            assert forall|i: int, j: int| 0 <= i < j < sp.len() implies sp[i]@ != sp[j]@ by {
                if j < op.len() {
                } else {
                    assert(sp[j]@ == key@);
                    assert(sp[i] == op[i]);
                }
            }
            assert forall|i: int, j: int|
                0 <= i < self.ready@.len() && 0 <= j < sp.len() implies self.ready@[i].0@
                != sp[j]@ by {
                if j < op.len() {
                } else {
                    assert(sp[j]@ == key@);
                    assert(!has_key(self.ready@, key@));
                }
            }
            assert forall|i: int, j: int|
                0 <= i < sp.len() && 0 <= j < self.failed@.len() implies sp[i]@
                != self.failed@[j]@ by {
                if i < op.len() {
                } else {
                    assert(sp[i]@ == key@);
                    assert(!has_str(self.failed@, key@));
                }
            }
        }
        true
    }

    /// Records the bitmap handle for a key whose decode task completed with a
    /// result: the key leaves the outstanding table, permanently becomes
    /// `Ready(handle)`, a task slot frees, and no other key's state moves.
    pub fn resolve_ready(&mut self, key: &String, handle: u64)
        requires
            old(self).wf(),
            old(self).state_of(key@) is Pending,
        ensures
            final(self).wf(),
            final(self).state_of(key@) == ThumbState::Ready(handle),
            final(self).in_flight() == old(self).in_flight() - 1,
            forall|k: Seq<char>| k != key@ ==> final(self).state_of(k) == old(self).state_of(k),
    {
        self.remove_pending(key);
        let pair = (key.clone(), handle);
        proof {
            let or = self.ready@;
            let nr = or.push(pair);
            assert(pair.0@ == key@);
            lemma_lookup_iff(or, key@);
            lemma_lookup_push(or, pair, key@);
            assert forall|k: Seq<char>| k != key@ implies lookup(nr, k) == lookup(or, k) by {
                lemma_lookup_push(or, pair, k);
                lemma_lookup_iff(or, k);
            }
            assert forall|i: int, j: int| 0 <= i < j < nr.len() implies nr[i].0@ != nr[j].0@ by {
                if j < or.len() {
                } else {
                    assert(nr[j].0@ == key@);
                    assert(nr[i] == or[i]);
                    assert(!has_key(or, key@));
                }
            }
            assert forall|i: int, j: int|
                0 <= i < nr.len() && 0 <= j < self.pending@.len() implies nr[i].0@
                != self.pending@[j]@ by {
                if i < or.len() {
                } else {
                    assert(nr[i].0@ == key@);
                    assert(!has_str(self.pending@, key@));
                }
            }
            assert forall|i: int, j: int|
                0 <= i < nr.len() && 0 <= j < self.failed@.len() implies nr[i].0@
                != self.failed@[j]@ by {
                if i < or.len() {
                } else {
                    assert(nr[i].0@ == key@);
                    assert(!has_str(self.failed@, key@));
                }
            }
        }
        self.ready.push(pair);
    }

    /// Records a permanent failure for a key whose decode task completed with
    /// no result: the key leaves the outstanding table, permanently becomes
    /// `Failed` (never `Ready`), a task slot frees, and no other key moves.
    pub fn resolve_failed(&mut self, key: &String)
        requires
            old(self).wf(),
            old(self).state_of(key@) is Pending,
        ensures
            final(self).wf(),
            final(self).state_of(key@) == ThumbState::Failed,
            final(self).in_flight() == old(self).in_flight() - 1,
            forall|k: Seq<char>| k != key@ ==> final(self).state_of(k) == old(self).state_of(k),
    {
        self.remove_pending(key);
        let kc = key.clone();
        proof {
            let of = self.failed@;
            let nf = of.push(kc);
            lemma_lookup_iff(self.ready@, key@);
            lemma_has_str_push(of, *key, key@);
            assert forall|k: Seq<char>| k != key@ implies has_str(nf, k) == has_str(of, k) by {
                lemma_has_str_push(of, *key, k);
            }
            assert forall|i: int, j: int| 0 <= i < j < nf.len() implies nf[i]@ != nf[j]@ by {
                if j < of.len() {
                } else {
                    assert(nf[j]@ == key@);
                    assert(nf[i] == of[i]);
                    assert(!has_str(of, key@));
                }
            }
            assert forall|i: int, j: int|
                0 <= i < self.ready@.len() && 0 <= j < nf.len() implies self.ready@[i].0@
                != nf[j]@ by {
                if j < of.len() {
                } else {
                    assert(nf[j]@ == key@);
                    assert(!has_key(self.ready@, key@));
                }
            }
            assert forall|i: int, j: int|
                0 <= i < self.pending@.len() && 0 <= j < nf.len() implies self.pending@[i]@
                != nf[j]@ by {
                if j < of.len() {
                } else {
                    assert(nf[j]@ == key@);
                    assert(!has_str(self.pending@, key@));
                }
            }
        }
        self.failed.push(kc);
    }

    /// The outstanding-task table never holds more than the ceiling's worth
    /// of keys, however the dispatch operation was exercised.
    pub proof fn lemma_in_flight_bounded(self)
        requires
            self.wf(),
        ensures
            self.in_flight() <= MAX_CONCURRENT_LOADS,
    {
    }

    /// Takes the single occurrence of `key` out of the outstanding table.
    #[verifier::loop_isolation(false)]
    fn remove_pending(&mut self, key: &String)
        requires
            old(self).wf(),
            old(self).state_of(key@) is Pending,
        ensures
            final(self).wf(),
            final(self).ready@ == old(self).ready@,
            final(self).failed@ == old(self).failed@,
            final(self).pending@.len() == old(self).pending@.len() - 1,
            !has_str(final(self).pending@, key@),
            forall|k: Seq<char>|
                k != key@ ==> has_str(final(self).pending@, k) == has_str(old(self).pending@, k),
    {
        let ghost op = self.pending@;
        let mut i: usize = 0;
        while i < self.pending.len()
            invariant
                self.pending@ == op,
                op == old(self).pending@,
                self.ready@ == old(self).ready@,
                self.failed@ == old(self).failed@,
                i <= op.len(),
                forall|j: int| 0 <= j < i ==> op[j]@ != key@,
                has_str(op, key@),
            decreases op.len() - i,
        {
            if self.pending[i] == *key {
                proof {
                    assert(op[i as int]@ == key@);
                }
                self.pending.remove(i);
                proof {
                    let np = self.pending@;
                    assert(np == op.remove(i as int));
                    assert forall|a: int| 0 <= a < np.len() implies np[a]@ != key@ by {
                        if a < i {
                            assert(np[a] == op[a]);
                        } else {
                            assert(np[a] == op[a + 1]);
                            assert((i as int) < a + 1 && a + 1 < op.len());
                            assert(old(self).pending@[i as int]@ != old(self).pending@[a + 1]@);
                        }
                    }
                    assert forall|k: Seq<char>| k != key@ implies has_str(np, k) == has_str(
                        op,
                        k,
                    ) by {
                        if has_str(np, k) {
                            let a = choose|a: int| 0 <= a < np.len() && np[a]@ == k;
                            if a < i {
                                assert(op[a]@ == k);
                            } else {
                                assert(op[a + 1]@ == k);
                            }
                            assert(has_str(op, k));
                        }
                        if has_str(op, k) {
                            let a = choose|a: int| 0 <= a < op.len() && op[a]@ == k;
                            if a < i {
                                assert(np[a]@ == k);
                            } else {
                                assert(a != i);
                                assert(np[a - 1]@ == k);
                            }
                            assert(has_str(np, k));
                        }
                    }
                    assert forall|a: int, b: int| 0 <= a < b < np.len() implies np[a]@
                        != np[b]@ by {
                        let a0: int = if a < i { a } else { a + 1 };
                        let b0: int = if b < i { b } else { b + 1 };
                        assert(np[a] == op[a0]);
                        assert(np[b] == op[b0]);
                    }
                    assert forall|a: int, b: int|
                        0 <= a < self.ready@.len() && 0 <= b < np.len() implies self.ready@[a].0@
                        != np[b]@ by {
                        let b0: int = if b < i { b } else { b + 1 };
                        assert(np[b] == op[b0]);
                        assert(old(self).ready@[a].0@ != old(self).pending@[b0]@);
                    }
                    assert forall|a: int, b: int|
                        0 <= a < np.len() && 0 <= b < self.failed@.len() implies np[a]@
                        != self.failed@[b]@ by {
                        let a0: int = if a < i { a } else { a + 1 };
                        assert(np[a] == op[a0]);
                        assert(old(self).pending@[a0]@ != old(self).failed@[b]@);
                    }
                }
                return ;
            }
            i += 1;
        }
        proof {
            let w = choose|j: int| 0 <= j < op.len() && op[j]@ == key@;
            assert(false);
        }
        unreached()
    }
}

/// Scans for a string equal to `key`.
fn contains_str(v: &Vec<String>, key: &String) -> (r: bool)
    ensures
        r == has_str(v@, key@),
{
    let mut i: usize = 0;
    while i < v.len()
        invariant
            i <= v@.len(),
            forall|j: int| 0 <= j < i ==> v@[j]@ != key@,
        decreases v@.len() - i,
    {
        if v[i] == *key {
            assert(v@[i as int]@ == key@);
            return true;
        }
        i += 1;
    }
    false
}

/// `lookup` returns the handle at the first index whose key matches.
proof fn lemma_lookup_first(s: Seq<(String, u64)>, i: int, k: Seq<char>)
    requires
        0 <= i < s.len(),
        s[i].0@ == k,
        forall|j: int| 0 <= j < i ==> s[j].0@ != k,
    ensures
        lookup(s, k) == Some(s[i].1),
    decreases i,
{
    if i > 0 {
        assert forall|j: int| 0 <= j < i - 1 implies s.drop_first()[j].0@ != k by {
            assert(s.drop_first()[j] == s[j + 1]);
        }
        assert(s.drop_first()[i - 1] == s[i]);
        lemma_lookup_first(s.drop_first(), i - 1, k);
    }
}

/// `lookup` misses when no entry carries the key.
proof fn lemma_lookup_none(s: Seq<(String, u64)>, k: Seq<char>)
    requires
        forall|i: int| 0 <= i < s.len() ==> s[i].0@ != k,
    ensures
        lookup(s, k) is None,
    decreases s.len(),
{
    if s.len() > 0 {
        assert(s[0].0@ != k);
        assert forall|j: int| 0 <= j < s.drop_first().len() implies s.drop_first()[j].0@ != k by {
            assert(s.drop_first()[j] == s[j + 1]);
        }
        lemma_lookup_none(s.drop_first(), k);
    }
}

/// `lookup` finds a handle exactly when some entry carries the key.
proof fn lemma_lookup_iff(s: Seq<(String, u64)>, k: Seq<char>)
    ensures
        lookup(s, k) is Some <==> has_key(s, k),
    decreases s.len(),
{
    if s.len() > 0 {
        lemma_lookup_iff(s.drop_first(), k);
        if s[0].0@ == k {
        } else {
            if has_key(s.drop_first(), k) {
                let j = choose|j: int|
                    0 <= j < s.drop_first().len() && s.drop_first()[j].0@ == k;
                assert(s[j + 1].0@ == k);
            }
            if has_key(s, k) {
                let j = choose|j: int| 0 <= j < s.len() && s[j].0@ == k;
                assert(s.drop_first()[j - 1].0@ == k);
            }
        }
    }
}

/// Appending an entry leaves other keys' lookups as they were and serves
/// the appended key only when it was missing before.
proof fn lemma_lookup_push(s: Seq<(String, u64)>, x: (String, u64), k: Seq<char>)
    ensures
        has_key(s, k) ==> lookup(s.push(x), k) == lookup(s, k),
        !has_key(s, k) && x.0@ == k ==> lookup(s.push(x), k) == Some(x.1),
        !has_key(s, k) && x.0@ != k ==> lookup(s.push(x), k) is None,
    decreases s.len(),
{
    if s.len() == 0 {
        assert(s.push(x)[0] == x);
        assert(s.push(x).drop_first() =~= Seq::<(String, u64)>::empty());
        if x.0@ != k {
            lemma_lookup_none(s.push(x), k);
        }
    } else {
        assert(s.push(x)[0] == s[0]);
        assert(s.push(x).drop_first() =~= s.drop_first().push(x));
        lemma_lookup_push(s.drop_first(), x, k);
        if s[0].0@ != k {
            if has_key(s, k) {
                let j = choose|j: int| 0 <= j < s.len() && s[j].0@ == k;
                assert(s.drop_first()[j - 1].0@ == k);
                assert(has_key(s.drop_first(), k));
            } else {
                assert forall|j: int|
                    0 <= j < s.drop_first().len() implies s.drop_first()[j].0@ != k by {
                    assert(s.drop_first()[j] == s[j + 1]);
                }
                assert(!has_key(s.drop_first(), k));
            }
        }
    }
}

/// Appending a string makes exactly that string's key newly present.
proof fn lemma_has_str_push(s: Seq<String>, x: String, k: Seq<char>)
    ensures
        has_str(s.push(x), k) <==> (has_str(s, k) || x@ == k),
{
    if has_str(s, k) {
        let i = choose|i: int| 0 <= i < s.len() && s[i]@ == k;
        assert(s.push(x)[i]@ == k);
    }
    if x@ == k {
        assert(s.push(x)[s.len() as int]@ == k);
    }
    if has_str(s.push(x), k) {
        let i = choose|i: int| 0 <= i < s.push(x).len() && s.push(x)[i]@ == k;
        if i < s.len() {
            assert(s[i]@ == k);
        } else {
            assert(s.push(x)[i] == x);
        }
    }
}

} // verus!
