//! Bounded-concurrency batches: admission of items under a cap, and collection of one
//! outcome per item at the item's own index.
use vstd::prelude::*;
use crate::error::ConfigError;

verus! {

/// Items admitted before `upto` whose outcome has not come back.
pub open spec fn pending<O>(slots: Seq<Option<O>>, upto: int) -> nat
    decreases upto,
{
    if upto <= 0 {
        0
    } else {
        pending(slots, upto - 1) + if slots[upto - 1] is None {
            1nat
        } else {
            0nat
        }
    }
}

proof fn lemma_pending_fill<O>(slots: Seq<Option<O>>, upto: int, k: int, o: O)
    requires
        0 <= k < upto <= slots.len(),
        slots[k] is None,
    ensures
        pending(slots.update(k, Some(o)), upto) + 1 == pending(slots, upto),
    decreases upto,
{
    if upto - 1 > k {
        lemma_pending_fill(slots, upto - 1, k, o);
    } else {
        lemma_pending_same(slots, slots.update(k, Some(o)), k);
    }
}

proof fn lemma_pending_same<O>(a: Seq<Option<O>>, b: Seq<Option<O>>, upto: int)
    requires
        0 <= upto <= a.len(),
        upto <= b.len(),
        forall|i: int| 0 <= i < upto ==> (#[trigger] a[i] is None) == (b[i] is None),
    ensures
        pending(a, upto) == pending(b, upto),
    decreases upto,
{
    if upto > 0 {
        lemma_pending_same(a, b, upto - 1);
    }
}

proof fn lemma_pending_zero<O>(slots: Seq<Option<O>>, upto: int)
    requires
        0 <= upto <= slots.len(),
        pending(slots, upto) == 0,
    ensures
        forall|i: int| 0 <= i < upto ==> (#[trigger] slots[i]) is Some,
    decreases upto,
{
    if upto > 0 {
        lemma_pending_zero(slots, upto - 1);
    }
}

/// A counting gate of fixed capacity.
pub struct Limiter {
    capacity: usize,
    in_flight: usize,
}

impl Limiter {
    pub closed spec fn capacity_spec(&self) -> nat {
        self.capacity as nat
    }

    pub closed spec fn in_flight_spec(&self) -> nat {
        self.in_flight as nat
    }

    pub open spec fn wf(&self) -> bool {
        0 < self.capacity_spec() && self.in_flight_spec() <= self.capacity_spec()
    }

    /// A gate with `capacity` slots, all free; a capacity of zero is refused.
    pub fn new(capacity: usize) -> (r: Result<Limiter, ConfigError>)
        ensures
            capacity == 0 ==> r == Err::<Limiter, ConfigError>(ConfigError::ZeroConcurrency),
            capacity > 0 ==> r is Ok && r->Ok_0.wf() && r->Ok_0.capacity_spec() == capacity
                && r->Ok_0.in_flight_spec() == 0,
    {
        if capacity == 0 {
            Err(ConfigError::ZeroConcurrency)
        } else {
            Ok(Limiter { capacity, in_flight: 0 })
        }
    }

    pub fn capacity(&self) -> (r: usize)
        ensures
            r == self.capacity_spec(),
    {
        self.capacity
    }

    pub fn in_flight(&self) -> (r: usize)
        ensures
            r == self.in_flight_spec(),
    {
        self.in_flight
    }

    /// Takes a slot when one is free.
    pub fn try_acquire(&mut self) -> (r: bool)
        requires
            old(self).wf(),
        ensures
            final(self).wf(),
            final(self).capacity_spec() == old(self).capacity_spec(),
            r == (old(self).in_flight_spec() < old(self).capacity_spec()),
            final(self).in_flight_spec() == old(self).in_flight_spec() + if r {
                1nat
            } else {
                0nat
            },
    {
        if self.in_flight < self.capacity {
            self.in_flight = self.in_flight + 1;
            true
        } else {
            false
        }
    }

    /// Gives a taken slot back.
    pub fn release(&mut self)
        requires
            old(self).wf(),
            old(self).in_flight_spec() > 0,
        ensures
            final(self).wf(),
            final(self).capacity_spec() == old(self).capacity_spec(),
            final(self).in_flight_spec() + 1 == old(self).in_flight_spec(),
    {
        self.in_flight = self.in_flight - 1;
    }
}

/// The state of a batch of `total` items run under a limiter: items are admitted in order
/// while a slot is free, and each outcome is kept at its item's index.
pub struct BatchRun<O> {
    limiter: Limiter,
    next: usize,
    slots: Vec<Option<O>>,
}

impl<O> BatchRun<O> {
    /// One place per item: its outcome once it has come back.
    pub closed spec fn slots(&self) -> Seq<Option<O>> {
        self.slots@
    }

    /// The number of items admitted so far.
    pub closed spec fn admitted(&self) -> nat {
        self.next as nat
    }

    pub closed spec fn limiter(&self) -> Limiter {
        self.limiter
    }

    pub open spec fn total(&self) -> nat {
        self.slots().len()
    }

    pub open spec fn wf(&self) -> bool {
        &&& self.limiter().wf()
        &&& self.admitted() <= self.total()
        &&& forall|i: int| self.admitted() <= i < self.total() ==> (#[trigger] self.slots()[i]) is None
        &&& self.limiter().in_flight_spec() == pending(self.slots(), self.admitted() as int)
    }

    /// A batch of `total` items under `limiter`, none admitted yet.
    pub fn new(total: usize, limiter: Limiter) -> (r: BatchRun<O>)
        requires
            limiter.wf(),
            limiter.in_flight_spec() == 0,
        ensures
            r.wf(),
            r.total() == total,
            r.admitted() == 0,
            r.limiter() == limiter,
            forall|i: int| 0 <= i < total ==> (#[trigger] r.slots()[i]) is None,
    {
        let mut slots: Vec<Option<O>> = Vec::new();
        let mut i: usize = 0;
        while i < total
            invariant
                i <= total,
                slots@.len() == i,
                forall|k: int| 0 <= k < i ==> (#[trigger] slots@[k]) is None,
            decreases total - i,
        {
            slots.push(None);
            i += 1;
        }
        BatchRun { limiter, next: 0, slots }
    }

    /// Admits the next item when one remains and a slot is free, and gives its index.
    pub fn start_next(&mut self) -> (r: Option<usize>)
        requires
            old(self).wf(),
        ensures
            final(self).wf(),
            final(self).slots() == old(self).slots(),
            final(self).limiter().capacity_spec() == old(self).limiter().capacity_spec(),
            if old(self).admitted() < old(self).total() && old(self).limiter().in_flight_spec()
                < old(self).limiter().capacity_spec() {
                r == Some(old(self).admitted() as usize) && final(self).admitted() == old(self).admitted() + 1
            } else {
                r is None && final(self).admitted() == old(self).admitted()
                    && final(self).limiter() == old(self).limiter()
            },
    {
        if self.next < self.slots.len() && self.limiter.in_flight() < self.limiter.capacity() {
            let ok = self.limiter.try_acquire();
            let i = self.next;
            self.next = self.next + 1;
            proof {
                assert(self.slots@[i as int] is None);
            }
            Some(i)
        } else {
            None
        }
    }

    /// Records the outcome of the admitted item `index` and frees its slot.
    pub fn complete(&mut self, index: usize, outcome: O)
        requires
            old(self).wf(),
            index < old(self).admitted(),
            old(self).slots()[index as int] is None,
        ensures
            final(self).wf(),
            final(self).slots() == old(self).slots().update(index as int, Some(outcome)),
            final(self).admitted() == old(self).admitted(),
            final(self).limiter().capacity_spec() == old(self).limiter().capacity_spec(),
    {
        let ghost before = self.slots@;
        proof {
            lemma_pending_fill(before, self.next as int, index as int, outcome);
        }
        self.slots.set(index, Some(outcome));
        self.limiter.release();
    }

    /// Whether every item has been admitted and has come back.
    pub fn is_done(&self) -> (r: bool)
        requires
            self.wf(),
        ensures
            r == (self.admitted() == self.total() && self.limiter().in_flight_spec() == 0),
            r ==> forall|i: int| 0 <= i < self.total() ==> (#[trigger] self.slots()[i]) is Some,
    {
        let r = self.next == self.slots.len() && self.limiter.in_flight() == 0;
        proof {
            if r {
                lemma_pending_zero(self.slots@, self.next as int);
            }
        }
        r
    }

    /// The outcomes of a finished batch, one per item, each at its item's index.
    pub fn finish(self) -> (r: Vec<O>)
        requires
            forall|i: int| 0 <= i < self.total() ==> (#[trigger] self.slots()[i]) is Some,
        ensures
            r@.len() == self.total(),
            forall|i: int| 0 <= i < r@.len() ==> Some(#[trigger] r@[i]) == self.slots()[i],
    {
        let ghost all = self.slots@;
        assert forall|i: int| 0 <= i < all.len() implies (#[trigger] all[i]) is Some by {
            assert(self.slots()[i] is Some);
        }
        let mut slots = self.slots;
        let mut out: Vec<O> = Vec::new();
        let n = slots.len();
        let mut taken: usize = 0;
        while slots.len() > 0
            invariant
                n == all.len(),
                slots@.len() + taken == n,
                slots@ == all.subrange(taken as int, n as int),
                out@.len() == taken,
                forall|i: int| 0 <= i < n ==> (#[trigger] all[i]) is Some,
                forall|i: int| 0 <= i < taken ==> Some(#[trigger] out@[i]) == all[i],
            decreases slots@.len(),
        {
            let first = slots.remove(0);
            assert(first == all[taken as int]);
            match first {
                Some(o) => {
                    out.push(o);
                },
                None => {},
            }
            taken = taken + 1;
            assert(slots@ =~= all.subrange(taken as int, n as int));
        }
        out
    }
}

/// A batch whose items have all been started and have all come back holds exactly one
/// outcome per item.
pub proof fn lemma_batch_complete<O>(run: BatchRun<O>)
    requires
        run.wf(),
        run.admitted() == run.total(),
        run.limiter().in_flight_spec() == 0,
    ensures
        forall|i: int| 0 <= i < run.total() ==> (#[trigger] run.slots()[i]) is Some,
{
    lemma_pending_zero(run.slots(), run.admitted() as int);
}

/// The successes of `s`, each with its index, in order.
pub open spec fn successes<R, E>(s: Seq<Result<R, E>>) -> Seq<(usize, R)>
    decreases s.len(),
{
    if s.len() == 0 {
        Seq::empty()
    } else {
        let rest = successes(s.drop_last());
        match s.last() {
            Ok(v) => rest.push(((s.len() - 1) as usize, v)),
            Err(_) => rest,
        }
    }
}

/// The failures of `s`, each with its index, in order.
pub open spec fn failures<R, E>(s: Seq<Result<R, E>>) -> Seq<(usize, E)>
    decreases s.len(),
{
    if s.len() == 0 {
        Seq::empty()
    } else {
        let rest = failures(s.drop_last());
        match s.last() {
            Ok(_) => rest,
            Err(e) => rest.push(((s.len() - 1) as usize, e)),
        }
    }
}

proof fn lemma_split_counts<R, E>(s: Seq<Result<R, E>>)
    ensures
        successes(s).len() + failures(s).len() == s.len(),
    decreases s.len(),
{
    if s.len() > 0 {
        lemma_split_counts(s.drop_last());
    }
}

/// Each success of `s` carries the index of an `Ok` of `s` and its value.
pub proof fn lemma_successes_indices<R, E>(s: Seq<Result<R, E>>)
    requires
        s.len() <= usize::MAX,
    ensures
        forall|j: int|
            0 <= j < successes(s).len() ==> (#[trigger] successes(s)[j]).0 < s.len() && s[successes(s)[j].0 as int]
                == Ok::<R, E>(successes(s)[j].1),
    decreases s.len(),
{
    if s.len() > 0 {
        let p = s.drop_last();
        lemma_successes_indices(p);
        assert forall|j: int| 0 <= j < successes(s).len() implies (#[trigger] successes(s)[j]).0 < s.len()
            && s[successes(s)[j].0 as int] == Ok::<R, E>(successes(s)[j].1) by {
            if j < successes(p).len() {
                assert(successes(s)[j] == successes(p)[j]);
                assert(p[successes(p)[j].0 as int] == s[successes(p)[j].0 as int]);
            } else {
                assert(s.last() is Ok);
                assert(successes(s)[j] == ((s.len() - 1) as usize, s.last()->Ok_0));
            }
        }
    }
}

/// When every outcome is a success, the successes are all of them, each at its own index.
pub proof fn lemma_all_successes<R, E>(s: Seq<Result<R, E>>)
    requires
        s.len() <= usize::MAX,
        forall|k: int| 0 <= k < s.len() ==> (#[trigger] s[k]) is Ok,
    ensures
        successes(s).len() == s.len(),
        forall|j: int|
            0 <= j < s.len() ==> (#[trigger] successes(s)[j]).0 == j && s[j] == Ok::<R, E>(successes(s)[j].1),
    decreases s.len(),
{
    if s.len() > 0 {
        let p = s.drop_last();
        assert forall|k: int| 0 <= k < p.len() implies (#[trigger] p[k]) is Ok by {
            assert(p[k] == s[k]);
        }
        lemma_all_successes(p);
        assert(s[s.len() - 1] is Ok);
        assert forall|j: int| 0 <= j < s.len() implies (#[trigger] successes(s)[j]).0 == j && s[j] == Ok::<R, E>(
            successes(s)[j].1,
        ) by {
            if j < p.len() {
                assert(successes(s)[j] == successes(p)[j]);
                assert(p[j] == s[j]);
            } else {
                assert(successes(s)[j] == ((s.len() - 1) as usize, s.last()->Ok_0));
            }
        }
    }
}

/// What a batch did: how many items ran, how many succeeded and failed, and the error of
/// each failed item with its index.
pub struct BatchReport<E> {
    pub attempted: usize,
    pub succeeded: usize,
    pub failed: usize,
    pub failures: Vec<(usize, E)>,
}

/// Splits the outcomes of a batch into the successes, each with its index, and a report.
pub fn summarize<R, E>(results: Vec<Result<R, E>>) -> (r: (Vec<(usize, R)>, BatchReport<E>))
    ensures
        r.0@ == successes(results@),
        r.1.failures@ == failures(results@),
        r.1.attempted == results@.len(),
        r.1.succeeded == successes(results@).len(),
        r.1.failed == failures(results@).len(),
        r.1.succeeded + r.1.failed == r.1.attempted,
{
    let ghost all = results@;
    let n = results.len();
    let mut rest = results;
    let mut oks: Vec<(usize, R)> = Vec::new();
    let mut errs: Vec<(usize, E)> = Vec::new();
    let mut i: usize = 0;
    while rest.len() > 0
        invariant
            n == all.len(),
            rest@.len() + i == n,
            rest@ == all.subrange(i as int, n as int),
            oks@ == successes(all.subrange(0, i as int)),
            errs@ == failures(all.subrange(0, i as int)),
        decreases rest@.len(),
    {
        let first = rest.remove(0);
        let ghost pre = all.subrange(0, i as int + 1);
        assert(pre.drop_last() =~= all.subrange(0, i as int));
        assert(pre.last() == first);
        match first {
            Ok(v) => {
                oks.push((i, v));
            },
            Err(e) => {
                errs.push((i, e));
            },
        }
        i = i + 1;
        assert(rest@ =~= all.subrange(i as int, n as int));
    }
    assert(all.subrange(0, n as int) =~= all);
    proof {
        lemma_split_counts(all);
    }
    let succeeded = oks.len();
    let failed = errs.len();
    (oks, BatchReport { attempted: n, succeeded, failed, failures: errs })
}

} // verus!
