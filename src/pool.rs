use vstd::prelude::*;
use crate::enrich::SkipReason;
use crate::submission::Submission;

verus! {

/// Number of filled slots among the first `n`.
pub open spec fn filled(results: Seq<Option<Result<Submission, SkipReason>>>, n: int) -> int
    decreases n,
{
    if n <= 0 {
        0
    } else {
        filled(results, n - 1) + if results[n - 1] is Some {
            1int
        } else {
            0int
        }
    }
}

proof fn lemma_filled_bounds(results: Seq<Option<Result<Submission, SkipReason>>>, n: int)
    requires
        0 <= n,
    ensures
        0 <= filled(results, n) <= n,
    decreases n,
{
    if n > 0 {
        lemma_filled_bounds(results, n - 1);
    }
}

proof fn lemma_filled_update(
    results: Seq<Option<Result<Submission, SkipReason>>>,
    j: int,
    v: Result<Submission, SkipReason>,
    n: int,
)
    requires
        0 <= j < results.len(),
        results[j] is None,
        0 <= n <= results.len(),
    ensures
        filled(results.update(j, Some(v)), n) == filled(results, n) + if j < n {
            1int
        } else {
            0int
        },
    decreases n,
{
    if n > 0 {
        lemma_filled_update(results, j, v, n - 1);
    }
}

proof fn lemma_filled_all(results: Seq<Option<Result<Submission, SkipReason>>>, n: int)
    requires
        0 <= n <= results.len(),
        filled(results, n) == n,
    ensures
        forall|i: int| 0 <= i < n ==> (#[trigger] results[i]) is Some,
    decreases n,
{
    if n > 0 {
        lemma_filled_bounds(results, n - 1);
        lemma_filled_all(results, n - 1);
    }
}

proof fn lemma_filled_prefix(results: Seq<Option<Result<Submission, SkipReason>>>, k: int, n: int)
    requires
        0 <= k <= n <= results.len(),
        forall|i: int| k <= i < n ==> (#[trigger] results[i]) is None,
    ensures
        filled(results, n) == filled(results, k),
    decreases n,
{
    if n > k {
        lemma_filled_prefix(results, k, n - 1);
    }
}

/// The items of one batch, run with at most `limit` of them in flight at once; the
/// outcomes are handed out only after every item has completed.
pub struct BatchRun {
    items: Vec<Submission>,
    limit: usize,
    next: usize,
    in_flight: usize,
    results: Vec<Option<Result<Submission, SkipReason>>>,
}

/// The state of a [`BatchRun`].
pub struct BatchRunView {
    pub items: Seq<Submission>,
    pub limit: nat,
    /// Items handed out so far, in order.
    pub next: nat,
    pub in_flight: nat,
    pub results: Seq<Option<Result<Submission, SkipReason>>>,
}

impl View for BatchRun {
    type V = BatchRunView;

    closed spec fn view(&self) -> BatchRunView {
        BatchRunView {
            items: self.items@,
            limit: self.limit as nat,
            next: self.next as nat,
            in_flight: self.in_flight as nat,
            results: self.results@,
        }
    }
}

impl BatchRun {
    /// The run's invariant: never more than `limit` items in flight, and the items
    /// in flight are exactly those handed out and not yet completed.
    pub open spec fn wf(&self) -> bool {
        let v = self@;
        &&& 0 < v.limit
        &&& v.in_flight <= v.limit
        &&& v.next <= v.items.len()
        &&& v.results.len() == v.items.len()
        &&& forall|i: int| v.next <= i < v.results.len() ==> (#[trigger] v.results[i]) is None
        &&& v.in_flight == v.next - filled(v.results, v.next as int)
    }

    /// Every item has been handed out and has completed.
    pub open spec fn joined(&self) -> bool {
        self@.next == self@.items.len() && self@.in_flight == 0
    }

    /// A run of `items` with at most `limit` in flight.
    pub fn new(items: Vec<Submission>, limit: usize) -> (r: BatchRun)
        requires
            limit > 0,
        ensures
            r.wf(),
            r@.items == items@,
            r@.limit == limit,
            r@.next == 0,
            r@.in_flight == 0,
            forall|i: int| 0 <= i < r@.results.len() ==> (#[trigger] r@.results[i]) is None,
    {
        let mut results: Vec<Option<Result<Submission, SkipReason>>> = Vec::new();
        let mut i: usize = 0;
        while i < items.len()
            invariant
                i <= items@.len(),
                results@.len() == i,
                forall|k: int| 0 <= k < i ==> (#[trigger] results@[k]) is None,
            decreases items@.len() - i,
        {
            results.push(None);
            i = i + 1;
        }
        BatchRun { items, limit, next: 0, in_flight: 0, results }
    }

    /// Items in flight now.
    pub fn in_flight(&self) -> (r: usize)
        requires
            self.wf(),
        ensures
            r == self@.in_flight,
            r <= self@.limit,
    {
        self.in_flight
    }

    /// Whether every item has completed.
    pub fn is_joined(&self) -> (r: bool)
        ensures
            r == self.joined(),
    {
        self.next == self.items.len() && self.in_flight == 0
    }

    /// Hands out the next item with its slot, if one is left and a slot is free.
    pub fn try_dispatch(&mut self) -> (r: Option<(usize, Submission)>)
        requires
            old(self).wf(),
        ensures
            final(self).wf(),
            final(self)@.items == old(self)@.items,
            final(self)@.limit == old(self)@.limit,
            final(self)@.results == old(self)@.results,
            ({
                let can = old(self)@.in_flight < old(self)@.limit && old(self)@.next
                    < old(self)@.items.len();
                &&& can ==> r is Some && (r->0).0 == old(self)@.next
                    && (r->0).1@ == old(self)@.items[old(self)@.next as int]@
                    && final(self)@.next == old(self)@.next + 1
                    && final(self)@.in_flight == old(self)@.in_flight + 1
                &&& !can ==> r is None && final(self)@ == old(self)@
            }),
    {
        if self.in_flight < self.limit && self.next < self.items.len() {
            let slot = self.next;
            let item = self.items[slot].duplicate();
            proof {
                lemma_filled_prefix(self.results@, slot as int, slot + 1);
            }
            self.next = slot + 1;
            self.in_flight = self.in_flight + 1;
            Some((slot, item))
        } else {
            None
        }
    }

    /// Records the outcome of the item in `slot`. A slot not in flight is ignored.
    pub fn complete(&mut self, slot: usize, outcome: Result<Submission, SkipReason>)
        requires
            old(self).wf(),
        ensures
            final(self).wf(),
            final(self)@.items == old(self)@.items,
            final(self)@.limit == old(self)@.limit,
            final(self)@.next == old(self)@.next,
            ({
                let live = slot < old(self)@.next && old(self)@.results[slot as int] is None;
                &&& live ==> final(self)@.results == old(self)@.results.update(
                    slot as int,
                    Some(outcome),
                ) && final(self)@.in_flight == old(self)@.in_flight - 1
                &&& !live ==> final(self)@ == old(self)@
            }),
    {
        if slot < self.next && self.results[slot].is_none() {
            proof {
                lemma_filled_update(self.results@, slot as int, outcome, self.next as int);
                lemma_filled_bounds(self.results@.update(slot as int, Some(outcome)), self.next as int);
            }
            self.results.set(slot, Some(outcome));
            self.in_flight = self.in_flight - 1;
        }
    }

    /// The outcomes, in the order of the items.
    pub fn into_outcomes(self) -> (r: Vec<Result<Submission, SkipReason>>)
        requires
            self.wf(),
            self.joined(),
        ensures
            r@.len() == self@.items.len(),
            forall|i: int| 0 <= i < r@.len() ==> self@.results[i] == Some(#[trigger] r@[i]),
    {
        proof {
            lemma_filled_all(self.results@, self.next as int);
        }
        let mut results = self.results;
        let ghost all = results@;
        let mut out: Vec<Result<Submission, SkipReason>> = Vec::new();
        let mut taken: Vec<Result<Submission, SkipReason>> = Vec::new();
        while results.len() > 0
            invariant
                all.len() == results@.len() + taken@.len(),
                forall|i: int| 0 <= i < results@.len() ==> results@[i] == all[i],
                forall|i: int|
                    0 <= i < taken@.len() ==> all[all.len() - 1 - i] == Some(#[trigger] taken@[i]),
                forall|i: int| 0 <= i < all.len() ==> (#[trigger] all[i]) is Some,
            decreases results@.len(),
        {
            proof {
                let n = results@.len() - 1;
                assert(results@[n] == all[n]);
                assert(all[n] is Some);
            }
            let last = results.pop();
            match last {
                Some(Some(o)) => taken.push(o),
                _ => {
                    assert(false);
                },
            }
        }
        while taken.len() > 0
            invariant
                all.len() == out@.len() + taken@.len(),
                forall|i: int| 0 <= i < out@.len() ==> all[i] == Some(#[trigger] out@[i]),
                forall|i: int|
                    0 <= i < taken@.len() ==> all[all.len() - 1 - i] == Some(#[trigger] taken@[i]),
            decreases taken@.len(),
        {
            let o = taken.pop();
            match o {
                Some(o) => out.push(o),
                None => {},
            }
        }
        out
    }
}

/// At no point are more than `limit` items of a well-formed run in flight.
pub proof fn lemma_concurrency_bound(run: &BatchRun)
    requires
        run.wf(),
    ensures
        run@.in_flight <= run@.limit,
{
}

} // verus!
