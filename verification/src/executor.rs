use vstd::prelude::*;

use crate::outcome::ProbeOutcome;

verus! {

/// How many of the slots of `s` already hold an outcome.
pub open spec fn resolved_in(s: Seq<Option<ProbeOutcome>>) -> int
    decreases s.len(),
{
    if s.len() == 0 {
        0
    } else {
        resolved_in(s.drop_last()) + (if s.last() is Some {
            1int
        } else {
            0int
        })
    }
}

proof fn lemma_resolved_in_bounds(s: Seq<Option<ProbeOutcome>>)
    ensures
        0 <= resolved_in(s) <= s.len(),
    decreases s.len(),
{
    if s.len() > 0 {
        lemma_resolved_in_bounds(s.drop_last());
    }
}

proof fn lemma_resolved_in_push(s: Seq<Option<ProbeOutcome>>, o: Option<ProbeOutcome>)
    ensures
        resolved_in(s.push(o)) == resolved_in(s) + (if o is Some {
            1int
        } else {
            0int
        }),
{
    assert(s.push(o).drop_last() =~= s);
    assert(s.push(o).last() == o);
}

proof fn lemma_resolved_in_fill(s: Seq<Option<ProbeOutcome>>, i: int, o: ProbeOutcome)
    requires
        0 <= i < s.len(),
        s[i] is None,
    ensures
        resolved_in(s.update(i, Some(o))) == resolved_in(s) + 1,
    decreases s.len(),
{
    let u = s.update(i, Some(o));
    if i == s.len() - 1 {
        assert(u.drop_last() =~= s.drop_last());
        assert(u.last() == Some(o));
        assert(s.last() is None);
    } else {
        assert(u.drop_last() =~= s.drop_last().update(i, Some(o)));
        assert(u.last() == s.last());
        assert(s.drop_last()[i] == s[i]);
        lemma_resolved_in_fill(s.drop_last(), i, o);
    }
}

proof fn lemma_resolved_in_missing(s: Seq<Option<ProbeOutcome>>, i: int)
    requires
        0 <= i < s.len(),
        s[i] is None,
    ensures
        resolved_in(s) <= s.len() - 1,
    decreases s.len(),
{
    if i == s.len() - 1 {
        lemma_resolved_in_bounds(s.drop_last());
    } else {
        assert(s.drop_last()[i] == s[i]);
        lemma_resolved_in_missing(s.drop_last(), i);
    }
}

proof fn lemma_resolved_in_take_none(s: Seq<Option<ProbeOutcome>>, m: int)
    requires
        0 <= m <= s.len(),
        forall|j: int| m <= j < s.len() ==> (#[trigger] s[j]) is None,
    ensures
        resolved_in(s) == resolved_in(s.take(m)),
    decreases s.len(),
{
    if s.len() == m {
        assert(s.take(m) =~= s);
    } else {
        assert(s.last() is None);
        assert(s.drop_last() =~= s.take(s.len() - 1));
        assert(forall|j: int| m <= j < s.len() - 1 ==> (#[trigger] s.drop_last()[j]) == s[j]);
        lemma_resolved_in_take_none(s.drop_last(), m);
        assert(s.drop_last().take(m) =~= s.take(m));
    }
}

proof fn lemma_all_resolved(s: Seq<Option<ProbeOutcome>>)
    requires
        resolved_in(s) == s.len(),
    ensures
        forall|i: int| 0 <= i < s.len() ==> s[i] is Some,
    decreases s.len(),
{
    if s.len() > 0 {
        lemma_resolved_in_bounds(s.drop_last());
        assert(resolved_in(s.drop_last()) == s.len() - 1);
        lemma_all_resolved(s.drop_last());
        assert(forall|i: int| 0 <= i < s.len() - 1 ==> s[i] == s.drop_last()[i]);
    }
}

/// The bounded-concurrency executor's accounting for one batch of work items,
/// identified by their position in the input order.
///
/// Admission is FIFO over the input order: `dispatch` hands out index 0, then
/// 1, and so on, and refuses to admit a new probe while `ceiling` of them are
/// already in flight. `complete` resolves an admitted, still-pending index
/// with its outcome, in any order; a resolved index can never be resolved
/// again, so no item is double-counted, and the batch is done only when every
/// item holds exactly one outcome, so no item is lost.
///
/// The probing itself (the blocking network call, bounded by the per-probe
/// timeout) happens between `dispatch` and `complete`, outside this type.
pub struct BoundedExecutor {
    ceiling: usize,
    next: usize,
    outcomes: Vec<Option<ProbeOutcome>>,
    resolved: usize,
}

impl BoundedExecutor {
    /// The number of work items in the batch.
    pub closed spec fn batch_size(self) -> int {
        self.outcomes@.len() as int
    }

    /// The concurrency ceiling `C`.
    pub closed spec fn spec_ceiling(self) -> int {
        self.ceiling as int
    }

    /// How many items have been admitted so far.
    pub closed spec fn dispatched(self) -> int {
        self.next as int
    }

    /// How many items already hold their one outcome.
    pub closed spec fn resolved_count(self) -> int {
        self.resolved as int
    }

    /// Admitted but not yet resolved.
    pub closed spec fn in_flight(self) -> int {
        self.dispatched() - self.resolved_count()
    }

    /// All outcome slots, one per work item, in input order.
    pub closed spec fn slots(self) -> Seq<Option<ProbeOutcome>> {
        self.outcomes@
    }

    /// The outcome slot of item `i`.
    pub open spec fn outcome_at(self, i: int) -> Option<ProbeOutcome> {
        self.slots()[i]
    }

    pub closed spec fn wf(self) -> bool {
        &&& self.ceiling >= 1
        &&& self.next <= self.outcomes@.len()
        &&& self.resolved <= self.next
        &&& self.next - self.resolved <= self.ceiling
        &&& forall|i: int|
            self.next <= i < self.outcomes@.len() ==> (#[trigger] self.outcomes@[i]) is None
        &&& self.resolved == resolved_in(self.outcomes@)
    }

    /// A fresh executor for a batch of `batch_size` items under ceiling
    /// `ceiling`: nothing admitted, nothing resolved.
    pub fn new(batch_size: usize, ceiling: usize) -> (e: Self)
        requires
            ceiling >= 1,
        ensures
            e.wf(),
            e.batch_size() == batch_size,
            e.spec_ceiling() == ceiling,
            e.dispatched() == 0,
            e.resolved_count() == 0,
    {
        let mut outcomes: Vec<Option<ProbeOutcome>> = Vec::new();
        let mut i: usize = 0;
        while i < batch_size
            invariant
                i <= batch_size,
                outcomes@.len() == i,
                forall|j: int| 0 <= j < i ==> outcomes@[j] is None,
                resolved_in(outcomes@) == 0,
            decreases batch_size - i,
        {
            proof {
                lemma_resolved_in_push(outcomes@, None);
            }
            outcomes.push(None);
            i = i + 1;
        }
        BoundedExecutor { ceiling, next: 0, outcomes, resolved: 0 }
    }

    /// Whether one more probe may be admitted: items remain and fewer than
    /// `ceiling` are in flight.
    pub fn can_dispatch(&self) -> (r: bool)
        requires
            self.wf(),
        ensures
            r == (self.dispatched() < self.batch_size() && self.in_flight() < self.spec_ceiling()),
    {
        self.next < self.outcomes.len() && self.next - self.resolved < self.ceiling
    }

    /// Admits the next work item, FIFO over the input order, and returns its
    /// index. Never admits past the ceiling.
    pub fn dispatch(&mut self) -> (i: usize)
        requires
            old(self).wf(),
            old(self).dispatched() < old(self).batch_size(),
            old(self).in_flight() < old(self).spec_ceiling(),
        ensures
            final(self).wf(),
            i as int == old(self).dispatched(),
            final(self).dispatched() == old(self).dispatched() + 1,
            final(self).in_flight() <= final(self).spec_ceiling(),
            final(self).resolved_count() == old(self).resolved_count(),
            final(self).batch_size() == old(self).batch_size(),
            final(self).spec_ceiling() == old(self).spec_ceiling(),
            final(self).slots() == old(self).slots(),
    {
        let i = self.next;
        let n = self.outcomes.len();
        assert(i < n);
        self.next = i + 1;
        i
    }

    /// Resolves admitted item `i` with its outcome. Requires the slot to be
    /// still pending: an item can never be resolved twice.
    pub fn complete(&mut self, i: usize, outcome: ProbeOutcome)
        requires
            old(self).wf(),
            (i as int) < old(self).dispatched(),
            old(self).outcome_at(i as int) is None,
        ensures
            final(self).wf(),
            final(self).slots() == old(self).slots().update(i as int, Some(outcome)),
            final(self).outcome_at(i as int) == Some(outcome),
            forall|j: int|
                0 <= j < final(self).batch_size() && j != i ==> final(self).outcome_at(j) == old(
                    self,
                ).outcome_at(j),
            final(self).resolved_count() == old(self).resolved_count() + 1,
            final(self).dispatched() == old(self).dispatched(),
            final(self).batch_size() == old(self).batch_size(),
            final(self).spec_ceiling() == old(self).spec_ceiling(),
    {
        let n = self.outcomes.len();
        proof {
            lemma_resolved_in_fill(self.outcomes@, i as int, outcome);
            lemma_resolved_in_take_none(self.outcomes@, self.next as int);
            assert(self.outcomes@.take(self.next as int)[i as int] == self.outcomes@[i as int]);
            lemma_resolved_in_missing(self.outcomes@.take(self.next as int), i as int);
        }
        assert(self.resolved < self.next);
        assert(self.resolved < n);
        self.outcomes[i] = Some(outcome);
        self.resolved = self.resolved + 1;
    }

    /// Whether every item of the batch has produced its outcome.
    pub fn is_done(&self) -> (r: bool)
        requires
            self.wf(),
        ensures
            r == (self.resolved_count() == self.batch_size()),
    {
        self.resolved == self.outcomes.len()
    }

    /// No loss and no duplication: once as many resolutions have happened as
    /// the batch has items, every item holds exactly one outcome — none was
    /// skipped, and `complete`'s precondition already rules out resolving an
    /// item twice.
    pub proof fn lemma_batch_complete(self)
        requires
            self.wf(),
            self.resolved_count() == self.batch_size(),
        ensures
            forall|i: int| 0 <= i < self.batch_size() ==> self.outcome_at(i) is Some,
    {
        lemma_all_resolved(self.outcomes@);
    }

    /// Hands the batch's outcomes out, one per work item, in input order.
    pub fn into_outcomes(self) -> (r: Vec<ProbeOutcome>)
        requires
            self.wf(),
            self.resolved_count() == self.batch_size(),
        ensures
            r@.len() == self.batch_size(),
            forall|i: int| 0 <= i < r@.len() ==> Some(#[trigger] r@[i]) == self.outcome_at(i),
    {
        proof {
            lemma_all_resolved(self.outcomes@);
        }
        let ghost orig = self.outcomes@;
        let mut slots = self.outcomes;
        let mut r: Vec<ProbeOutcome> = Vec::new();
        let n = slots.len();
        let mut i: usize = 0;
        while i < n
            invariant
                i <= n,
                n == orig.len(),
                slots@.len() == n - i,
                r@.len() == i,
                forall|j: int| 0 <= j < slots@.len() ==> slots@[j] == orig[i + j],
                forall|j: int| 0 <= j < i ==> Some(#[trigger] r@[j]) == orig[j],
                forall|j: int| 0 <= j < orig.len() ==> orig[j] is Some,
            decreases n - i,
        {
            let slot = slots.remove(0);
            match slot {
                Some(o) => {
                    r.push(o);
                },
                None => {
                    proof {
                        assert(false);
                    }
                },
            }
            i = i + 1;
        }
        r
    }
}

/// The wave bound behind the executor's worst-case latency: a batch of `n`
/// probes under ceiling `c`, each wave running up to `c` probes and each
/// probe resolved within the per-probe timeout, takes `ceil(n / c)` waves.
pub open spec fn waves_needed(n: int, c: int) -> int {
    (n + c - 1) / c
}

/// Drives one whole batch through the executor in waves: each wave admits up
/// to `ceiling` probes — never more in flight at once — and resolves every one
/// of them before the next wave. `outcomes_in[i]` is the outcome that the
/// probe of item `i` produces (a probe whose operation never returns is
/// resolved as a negative outcome by the per-probe timeout, see
/// `prober::timeout_outcome`, so every slot holds a value).
///
/// Returns every outcome, exactly one per item and in input order, and the
/// number of waves taken: exactly `ceil(n / ceiling)`, so with each wave
/// bounded by the per-probe timeout the whole batch is bounded by
/// `ceil(n / ceiling)` timeouts.
pub fn run_batch(outcomes_in: Vec<ProbeOutcome>, ceiling: usize) -> (r: (Vec<ProbeOutcome>, usize))
    requires
        ceiling >= 1,
    ensures
        r.0@ == outcomes_in@,
        r.1 as int == waves_needed(outcomes_in@.len() as int, ceiling as int),
{
    let n = outcomes_in.len();
    let ghost all = outcomes_in@;
    let mut rest = outcomes_in;
    let mut exec = BoundedExecutor::new(n, ceiling);
    let mut waves: usize = 0;
    let mut fed: usize = 0;
    let ghost mut quota: int = 0;
    while fed < n
        invariant
            ceiling >= 1,
            exec.wf(),
            exec.batch_size() == n,
            exec.spec_ceiling() == ceiling,
            exec.dispatched() == fed,
            exec.resolved_count() == fed,
            fed <= n,
            n == all.len(),
            rest@ == all.subrange(fed as int, n as int),
            forall|j: int| 0 <= j < fed ==> (#[trigger] exec.slots()[j]) == Some(all[j]),
            quota == waves * ceiling,
            fed == (if quota <= n {
                quota
            } else {
                n as int
            }),
            quota < n + ceiling,
            waves <= fed,
        decreases n - fed,
    {
        let remaining = n - fed;
        let k = if remaining < ceiling {
            remaining
        } else {
            ceiling
        };
        let mut d: usize = 0;
        while d < k
            invariant
                exec.wf(),
                exec.batch_size() == n,
                exec.spec_ceiling() == ceiling,
                exec.dispatched() == fed + d,
                exec.resolved_count() == fed,
                d <= k,
                1 <= k <= ceiling,
                fed + k <= n,
                n == all.len(),
                rest@ == all.subrange(fed as int, n as int),
                forall|j: int| 0 <= j < fed ==> (#[trigger] exec.slots()[j]) == Some(all[j]),
                forall|j: int| fed <= j < n ==> (#[trigger] exec.slots()[j]) is None,
            decreases k - d,
        {
            let _ = exec.dispatch();
            d = d + 1;
        }
        let mut t: usize = 0;
        while t < k
            invariant
                exec.wf(),
                exec.batch_size() == n,
                exec.spec_ceiling() == ceiling,
                exec.dispatched() == fed + k,
                exec.resolved_count() == fed + t,
                t <= k,
                1 <= k <= ceiling,
                fed + k <= n,
                n == all.len(),
                rest@ == all.subrange(fed + t, n as int),
                forall|j: int| 0 <= j < fed + t ==> (#[trigger] exec.slots()[j]) == Some(all[j]),
                forall|j: int| fed + t <= j < n ==> (#[trigger] exec.slots()[j]) is None,
            decreases k - t,
        {
            let o = rest.remove(0);
            proof {
                assert(o == all[fed + t]);
                assert(rest@ =~= all.subrange(fed + t + 1, n as int));
            }
            exec.complete(fed + t, o);
            t = t + 1;
        }
        fed = fed + k;
        waves = waves + 1;
        proof {
            assert((waves - 1) * ceiling + ceiling == waves * ceiling) by (nonlinear_arith);
            quota = quota + ceiling;
        }
    }
    proof {
        vstd::arithmetic::div_mod::lemma_fundamental_div_mod_converse(
            n + ceiling - 1,
            ceiling as int,
            waves as int,
            n + ceiling - 1 - quota,
        );
    }
    let out = exec.into_outcomes();
    proof {
        assert(out@ =~= all);
    }
    (out, waves)
}

}
