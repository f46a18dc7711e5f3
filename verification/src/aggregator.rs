use vstd::prelude::*;
use vstd::seq_lib::group_to_multiset_ensures;
use vstd::seq_lib::lemma_multiset_commutative;
use vstd::multiset::group_multiset_axioms;

use crate::outcome::ProbeOutcome;

verus! {

/// The aggregated positive results for one subject (one subdomain): every
/// port detail of a positive outcome recorded for it, in arrival order.
pub struct ScanRecord {
    pub subject: String,
    pub positives: Vec<u16>,
}

/// What one outcome contributes to its subject's record: the detail of a
/// positive outcome that carries one, nothing otherwise.
pub open spec fn outcome_contrib(o: ProbeOutcome) -> Seq<u16> {
    if o.succeeded && o.detail is Some {
        seq![o.detail->0]
    } else {
        Seq::empty()
    }
}

/// The details contributed by a batch of outcomes, in batch order.
pub open spec fn positive_details(s: Seq<ProbeOutcome>) -> Seq<u16>
    decreases s.len(),
{
    if s.len() == 0 {
        Seq::empty()
    } else {
        positive_details(s.drop_last()) + outcome_contrib(s.last())
    }
}

proof fn lemma_positive_details_remove(s: Seq<ProbeOutcome>, i: int)
    requires
        0 <= i < s.len(),
    ensures
        positive_details(s).to_multiset() =~= positive_details(s.remove(i)).to_multiset().add(
            outcome_contrib(s[i]).to_multiset(),
        ),
    decreases s.len(),
{
    broadcast use group_multiset_axioms;

    if i == s.len() - 1 {
        assert(s.remove(i) =~= s.drop_last());
        lemma_multiset_commutative(positive_details(s.drop_last()), outcome_contrib(s.last()));
    } else {
        assert(s.remove(i).drop_last() =~= s.drop_last().remove(i));
        assert(s.remove(i).last() == s.last());
        assert(s.drop_last()[i] == s[i]);
        lemma_positive_details_remove(s.drop_last(), i);
        lemma_multiset_commutative(positive_details(s.drop_last()), outcome_contrib(s.last()));
        lemma_multiset_commutative(
            positive_details(s.drop_last().remove(i)),
            outcome_contrib(s.last()),
        );
    }
}

/// Aggregator merge is commutative and lossless: recording the outcomes of
/// one subject in any permutation of their order yields the same collected
/// detail content. The aggregator's `record_all` appends exactly
/// `positive_details` of the batch, and this law says that content, as a
/// multiset, does not depend on the arrival order.
pub proof fn lemma_record_order_irrelevant(s1: Seq<ProbeOutcome>, s2: Seq<ProbeOutcome>)
    requires
        s1.to_multiset() == s2.to_multiset(),
    ensures
        positive_details(s1).to_multiset() == positive_details(s2).to_multiset(),
    decreases s1.len(),
{
    broadcast use group_to_multiset_ensures;
    broadcast use group_multiset_axioms;

    if s1.len() == 0 {
        assert(s2.len() == s2.to_multiset().len());
        assert(s2.len() == 0);
    } else {
        let x = s1.last();
        assert(s1.contains(x));
        assert(s1.to_multiset().count(x) > 0);
        assert(s2.contains(x));
        let i = choose|i: int| 0 <= i < s2.len() && s2[i] == x;
        assert(s1.drop_last() =~= s1.remove(s1.len() - 1));
        assert(s1.remove(s1.len() - 1).to_multiset() == s1.to_multiset().remove(x));
        assert(s2.remove(i).to_multiset() == s2.to_multiset().remove(x));
        lemma_record_order_irrelevant(s1.drop_last(), s2.remove(i));
        lemma_positive_details_remove(s2, i);
        lemma_multiset_commutative(positive_details(s1.drop_last()), outcome_contrib(x));
        assert(positive_details(s1).to_multiset() =~= positive_details(s2).to_multiset());
    }
}

/// The order-independence law at the aggregator itself: two aggregators that
/// grew from the same base state by recording the same batch of outcomes for
/// one subject — in any two interleavings, that is any two permutations of
/// the batch — hold the same detail content for that subject.
pub proof fn lemma_aggregator_merge_commutes(
    base: Aggregator,
    a1: Aggregator,
    a2: Aggregator,
    subject: Seq<char>,
    s1: Seq<ProbeOutcome>,
    s2: Seq<ProbeOutcome>,
)
    requires
        s1.to_multiset() == s2.to_multiset(),
        a1.positives_of(subject) == base.positives_of(subject) + positive_details(s1),
        a2.positives_of(subject) == base.positives_of(subject) + positive_details(s2),
    ensures
        a1.positives_of(subject).to_multiset() == a2.positives_of(subject).to_multiset(),
{
    broadcast use group_multiset_axioms;

    lemma_record_order_irrelevant(s1, s2);
    lemma_multiset_commutative(base.positives_of(subject), positive_details(s1));
    lemma_multiset_commutative(base.positives_of(subject), positive_details(s2));
    assert(a1.positives_of(subject).to_multiset() =~= a2.positives_of(subject).to_multiset());
}

/// The thread-safe collector's sequential core: one record per subject,
/// subjects pairwise distinct, each record accumulating the details of the
/// positive outcomes recorded for it. A run's workers funnel their outcomes
/// into one value of this type under mutual exclusion; merging is then
/// lossless, and commutative by `lemma_record_order_irrelevant`.
pub struct Aggregator {
    records: Vec<ScanRecord>,
}

impl Aggregator {
    /// All records, in the order their subjects first appeared.
    pub closed spec fn records_seq(self) -> Seq<ScanRecord> {
        self.records@
    }

    /// Subjects are pairwise distinct: one record per subject.
    pub open spec fn wf(self) -> bool {
        forall|i: int, j: int|
            0 <= i < j < self.records_seq().len() ==> (#[trigger] self.records_seq()[i]).subject@
                != (#[trigger] self.records_seq()[j]).subject@
    }

    pub open spec fn has_subject(self, s: Seq<char>) -> bool {
        exists|i: int|
            0 <= i < self.records_seq().len() && (#[trigger] self.records_seq()[i]).subject@ == s
    }

    pub open spec fn subject_index(self, s: Seq<char>) -> int {
        choose|i: int|
            0 <= i < self.records_seq().len() && (#[trigger] self.records_seq()[i]).subject@ == s
    }

    /// The details collected so far for subject `s`; empty when the subject
    /// has no record yet.
    pub open spec fn positives_of(self, s: Seq<char>) -> Seq<u16> {
        if self.has_subject(s) {
            self.records_seq()[self.subject_index(s)].positives@
        } else {
            Seq::empty()
        }
    }

    /// With subjects pairwise distinct, a subject's record sits at exactly
    /// one index.
    pub proof fn lemma_subject_index(self, s: Seq<char>, i: int)
        requires
            self.wf(),
            0 <= i < self.records_seq().len(),
            self.records_seq()[i].subject@ == s,
        ensures
            self.has_subject(s),
            self.subject_index(s) == i,
    {
        assert(self.has_subject(s));
        let j = self.subject_index(s);
        assert(0 <= j < self.records_seq().len() && self.records_seq()[j].subject@ == s);
    }

    pub fn new() -> (a: Self)
        ensures
            a.wf(),
            a.records_seq() == Seq::<ScanRecord>::empty(),
    {
        Aggregator { records: Vec::new() }
    }

    /// The collected records, for the report writer.
    pub fn records(&self) -> (r: &Vec<ScanRecord>)
        ensures
            r@ == self.records_seq(),
    {
        &self.records
    }

    fn find(&self, subject: &String) -> (r: Option<usize>)
        ensures
            match r {
                Some(i) => 0 <= i < self.records_seq().len() && self.records_seq()[
                    i as int
                ].subject@ == subject@,
                None => !self.has_subject(subject@),
            },
    {
        let mut i: usize = 0;
        let n = self.records.len();
        while i < n
            invariant
                0 <= i <= n,
                n == self.records_seq().len(),
                forall|j: int|
                    0 <= j < i ==> (#[trigger] self.records_seq()[j]).subject@ != subject@,
            decreases n - i,
        {
            if self.records[i].subject == *subject {
                return Some(i);
            }
            i = i + 1;
        }
        None
    }

    /// Creates an empty record for `subject` if none exists yet: a subject
    /// that reached the probing stage owns a record even when every probe of
    /// it came back negative (an empty detail list, not an absent record).
    pub fn ensure_subject(&mut self, subject: String)
        requires
            old(self).wf(),
        ensures
            final(self).wf(),
            final(self).has_subject(subject@),
            final(self).positives_of(subject@) == old(self).positives_of(subject@),
            old(self).has_subject(subject@) ==> final(self).records_seq() == old(
                self,
            ).records_seq(),
            !old(self).has_subject(subject@) ==> final(self).records_seq().len() == old(
                self,
            ).records_seq().len() + 1 && final(self).records_seq().subrange(
                0,
                old(self).records_seq().len() as int,
            ) == old(self).records_seq() && final(self).records_seq().last().subject@ == subject@
                && final(self).records_seq().last().positives@ == Seq::<u16>::empty(),
            forall|s2: Seq<char>|
                s2 != subject@ ==> final(self).has_subject(s2) == old(self).has_subject(s2),
            forall|s2: Seq<char>|
                s2 != subject@ ==> final(self).positives_of(s2) == old(self).positives_of(s2),
    {
        let found = self.find(&subject);
        match found {
            Some(i) => {
                proof {
                    old(self).lemma_subject_index(subject@, i as int);
                    self.lemma_unchanged_others(*old(self), subject@);
                }
            },
            None => {
                let ghost prev = self.records@;
                self.records.push(ScanRecord { subject, positives: Vec::new() });
                proof {
                    assert(self.records@.subrange(0, prev.len() as int) =~= prev);
                    assert forall|i: int, j: int|
                        0 <= i < j < self.records_seq().len() implies (#[trigger] self.records_seq()[i]).subject@
                        != (#[trigger] self.records_seq()[j]).subject@ by {
                        if j < prev.len() {
                            assert(self.records_seq()[i] == prev[i]);
                            assert(self.records_seq()[j] == prev[j]);
                            assert(old(self).records_seq()[i].subject@ != old(
                                self,
                            ).records_seq()[j].subject@);
                        } else {
                            assert(self.records_seq()[j].subject@ == subject@);
                            assert(self.records_seq()[i] == prev[i]);
                            assert(old(self).records_seq()[i].subject@ != subject@);
                        }
                    }
                    self.lemma_subject_index(subject@, prev.len() as int);
                    self.lemma_unchanged_others(*old(self), subject@);
                }
            },
        }
    }

    /// After a mutation that touched at most the record of `subject` (and
    /// possibly appended it), every other subject's presence and details are
    /// untouched.
    proof fn lemma_unchanged_others(self, prev: Self, subject: Seq<char>)
        requires
            prev.wf(),
            self.wf(),
            self.records_seq().len() == prev.records_seq().len() || (self.records_seq().len()
                == prev.records_seq().len() + 1 && self.records_seq().last().subject@ == subject),
            forall|i: int|
                0 <= i < prev.records_seq().len() && (#[trigger] prev.records_seq()[i]).subject@
                    != subject ==> self.records_seq()[i] == prev.records_seq()[i],
            forall|i: int|
                0 <= i < prev.records_seq().len() ==> (#[trigger] self.records_seq()[i]).subject@
                    == prev.records_seq()[i].subject@,
        ensures
            forall|s2: Seq<char>| s2 != subject ==> self.has_subject(s2) == prev.has_subject(s2),
            forall|s2: Seq<char>|
                s2 != subject ==> self.positives_of(s2) == prev.positives_of(s2),
    {
        assert forall|s2: Seq<char>| s2 != subject implies self.has_subject(s2)
            == prev.has_subject(s2) by {
            if prev.has_subject(s2) {
                let i = prev.subject_index(s2);
                assert(self.records_seq()[i].subject@ == s2);
            }
            if self.has_subject(s2) {
                let i = self.subject_index(s2);
                assert(i < prev.records_seq().len());
                assert(prev.records_seq()[i].subject@ == s2);
            }
        }
        assert forall|s2: Seq<char>| s2 != subject implies self.positives_of(s2)
            == prev.positives_of(s2) by {
            if prev.has_subject(s2) {
                let i = prev.subject_index(s2);
                assert(self.records_seq()[i].subject@ == s2);
                self.lemma_subject_index(s2, i);
                prev.lemma_subject_index(s2, i);
                assert(self.records_seq()[i] == prev.records_seq()[i]);
            }
        }
    }

    /// Records one outcome for `subject`, under the contract of §merge: a
    /// positive outcome's detail is appended to the subject's record, the
    /// record being created on first insertion; a negative outcome changes
    /// nothing. No other subject's record is touched.
    pub fn record(&mut self, subject: String, outcome: &ProbeOutcome)
        requires
            old(self).wf(),
        ensures
            final(self).wf(),
            final(self).positives_of(subject@) == old(self).positives_of(subject@)
                + outcome_contrib(*outcome),
            outcome.succeeded ==> final(self).has_subject(subject@),
            !outcome.succeeded ==> final(self).records_seq() == old(self).records_seq(),
            forall|s2: Seq<char>|
                s2 != subject@ ==> final(self).has_subject(s2) == old(self).has_subject(s2),
            forall|s2: Seq<char>|
                s2 != subject@ ==> final(self).positives_of(s2) == old(self).positives_of(s2),
    {
        if !outcome.succeeded {
            proof {
                assert(old(self).positives_of(subject@) + outcome_contrib(*outcome) =~= old(
                    self,
                ).positives_of(subject@));
            }
            return ;
        }
        let found = self.find(&subject);
        match found {
            Some(i) => {
                proof {
                    old(self).lemma_subject_index(subject@, i as int);
                }
                let ghost prev = self.records@;
                match outcome.detail {
                    Some(d) => {
                        self.records[i].positives.push(d);
                    },
                    None => {},
                }
                proof {
                    assert forall|a: int, b: int|
                        0 <= a < b < self.records_seq().len() implies (#[trigger] self.records_seq()[a]).subject@
                        != (#[trigger] self.records_seq()[b]).subject@ by {
                        assert(self.records_seq()[a].subject@ == prev[a].subject@);
                        assert(self.records_seq()[b].subject@ == prev[b].subject@);
                        assert(old(self).records_seq()[a].subject@ != old(
                            self,
                        ).records_seq()[b].subject@);
                    }
                    self.lemma_subject_index(subject@, i as int);
                    self.lemma_unchanged_others(*old(self), subject@);
                    assert(self.positives_of(subject@) =~= old(self).positives_of(subject@)
                        + outcome_contrib(*outcome));
                }
            },
            None => {
                let ghost prev = self.records@;
                let mut positives: Vec<u16> = Vec::new();
                match outcome.detail {
                    Some(d) => {
                        positives.push(d);
                    },
                    None => {},
                }
                self.records.push(ScanRecord { subject, positives });
                proof {
                    assert forall|a: int, b: int|
                        0 <= a < b < self.records_seq().len() implies (#[trigger] self.records_seq()[a]).subject@
                        != (#[trigger] self.records_seq()[b]).subject@ by {
                        if b < prev.len() {
                        } else {
                            assert(self.records_seq()[b].subject@ == subject@);
                        }
                    }
                    self.lemma_subject_index(subject@, prev.len() as int);
                    self.lemma_unchanged_others(*old(self), subject@);
                    assert(self.positives_of(subject@) =~= old(self).positives_of(subject@)
                        + outcome_contrib(*outcome));
                }
            },
        }
    }

    /// Records a whole batch of outcomes for one subject, in batch order:
    /// afterwards the subject's collected details have grown by exactly
    /// `positive_details` of the batch — nothing lost, nothing duplicated —
    /// and no other subject's record has changed.
    pub fn record_all(&mut self, subject: String, outcomes: &Vec<ProbeOutcome>)
        requires
            old(self).wf(),
        ensures
            final(self).wf(),
            final(self).positives_of(subject@) == old(self).positives_of(subject@)
                + positive_details(outcomes@),
            forall|s2: Seq<char>|
                s2 != subject@ ==> final(self).has_subject(s2) == old(self).has_subject(s2),
            forall|s2: Seq<char>|
                s2 != subject@ ==> final(self).positives_of(s2) == old(self).positives_of(s2),
    {
        let n = outcomes.len();
        let mut i: usize = 0;
        proof {
            assert(outcomes@.take(0) =~= Seq::<ProbeOutcome>::empty());
            assert(old(self).positives_of(subject@) + positive_details(outcomes@.take(0)) =~= old(
                self,
            ).positives_of(subject@));
        }
        while i < n
            invariant
                self.wf(),
                n == outcomes@.len(),
                0 <= i <= n,
                self.positives_of(subject@) == old(self).positives_of(subject@)
                    + positive_details(outcomes@.take(i as int)),
                forall|s2: Seq<char>|
                    s2 != subject@ ==> self.has_subject(s2) == old(self).has_subject(s2),
                forall|s2: Seq<char>|
                    s2 != subject@ ==> self.positives_of(s2) == old(self).positives_of(s2),
            decreases n - i,
        {
            let ghost mid = *self;
            self.record(subject.clone(), &outcomes[i]);
            proof {
                assert(outcomes@.take(i + 1).drop_last() =~= outcomes@.take(i as int));
                assert(outcomes@.take(i + 1).last() == outcomes@[i as int]);
                assert(positive_details(outcomes@.take(i + 1)) =~= positive_details(
                    outcomes@.take(i as int),
                ) + outcome_contrib(outcomes@[i as int]));
                assert(self.positives_of(subject@) =~= old(self).positives_of(subject@)
                    + positive_details(outcomes@.take(i + 1)));
                assert forall|s2: Seq<char>| s2 != subject@ implies self.has_subject(s2) == old(
                    self,
                ).has_subject(s2) && self.positives_of(s2) == old(self).positives_of(s2) by {
                    assert(mid.has_subject(s2) == old(self).has_subject(s2));
                    assert(mid.positives_of(s2) == old(self).positives_of(s2));
                }
            }
            i = i + 1;
        }
        proof {
            assert(outcomes@.take(n as int) =~= outcomes@);
        }
    }
}

}
