use vstd::prelude::*;

use crate::outcome::filter_by_flags;
use crate::outcome::lemma_filter_by_flags_step;

verus! {

/// Whether some element of `s` has view `v`.
pub open spec fn has_view(s: Seq<String>, v: Seq<char>) -> bool {
    exists|i: int| 0 <= i < s.len() && (#[trigger] s[i])@ == v
}

/// Pairwise distinct views: each subdomain appears once.
pub open spec fn distinct_views(s: Seq<String>) -> bool {
    forall|i: int, j: int| 0 <= i < j < s.len() ==> (#[trigger] s[i])@ != (#[trigger] s[j])@
}

/// The discovery stage's holder: the candidate subdomains of one run and,
/// once the liveness stage has run, the responsive subset. Candidates are
/// kept deduplicated — identity is the subdomain string's value.
pub struct SubdomainExtractor {
    subdomains: Vec<String>,
    responsive_subdomains: Vec<String>,
}

impl SubdomainExtractor {
    /// The candidate subdomains, each exactly once.
    pub closed spec fn candidates(self) -> Seq<String> {
        self.subdomains@
    }

    /// The candidates that the DNS liveness stage confirmed.
    pub closed spec fn responsive(self) -> Seq<String> {
        self.responsive_subdomains@
    }

    pub open spec fn wf(self) -> bool {
        distinct_views(self.candidates())
    }

    pub fn new() -> (e: Self)
        ensures
            e.wf(),
            e.candidates() == Seq::<String>::empty(),
            e.responsive() == Seq::<String>::empty(),
    {
        SubdomainExtractor { subdomains: Vec::new(), responsive_subdomains: Vec::new() }
    }

    /// The candidate subdomains, for the report writer.
    pub fn subdomains(&self) -> (r: &Vec<String>)
        ensures
            r@ == self.candidates(),
    {
        &self.subdomains
    }

    /// The responsive subdomains, for the report writer and the port stage.
    pub fn responsive_subdomains(&self) -> (r: &Vec<String>)
        ensures
            r@ == self.responsive(),
    {
        &self.responsive_subdomains
    }

    /// Takes the discovered candidate set of one run: every name of the input
    /// is kept exactly once (value equality), nothing else enters. Replaces
    /// any earlier candidates; the responsive subset is reset with them.
    pub fn set_candidates(&mut self, candidates: Vec<String>)
        ensures
            final(self).wf(),
            forall|v: Seq<char>| final(self).has_candidate(v) == has_view(candidates@, v),
            final(self).responsive() == Seq::<String>::empty(),
    {
        let mut kept: Vec<String> = Vec::new();
        let n = candidates.len();
        let mut i: usize = 0;
        while i < n
            invariant
                0 <= i <= n,
                n == candidates@.len(),
                distinct_views(kept@),
                forall|v: Seq<char>| has_view(kept@, v) == has_view(candidates@.take(i as int), v),
            decreases n - i,
        {
            let ghost prev = kept@;
            let candidate = &candidates[i];
            let mut present = false;
            let m = kept.len();
            let mut j: usize = 0;
            while j < m
                invariant
                    0 <= j <= m,
                    m == kept@.len(),
                    kept@ == prev,
                    candidate == candidates@[i as int],
                    i < n == candidates@.len(),
                    present == exists|t: int| 0 <= t < j && (#[trigger] kept@[t])@ == candidate@,
                decreases m - j,
            {
                if kept[j] == *candidate {
                    present = true;
                }
                j = j + 1;
            }
            proof {
                let cv = candidate@;
                if present {
                    let t = choose|t: int| 0 <= t < m && (#[trigger] kept@[t])@ == cv;
                    assert(has_view(prev, cv));
                }
                if has_view(prev, cv) {
                    let t = choose|t: int| 0 <= t < prev.len() && (#[trigger] prev[t])@ == cv;
                    assert(kept@[t]@ == cv);
                    assert(present);
                }
            }
            if !present {
                kept.push(candidate.clone());
                proof {
                    let cv = candidate@;
                    assert forall|a: int, b: int|
                        0 <= a < b < kept@.len() implies (#[trigger] kept@[a])@ != (
                    #[trigger] kept@[b])@ by {
                        if b < prev.len() {
                            assert(kept@[a] == prev[a]);
                            assert(kept@[b] == prev[b]);
                        } else {
                            assert(kept@[b]@ == cv);
                            assert(kept@[a] == prev[a]);
                            if prev[a]@ == cv {
                                assert(has_view(prev, cv));
                            }
                        }
                    }
                }
            }
            proof {
                let cv = candidate@;
                assert(candidates@.take(i + 1).drop_last() =~= candidates@.take(i as int));
                assert(candidates@.take(i + 1).last() == candidates@[i as int]);
                assert forall|v: Seq<char>| has_view(kept@, v) == has_view(
                    candidates@.take(i + 1),
                    v,
                ) by {
                    if has_view(kept@, v) {
                        let t = choose|t: int| 0 <= t < kept@.len() && (#[trigger] kept@[t])@ == v;
                        if t < prev.len() {
                            assert(kept@[t] == prev[t]);
                            assert(has_view(prev, v));
                            let u = choose|u: int|
                                0 <= u < candidates@.take(i as int).len() && (
                                #[trigger] candidates@.take(i as int)[u])@ == v;
                            assert(candidates@.take(i + 1)[u]@ == v);
                            assert(has_view(candidates@.take(i + 1), v));
                        } else {
                            assert(kept@[t]@ == cv);
                            assert(candidates@.take(i + 1)[i as int]@ == v);
                            assert(has_view(candidates@.take(i + 1), v));
                        }
                    }
                    if has_view(candidates@.take(i + 1), v) {
                        let t = choose|t: int|
                            0 <= t < candidates@.take(i + 1).len() && (#[trigger] candidates@.take(
                                i + 1,
                            )[t])@ == v;
                        if t < i {
                            assert(candidates@.take(i as int)[t]@ == v);
                            assert(has_view(candidates@.take(i as int), v));
                            assert(has_view(prev, v));
                            let u = choose|u: int| 0 <= u < prev.len() && (#[trigger] prev[u])@
                                == v;
                            assert(kept@[u] == prev[u]);
                            assert(has_view(kept@, v));
                        } else {
                            assert(v == cv);
                            if present {
                                let u = choose|u: int| 0 <= u < prev.len() && (#[trigger] prev[u])@
                                    == cv;
                                assert(kept@[u] == prev[u]);
                                assert(has_view(kept@, v));
                            } else {
                                assert(kept@.last()@ == cv);
                                assert(has_view(kept@, v));
                            }
                        }
                    }
                }
            }
            i = i + 1;
        }
        proof {
            assert(candidates@.take(n as int) =~= candidates@);
        }
        self.subdomains = kept;
        self.responsive_subdomains = Vec::new();
    }

    /// Whether `v` is one of the candidates.
    pub open spec fn has_candidate(self, v: Seq<char>) -> bool {
        has_view(self.candidates(), v)
    }

    /// Applies the DNS liveness stage's verdicts: `alive[i]` says whether
    /// candidate `i` resolved to at least one address. The responsive subset
    /// becomes exactly the candidates whose flag is set, in candidate order;
    /// the candidates themselves do not change. No later re-check happens: a
    /// candidate that flaps after this stage is not detected.
    pub fn filter_responsive_subdomains(&mut self, alive: &Vec<bool>)
        requires
            old(self).wf(),
            alive@.len() == old(self).candidates().len(),
        ensures
            final(self).wf(),
            final(self).candidates() == old(self).candidates(),
            final(self).responsive() == filter_by_flags(old(self).candidates(), alive@),
    {
        let mut live: Vec<String> = Vec::new();
        let n = self.subdomains.len();
        let mut i: usize = 0;
        proof {
            assert(filter_by_flags(
                self.subdomains@.take(0),
                alive@.take(0),
            ) =~= Seq::<String>::empty());
        }
        while i < n
            invariant
                0 <= i <= n,
                n == self.subdomains@.len(),
                alive@.len() == n,
                live@ == filter_by_flags(self.subdomains@.take(i as int), alive@.take(i as int)),
            decreases n - i,
        {
            if alive[i] {
                live.push(self.subdomains[i].clone());
            }
            proof {
                lemma_filter_by_flags_step(self.subdomains@, alive@, i as int);
                if alive@[i as int] {
                    assert(live@ =~= filter_by_flags(
                        self.subdomains@.take(i as int),
                        alive@.take(i as int),
                    ) + seq![self.subdomains@[i as int]]);
                } else {
                    assert(live@ =~= filter_by_flags(
                        self.subdomains@.take(i as int),
                        alive@.take(i as int),
                    ) + Seq::<String>::empty());
                }
            }
            i = i + 1;
        }
        proof {
            assert(self.subdomains@.take(n as int) =~= self.subdomains@);
            assert(alive@.take(n as int) =~= alive@);
        }
        self.responsive_subdomains = live;
    }
}

}
