use vstd::prelude::*;

verus! {

/// The subject of one probe: a bare hostname or URL, or a (host, port) pair
/// for a TCP connect probe. Identity is the value itself.
#[derive(Clone, Debug)]
pub enum Target {
    Host(String),
    HostPort(String, u16),
}

/// The result of one probe of one target. The executor produces exactly one
/// outcome per work item; a probe that fails, is refused or times out yields
/// `succeeded == false`, never an error.
#[derive(Clone, Debug)]
pub struct ProbeOutcome {
    pub target: Target,
    pub succeeded: bool,
    /// The open port number for a successful TCP probe; `None` otherwise.
    pub detail: Option<u16>,
}

/// The elements of `s` whose flag is set, in order: the shape shared by the
/// liveness filter (which subdomains survived the DNS stage) and the port
/// scan (which probed ports accepted).
pub open spec fn filter_by_flags<T>(s: Seq<T>, flags: Seq<bool>) -> Seq<T>
    recommends
        s.len() == flags.len(),
    decreases s.len(),
{
    if s.len() == 0 || flags.len() == 0 {
        Seq::empty()
    } else {
        filter_by_flags(s.drop_last(), flags.drop_last()) + (if flags.last() {
            seq![s.last()]
        } else {
            Seq::empty()
        })
    }
}

/// One step of `filter_by_flags` over a growing prefix.
pub proof fn lemma_filter_by_flags_step<T>(s: Seq<T>, flags: Seq<bool>, i: int)
    requires
        0 <= i < s.len(),
        i < flags.len(),
    ensures
        filter_by_flags(s.take(i + 1), flags.take(i + 1)) == filter_by_flags(
            s.take(i),
            flags.take(i),
        ) + (if flags[i] {
            seq![s[i]]
        } else {
            Seq::<T>::empty()
        }),
{
    assert(s.take(i + 1).drop_last() =~= s.take(i));
    assert(flags.take(i + 1).drop_last() =~= flags.take(i));
    assert(s.take(i + 1).last() == s[i]);
    assert(flags.take(i + 1).last() == flags[i]);
    if flags[i] {
        assert(filter_by_flags(s.take(i + 1), flags.take(i + 1)) =~= filter_by_flags(
            s.take(i),
            flags.take(i),
        ) + seq![s[i]]);
    } else {
        assert(filter_by_flags(s.take(i + 1), flags.take(i + 1)) =~= filter_by_flags(
            s.take(i),
            flags.take(i),
        ) + Seq::<T>::empty());
    }
}

}
