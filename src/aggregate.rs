//! The aggregate of a run: the found outcomes in completion order and the
//! number of failed ones.

use vstd::prelude::*;
use crate::outcome::{Found, FoundView, Outcome, OutcomeView};

verus! {

/// The found outcomes of `log`, in the order of `log`.
pub open spec fn successes_of(log: Seq<OutcomeView>) -> Seq<FoundView>
    decreases log.len(),
{
    if log.len() == 0 {
        Seq::empty()
    } else {
        let prev = successes_of(log.drop_last());
        match log.last() {
            OutcomeView::Found(f) => prev.push(f),
            OutcomeView::Failed(_) => prev,
        }
    }
}

/// How many outcomes of `log` failed.
pub open spec fn failures_of(log: Seq<OutcomeView>) -> nat
    decreases log.len(),
{
    if log.len() == 0 {
        0
    } else {
        failures_of(log.drop_last()) + match log.last() {
            OutcomeView::Found(_) => 0nat,
            OutcomeView::Failed(_) => 1nat,
        }
    }
}

pub struct Aggregate {
    /// Found outcomes, in the order in which they were recorded.
    pub successes: Vec<Found>,
    pub failure_count: usize,
}

impl Aggregate {
    pub open spec fn success_views(&self) -> Seq<FoundView> {
        self.successes@.map_values(|f: Found| f@)
    }

    /// This aggregate is what recording `log` in order gives.
    pub open spec fn records(&self, log: Seq<OutcomeView>) -> bool {
        &&& self.success_views() == successes_of(log)
        &&& self.failure_count == failures_of(log)
    }

    pub fn new() -> (r: Aggregate)
        ensures
            r.records(Seq::empty()),
    {
        let r = Aggregate { successes: Vec::new(), failure_count: 0 };
        assert(r.success_views() =~= Seq::<FoundView>::empty());
        r
    }

    /// Appends a found outcome to the successes, or counts a failed one.
    pub fn record(&mut self, o: Outcome)
        requires
            old(self).failure_count < usize::MAX,
        ensures
            forall|log: Seq<OutcomeView>|
                old(self).records(log) ==> #[trigger] final(self).records(log.push(o@)),
            final(self).successes@.len() + final(self).failure_count
                == old(self).successes@.len() + old(self).failure_count + 1,
    {
        match o {
            Outcome::Found(f) => {
                self.successes.push(f);
            },
            Outcome::Failed(_) => {
                self.failure_count = self.failure_count + 1;
            },
        }
        assert forall|log: Seq<OutcomeView>|
            old(self).records(log) implies #[trigger] self.records(log.push(o@)) by {
            assert(log.push(o@).drop_last() =~= log);
            assert(self.success_views() =~= successes_of(log.push(o@)));
        }
    }
}

/// Every outcome is counted once: successes and failures together are as
/// many as the outcomes recorded.
pub proof fn lemma_counts_add_up(log: Seq<OutcomeView>)
    ensures
        successes_of(log).len() + failures_of(log) == log.len(),
    decreases log.len(),
{
    if log.len() > 0 {
        lemma_counts_add_up(log.drop_last());
    }
}

/// Each found outcome occurs among the successes as often as in the log.
proof fn lemma_found_counts(log: Seq<OutcomeView>, f: FoundView)
    ensures
        successes_of(log).to_multiset().count(f) == log.to_multiset().count(OutcomeView::Found(f)),
    decreases log.len(),
{
    if log.len() > 0 {
        let p = log.drop_last();
        lemma_found_counts(p, f);
        assert(p.push(log.last()) =~= log);
        p.to_multiset_ensures();
        successes_of(p).to_multiset_ensures();
    } else {
        log.to_multiset_ensures();
        successes_of(log).to_multiset_ensures();
    }
}

/// The content of the aggregate does not depend on the order of completion:
/// two logs that hold the same outcomes, in any order, give the same
/// successes as a multiset and the same failure count.
pub proof fn lemma_order_irrelevant(a: Seq<OutcomeView>, b: Seq<OutcomeView>)
    requires
        a.to_multiset() == b.to_multiset(),
    ensures
        successes_of(a).to_multiset() == successes_of(b).to_multiset(),
        failures_of(a) == failures_of(b),
{
    assert forall|f: FoundView| #[trigger] successes_of(a).to_multiset().count(f)
        == successes_of(b).to_multiset().count(f) by {
        lemma_found_counts(a, f);
        lemma_found_counts(b, f);
    }
    assert(successes_of(a).to_multiset() =~= successes_of(b).to_multiset());
    a.to_multiset_ensures();
    b.to_multiset_ensures();
    successes_of(a).to_multiset_ensures();
    successes_of(b).to_multiset_ensures();
    lemma_counts_add_up(a);
    lemma_counts_add_up(b);
}

} // verus!
