//! The task supervisor: one lookup per identifier, started in submission order
//! while a permit is free, each turned into exactly one outcome when its reply
//! comes back, in whatever order the replies come.
//!
//! The supervisor performs no call itself. Its caller asks it which lookup to
//! start, performs that lookup, and hands the reply back through `complete`.

use vstd::prelude::*;
use crate::aggregate::{Aggregate, failures_of, successes_of, lemma_counts_add_up, lemma_order_irrelevant};
use crate::outcome::{FoundView, Outcome, OutcomeView, classify, outcome_id, reply_outcome};
use crate::payload::Reply;
use crate::pool::PermitPool;

verus! {

/// One identifier to look up, with its display name.
pub struct Lookup {
    pub id: String,
    pub name: String,
}

/// Where one lookup stands.
#[derive(Clone, Copy, PartialEq, Eq, Structural, Debug)]
pub enum Stage {
    /// Not started yet.
    Queued,
    /// Started and holding a permit; no reply yet.
    InFlight,
    /// Its outcome is recorded.
    Done,
}

/// How many entries of `s` are `st`.
pub open spec fn count_stage(s: Seq<Stage>, st: Stage) -> nat
    decreases s.len(),
{
    if s.len() == 0 {
        0
    } else {
        count_stage(s.drop_last(), st) + if s.last() == st { 1nat } else { 0nat }
    }
}

proof fn lemma_count_update(s: Seq<Stage>, i: int, v: Stage, st: Stage)
    requires
        0 <= i < s.len(),
    ensures
        count_stage(s.update(i, v), st) + (if s[i] == st { 1nat } else { 0nat })
            == count_stage(s, st) + (if v == st { 1nat } else { 0nat }),
    decreases s.len(),
{
    let u = s.update(i, v);
    if i == s.len() - 1 {
        assert(u.drop_last() =~= s.drop_last());
    } else {
        lemma_count_update(s.drop_last(), i, v, st);
        assert(u.drop_last() =~= s.drop_last().update(i, v));
    }
}

proof fn lemma_count_two(s: Seq<Stage>, a: Stage, b: Stage)
    requires
        a != b,
    ensures
        count_stage(s, a) + count_stage(s, b) <= s.len(),
    decreases s.len(),
{
    if s.len() > 0 {
        lemma_count_two(s.drop_last(), a, b);
    }
}

proof fn lemma_count_all(s: Seq<Stage>, st: Stage)
    requires
        count_stage(s, st) == s.len(),
    ensures
        forall|i: int| 0 <= i < s.len() ==> s[i] == st,
    decreases s.len(),
{
    if s.len() > 0 {
        lemma_count_le(s.drop_last(), st);
        lemma_count_all(s.drop_last(), st);
        assert forall|i: int| 0 <= i < s.len() implies s[i] == st by {
            if i < s.len() - 1 {
                assert(s[i] == s.drop_last()[i]);
            }
        }
    }
}

proof fn lemma_count_le(s: Seq<Stage>, st: Stage)
    ensures
        count_stage(s, st) <= s.len(),
    decreases s.len(),
{
    if s.len() > 0 {
        lemma_count_le(s.drop_last(), st);
    }
}

proof fn lemma_count_none(s: Seq<Stage>, st: Stage)
    requires
        forall|i: int| 0 <= i < s.len() ==> s[i] != st,
    ensures
        count_stage(s, st) == 0,
    decreases s.len(),
{
    if s.len() > 0 {
        lemma_count_none(s.drop_last(), st);
    }
}

/// The outcomes of `rs` at the indices whose stage in `st` is done, in index
/// order.
pub open spec fn done_outcomes(st: Seq<Stage>, rs: Seq<OutcomeView>) -> Seq<OutcomeView>
    decreases st.len(),
{
    if st.len() == 0 || rs.len() == 0 {
        Seq::empty()
    } else {
        let prev = done_outcomes(st.drop_last(), rs.drop_last());
        if st.last() == Stage::Done {
            prev.push(rs.last())
        } else {
            prev
        }
    }
}

proof fn lemma_done_update(st: Seq<Stage>, rs: Seq<OutcomeView>, i: int, s2: Stage, v: OutcomeView)
    requires
        st.len() == rs.len(),
        0 <= i < st.len(),
        st[i] != Stage::Done,
    ensures
        done_outcomes(st.update(i, s2), rs.update(i, v)).to_multiset() == if s2 == Stage::Done {
            done_outcomes(st, rs).to_multiset().insert(v)
        } else {
            done_outcomes(st, rs).to_multiset()
        },
    decreases st.len(),
{
    let st2 = st.update(i, s2);
    let rs2 = rs.update(i, v);
    let prev = done_outcomes(st.drop_last(), rs.drop_last());
    prev.to_multiset_ensures();
    if i == st.len() - 1 {
        assert(st2.drop_last() =~= st.drop_last());
        assert(rs2.drop_last() =~= rs.drop_last());
    } else {
        lemma_done_update(st.drop_last(), rs.drop_last(), i, s2, v);
        assert(st2.drop_last() =~= st.drop_last().update(i, s2));
        assert(rs2.drop_last() =~= rs.drop_last().update(i, v));
        let prev2 = done_outcomes(st2.drop_last(), rs2.drop_last());
        prev2.to_multiset_ensures();
        if st.last() == Stage::Done {
            if s2 == Stage::Done {
                assert(prev2.push(rs.last()).to_multiset() =~= prev.push(rs.last()).to_multiset().insert(v));
            }
        }
    }
}

proof fn lemma_done_none(st: Seq<Stage>, rs: Seq<OutcomeView>)
    requires
        forall|i: int| 0 <= i < st.len() ==> st[i] != Stage::Done,
    ensures
        done_outcomes(st, rs) == Seq::<OutcomeView>::empty(),
    decreases st.len(),
{
    if st.len() > 0 && rs.len() > 0 {
        lemma_done_none(st.drop_last(), rs.drop_last());
    }
}

proof fn lemma_done_all(st: Seq<Stage>, rs: Seq<OutcomeView>)
    requires
        st.len() == rs.len(),
        forall|i: int| 0 <= i < st.len() ==> st[i] == Stage::Done,
    ensures
        done_outcomes(st, rs) == rs,
    decreases st.len(),
{
    if st.len() > 0 {
        lemma_done_all(st.drop_last(), rs.drop_last());
        assert(rs.drop_last().push(rs.last()) =~= rs);
    } else {
        assert(rs =~= Seq::<OutcomeView>::empty());
    }
}

pub struct Supervisor {
    pool: PermitPool,
    lookups: Vec<Lookup>,
    stages: Vec<Stage>,
    next: usize,
    drained: usize,
    aggregate: Aggregate,
    log: Ghost<Seq<OutcomeView>>,
    order: Ghost<Seq<int>>,
    results: Ghost<Seq<OutcomeView>>,
}

impl Supervisor {
    /// The lookups, in submission order.
    pub closed spec fn lookups(&self) -> Seq<Lookup> {
        self.lookups@
    }

    pub closed spec fn stages(&self) -> Seq<Stage> {
        self.stages@
    }

    pub closed spec fn capacity(&self) -> nat {
        self.pool.limit()
    }

    /// Permits of the pool that are held by started lookups.
    pub closed spec fn permits_out(&self) -> nat {
        self.pool.outstanding()
    }

    /// The outcomes recorded so far, in completion order.
    pub closed spec fn log(&self) -> Seq<OutcomeView> {
        self.log@
    }

    /// The index of the lookup behind each entry of `log`.
    pub closed spec fn order(&self) -> Seq<int> {
        self.order@
    }

    /// For each lookup that is done, its outcome.
    pub closed spec fn results(&self) -> Seq<OutcomeView> {
        self.results@
    }

    pub closed spec fn aggregate(&self) -> Aggregate {
        self.aggregate
    }

    pub closed spec fn wf(&self) -> bool {
        &&& self.pool.wf()
        &&& self.capacity() >= 1
        &&& self.stages@.len() == self.lookups@.len()
        &&& self.results@.len() == self.lookups@.len()
        &&& self.next <= self.lookups@.len()
        &&& forall|i: int|
            0 <= i < self.stages@.len() ==> ((i < self.next) <==> self.stages@[i] != Stage::Queued)
        &&& self.pool.outstanding() == count_stage(self.stages@, Stage::InFlight)
        &&& self.drained == count_stage(self.stages@, Stage::Done)
        &&& self.log@.len() == self.drained
        &&& self.order@.len() == self.drained
        &&& self.aggregate.records(self.log@)
        &&& self.log@.to_multiset() == done_outcomes(self.stages@, self.results@).to_multiset()
        &&& forall|k: int|
            0 <= k < self.order@.len() ==> {
                &&& 0 <= #[trigger] self.order@[k] < self.lookups@.len()
                &&& self.stages@[self.order@[k]] == Stage::Done
                &&& self.log@[k] == self.results@[self.order@[k]]
            }
        &&& forall|k1: int, k2: int|
            0 <= k1 < self.order@.len() && 0 <= k2 < self.order@.len() && k1 != k2
                ==> #[trigger] self.order@[k1] != #[trigger] self.order@[k2]
        &&& forall|i: int|
            0 <= i < self.stages@.len() && #[trigger] self.stages@[i] == Stage::Done
                ==> self.order@.contains(i)
        &&& forall|i: int|
            0 <= i < self.stages@.len() && self.stages@[i] == Stage::Done
                ==> outcome_id(#[trigger] self.results@[i]) == self.lookups@[i].id@
    }

    /// A supervisor for `lookups`, none started, with a pool of `capacity`
    /// permits.
    pub fn new(capacity: usize, lookups: Vec<Lookup>) -> (r: Supervisor)
        requires
            capacity >= 1,
        ensures
            r.wf(),
            r.capacity() == capacity,
            r.lookups() == lookups@,
            r.stages().len() == lookups@.len(),
            r.results().len() == lookups@.len(),
            forall|i: int| 0 <= i < lookups@.len() ==> r.stages()[i] == Stage::Queued,
            r.log() == Seq::<OutcomeView>::empty(),
            r.permits_out() == 0,
    {
        let n = lookups.len();
        let mut stages: Vec<Stage> = Vec::new();
        let mut i: usize = 0;
        while i < n
            invariant
                i <= n,
                stages@.len() == i,
                forall|j: int| 0 <= j < i ==> stages@[j] == Stage::Queued,
            decreases n - i,
        {
            stages.push(Stage::Queued);
            i = i + 1;
        }
        let s = Supervisor {
            pool: PermitPool::new(capacity),
            lookups,
            stages,
            next: 0,
            drained: 0,
            aggregate: Aggregate::new(),
            log: Ghost(Seq::empty()),
            order: Ghost(Seq::empty()),
            results: Ghost(Seq::new(n as nat, |j: int| OutcomeView::Failed(Seq::empty()))),
        };
        proof {
            lemma_count_none(s.stages@, Stage::InFlight);
            lemma_count_none(s.stages@, Stage::Done);
            lemma_done_none(s.stages@, s.results@);
            s.log@.to_multiset_ensures();
            Seq::<OutcomeView>::empty().to_multiset_ensures();
            assert(s.log@ =~= Seq::<OutcomeView>::empty());
        }
        s
    }

    pub fn len(&self) -> (r: usize)
        ensures
            r == self.lookups().len(),
    {
        self.lookups.len()
    }

    pub fn lookup(&self, index: usize) -> (r: &Lookup)
        requires
            index < self.lookups().len(),
        ensures
            *r == self.lookups()[index as int],
    {
        &self.lookups[index]
    }

    pub fn stage(&self, index: usize) -> (r: Stage)
        requires
            self.wf(),
            index < self.lookups().len(),
        ensures
            r == self.stages()[index as int],
    {
        self.stages[index]
    }

    pub fn in_flight(&self) -> (r: usize)
        requires
            self.wf(),
        ensures
            r == count_stage(self.stages(), Stage::InFlight),
            r == self.permits_out(),
    {
        self.pool.in_use()
    }

    /// All lookups are done.
    pub fn is_drained(&self) -> (r: bool)
        requires
            self.wf(),
        ensures
            r == (count_stage(self.stages(), Stage::Done) == self.lookups().len()),
    {
        self.drained == self.lookups.len()
    }

    /// Starts the first lookup that is still queued, if a permit is free: it
    /// takes the permit and is in flight from then on. `None` when every
    /// lookup has started or every permit is out.
    pub fn start_next(&mut self) -> (r: Option<usize>)
        requires
            old(self).wf(),
        ensures
            final(self).wf(),
            final(self).lookups() == old(self).lookups(),
            final(self).capacity() == old(self).capacity(),
            final(self).log() == old(self).log(),
            final(self).order() == old(self).order(),
            final(self).results() == old(self).results(),
            final(self).aggregate() == old(self).aggregate(),
            (r is Some) == (old(self).permits_out() < old(self).capacity() && exists|i: int|
                0 <= i < old(self).stages().len() && old(self).stages()[i] == Stage::Queued),
            match r {
                Some(i) => {
                    &&& i < old(self).lookups().len()
                    &&& old(self).stages()[i as int] == Stage::Queued
                    &&& forall|j: int| 0 <= j < i ==> old(self).stages()[j] != Stage::Queued
                    &&& final(self).stages() == old(self).stages().update(i as int, Stage::InFlight)
                    &&& final(self).permits_out() == old(self).permits_out() + 1
                },
                None => {
                    &&& final(self).stages() == old(self).stages()
                    &&& final(self).permits_out() == old(self).permits_out()
                },
            },
    {
        if self.next >= self.lookups.len() {
            assert(forall|i: int|
                0 <= i < old(self).stages().len() ==> old(self).stages()[i] != Stage::Queued);
            return None;
        }
        if !self.pool.try_acquire() {
            return None;
        }
        let i = self.next;
        proof {
            lemma_count_update(self.stages@, i as int, Stage::InFlight, Stage::InFlight);
            lemma_count_update(self.stages@, i as int, Stage::InFlight, Stage::Done);
            lemma_done_update(self.stages@, self.results@, i as int, Stage::InFlight, self.results@[i as int]);
            assert(self.results@.update(i as int, self.results@[i as int]) =~= self.results@);
        }
        self.stages.set(i, Stage::InFlight);
        self.next = i + 1;
        proof {
            assert forall|j: int|
                0 <= j < self.stages@.len() && #[trigger] self.stages@[j] == Stage::Done
                implies self.order@.contains(j) by {
                assert(old(self).stages@[j] == Stage::Done);
            }
        }
        Some(i)
    }

    /// Records the reply of a lookup in flight: its permit goes back to the
    /// pool first, then the reply is classified and its outcome recorded.
    pub fn complete(&mut self, index: usize, reply: Reply)
        requires
            old(self).wf(),
            index < old(self).lookups().len(),
            old(self).stages()[index as int] == Stage::InFlight,
        ensures
            final(self).wf(),
            final(self).lookups() == old(self).lookups(),
            final(self).capacity() == old(self).capacity(),
            final(self).stages() == old(self).stages().update(index as int, Stage::Done),
            final(self).permits_out() + 1 == old(self).permits_out(),
            final(self).results() == old(self).results().update(
                index as int,
                reply_outcome(
                    old(self).lookups()[index as int].id@,
                    old(self).lookups()[index as int].name@,
                    &reply,
                ),
            ),
            final(self).log() == old(self).log().push(final(self).results()[index as int]),
            final(self).order() == old(self).order().push(index as int),
    {
        proof {
            lemma_count_update(self.stages@, index as int, Stage::Done, Stage::InFlight);
            lemma_count_update(self.stages@, index as int, Stage::Done, Stage::Done);
            lemma_count_two(self.stages@, Stage::InFlight, Stage::Done);
            lemma_counts_add_up(self.log@);
            assert(!self.order@.contains(index as int));
        }
        let total = self.lookups.len();
        proof {
            assert(self.drained < total);
        }
        self.pool.release();
        let id = self.lookups[index].id.clone();
        let name = self.lookups[index].name.clone();
        let o = classify(id, name, reply);
        let ghost ov = o@;
        self.aggregate.record(o);
        self.stages.set(index, Stage::Done);
        self.drained = self.drained + 1;
        self.log = Ghost(self.log@.push(ov));
        self.order = Ghost(self.order@.push(index as int));
        self.results = Ghost(self.results@.update(index as int, ov));
        proof {
            let s = old(self);
            lemma_done_update(s.stages@, s.results@, index as int, Stage::Done, ov);
            s.log@.to_multiset_ensures();
            assert forall|k: int| 0 <= k < self.order@.len() implies {
                &&& 0 <= #[trigger] self.order@[k] < self.lookups@.len()
                &&& self.stages@[self.order@[k]] == Stage::Done
                &&& self.log@[k] == self.results@[self.order@[k]]
            } by {
                if k < s.order@.len() {
                    assert(self.order@[k] == s.order@[k]);
                    assert(s.order@[k] != index);
                }
            }
            assert forall|i: int|
                0 <= i < self.stages@.len() && #[trigger] self.stages@[i] == Stage::Done
                implies self.order@.contains(i) by {
                if i != index {
                    assert(s.stages@[i] == Stage::Done);
                    let k = choose|k: int| 0 <= k < s.order@.len() && s.order@[k] == i;
                    assert(self.order@[k] == i);
                } else {
                    assert(self.order@[s.order@.len() as int] == i);
                }
            }
        }
    }

    /// The aggregate recorded so far.
    pub fn into_aggregate(self) -> (r: Aggregate)
        requires
            self.wf(),
        ensures
            r == self.aggregate(),
            r.records(self.log()),
    {
        self.aggregate
    }
}

/// The supervisor is done with every lookup.
pub open spec fn drained(s: &Supervisor) -> bool {
    count_stage(s.stages(), Stage::Done) == s.lookups().len()
}

/// Admission: every permit out of the pool is held by one lookup in flight,
/// and never more are out than the pool's capacity.
pub proof fn lemma_admission_bound(s: &Supervisor)
    requires
        s.wf(),
    ensures
        s.permits_out() == count_stage(s.stages(), Stage::InFlight),
        count_stage(s.stages(), Stage::InFlight) <= s.capacity(),
{
}

/// With a single permit, lookups run strictly one at a time: no two are in
/// flight together.
pub proof fn lemma_one_permit_serializes(s: &Supervisor, i: int, j: int)
    requires
        s.wf(),
        s.capacity() == 1,
        0 <= i < s.stages().len(),
        0 <= j < s.stages().len(),
        s.stages()[i] == Stage::InFlight,
        s.stages()[j] == Stage::InFlight,
    ensures
        i == j,
{
    if i != j {
        let st = s.stages();
        let u = st.update(i, Stage::Queued);
        lemma_count_update(st, i, Stage::Queued, Stage::InFlight);
        lemma_count_update(u, j, Stage::Queued, Stage::InFlight);
    }
}

/// In every state, the successes and the failures of the aggregate together
/// are as many as the lookups that are done, each recorded once.
pub proof fn lemma_totals(s: &Supervisor)
    requires
        s.wf(),
    ensures
        s.aggregate().successes@.len() + s.aggregate().failure_count == s.log().len(),
        s.log().len() == count_stage(s.stages(), Stage::Done),
{
    lemma_counts_add_up(s.log());
}

/// Once drained, each lookup has given exactly one outcome: the completion
/// order holds every lookup once and nothing else, and the aggregate counts
/// as many outcomes as there are lookups.
pub proof fn lemma_drain_exact(s: &Supervisor)
    requires
        s.wf(),
        drained(s),
    ensures
        s.log().len() == s.lookups().len(),
        s.order().len() == s.lookups().len(),
        forall|k: int| 0 <= k < s.order().len() ==> 0 <= #[trigger] s.order()[k] < s.lookups().len(),
        forall|k1: int, k2: int|
            0 <= k1 < s.order().len() && 0 <= k2 < s.order().len() && k1 != k2
                ==> #[trigger] s.order()[k1] != #[trigger] s.order()[k2],
        forall|i: int| 0 <= i < s.lookups().len() ==> #[trigger] s.order().contains(i),
        forall|i: int|
            0 <= i < s.lookups().len() ==> outcome_id(#[trigger] s.results()[i]) == s.lookups()[i].id@,
        s.aggregate().successes@.len() + s.aggregate().failure_count == s.lookups().len(),
{
    lemma_count_all(s.stages(), Stage::Done);
    lemma_totals(s);
    assert forall|i: int| 0 <= i < s.lookups().len() implies #[trigger] s.order().contains(i) by {
        assert(s.stages()[i] == Stage::Done);
    }
}

/// Once drained, the aggregate holds the lookups' outcomes whatever the order
/// in which they completed: its failure count is the number of lookups that
/// failed, and its successes, as a multiset, are the lookups that were found.
pub proof fn lemma_drained_content(s: &Supervisor)
    requires
        s.wf(),
        drained(s),
    ensures
        s.aggregate().failure_count == failures_of(s.results()),
        s.aggregate().success_views().to_multiset() == successes_of(s.results()).to_multiset(),
{
    lemma_count_all(s.stages(), Stage::Done);
    lemma_done_all(s.stages(), s.results());
    lemma_order_irrelevant(s.log(), s.results());
}

/// Two drained runs whose lookups had the same outcomes hold aggregates of
/// the same content: the same failure count and the same successes as a
/// multiset, whatever the order of completion in each.
pub proof fn lemma_runs_agree(a: &Supervisor, b: &Supervisor)
    requires
        a.wf(),
        b.wf(),
        drained(a),
        drained(b),
        a.results() == b.results(),
    ensures
        a.aggregate().failure_count == b.aggregate().failure_count,
        a.aggregate().success_views().to_multiset() == b.aggregate().success_views().to_multiset(),
{
    lemma_drained_content(a);
    lemma_drained_content(b);
}

/// How many entries of `flags` are set.
pub open spec fn count_true(flags: Seq<bool>) -> nat
    decreases flags.len(),
{
    if flags.len() == 0 {
        0
    } else {
        count_true(flags.drop_last()) + if flags.last() { 1nat } else { 0nat }
    }
}

proof fn lemma_failures_flagged(rs: Seq<OutcomeView>, failed: Seq<bool>)
    requires
        failed.len() == rs.len(),
        forall|i: int| 0 <= i < rs.len() ==> (failed[i] <==> rs[i] is Failed),
    ensures
        failures_of(rs) == count_true(failed),
    decreases rs.len(),
{
    if rs.len() > 0 {
        lemma_failures_flagged(rs.drop_last(), failed.drop_last());
    }
}

proof fn lemma_successes_members(rs: Seq<OutcomeView>, f: FoundView)
    ensures
        successes_of(rs).contains(f) <==> exists|i: int|
            0 <= i < rs.len() && rs[i] == OutcomeView::Found(f),
    decreases rs.len(),
{
    if rs.len() > 0 {
        let p = rs.drop_last();
        lemma_successes_members(p, f);
        if successes_of(rs).contains(f) {
            let prev = successes_of(p);
            if !prev.contains(f) {
                let j = choose|j: int| 0 <= j < successes_of(rs).len() && successes_of(rs)[j] == f;
                assert(j == prev.len());
                assert(rs[rs.len() - 1] == OutcomeView::Found(f));
            } else {
                let i = choose|i: int| 0 <= i < p.len() && p[i] == OutcomeView::Found(f);
                assert(rs[i] == OutcomeView::Found(f));
            }
        }
        if exists|i: int| 0 <= i < rs.len() && rs[i] == OutcomeView::Found(f) {
            let i = choose|i: int| 0 <= i < rs.len() && rs[i] == OutcomeView::Found(f);
            if i < rs.len() - 1 {
                assert(p[i] == OutcomeView::Found(f));
                let prev = successes_of(p);
                let j = choose|j: int| 0 <= j < prev.len() && prev[j] == f;
                match rs.last() {
                    OutcomeView::Found(g) => assert(prev.push(g)[j] == f),
                    OutcomeView::Failed(_) => {},
                }
            } else {
                assert(successes_of(p).push(f)[successes_of(p).len() as int] == f);
            }
        }
    }
}

/// `id` is the identifier of a lookup that `failed` does not mark.
pub open spec fn succeeded_id(s: &Supervisor, failed: Seq<bool>, id: Seq<char>) -> bool {
    exists|i: int| 0 <= i < s.lookups().len() && !failed[i] && s.lookups()[i].id@ == id
}

/// Once drained, with `failed[i]` telling whether lookup `i` failed, the
/// aggregate counts exactly the failed lookups, and its successes are exactly
/// the other lookups, by identifier: whichever lookups failed and in whatever
/// order they completed.
pub proof fn lemma_failed_lookups(s: &Supervisor, failed: Seq<bool>)
    requires
        s.wf(),
        drained(s),
        failed.len() == s.lookups().len(),
        forall|i: int| 0 <= i < s.lookups().len() ==> (failed[i] <==> s.results()[i] is Failed),
    ensures
        s.aggregate().failure_count == count_true(failed),
        s.aggregate().successes@.len() + count_true(failed) == s.lookups().len(),
        forall|i: int| #![trigger s.lookups()[i]]
            0 <= i < s.lookups().len() && !failed[i] ==> exists|k: int|
                #![trigger s.aggregate().successes@[k]]
                0 <= k < s.aggregate().successes@.len()
                    && s.aggregate().successes@[k].id@ == s.lookups()[i].id@,
        forall|k: int|
            0 <= k < s.aggregate().successes@.len() ==> succeeded_id(
                s,
                failed,
                (#[trigger] s.aggregate().successes@[k]).id@,
            ),
{
    let rs = s.results();
    let a = s.aggregate();
    let views = a.success_views();
    lemma_drain_exact(s);
    lemma_drained_content(s);
    lemma_failures_flagged(rs, failed);
    views.to_multiset_ensures();
    successes_of(rs).to_multiset_ensures();
    assert forall|i: int| #![trigger s.lookups()[i]]
        0 <= i < s.lookups().len() && !failed[i] implies exists|k: int|
        #![trigger a.successes@[k]]
        0 <= k < a.successes@.len() && a.successes@[k].id@ == s.lookups()[i].id@ by {
        let f = match rs[i] {
            OutcomeView::Found(f) => f,
            OutcomeView::Failed(_) => arbitrary(),
        };
        assert(rs[i] == OutcomeView::Found(f));
        lemma_successes_members(rs, f);
        assert(successes_of(rs).contains(f));
        assert(successes_of(rs).to_multiset().count(f) > 0);
        assert(views.to_multiset().count(f) > 0);
        assert(views.contains(f));
        let k = choose|k: int| 0 <= k < views.len() && views[k] == f;
        assert(a.successes@[k]@ == f);
    }
    assert forall|k: int| 0 <= k < s.aggregate().successes@.len() implies succeeded_id(
        s,
        failed,
        (#[trigger] s.aggregate().successes@[k]).id@,
    ) by {
        let i = lemma_success_source(s, failed, k);
        assert(s.lookups()[i].id@ == s.aggregate().successes@[k].id@);
    }
}

proof fn lemma_success_source(s: &Supervisor, failed: Seq<bool>, k: int) -> (i: int)
    requires
        s.wf(),
        drained(s),
        failed.len() == s.lookups().len(),
        forall|i: int| 0 <= i < s.lookups().len() ==> (failed[i] <==> s.results()[i] is Failed),
        0 <= k < s.aggregate().successes@.len(),
    ensures
        0 <= i < s.lookups().len(),
        !failed[i],
        s.aggregate().successes@[k].id@ == s.lookups()[i].id@,
{
    let rs = s.results();
    let views = s.aggregate().success_views();
    lemma_drain_exact(s);
    lemma_drained_content(s);
    views.to_multiset_ensures();
    successes_of(rs).to_multiset_ensures();
    let f = views[k];
    assert(views.contains(f));
    assert(views.to_multiset().count(f) > 0);
    assert(successes_of(rs).to_multiset().count(f) > 0);
    assert(successes_of(rs).contains(f));
    lemma_successes_members(rs, f);
    let i = choose|i: int| 0 <= i < rs.len() && rs[i] == OutcomeView::Found(f);
    assert(outcome_id(rs[i]) == s.lookups()[i].id@);
    i
}

} // verus!
