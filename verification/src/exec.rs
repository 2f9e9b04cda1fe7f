//! Plan execution.
//!
//! `execute_plan` refuses a plan whose fingerprint no longer matches the
//! store, then walks the changes front to back. A change runs only when all
//! the changes it depends on have succeeded; on success its result is
//! committed to the store before the status is set. A failure marks the
//! change failed and everything depending on it skipped, while independent
//! changes keep running. A dispatch budget models cooperative cancellation:
//! once it is spent, runnable changes are marked cancelled instead.
//!
//! The provider call itself is outside work; its result arrives as an
//! `Outcome` per resource id, so the engine is verified for every outcome:
//! `exec_post` fixes each change's terminal status and the final store
//! contents as a function of the plan, the outcomes and the starting store.

use vstd::prelude::*;
use crate::plan::{ActionKind, Plan};
use crate::props::{DiffEntry, LeafModel, Props, paths_unique};
use crate::store::{EntryModel, StateStore, entries_map, spec_fp};

verus! {

/// What the provider reported for one resource: the resulting properties,
/// or a failure message.
#[derive(Debug)]
pub enum Outcome {
    Completed(Props),
    Faulted(String),
}

/// The provider reports, one per resource id.
#[derive(Debug)]
pub struct Outcomes {
    pub entries: Vec<(String, Outcome)>,
}

impl Outcomes {
    /// One report per id, and reported documents are well formed.
    pub open spec fn wf(&self) -> bool {
        &&& forall|x: int, y: int|
            0 <= x < y < self.entries@.len() ==> (#[trigger] self.entries@[x].0@) != (
            #[trigger] self.entries@[y].0@)
        &&& forall|x: int|
            0 <= x < self.entries@.len() ==> match #[trigger] self.entries@[x].1 {
                Outcome::Completed(p) => paths_unique(p@),
                Outcome::Faulted(_) => true,
            }
    }

    /// Some report names this id.
    pub open spec fn has_report(&self, id: Seq<char>) -> bool {
        exists|x: int| 0 <= x < self.entries@.len() && (#[trigger] self.entries@[x].0@) == id
    }

    /// The index of the report for this id.
    pub open spec fn report_ix(&self, id: Seq<char>) -> int {
        choose|x: int| 0 <= x < self.entries@.len() && (#[trigger] self.entries@[x].0@) == id
    }

    /// The provider completed the operation on this id.
    pub open spec fn completed(&self, id: Seq<char>) -> bool {
        self.has_report(id) && (self.entries@[self.report_ix(id)].1 matches Outcome::Completed(_))
    }

    /// The document the provider reported for this id.
    pub open spec fn reported_props(&self, id: Seq<char>) -> Seq<(Seq<char>, LeafModel)> {
        match self.entries@[self.report_ix(id)].1 {
            Outcome::Completed(p) => p@,
            Outcome::Faulted(_) => Seq::empty(),
        }
    }

    /// With one report per id, the report at `x` is the report of its id.
    pub proof fn lemma_report_at(&self, x: int)
        requires
            self.wf(),
            0 <= x < self.entries@.len(),
        ensures
            self.has_report(self.entries@[x].0@),
            self.report_ix(self.entries@[x].0@) == x,
    {
        let id = self.entries@[x].0@;
        assert(0 <= x < self.entries@.len() && self.entries@[x].0@ == id);
        let y = self.report_ix(id);
        if y != x {
            if y < x {
                assert(self.entries@[y].0@ != self.entries@[x].0@);
            } else {
                assert(self.entries@[x].0@ != self.entries@[y].0@);
            }
        }
    }

    /// The report for an id, if any.
    fn lookup(&self, id: &String) -> (r: Option<&Outcome>)
        requires
            self.wf(),
        ensures
            match r {
                Some(o) => self.has_report(id@) && *o == self.entries@[self.report_ix(id@)].1,
                None => !self.has_report(id@),
            },
    {
        let n = self.entries.len();
        let mut x: usize = 0;
        while x < n
            invariant
                self.wf(),
                n == self.entries@.len(),
                0 <= x <= n,
                forall|y: int| 0 <= y < x ==> (#[trigger] self.entries@[y].0@) != id@,
            decreases n - x,
        {
            let e = &self.entries[x];
            if e.0 == *id {
                proof {
                    self.lemma_report_at(x as int);
                }
                return Some(&e.1);
            }
            x = x + 1;
        }
        proof {
            if self.has_report(id@) {
                let y = choose|y: int|
                    0 <= y < self.entries@.len() && (#[trigger] self.entries@[y].0@) == id@;
                assert(false);
            }
        }
        None
    }

    /// Check well-formedness at run time, for reports assembled outside the
    /// library.
    pub fn check_wf(&self) -> (r: bool)
        ensures
            r ==> self.wf(),
    {
        let n = self.entries.len();
        let mut x: usize = 0;
        while x < n
            invariant
                n == self.entries@.len(),
                0 <= x <= n,
                forall|a: int, b: int|
                    0 <= a < b < x ==> (#[trigger] self.entries@[a].0@) != (
                    #[trigger] self.entries@[b].0@),
                forall|a: int|
                    0 <= a < x ==> match #[trigger] self.entries@[a].1 {
                        Outcome::Completed(p) => paths_unique(p@),
                        Outcome::Faulted(_) => true,
                    },
            decreases n - x,
        {
            let e = &self.entries[x];
            let mut y: usize = 0;
            while y < x
                invariant
                    n == self.entries@.len(),
                    0 <= y <= x < n,
                    e == &self.entries@[x as int],
                    forall|b: int| 0 <= b < y ==> (#[trigger] self.entries@[b].0@) != self.entries@[x as int].0@,
                decreases x - y,
            {
                let dup = { let p = &self.entries[y]; p.0 == e.0 };
                if dup {
                    return false;
                }
                y = y + 1;
            }
            match &e.1 {
                Outcome::Completed(p) => {
                    if !crate::props::props_wf_check(p) {
                        return false;
                    }
                },
                Outcome::Faulted(_) => {},
            }
            proof {
                assert forall|a: int, b: int|
                    0 <= a < b < x + 1 implies (#[trigger] self.entries@[a].0@) != (
                #[trigger] self.entries@[b].0@) by {}
            }
            x = x + 1;
        }
        true
    }
}

/// Terminal status of one change after execution.
#[derive(Debug, Clone, Copy, PartialEq, Eq)]
pub enum NodeStatus {
    /// The provider call succeeded and the store records it.
    Succeeded,
    /// The provider call failed, or the store refused the commit.
    Failed,
    /// Never dispatched: a dependency did not succeed.
    Skipped,
    /// Never dispatched: execution was cancelled first.
    Cancelled,
}

/// One change's terminal status, the difference it applied (or attempted),
/// and the message of a failure.
#[derive(Debug)]
pub struct NodeResult {
    pub id: String,
    pub action: ActionKind,
    pub diff: Vec<DiffEntry>,
    pub status: NodeStatus,
    pub message: String,
}

/// Every change's terminal status, in plan order.
#[derive(Debug)]
pub struct ExecReport {
    pub stack: String,
    pub results: Vec<NodeResult>,
}

/// Why execution did not start.
#[derive(Debug, Clone, Copy, PartialEq, Eq)]
pub enum ExecError {
    /// The store moved on since the plan was computed: re-plan.
    StalePlan,
}

/// All listed dependencies of change `c` succeeded.
pub open spec fn deps_succeeded(plan: &Plan, results: Seq<NodeResult>, c: int) -> bool {
    forall|d: int|
        0 <= d < plan.models()[c].deps.len() ==> results[#[trigger] plan.models()[c].deps[d]].status
            is Succeeded
}

/// How many of the first `c` changes were dispatched (ran a provider call).
pub open spec fn dispatched_before(results: Seq<NodeResult>, c: int) -> int
    decreases c,
{
    if c <= 0 {
        0
    } else {
        dispatched_before(results, c - 1) + if results[c - 1].status is Succeeded || results[c
            - 1].status is Failed {
            1int
        } else {
            0int
        }
    }
}

/// The dispatch budget admits change `c`.
pub open spec fn budget_allows(budget: Option<usize>, results: Seq<NodeResult>, c: int) -> bool {
    match budget {
        Option::None => true,
        Option::Some(b) => dispatched_before(results, c) < b as int,
    }
}

/// The version guard of the change holds against this store map.
pub open spec fn commit_matches(m: Map<Seq<char>, EntryModel>, chg: crate::plan::ChangeModel) -> bool {
    match chg.action {
        ActionKind::Delete => match chg.expected_version {
            Option::Some(v) => m.contains_key(chg.id) && m[chg.id].version == v,
            Option::None => false,
        },
        _ => match chg.expected_version {
            Option::None => !m.contains_key(chg.id),
            Option::Some(v) => m.contains_key(chg.id) && m[chg.id].version == v,
        },
    }
}

/// The maps agree at this key.
pub open spec fn same_at(
    m1: Map<Seq<char>, EntryModel>,
    m2: Map<Seq<char>, EntryModel>,
    k: Seq<char>,
) -> bool {
    &&& (m1.contains_key(k) <==> m2.contains_key(k))
    &&& (m1.contains_key(k) ==> m1[k] == m2[k])
}

/// Some of the first `c` changes carries this id.
pub open spec fn touched_upto(plan: &Plan, c: int, k: Seq<char>) -> bool {
    exists|c2: int| 0 <= c2 < c && (#[trigger] plan.models()[c2].id) == k
}

/// Some change of the plan carries this id.
pub open spec fn plan_touches(plan: &Plan, k: Seq<char>) -> bool {
    touched_upto(plan, plan.models().len() as int, k)
}

/// The version a successful commit writes.
pub open spec fn next_version(expected: Option<u64>) -> int {
    match expected {
        Option::None => 1,
        Option::Some(v) => v as int + 1,
    }
}

/// The terminal status of change `c` is the one the plan, the outcomes and
/// the starting store dictate.
pub open spec fn status_correct(
    plan: &Plan,
    old_map: Map<Seq<char>, EntryModel>,
    outcomes: &Outcomes,
    results: Seq<NodeResult>,
    budget: Option<usize>,
    c: int,
) -> bool {
    let chg = plan.models()[c];
    let deps_ok = deps_succeeded(plan, results, c);
    let can_run = deps_ok && budget_allows(budget, results, c);
    let would = outcomes.completed(chg.id) && commit_matches(old_map, chg);
    &&& ((results[c].status is Skipped) <==> !deps_ok)
    &&& ((results[c].status is Cancelled) <==> (deps_ok && !budget_allows(budget, results, c)))
    &&& ((results[c].status is Succeeded) <==> (can_run && would))
    &&& ((results[c].status is Failed) <==> (can_run && !would))
}

/// The final store records change `c`'s effect exactly when it succeeded.
pub open spec fn store_correct(
    plan: &Plan,
    old_map: Map<Seq<char>, EntryModel>,
    outcomes: &Outcomes,
    new_map: Map<Seq<char>, EntryModel>,
    results: Seq<NodeResult>,
    c: int,
) -> bool {
    let chg = plan.models()[c];
    &&& (results[c].status is Succeeded && !(chg.action is Delete)) ==> {
        &&& new_map.contains_key(chg.id)
        &&& new_map[chg.id].id == chg.id
        &&& new_map[chg.id].provider == chg.provider
        &&& new_map[chg.id].rtype == chg.rtype
        &&& new_map[chg.id].props == outcomes.reported_props(chg.id)
        &&& new_map[chg.id].version as int == next_version(chg.expected_version)
    }
    &&& (results[c].status is Succeeded && chg.action is Delete) ==> !new_map.contains_key(chg.id)
    &&& !(results[c].status is Succeeded) ==> same_at(new_map, old_map, chg.id)
}

/// The whole contract of a completed execution: every change's status and
/// the final store, as functions of the plan, the outcomes and the starting
/// store.
pub open spec fn exec_post(
    plan: &Plan,
    old_map: Map<Seq<char>, EntryModel>,
    outcomes: &Outcomes,
    new_map: Map<Seq<char>, EntryModel>,
    results: Seq<NodeResult>,
    budget: Option<usize>,
) -> bool {
    &&& results.len() == plan.models().len()
    &&& forall|c: int|
        0 <= c < results.len() ==> (#[trigger] results[c]).id@ == plan.models()[c].id
            && results[c].action == plan.models()[c].action && results[c].diff@.map_values(
            |e: DiffEntry| e@,
        ) == plan.models()[c].diff
    &&& forall|c: int|
        0 <= c < results.len() ==> #[trigger] status_correct(
            plan,
            old_map,
            outcomes,
            results,
            budget,
            c,
        )
    &&& forall|c: int|
        0 <= c < results.len() ==> #[trigger] store_correct(
            plan,
            old_map,
            outcomes,
            new_map,
            results,
            c,
        )
    &&& forall|k: Seq<char>| !(#[trigger] plan_touches(plan, k)) ==> same_at(new_map, old_map, k)
}

/// Copy a value-level difference for the report.
fn clone_diff(v: &Vec<DiffEntry>) -> (r: Vec<DiffEntry>)
    ensures
        r@.map_values(|e: DiffEntry| e@) == v@.map_values(|e: DiffEntry| e@),
{
    let mut r: Vec<DiffEntry> = Vec::new();
    let n = v.len();
    let mut i: usize = 0;
    while i < n
        invariant
            n == v@.len(),
            0 <= i <= n,
            r@.len() == i,
            forall|j: int| 0 <= j < i ==> (#[trigger] r@[j])@ == v@[j]@,
        decreases n - i,
    {
        let e = v[i].clone();
        r.push(e);
        i = i + 1;
    }
    proof {
        assert(r@.map_values(|e: DiffEntry| e@) =~= v@.map_values(|e: DiffEntry| e@));
    }
    r
}

/// A prefix agreement keeps the dispatch count.
proof fn lemma_dispatched_prefix(r1: Seq<NodeResult>, r2: Seq<NodeResult>, c: int)
    requires
        0 <= c <= r1.len(),
        c <= r2.len(),
        forall|i: int| 0 <= i < c ==> r1[i] == r2[i],
    ensures
        dispatched_before(r1, c) == dispatched_before(r2, c),
    decreases c,
{
    if c > 0 {
        lemma_dispatched_prefix(r1, r2, c - 1);
    }
}

} // verus!

verus! {

/// Execute the plan against the store.
///
/// `budget` bounds how many changes may be dispatched; `None` is unbounded.
/// A cooperative cancellation hands the count of already-dispatched changes
/// as the budget of a fresh run.
#[verifier::rlimit(100)]
#[verifier::spinoff_prover]
pub fn execute_plan(
    plan: &Plan,
    store: &mut StateStore,
    outcomes: &Outcomes,
    budget: Option<usize>,
) -> (r: Result<ExecReport, ExecError>)
    requires
        plan.wf(),
        outcomes.wf(),
        old(store).wf(),
        old(store).tick as int + plan.models().len() <= u64::MAX as int,
    ensures
        final(store).wf(),
        (r is Err) <==> spec_fp(old(store)@) != plan.fingerprint,
        r is Err ==> *final(store) == *old(store),
        match r {
            Ok(rep) => rep.stack@ == plan.stack@ && exec_post(
                plan,
                entries_map(old(store)@),
                outcomes,
                entries_map(final(store)@),
                rep.results@,
                budget,
            ),
            Err(_) => true,
        },
{
    let snap = store.snapshot();
    let fp = snap.fingerprint();
    if fp != plan.fingerprint {
        return Err(ExecError::StalePlan);
    }
    let ghost old_map = entries_map(old(store)@);
    let n = plan.changes.len();
    let mut results: Vec<NodeResult> = Vec::new();
    let mut dispatched: usize = 0;
    let mut c: usize = 0;
    while c < n
        invariant
            plan.wf(),
            outcomes.wf(),
            store.wf(),
            old_map == entries_map(old(store)@),
            n == plan.models().len(),
            0 <= c <= n,
            dispatched <= c,
            dispatched as int == dispatched_before(results@, c as int),
            store.tick as int <= old(store).tick as int + c,
            old(store).tick as int + n <= u64::MAX as int,
            results@.len() == c,
            forall|c2: int|
                0 <= c2 < c ==> (#[trigger] results@[c2]).id@ == plan.models()[c2].id
                    && results@[c2].action == plan.models()[c2].action
                    && results@[c2].diff@.map_values(|e: DiffEntry| e@) == plan.models()[c2].diff,
            forall|c2: int|
                0 <= c2 < c ==> #[trigger] status_correct(
                    plan,
                    old_map,
                    outcomes,
                    results@,
                    budget,
                    c2,
                ),
            forall|c2: int|
                0 <= c2 < c ==> #[trigger] store_correct(
                    plan,
                    old_map,
                    outcomes,
                    store.as_map(),
                    results@,
                    c2,
                ),
            forall|k: Seq<char>|
                !(#[trigger] touched_upto(plan, c as int, k)) ==> same_at(
                    store.as_map(),
                    old_map,
                    k,
                ),
        decreases n - c,
    {
        proof {
            assert(plan.models()[c as int] == plan.changes@[c as int]@);
            // This change's id was not touched by any earlier change.
            assert forall|c2: int| 0 <= c2 < c implies (#[trigger] plan.models()[c2].id)
                != plan.models()[c as int].id by {}
            assert(!touched_upto(plan, c as int, plan.models()[c as int].id));
            assert(same_at(store.as_map(), old_map, plan.models()[c as int].id));
        }
        let change = &plan.changes[c];
        let ghost chg = plan.models()[c as int];
        // Are all dependencies succeeded?
        let nd = change.deps.len();
        let mut ok = true;
        let mut d: usize = 0;
        while d < nd
            invariant
                plan.wf(),
                n == plan.models().len(),
                0 <= c < n,
                results@.len() == c,
                plan.models()[c as int] == plan.changes@[c as int]@,
                *change == plan.changes@[c as int],
                nd == change.deps@.len(),
                nd == plan.models()[c as int].deps.len(),
                0 <= d <= nd,
                ok ==> forall|d2: int|
                    0 <= d2 < d ==> results@[#[trigger] plan.models()[c as int].deps[d2]].status
                        is Succeeded,
                !ok ==> exists|d2: int|
                    0 <= d2 < nd && !(results@[#[trigger] plan.models()[c as int].deps[d2]].status
                        is Succeeded),
            decreases nd - d,
        {
            proof {
                assert(plan.models()[c as int].deps[d as int] == plan.changes@[c as int].deps@[d as int] as int);
            }
            let dep = change.deps[d];
            let dep_ok = { let s = &results[dep]; matches!(s.status, NodeStatus::Succeeded) };
            if !dep_ok {
                ok = false;
            }
            d = d + 1;
        }
        proof {
            assert(ok == deps_succeeded(plan, results@, c as int));
        }
        let ghost pre_results = results@;
        let ghost pre_map = store.as_map();
        let diff_copy = clone_diff(&change.diff);
        if !ok {
            results.push(NodeResult {
                id: change.id.clone(),
                action: change.action,
                diff: diff_copy,
                status: NodeStatus::Skipped,
                message: String::from_str("dependency did not succeed"),
            });
        } else {
            let budget_left = match budget {
                Some(b) => dispatched < b,
                None => true,
            };
            proof {
                assert(budget_left == budget_allows(budget, pre_results, c as int));
            }
            if !budget_left {
                results.push(NodeResult {
                    id: change.id.clone(),
                    action: change.action,
                    diff: diff_copy,
                    status: NodeStatus::Cancelled,
                    message: String::from_str("cancelled before dispatch"),
                });
            } else {
                dispatched = dispatched + 1;
                let (status, message) = match outcomes.lookup(&change.id) {
                    None => {
                        proof {
                            assert(!outcomes.completed(chg.id));
                        }
                        (NodeStatus::Failed, String::from_str("no provider response"))
                    },
                    Some(outcome) => match outcome {
                        Outcome::Faulted(msg) => {
                            proof {
                                assert(outcomes.entries@[outcomes.report_ix(chg.id)].1
                                    == Outcome::Faulted(*msg));
                                assert(!outcomes.completed(chg.id));
                            }
                            (NodeStatus::Failed, msg.clone())
                        },
                        Outcome::Completed(reported) => {
                            proof {
                                assert(outcomes.entries@[outcomes.report_ix(chg.id)].1
                                    == Outcome::Completed(*reported));
                                assert(outcomes.completed(chg.id));
                                assert(outcomes.reported_props(chg.id) == reported@);
                                assert(paths_unique(reported@)) by {
                                    let ix = outcomes.report_ix(chg.id);
                                }
                            }
                            match change.action {
                                ActionKind::Delete => {
                                    match change.expected_version {
                                        None => {
                                            proof {
                                                assert(!commit_matches(old_map, chg));
                                            }
                                            (
                                                NodeStatus::Failed,
                                                String::from_str("delete without expected version"),
                                            )
                                        },
                                        Some(v) => match store.commit_delete(&change.id, v) {
                                            Ok(()) => {
                                                proof {
                                                    assert(commit_matches(old_map, chg));
                                                    assert(!store.as_map().contains_key(chg.id));
                                                }
                                                (NodeStatus::Succeeded, String::new())
                                            },
                                            Err(_) => {
                                                proof {
                                                    assert(!commit_matches(old_map, chg));
                                                }
                                                (
                                                    NodeStatus::Failed,
                                                    String::from_str("state version conflict"),
                                                )
                                            },
                                        },
                                    }
                                },
                                _ => {
                                    match store.commit_put(
                                        change.id.clone(),
                                        change.provider.clone(),
                                        change.rtype.clone(),
                                        reported.clone(),
                                        change.expected_version,
                                    ) {
                                        Ok(()) => {
                                            proof {
                                                assert(commit_matches(old_map, chg));
                                                assert(store.as_map().contains_key(chg.id));
                                                assert(store.as_map()[chg.id].props
                                                    == outcomes.reported_props(chg.id));
                                            }
                                            (NodeStatus::Succeeded, String::new())
                                        },
                                        Err(_) => {
                                            proof {
                                                assert(!commit_matches(old_map, chg));
                                            }
                                            (
                                                NodeStatus::Failed,
                                                String::from_str("state version conflict"),
                                            )
                                        },
                                    }
                                },
                            }
                        },
                    },
                };
                results.push(NodeResult {
                    id: change.id.clone(),
                    action: change.action,
                    diff: diff_copy,
                    status,
                    message,
                });
            }
        }
        proof {
            assert(results@ =~= pre_results.push(results@[c as int]));
            assert(forall|c2: int| 0 <= c2 < c ==> #[trigger] results@[c2] == pre_results[c2]);
            lemma_dispatched_prefix(results@, pre_results, c as int);
            assert(dispatched_before(results@, c as int + 1) == dispatched_before(
                results@,
                c as int,
            ) + if results@[c as int].status is Succeeded || results@[c as int].status is Failed {
                1int
            } else {
                0int
            });
            // Earlier statuses and dispatch counts read only the prefix.
            assert forall|c2: int| 0 <= c2 <= c implies dispatched_before(results@, c2)
                == dispatched_before(pre_results, c2) by {
                lemma_dispatched_prefix(results@, pre_results, c2);
            }
            assert forall|c2: int| 0 <= c2 < c + 1 implies deps_succeeded(plan, results@, c2)
                == deps_succeeded(plan, pre_results, c2) by {
                assert forall|d2: int|
                    0 <= d2 < plan.models()[c2].deps.len() implies results@[#[trigger] plan.models()[c2].deps[d2]].status
                    == pre_results[plan.models()[c2].deps[d2]].status by {
                    assert(0 <= plan.models()[c2].deps[d2] < c2);
                }
            }
            assert forall|c2: int| 0 <= c2 < c + 1 implies #[trigger] status_correct(
                plan,
                old_map,
                outcomes,
                results@,
                budget,
                c2,
            ) by {
                if c2 < c {
                    assert(status_correct(plan, old_map, outcomes, pre_results, budget, c2));
                } else {
                    assert(deps_succeeded(plan, results@, c2) == deps_succeeded(
                        plan,
                        pre_results,
                        c2,
                    ));
                }
            }
            assert forall|c2: int| 0 <= c2 < c + 1 implies #[trigger] store_correct(
                plan,
                old_map,
                outcomes,
                store.as_map(),
                results@,
                c2,
            ) by {
                if c2 < c {
                    assert(store_correct(plan, old_map, outcomes, pre_map, pre_results, c2));
                    assert(plan.models()[c2].id != plan.models()[c as int].id);
                    assert(same_at(store.as_map(), pre_map, plan.models()[c2].id));
                }
            }
            assert forall|k: Seq<char>|
                !(#[trigger] touched_upto(plan, c as int + 1, k)) implies same_at(
                store.as_map(),
                old_map,
                k,
            ) by {
                assert(!touched_upto(plan, c as int, k));
                assert(k != plan.models()[c as int].id);
                assert(same_at(store.as_map(), pre_map, k));
            }
        }
        c = c + 1;
    }
    let stack = plan.stack.clone();
    proof {
        let omap = entries_map(old(store)@);
        let nmap = entries_map(store@);
        assert(omap == old_map);
        assert(nmap == store.as_map());
        assert forall|c2: int| 0 <= c2 < results@.len() implies #[trigger] status_correct(
            plan,
            omap,
            outcomes,
            results@,
            budget,
            c2,
        ) by {
            assert(status_correct(plan, old_map, outcomes, results@, budget, c2));
        }
        assert forall|c2: int| 0 <= c2 < results@.len() implies #[trigger] store_correct(
            plan,
            omap,
            outcomes,
            nmap,
            results@,
            c2,
        ) by {
            assert(store_correct(plan, old_map, outcomes, store.as_map(), results@, c2));
        }
        assert forall|k: Seq<char>| !(#[trigger] plan_touches(plan, k)) implies same_at(
            nmap,
            omap,
            k,
        ) by {
            assert(!touched_upto(plan, n as int, k));
            assert(same_at(store.as_map(), old_map, k));
        }
        assert(exec_post(plan, omap, outcomes, nmap, results@, budget));
    }
    Ok(ExecReport { stack, results })
}

} // verus!

verus! {

/// Decide, for an outside driving loop, whether change `c` may be handed to
/// its provider: every change it depends on must have completed. The loop
/// performs the provider call only when this says so, so a change whose
/// dependency failed is never dispatched.
pub fn ready_for_dispatch(plan: &Plan, completed: &Vec<bool>, c: usize) -> (r: bool)
    requires
        plan.wf(),
        completed@.len() == plan.models().len(),
        (c as int) < plan.models().len(),
    ensures
        r == (forall|d: int|
            0 <= d < plan.models()[c as int].deps.len() ==> completed@[#[trigger] plan.models()[c as int].deps[d]]),
{
    proof {
        assert(plan.models()[c as int] == plan.changes@[c as int]@);
    }
    let change = &plan.changes[c];
    let nd = change.deps.len();
    let mut d: usize = 0;
    while d < nd
        invariant
            plan.wf(),
            completed@.len() == plan.models().len(),
            (c as int) < plan.models().len(),
            plan.models()[c as int] == plan.changes@[c as int]@,
            *change == plan.changes@[c as int],
            nd == change.deps@.len(),
            nd == plan.models()[c as int].deps.len(),
            0 <= d <= nd,
            forall|d2: int|
                0 <= d2 < d ==> completed@[#[trigger] plan.models()[c as int].deps[d2]],
        decreases nd - d,
    {
        proof {
            assert(plan.models()[c as int].deps[d as int] == plan.changes@[c as int].deps@[d as int] as int);
        }
        let dep = change.deps[d];
        if !completed[dep] {
            return false;
        }
        d = d + 1;
    }
    true
}

} // verus!
