//! Laws of the planning engine, stated and proved once for all inputs.

use vstd::prelude::*;
use crate::graph::Graph;
use crate::plan::{Plan, change_justified, diff_post, graph_has_id, node_covered, plan_topo};
use crate::exec::{NodeResult, Outcomes, exec_post, plan_touches, same_at, status_correct, store_correct, touched_upto};
use crate::props::props_map;
use crate::store::{EntryModel, entries_map, entry_ids_unique};

verus! {

/// Idempotence: against a snapshot in which every declared resource is
/// recorded with exactly its declared properties and nothing else is
/// recorded, a plan contains no change at all.
///
/// A fully successful apply leaves the store in that shape, so re-planning
/// after it yields only no-ops.
pub proof fn lemma_diff_idempotent(
    g: &Graph,
    snap: Seq<EntryModel>,
    stack: Seq<char>,
    created_at: u64,
    plan: &Plan,
)
    requires
        g.wf(),
        entry_ids_unique(snap),
        diff_post(g, snap, stack, created_at, plan),
        // Every declared resource is recorded with its declared document.
        forall|i: int|
            0 <= i < g.models().len() ==> entries_map(snap).contains_key(
                (#[trigger] g.models()[i]).id,
            ) && props_map(entries_map(snap)[g.models()[i].id].props) == props_map(
                g.models()[i].props,
            ),
        // Nothing else is recorded.
        forall|j: int| 0 <= j < snap.len() ==> graph_has_id(g.models(), #[trigger] snap[j].id),
    ensures
        plan.models().len() == 0,
{
    let ds = g.models();
    let smap = entries_map(snap);
    if plan.models().len() > 0 {
        let chg = plan.models()[0];
        assert(change_justified(ds, smap, chg));
        match chg.action {
            crate::plan::ActionKind::Create => {
                let i = choose|i: int|
                    0 <= i < ds.len() && #[trigger] ds[i].id == chg.id && !smap.contains_key(
                        chg.id,
                    ) && chg.props == ds[i].props && chg.provider == ds[i].provider && chg.rtype
                        == ds[i].rtype && chg.expected_version is None;
                assert(smap.contains_key(ds[i].id));
                assert(false);
            },
            crate::plan::ActionKind::Update => {
                let i = choose|i: int|
                    0 <= i < ds.len() && #[trigger] ds[i].id == chg.id && smap.contains_key(
                        chg.id,
                    ) && props_map(ds[i].props) != props_map(smap[chg.id].props) && chg.props
                        == ds[i].props && chg.provider == ds[i].provider && chg.rtype
                        == ds[i].rtype && chg.diff == crate::props::spec_props_diff(
                        ds[i].props,
                        smap[chg.id].props,
                    ) && chg.expected_version == Some(smap[chg.id].version);
                assert(props_map(smap[ds[i].id].props) == props_map(ds[i].props));
                assert(false);
            },
            crate::plan::ActionKind::Delete => {
                assert(smap.contains_key(chg.id));
                let j = choose|j: int| 0 <= j < snap.len() && snap[j].id == chg.id;
                assert(graph_has_id(ds, snap[j].id));
                assert(false);
            },
        }
    }
}

/// Topological soundness: in every plan, whenever node `i` depends on node
/// `k` and both have a change, `k`'s change comes earlier.
pub proof fn lemma_plan_topological(
    g: &Graph,
    snap: Seq<EntryModel>,
    stack: Seq<char>,
    created_at: u64,
    plan: &Plan,
)
    requires
        diff_post(g, snap, stack, created_at, plan),
    ensures
        plan_topo(g.models(), plan.models()),
{
}

} // verus!

verus! {

/// Idempotence, end to end: a plan is computed, applied with full success
/// by providers that report the declared documents, and planning runs
/// again over the store the apply produced. The second plan has no change.
pub proof fn lemma_apply_then_replan_noop(
    g: &Graph,
    snap0: Seq<EntryModel>,
    snap1: Seq<EntryModel>,
    stack: Seq<char>,
    created_at: u64,
    plan1: &Plan,
    outcomes: &Outcomes,
    results: Seq<NodeResult>,
    budget: Option<usize>,
    stack2: Seq<char>,
    created_at2: u64,
    plan2: &Plan,
)
    requires
        g.wf(),
        entry_ids_unique(snap0),
        entry_ids_unique(snap1),
        diff_post(g, snap0, stack, created_at, plan1),
        exec_post(
            plan1,
            entries_map(snap0),
            outcomes,
            entries_map(snap1),
            results,
            budget,
        ),
        forall|c: int|
            0 <= c < results.len() ==> (#[trigger] results[c].status)
                is Succeeded,
        // Providers reported the declared documents.
        forall|c: int|
            0 <= c < plan1.models().len() && !((#[trigger] plan1.models()[c]).action is Delete)
                ==> props_map(outcomes.reported_props(plan1.models()[c].id)) == props_map(
                plan1.models()[c].props,
            ),
        diff_post(g, snap1, stack2, created_at2, plan2),
    ensures
        plan2.models().len() == 0,
{
    let ds = g.models();
    let m0 = entries_map(snap0);
    let m1 = entries_map(snap1);
    let cm1 = plan1.models();
    // Every declared resource is recorded in the new store with its
    // declared document.
    assert forall|i: int| 0 <= i < ds.len() implies m1.contains_key((#[trigger] ds[i]).id)
        && props_map(m1[ds[i].id].props) == props_map(ds[i].props) by {
        let noops = crate::plan::id_models(plan1.noop_ids@);
        assert(node_covered(ds, m0, cm1, noops, i));
        if m0.contains_key(ds[i].id) && props_map(ds[i].props) == props_map(m0[ds[i].id].props) {
            // No-op: the id is untouched, so the old matching entry stands.
            assert forall|c: int| 0 <= c < cm1.len() implies (#[trigger] cm1[c].id) != ds[i].id
                by {}
            assert(!plan_touches(plan1, ds[i].id));
            assert(same_at(m1, m0, ds[i].id));
        } else {
            let c = choose|c: int|
                0 <= c < cm1.len() && (#[trigger] cm1[c].id) == ds[i].id && !(cm1[c].action
                    is Delete);
            assert(status_correct(plan1, m0, outcomes, results, budget, c));
            assert(store_correct(plan1, m0, outcomes, m1, results, c));
            assert(results[c].status is Succeeded);
            assert(m1.contains_key(ds[i].id));
            assert(m1[ds[i].id].props == outcomes.reported_props(ds[i].id));
            assert(change_justified(ds, m0, cm1[c]));
            crate::plan::lemma_justified_nondelete_in_graph(ds, m0, cm1[c]);
            let i2 = choose|i2: int| 0 <= i2 < ds.len() && (#[trigger] ds[i2].id) == cm1[c].id;
            assert(cm1[c].props == ds[i2].props) by {
                crate::plan::lemma_justified_props(ds, m0, cm1[c]);
            }
            if i2 != i {
                assert(ds[i2].id != ds[i].id);
            }
            assert(props_map(m1[ds[i].id].props) == props_map(ds[i].props));
        }
    }
    // Nothing else is recorded in the new store.
    assert forall|j: int| 0 <= j < snap1.len() implies graph_has_id(
        ds,
        (#[trigger] snap1[j]).id,
    ) by {
        let k = snap1[j].id;
        crate::store::lemma_entries_map_at(snap1, j);
        assert(m1.contains_key(k));
        if plan_touches(plan1, k) {
            let c = choose|c: int| 0 <= c < cm1.len() && (#[trigger] cm1[c].id) == k;
            assert(change_justified(ds, m0, cm1[c]));
            assert(store_correct(plan1, m0, outcomes, m1, results, c));
            if cm1[c].action is Delete {
                assert(!m1.contains_key(k));
                assert(false);
            } else {
                crate::plan::lemma_justified_nondelete_in_graph(ds, m0, cm1[c]);
            }
        } else {
            assert(same_at(m1, m0, k));
            assert(m0.contains_key(k));
            let j0 = choose|j0: int| 0 <= j0 < snap0.len() && (#[trigger] snap0[j0].id) == k;
            if !graph_has_id(ds, k) {
                assert(crate::plan::orphans_covered(ds, snap0, cm1));
                let c = choose|c: int|
                    0 <= c < cm1.len() && (#[trigger] cm1[c].id) == snap0[j0].id && cm1[c].action
                        is Delete;
                assert(touched_upto(plan1, cm1.len() as int, k));
                assert(false);
            }
        }
    }
    lemma_diff_idempotent(g, snap1, stack2, created_at2, plan2);
}

/// Destroying a stack with full provider success leaves the store empty.
pub proof fn lemma_destroy_empties_store(
    snap0: Seq<EntryModel>,
    snap1: Seq<EntryModel>,
    stack: Seq<char>,
    created_at: u64,
    plan: &Plan,
    outcomes: &Outcomes,
    results: Seq<NodeResult>,
    budget: Option<usize>,
)
    requires
        crate::plan::destroy_post(snap0, stack, created_at, plan),
        exec_post(
            plan,
            entries_map(snap0),
            outcomes,
            entries_map(snap1),
            results,
            budget,
        ),
        forall|c: int|
            0 <= c < results.len() ==> (#[trigger] results[c].status)
                is Succeeded,
    ensures
        forall|k: Seq<char>| !entries_map(snap1).contains_key(k),
{
    let m0 = entries_map(snap0);
    let m1 = entries_map(snap1);
    let cm = plan.models();
    assert forall|k: Seq<char>| !m1.contains_key(k) by {
        if plan_touches(plan, k) {
            let c = choose|c: int| 0 <= c < cm.len() && (#[trigger] cm[c].id) == k;
            assert(store_correct(plan, m0, outcomes, m1, results, c));
            assert(cm[c].action is Delete);
            assert(!m1.contains_key(k));
        } else {
            assert(same_at(m1, m0, k));
            if m0.contains_key(k) {
                let j = choose|j: int| 0 <= j < snap0.len() && (#[trigger] snap0[j].id) == k;
                let c = snap0.len() - 1 - j;
                assert(cm[c].id == snap0[snap0.len() - 1 - c].id);
                assert(cm[c].id == k);
                assert(touched_upto(plan, cm.len() as int, k));
                assert(false);
            }
        }
    }
}

} // verus!
