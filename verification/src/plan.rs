//! The change plan.
//!
//! `diff` compares each graph node's desired document with the store
//! snapshot entry of the same id and classifies it: absent entries become
//! `Create` changes, differing entries `Update` changes, equal entries
//! no-ops (reported, not executed). Entries whose id is no longer declared
//! become `Delete` changes, appended after all other changes in reverse
//! snapshot order. Changes follow their dependencies, so the plan can be
//! executed front to back; `destroy_plan` plans the deletion of everything
//! recorded, in reverse snapshot order.

use vstd::prelude::*;
use crate::decl::{DeclModel, dep_edge};
use crate::graph::Graph;
use crate::props::{DiffEntry, LeafModel, PropLeaf, Props, paths_unique, props_diff, props_map, spec_props_diff, lemma_props_diff_empty};
use crate::store::{EntryModel, Snapshot, spec_fp, entries_map, entry_ids_unique};

verus! {

/// What must be done to one resource.
#[derive(Debug, Clone, Copy, PartialEq, Eq)]
pub enum ActionKind {
    Create,
    Update,
    Delete,
}

/// One planned change.
#[derive(Debug)]
pub struct Change {
    pub id: String,
    pub provider: String,
    pub rtype: String,
    pub action: ActionKind,
    /// The desired document (empty for `Delete`).
    pub props: Props,
    /// The value-level difference, for `Update`.
    pub diff: Vec<DiffEntry>,
    /// The store version the commit must find; `None` claims absence.
    pub expected_version: Option<u64>,
    /// Indices of earlier changes that must succeed before this one runs.
    pub deps: Vec<usize>,
}

/// Mathematical model of a change.
pub struct ChangeModel {
    pub id: Seq<char>,
    pub provider: Seq<char>,
    pub rtype: Seq<char>,
    pub action: ActionKind,
    pub props: Seq<(Seq<char>, LeafModel)>,
    pub diff: Seq<(Seq<char>, Option<LeafModel>, Option<LeafModel>)>,
    pub expected_version: Option<u64>,
    pub deps: Seq<int>,
}

impl View for Change {
    type V = ChangeModel;

    open spec fn view(&self) -> ChangeModel {
        ChangeModel {
            id: self.id@,
            provider: self.provider@,
            rtype: self.rtype@,
            action: self.action,
            props: self.props@,
            diff: self.diff@.map_values(|e: DiffEntry| e@),
            expected_version: self.expected_version,
            deps: self.deps@.map_values(|d: usize| d as int),
        }
    }
}

/// The ordered, immutable artifact of planning.
#[derive(Debug)]
pub struct Plan {
    pub stack: String,
    pub created_at: u64,
    pub changes: Vec<Change>,
    /// Declared resources already matching their recorded state.
    pub noop_ids: Vec<String>,
    /// Fingerprint of the snapshot this plan was computed from.
    pub fingerprint: u64,
}

impl Plan {
    /// The change models.
    pub open spec fn models(&self) -> Seq<ChangeModel> {
        self.changes@.map_values(|c: Change| c@)
    }

    /// Change ids are distinct, dependencies point backwards, documents are
    /// well formed.
    pub open spec fn wf(&self) -> bool {
        &&& forall|c1: int, c2: int|
            0 <= c1 < c2 < self.models().len() ==> self.models()[c1].id != self.models()[c2].id
        &&& forall|c: int, d: int|
            0 <= c < self.models().len() && 0 <= d < self.models()[c].deps.len()
                ==> 0 <= #[trigger] self.models()[c].deps[d] < c
        &&& forall|c: int|
            0 <= c < self.models().len() ==> paths_unique(#[trigger] self.models()[c].props)
    }
}

/// Some declaration in the graph carries this id.
pub open spec fn graph_has_id(ds: Seq<DeclModel>, id: Seq<char>) -> bool {
    exists|i: int| 0 <= i < ds.len() && ds[i].id == id
}

/// The change is warranted by the graph and the snapshot it was computed
/// from.
pub open spec fn change_justified(
    ds: Seq<DeclModel>,
    smap: Map<Seq<char>, EntryModel>,
    chg: ChangeModel,
) -> bool {
    match chg.action {
        ActionKind::Create => exists|i: int|
            0 <= i < ds.len() && #[trigger] ds[i].id == chg.id && !smap.contains_key(chg.id)
                && chg.props == ds[i].props && chg.provider == ds[i].provider && chg.rtype
                == ds[i].rtype && chg.expected_version is None,
        ActionKind::Update => exists|i: int|
            0 <= i < ds.len() && #[trigger] ds[i].id == chg.id && smap.contains_key(chg.id)
                && props_map(ds[i].props) != props_map(smap[chg.id].props) && chg.props == ds[i].props
                && chg.provider == ds[i].provider && chg.rtype == ds[i].rtype && chg.diff
                == spec_props_diff(ds[i].props, smap[chg.id].props) && chg.expected_version
                == Some(smap[chg.id].version),
        ActionKind::Delete => !graph_has_id(ds, chg.id) && smap.contains_key(chg.id)
            && chg.expected_version == Some(smap[chg.id].version),
    }
}

/// The node is accounted for: a `Create` when its entry is absent, an
/// `Update` when it differs, and no change at all (but a no-op record) when
/// it matches.
pub open spec fn node_covered(
    ds: Seq<DeclModel>,
    smap: Map<Seq<char>, EntryModel>,
    changes: Seq<ChangeModel>,
    noops: Seq<Seq<char>>,
    i: int,
) -> bool {
    let d = ds[i];
    if !smap.contains_key(d.id) {
        exists|c: int|
            0 <= c < changes.len() && #[trigger] changes[c].id == d.id && changes[c].action
                is Create
    } else if props_map(d.props) == props_map(smap[d.id].props) {
        (forall|c: int| 0 <= c < changes.len() ==> (#[trigger] changes[c].id) != d.id)
            && noops.contains(d.id)
    } else {
        exists|c: int|
            0 <= c < changes.len() && #[trigger] changes[c].id == d.id && changes[c].action
                is Update
    }
}

/// A warranted non-delete change names a declared resource.
pub proof fn lemma_justified_nondelete_in_graph(
    ds: Seq<DeclModel>,
    smap: Map<Seq<char>, EntryModel>,
    chg: ChangeModel,
)
    requires
        change_justified(ds, smap, chg),
        !(chg.action is Delete),
    ensures
        graph_has_id(ds, chg.id),
{
    match chg.action {
        ActionKind::Create => {
            let i = choose|i: int|
                0 <= i < ds.len() && #[trigger] ds[i].id == chg.id && !smap.contains_key(chg.id)
                    && chg.props == ds[i].props && chg.provider == ds[i].provider && chg.rtype
                    == ds[i].rtype && chg.expected_version is None;
            assert(0 <= i < ds.len() && ds[i].id == chg.id);
        },
        ActionKind::Update => {
            let i = choose|i: int|
                0 <= i < ds.len() && #[trigger] ds[i].id == chg.id && smap.contains_key(chg.id)
                    && props_map(ds[i].props) != props_map(smap[chg.id].props) && chg.props
                    == ds[i].props && chg.provider == ds[i].provider && chg.rtype == ds[i].rtype
                    && chg.diff == spec_props_diff(ds[i].props, smap[chg.id].props)
                    && chg.expected_version == Some(smap[chg.id].version);
            assert(0 <= i < ds.len() && ds[i].id == chg.id);
        },
        ActionKind::Delete => {},
    }
}

/// A warranted non-delete change carries the declared document of its node.
pub proof fn lemma_justified_props(
    ds: Seq<DeclModel>,
    smap: Map<Seq<char>, EntryModel>,
    chg: ChangeModel,
)
    requires
        crate::decl::ids_unique(ds),
        change_justified(ds, smap, chg),
        !(chg.action is Delete),
    ensures
        forall|i: int| 0 <= i < ds.len() && (#[trigger] ds[i].id) == chg.id ==> chg.props == ds[i].props,
{
    assert forall|i: int|
        0 <= i < ds.len() && (#[trigger] ds[i].id) == chg.id implies chg.props == ds[i].props by {
        match chg.action {
            ActionKind::Create => {
                let w = choose|w: int|
                    0 <= w < ds.len() && #[trigger] ds[w].id == chg.id && !smap.contains_key(
                        chg.id,
                    ) && chg.props == ds[w].props && chg.provider == ds[w].provider && chg.rtype
                        == ds[w].rtype && chg.expected_version is None;
                if w != i {
                    if w < i {
                        assert(ds[w].id != ds[i].id);
                    } else {
                        assert(ds[i].id != ds[w].id);
                    }
                }
            },
            ActionKind::Update => {
                let w = choose|w: int|
                    0 <= w < ds.len() && #[trigger] ds[w].id == chg.id && smap.contains_key(
                        chg.id,
                    ) && props_map(ds[w].props) != props_map(smap[chg.id].props) && chg.props
                        == ds[w].props && chg.provider == ds[w].provider && chg.rtype == ds[w].rtype
                        && chg.diff == spec_props_diff(ds[w].props, smap[chg.id].props)
                        && chg.expected_version == Some(smap[chg.id].version);
                if w != i {
                    if w < i {
                        assert(ds[w].id != ds[i].id);
                    } else {
                        assert(ds[i].id != ds[w].id);
                    }
                }
            },
            ActionKind::Delete => {},
        }
    }
}

/// Every snapshot entry no longer declared has a `Delete` change.
pub open spec fn orphans_covered(
    ds: Seq<DeclModel>,
    snap: Seq<EntryModel>,
    changes: Seq<ChangeModel>,
) -> bool {
    forall|j: int|
        0 <= j < snap.len() && !graph_has_id(ds, #[trigger] snap[j].id) ==> exists|c: int|
            0 <= c < changes.len() && #[trigger] changes[c].id == snap[j].id && changes[c].action
                is Delete
}

/// Dependencies run first: whenever node `i` depends on node `k` and both
/// have a change, `k`'s change comes earlier in the plan.
pub open spec fn plan_topo(ds: Seq<DeclModel>, changes: Seq<ChangeModel>) -> bool {
    forall|i: int, k: int, c1: int, c2: int|
        0 <= i < ds.len() && 0 <= k < ds.len() && #[trigger] dep_edge(ds, i, k) && i != k && 0 <= c1
            < changes.len() && 0 <= c2 < changes.len() && (#[trigger] changes[c1].id) == ds[i].id
            && (#[trigger] changes[c2].id) == ds[k].id ==> c2 < c1
}

/// Deletes run last.
pub open spec fn deletes_last(changes: Seq<ChangeModel>) -> bool {
    forall|c1: int, c2: int|
        0 <= c1 < changes.len() && 0 <= c2 < changes.len() && (#[trigger] changes[c1].action)
            is Delete && !((#[trigger] changes[c2].action) is Delete) ==> c2 < c1
}

/// The whole contract of `diff` against the inputs it was given.
pub open spec fn diff_post(
    g: &Graph,
    snap: Seq<EntryModel>,
    stack: Seq<char>,
    created_at: u64,
    plan: &Plan,
) -> bool {
    let ds = g.models();
    let smap = entries_map(snap);
    let noops = id_models(plan.noop_ids@);
    &&& plan.stack@ == stack
    &&& plan.created_at == created_at
    &&& plan.fingerprint == spec_fp(snap)
    &&& plan.wf()
    &&& forall|c: int|
        0 <= c < plan.models().len() ==> change_justified(ds, smap, #[trigger] plan.models()[c])
    &&& forall|i: int|
        0 <= i < ds.len() ==> #[trigger] node_covered(ds, smap, plan.models(), noops, i)
    &&& orphans_covered(ds, snap, plan.models())
    &&& plan_topo(ds, plan.models())
    &&& deletes_last(plan.models())
}

} // verus!

verus! {

/// The models of a change list.
pub open spec fn change_models(cs: Seq<Change>) -> Seq<ChangeModel> {
    cs.map_values(|c: Change| c@)
}

/// The models of an id list.
pub open spec fn id_models(ss: Seq<String>) -> Seq<Seq<char>> {
    ss.map_values(|s: String| s@)
}

/// Changes of declared resources appear in topological position order.
pub open spec fn changes_pos_sorted(g: &Graph, cm: Seq<ChangeModel>) -> bool {
    forall|c1: int, c2: int, k1: int, k2: int|
        #![trigger g.models()[k1].id, g.models()[k2].id, cm[c1].id, cm[c2].id]
        0 <= c1 < c2 < cm.len() && 0 <= k1 < g.n() && 0 <= k2 < g.n() && g.models()[k1].id
            == cm[c1].id && g.models()[k2].id == cm[c2].id ==> (g.pos@[k1] as int) < g.pos@[k2] as int
}

/// Collect the plan indices of the changes of node `i`'s dependencies.
fn collect_deps(g: &Graph, node_change: &Vec<Option<usize>>, i: usize, climit: usize) -> (r: Vec<
    usize,
>)
    requires
        g.wf(),
        node_change@.len() == g.nodes@.len(),
        (i as int) < g.nodes@.len(),
        forall|k: int|
            0 <= k < node_change@.len() ==> match #[trigger] node_change@[k] {
                Some(d) => (d as int) < climit,
                None => true,
            },
    ensures
        forall|x: int| 0 <= x < r@.len() ==> (#[trigger] r@[x] as int) < climit,
{
    let mut r: Vec<usize> = Vec::new();
    let m = g.deps[i].len();
    let mut j: usize = 0;
    while j < m
        invariant
            g.wf(),
            node_change@.len() == g.nodes@.len(),
            (i as int) < g.nodes@.len(),
            m == g.deps@[i as int]@.len(),
            0 <= j <= m,
            forall|k: int|
                0 <= k < node_change@.len() ==> match #[trigger] node_change@[k] {
                    Some(d) => (d as int) < climit,
                    None => true,
                },
            forall|x: int| 0 <= x < r@.len() ==> (#[trigger] r@[x] as int) < climit,
        decreases m - j,
    {
        let k = g.deps[i][j];
        match node_change[k] {
            Some(d) => {
                r.push(d);
            },
            None => {},
        }
        j = j + 1;
    }
    r
}

/// Compute the ordered change plan reconciling the graph with the snapshot.
///
/// Changes of declared nodes appear in the graph's topological order
/// (`changes_pos_sorted`); with a graph from `build`, ties among
/// independent nodes are therefore broken by ascending id
/// (`order_id_minimal`). Orphan deletes are chained one after another in
/// reverse snapshot order: without recorded dependency data this
/// conservatively serializes them, trading parallelism for safety.
#[verifier::rlimit(100)]
#[verifier::spinoff_prover]
pub fn diff(g: &Graph, snap: &Snapshot, stack: String, created_at: u64) -> (r: Plan)
    requires
        g.wf(),
        snap.wf(),
    ensures
        diff_post(g, snap@, stack@, created_at, &r),
{
    let ghost ds = g.models();
    let ghost smap = snap.as_map();
    let n = g.nodes.len();
    let mut changes: Vec<Change> = Vec::new();
    let mut noop_ids: Vec<String> = Vec::new();
    let mut node_change: Vec<Option<usize>> = Vec::new();
    let mut z: usize = 0;
    while z < n
        invariant
            0 <= z <= n,
            node_change@.len() == z,
            forall|k: int| 0 <= k < z ==> (#[trigger] node_change@[k]) is None,
        decreases n - z,
    {
        node_change.push(None);
        z = z + 1;
    }
    let mut p: usize = 0;
    while p < n
        invariant
            g.wf(),
            snap.wf(),
            ds == g.models(),
            smap == snap.as_map(),
            n == g.nodes@.len(),
            node_change@.len() == n,
            0 <= p <= n,
            forall|k: int|
                0 <= k < n ==> match #[trigger] node_change@[k] {
                    Some(d) => (d as int) < change_models(changes@).len(),
                    None => true,
                },
            forall|c: int|
                0 <= c < change_models(changes@).len() ==> exists|k: int|
                    0 <= k < n && (g.pos@[k] as int) < p && ds[k].id == (#[trigger] change_models(
                        changes@,
                    )[c].id),
            changes_pos_sorted(g, change_models(changes@)),
            forall|c1: int, c2: int|
                0 <= c1 < c2 < change_models(changes@).len() ==> change_models(changes@)[c1].id
                    != change_models(changes@)[c2].id,
            forall|c: int|
                0 <= c < change_models(changes@).len() ==> !(#[trigger] change_models(
                    changes@,
                )[c].action is Delete),
            forall|c: int|
                0 <= c < change_models(changes@).len() ==> change_justified(
                    ds,
                    smap,
                    #[trigger] change_models(changes@)[c],
                ),
            forall|c: int, d: int|
                0 <= c < change_models(changes@).len() && 0 <= d < change_models(
                    changes@,
                )[c].deps.len() ==> 0 <= #[trigger] change_models(changes@)[c].deps[d] < c,
            forall|c: int|
                0 <= c < change_models(changes@).len() ==> paths_unique(
                    #[trigger] change_models(changes@)[c].props,
                ),
            forall|q: int|
                0 <= q < p ==> #[trigger] node_covered(
                    ds,
                    smap,
                    change_models(changes@),
                    id_models(noop_ids@),
                    g.order@[q] as int,
                ),
        decreases n - p,
    {
        let i = g.order[p];
        proof {
            assert(g.pos@[i as int] as int == p);
            assert(ds[i as int] == g.nodes@[i as int]@);
        }
        let ghost pre_cm = change_models(changes@);
        let ghost pre_noops = id_models(noop_ids@);
        let node = &g.nodes[i];
        let entry_opt = snap.get(&node.id);
        let is_noop = match entry_opt {
            Some(entry) => {
                proof {
                    assert(ds[i as int].props == node@.props);
                    assert(smap[ds[i as int].id].props == entry@.props);
                    lemma_props_diff_empty(node@.props, entry@.props);
                }
                let dv = props_diff(&node.props, &entry.props);
                dv.len() == 0
            },
            None => false,
        };
        if is_noop {
            noop_ids.push(node.id.clone());
            proof {
                let cm = change_models(changes@);
                let noops = id_models(noop_ids@);
                assert(noops =~= pre_noops.push(ds[i as int].id));
                assert forall|q: int| 0 <= q < p + 1 implies #[trigger] node_covered(
                    ds,
                    smap,
                    cm,
                    noops,
                    g.order@[q] as int,
                ) by {
                    let nq = g.order@[q] as int;
                    if q < p {
                        assert(node_covered(ds, smap, cm, pre_noops, nq));
                        if smap.contains_key(ds[nq].id) && props_map(ds[nq].props) == props_map(
                            smap[ds[nq].id].props,
                        ) {
                            assert(pre_noops.contains(ds[nq].id));
                            let x = choose|x: int| 0 <= x < pre_noops.len() && pre_noops[x] == ds[nq].id;
                            assert(noops[x] == ds[nq].id);
                        }
                    } else {
                        assert(nq == i as int);
                        assert(noops[noops.len() - 1] == ds[i as int].id);
                        assert(noops.contains(ds[i as int].id));
                        assert forall|c: int| 0 <= c < cm.len() implies (#[trigger] cm[c].id)
                            != ds[i as int].id by {
                            let k = choose|k: int|
                                0 <= k < n && (g.pos@[k] as int) < p && ds[k].id == cm[c].id;
                            assert(k != i as int);
                        }
                    }
                }
            }
        } else {
            let deps = collect_deps(g, &node_change, i, changes.len());
            let c_new = match entry_opt {
                None => {
                    Change {
                        id: node.id.clone(),
                        provider: node.provider.clone(),
                        rtype: node.rtype.clone(),
                        action: ActionKind::Create,
                        props: node.props.clone(),
                        diff: Vec::new(),
                        expected_version: None,
                        deps,
                    }
                },
                Some(entry) => {
                    let dv = props_diff(&node.props, &entry.props);
                    Change {
                        id: node.id.clone(),
                        provider: node.provider.clone(),
                        rtype: node.rtype.clone(),
                        action: ActionKind::Update,
                        props: node.props.clone(),
                        diff: dv,
                        expected_version: Some(entry.version),
                        deps,
                    }
                },
            };
            proof {
                assert(c_new@.id == ds[i as int].id);
                assert(c_new@.props == ds[i as int].props);
                assert(paths_unique(c_new@.props));
                if c_new@.action is Create {
                    assert(!smap.contains_key(ds[i as int].id));
                } else {
                    assert(smap.contains_key(ds[i as int].id));
                    assert(c_new@.diff == spec_props_diff(
                        ds[i as int].props,
                        smap[ds[i as int].id].props,
                    ));
                    assert(spec_props_diff(ds[i as int].props, smap[ds[i as int].id].props).len()
                        != 0);
                    assert(props_map(ds[i as int].props) != props_map(
                        smap[ds[i as int].id].props,
                    ));
                }
                assert(change_justified(ds, smap, c_new@));
            }
            let cidx = changes.len();
            changes.push(c_new);
            node_change.set(i, Some(cidx));

            proof {
                let cm = change_models(changes@);
                let noops = id_models(noop_ids@);
                assert(cm =~= pre_cm.push(changes@[cidx as int]@));
                assert(cm[cidx as int].id == ds[i as int].id);
                assert forall|c: int| 0 <= c < cm.len() implies exists|k: int|
                    0 <= k < n && (g.pos@[k] as int) < p + 1 && ds[k].id == (#[trigger] cm[c].id)
                    by {
                    if c < cidx {
                        let k = choose|k: int|
                            0 <= k < n && (g.pos@[k] as int) < p && ds[k].id == pre_cm[c].id;
                        assert(ds[k].id == cm[c].id);
                    } else {
                        assert(0 <= (i as int) && (i as int) < n && (g.pos@[i as int] as int) < p + 1 && ds[i as int].id == cm[c].id);
                    }
                }
                assert forall|c1: int, c2: int|
                    0 <= c1 < c2 < cm.len() implies cm[c1].id != cm[c2].id by {
                    if c2 == cidx {
                        let k = choose|k: int|
                            0 <= k < n && (g.pos@[k] as int) < p && ds[k].id == pre_cm[c1].id;
                        assert(k != i as int);
                    }
                }
                assert(changes_pos_sorted(g, cm)) by {
                    assert forall|c1: int, c2: int, k1: int, k2: int|
                        #![trigger g.models()[k1].id, g.models()[k2].id, cm[c1].id, cm[c2].id]
                        0 <= c1 < c2 < cm.len() && 0 <= k1 < g.n() && 0 <= k2 < g.n()
                            && g.models()[k1].id == cm[c1].id && g.models()[k2].id == cm[c2].id
                            implies (g.pos@[k1] as int) < g.pos@[k2] as int by {
                        if c2 == cidx {
                            assert(ds[k2].id == ds[i as int].id);
                            if k2 != i as int {
                                assert(ds[k2].id != ds[i as int].id);
                            }
                            assert(k2 == i as int);
                            let k = choose|k: int|
                                0 <= k < n && (g.pos@[k] as int) < p && ds[k].id == pre_cm[c1].id;
                            if k1 != k {
                                assert(ds[k1].id != ds[k].id);
                            }
                            assert((g.pos@[k1] as int) < p);
                        }
                    }
                }
                assert forall|q: int| 0 <= q < p + 1 implies #[trigger] node_covered(
                    ds,
                    smap,
                    cm,
                    noops,
                    g.order@[q] as int,
                ) by {
                    let nq = g.order@[q] as int;
                    if q < p {
                        assert(node_covered(ds, smap, pre_cm, noops, nq));
                        if smap.contains_key(ds[nq].id) && props_map(ds[nq].props) == props_map(
                            smap[ds[nq].id].props,
                        ) {
                            assert(nq != i as int);
                            assert forall|c: int| 0 <= c < cm.len() implies (#[trigger] cm[c].id)
                                != ds[nq].id by {
                                if c < cidx {
                                    assert(pre_cm[c].id != ds[nq].id);
                                } else {
                                    assert(cm[c].id == ds[i as int].id);
                                    assert(ds[i as int].id != ds[nq].id);
                                }
                            }
                        } else if !smap.contains_key(ds[nq].id) {
                            let c = choose|c: int|
                                0 <= c < pre_cm.len() && #[trigger] pre_cm[c].id == ds[nq].id
                                    && pre_cm[c].action is Create;
                            assert(cm[c].id == ds[nq].id && cm[c].action is Create);
                        } else {
                            let c = choose|c: int|
                                0 <= c < pre_cm.len() && #[trigger] pre_cm[c].id == ds[nq].id
                                    && pre_cm[c].action is Update;
                            assert(cm[c].id == ds[nq].id && cm[c].action is Update);
                        }
                    } else {
                        assert(nq == i as int);
                        assert(cm[cidx as int].id == ds[i as int].id);
                    }
                }
            }
        }
        p = p + 1;
    }
    // Declared nodes are all covered; now delete what is recorded but no
    // longer declared, in reverse snapshot order.
    proof {
        assert forall|i2: int| 0 <= i2 < ds.len() implies #[trigger] node_covered(
            ds,
            smap,
            change_models(changes@),
            id_models(noop_ids@),
            i2,
        ) by {
            assert(g.order@[g.pos@[i2] as int] as int == i2);
        }
        assert(forall|c: int|
            0 <= c < change_models(changes@).len() ==> !((#[trigger] change_models(
                changes@,
            )[c].action) is Delete));
    }
    let changes = append_orphan_deletes(g, snap, changes, &noop_ids);
    let fingerprint = snap.fingerprint();
    let r = Plan { stack, created_at, changes, noop_ids, fingerprint };
    proof {
        assert(r.wf());
    }
    r
}

} // verus!

verus! {

/// Append a `Delete` change for every snapshot entry whose id is no longer
/// declared, in reverse snapshot order, chained so they run one after
/// another.
#[verifier::rlimit(100)]
#[verifier::spinoff_prover]
fn append_orphan_deletes(g: &Graph, snap: &Snapshot, changes_in: Vec<Change>, noop_ids: &Vec<
    String,
>) -> (r: Vec<Change>)
    requires
        g.wf(),
        snap.wf(),
        forall|c: int|
            0 <= c < change_models(changes_in@).len() ==> !((#[trigger] change_models(
                changes_in@,
            )[c].action) is Delete),
        forall|c1: int, c2: int|
            0 <= c1 < c2 < change_models(changes_in@).len() ==> change_models(changes_in@)[c1].id
                != change_models(changes_in@)[c2].id,
        forall|c: int|
            0 <= c < change_models(changes_in@).len() ==> change_justified(
                g.models(),
                snap.as_map(),
                #[trigger] change_models(changes_in@)[c],
            ),
        forall|c: int, d: int|
            0 <= c < change_models(changes_in@).len() && 0 <= d < change_models(
                changes_in@,
            )[c].deps.len() ==> 0 <= #[trigger] change_models(changes_in@)[c].deps[d] < c,
        forall|c: int|
            0 <= c < change_models(changes_in@).len() ==> paths_unique(
                #[trigger] change_models(changes_in@)[c].props,
            ),
        forall|i2: int|
            0 <= i2 < g.models().len() ==> #[trigger] node_covered(
                g.models(),
                snap.as_map(),
                change_models(changes_in@),
                id_models(noop_ids@),
                i2,
            ),
        changes_pos_sorted(g, change_models(changes_in@)),
    ensures
        forall|c1: int, c2: int|
            0 <= c1 < c2 < change_models(r@).len() ==> change_models(r@)[c1].id != change_models(
                r@,
            )[c2].id,
        forall|c: int|
            0 <= c < change_models(r@).len() ==> change_justified(
                g.models(),
                snap.as_map(),
                #[trigger] change_models(r@)[c],
            ),
        forall|c: int, d: int|
            0 <= c < change_models(r@).len() && 0 <= d < change_models(r@)[c].deps.len() ==> 0 <= #[trigger] change_models(r@)[c].deps[d] < c,
        forall|c: int|
            0 <= c < change_models(r@).len() ==> paths_unique(
                #[trigger] change_models(r@)[c].props,
            ),
        forall|i2: int|
            0 <= i2 < g.models().len() ==> #[trigger] node_covered(
                g.models(),
                snap.as_map(),
                change_models(r@),
                id_models(noop_ids@),
                i2,
            ),
        orphans_covered(g.models(), snap@, change_models(r@)),
        deletes_last(change_models(r@)),
        changes_pos_sorted(g, change_models(r@)),
        plan_topo(g.models(), change_models(r@)),
{
    let ghost ds = g.models();
    let ghost smap = snap.as_map();
    let n = g.nodes.len();
    let mut changes = changes_in;
    let ghost len1 = change_models(changes@).len() as int;
    let m = snap.entries.len();
    let mut t: usize = 0;
    let mut last_del: Option<usize> = None;
    while t < m
        invariant
            g.wf(),
            snap.wf(),
            ds == g.models(),
            smap == snap.as_map(),
            n == g.nodes@.len(),
            m == snap@.len(),
            0 <= t <= m,
            0 <= len1 <= change_models(changes@).len(),
            forall|c: int|
                0 <= c < change_models(changes@).len() ==> ((#[trigger] change_models(
                    changes@,
                )[c].action is Delete) <==> len1 <= c),
            forall|c: int|
                len1 <= c < change_models(changes@).len() ==> !graph_has_id(
                    ds,
                    #[trigger] change_models(changes@)[c].id,
                ) && exists|j2: int|
                    m - t <= j2 < m && snap@[j2].id == change_models(changes@)[c].id,
            forall|c1: int, c2: int|
                0 <= c1 < c2 < change_models(changes@).len() ==> change_models(changes@)[c1].id
                    != change_models(changes@)[c2].id,
            forall|c: int|
                0 <= c < change_models(changes@).len() ==> change_justified(
                    ds,
                    smap,
                    #[trigger] change_models(changes@)[c],
                ),
            forall|c: int, d: int|
                0 <= c < change_models(changes@).len() && 0 <= d < change_models(
                    changes@,
                )[c].deps.len() ==> 0 <= #[trigger] change_models(changes@)[c].deps[d] < c,
            forall|c: int|
                0 <= c < change_models(changes@).len() ==> paths_unique(
                    #[trigger] change_models(changes@)[c].props,
                ),
            forall|i2: int|
                0 <= i2 < ds.len() ==> #[trigger] node_covered(
                    ds,
                    smap,
                    change_models(changes@),
                    id_models(noop_ids@),
                    i2,
                ),
            changes_pos_sorted(g, change_models(changes@)),
            forall|j2: int|
                m - t <= j2 < m && !graph_has_id(ds, #[trigger] snap@[j2].id) ==> exists|c: int|
                    0 <= c < change_models(changes@).len() && #[trigger] change_models(
                        changes@,
                    )[c].id == snap@[j2].id && change_models(changes@)[c].action is Delete,
        decreases m - t,
    {
        let j = m - 1 - t;
        proof {
            assert(snap@[j as int] == snap.entries@[j as int]@);
        }
        let entry = &snap.entries[j];
        let ghost pre_cm = change_models(changes@);
        proof {
            assert(forall|i2: int|
                0 <= i2 < ds.len() ==> #[trigger] node_covered(
                    ds,
                    smap,
                    pre_cm,
                    id_models(noop_ids@),
                    i2,
                ));
            assert(forall|c: int|
                0 <= c < pre_cm.len() ==> ((#[trigger] pre_cm[c].action is Delete) <==> len1 <= c));
            assert(forall|c: int|
                len1 <= c < pre_cm.len() ==> !graph_has_id(ds, #[trigger] pre_cm[c].id)
                    && exists|j2: int| m - t <= j2 < m && snap@[j2].id == pre_cm[c].id);
        }
        match crate::graph::find_index(&g.nodes, &entry.id) {
            Some(_) => {
                proof {
                    assert(graph_has_id(ds, snap@[j as int].id));
                    let cm = change_models(changes@);
                    assert forall|j2: int|
                        m - (t + 1) <= j2 < m && !graph_has_id(ds, #[trigger] snap@[j2].id)
                            implies exists|c: int|
                        0 <= c < cm.len() && #[trigger] cm[c].id == snap@[j2].id && cm[c].action
                            is Delete by {
                        assert(j2 != j);
                    }
                }
            },
            None => {
                proof {
                    assert(forall|x: int| 0 <= x < ds.len() ==> ds[x].id != snap@[j as int].id);
                    assert(!graph_has_id(ds, snap@[j as int].id));
                    crate::store::lemma_entries_map_at(snap@, j as int);
                }
                let mut depsv: Vec<usize> = Vec::new();
                match last_del {
                    Some(prev) => {
                        if prev < changes.len() {
                            depsv.push(prev);
                        }
                    },
                    None => {},
                }
                let ghost depsv_snap = depsv@;
                let cidx = changes.len();
                proof {
                    assert(forall|x: int|
                        0 <= x < depsv_snap.len() ==> (depsv_snap[x] as int) < cidx as int);
                }
                let c_new = Change {
                    id: entry.id.clone(),
                    provider: entry.provider.clone(),
                    rtype: entry.rtype.clone(),
                    action: ActionKind::Delete,
                    props: Props::empty(),
                    diff: Vec::new(),
                    expected_version: Some(entry.version),
                    deps: depsv,
                };
                proof {
                    assert(c_new@.id == snap@[j as int].id);
                    assert(change_justified(ds, smap, c_new@));
                }
                changes.push(c_new);
                last_del = Some(cidx);
                proof {
                    let cm = change_models(changes@);
                    assert(cm =~= pre_cm.push(changes@[cidx as int]@));
                    assert(forall|c: int| 0 <= c < pre_cm.len() ==> #[trigger] cm[c] == pre_cm[c]);
                    assert(cm[cidx as int].id == snap@[j as int].id);
                    assert(cm[cidx as int].action is Delete);
                    assert(change_justified(ds, smap, cm[cidx as int]));
                    assert(forall|d: int|
                        0 <= d < cm[cidx as int].deps.len() ==> 0 <= #[trigger] cm[cidx as int].deps[d] < cidx as int);
                    assert(paths_unique(cm[cidx as int].props));
                    lemma_orphan_unique(g, snap@, pre_cm, cm, len1, m as int, t as int);
                    lemma_orphan_covered(g, snap@, noop_ids@, pre_cm, cm);
                    lemma_orphan_ranges(g, snap@, pre_cm, cm, len1, m as int, t as int);
                    lemma_orphan_sorted(g, pre_cm, cm);
                    assert forall|c: int|
                        0 <= c < cm.len() implies change_justified(
                        ds,
                        smap,
                        #[trigger] cm[c],
                    ) by {
                        if c < pre_cm.len() {
                            assert(cm[c] == pre_cm[c]);
                        }
                    }
                }
            },
        }
        t = t + 1;
    }
    proof {
        let cm = change_models(changes@);
        assert(plan_topo(ds, cm)) by {
            assert forall|i2: int, k: int, c1: int, c2: int|
                0 <= i2 < ds.len() && 0 <= k < ds.len() && #[trigger] dep_edge(ds, i2, k) && i2 != k
                    && 0 <= c1 < cm.len() && 0 <= c2 < cm.len() && (#[trigger] cm[c1].id)
                    == ds[i2].id && (#[trigger] cm[c2].id) == ds[k].id implies c2 < c1 by {
                assert(g.has_edge(i2, k));
                let e = choose|e: int|
                    0 <= e < g.deps@[i2]@.len() && #[trigger] g.deps@[i2]@[e] as int == k;
                assert((g.pos@[k] as int) < g.pos@[i2] as int);
                if c1 == c2 {
                    assert(false);
                }
                if c1 < c2 {
                    assert((g.pos@[i2] as int) < g.pos@[k] as int);
                    assert(false);
                }
            }
        }
        assert(deletes_last(cm));
        assert(orphans_covered(ds, snap@, cm));
    }
    changes
}

} // verus!

verus! {

/// The new delete's id is distinct from every earlier change's id.
#[verifier::spinoff_prover]
proof fn lemma_orphan_unique(
    g: &Graph,
    snapv: Seq<EntryModel>,
    pre_cm: Seq<ChangeModel>,
    cm: Seq<ChangeModel>,
    len1: int,
    m: int,
    t: int,
)
    requires
        entry_ids_unique(snapv),
        m == snapv.len(),
        0 <= t < m,
        0 <= len1 <= pre_cm.len(),
        cm.len() == pre_cm.len() + 1,
        forall|c: int| 0 <= c < pre_cm.len() ==> #[trigger] cm[c] == pre_cm[c],
        cm[pre_cm.len() as int].id == snapv[m - 1 - t].id,
        !graph_has_id(g.models(), snapv[m - 1 - t].id),
        forall|c: int|
            0 <= c < pre_cm.len() ==> ((#[trigger] pre_cm[c].action is Delete) <==> len1 <= c),
        forall|c: int|
            len1 <= c < pre_cm.len() ==> !graph_has_id(g.models(), #[trigger] pre_cm[c].id)
                && exists|j2: int| m - t <= j2 < m && snapv[j2].id == pre_cm[c].id,
        forall|c1: int, c2: int|
            0 <= c1 < c2 < pre_cm.len() ==> pre_cm[c1].id != pre_cm[c2].id,
        forall|c: int|
            0 <= c < pre_cm.len() ==> change_justified(
                g.models(),
                entries_map(snapv),
                #[trigger] pre_cm[c],
            ),
    ensures
        forall|c1: int, c2: int| 0 <= c1 < c2 < cm.len() ==> cm[c1].id != cm[c2].id,
{
    let ds = g.models();
    let smap = entries_map(snapv);
    let j = m - 1 - t;
    let cidx = pre_cm.len() as int;
    assert forall|c1: int, c2: int| 0 <= c1 < c2 < cm.len() implies cm[c1].id != cm[c2].id by {
        if c2 == cidx {
            if c1 < len1 {
                if cm[c1].id == cm[c2].id {
                    assert(cm[c1] == pre_cm[c1]);
                    assert(!(cm[c1].action is Delete));
                    lemma_justified_nondelete_in_graph(ds, smap, cm[c1]);
                    assert(false);
                }
            } else {
                assert(cm[c1] == pre_cm[c1]);
                assert(!graph_has_id(ds, pre_cm[c1].id) && exists|j2: int|
                    m - t <= j2 < m && snapv[j2].id == pre_cm[c1].id);
                let j2 = choose|j2: int| m - t <= j2 < m && snapv[j2].id == pre_cm[c1].id;
                if cm[c1].id == cm[c2].id {
                    assert(snapv[j2].id == snapv[j].id);
                    assert(j < m - t);
                    assert(false);
                }
            }
        }
    }
}

/// The new delete leaves every declared node's coverage intact.
#[verifier::spinoff_prover]
proof fn lemma_orphan_covered(
    g: &Graph,
    snapv: Seq<EntryModel>,
    noop_ids: Seq<String>,
    pre_cm: Seq<ChangeModel>,
    cm: Seq<ChangeModel>,
)
    requires
        cm.len() == pre_cm.len() + 1,
        forall|c: int| 0 <= c < pre_cm.len() ==> #[trigger] cm[c] == pre_cm[c],
        !graph_has_id(g.models(), cm[pre_cm.len() as int].id),
        forall|i2: int|
            0 <= i2 < g.models().len() ==> #[trigger] node_covered(
                g.models(),
                entries_map(snapv),
                pre_cm,
                id_models(noop_ids),
                i2,
            ),
    ensures
        forall|i2: int|
            0 <= i2 < g.models().len() ==> #[trigger] node_covered(
                g.models(),
                entries_map(snapv),
                cm,
                id_models(noop_ids),
                i2,
            ),
{
    let ds = g.models();
    let smap = entries_map(snapv);
    let cidx = pre_cm.len() as int;
    assert forall|i2: int| 0 <= i2 < ds.len() implies #[trigger] node_covered(
        ds,
        smap,
        cm,
        id_models(noop_ids),
        i2,
    ) by {
        assert(node_covered(ds, smap, pre_cm, id_models(noop_ids), i2));
        if !smap.contains_key(ds[i2].id) {
            let c = choose|c: int|
                0 <= c < pre_cm.len() && #[trigger] pre_cm[c].id == ds[i2].id && pre_cm[c].action
                    is Create;
            assert(cm[c] == pre_cm[c]);
            assert(cm[c].id == ds[i2].id && cm[c].action is Create);
        } else if props_map(ds[i2].props) == props_map(smap[ds[i2].id].props) {
            assert forall|c: int| 0 <= c < cm.len() implies (#[trigger] cm[c].id) != ds[i2].id by {
                if c == cidx {
                    if cm[c].id == ds[i2].id {
                        assert(graph_has_id(ds, cm[c].id));
                    }
                } else {
                    assert(cm[c] == pre_cm[c]);
                }
            }
        } else {
            let c = choose|c: int|
                0 <= c < pre_cm.len() && #[trigger] pre_cm[c].id == ds[i2].id && pre_cm[c].action
                    is Update;
            assert(cm[c] == pre_cm[c]);
            assert(cm[c].id == ds[i2].id && cm[c].action is Update);
        }
    }
}

/// The delete bookkeeping moves one snapshot entry to the left.
#[verifier::spinoff_prover]
proof fn lemma_orphan_ranges(
    g: &Graph,
    snapv: Seq<EntryModel>,
    pre_cm: Seq<ChangeModel>,
    cm: Seq<ChangeModel>,
    len1: int,
    m: int,
    t: int,
)
    requires
        m == snapv.len(),
        0 <= t < m,
        0 <= len1 <= pre_cm.len(),
        cm.len() == pre_cm.len() + 1,
        forall|c: int| 0 <= c < pre_cm.len() ==> #[trigger] cm[c] == pre_cm[c],
        cm[pre_cm.len() as int].action is Delete,
        cm[pre_cm.len() as int].id == snapv[m - 1 - t].id,
        !graph_has_id(g.models(), snapv[m - 1 - t].id),
        forall|c: int|
            0 <= c < pre_cm.len() ==> ((#[trigger] pre_cm[c].action is Delete) <==> len1 <= c),
        forall|c: int|
            len1 <= c < pre_cm.len() ==> !graph_has_id(g.models(), #[trigger] pre_cm[c].id)
                && exists|j2: int| m - t <= j2 < m && snapv[j2].id == pre_cm[c].id,
        forall|j2: int|
            m - t <= j2 < m && !graph_has_id(g.models(), #[trigger] snapv[j2].id) ==> exists|
                c: int|
                0 <= c < pre_cm.len() && #[trigger] pre_cm[c].id == snapv[j2].id && pre_cm[c].action
                    is Delete,
    ensures
        forall|c: int|
            0 <= c < cm.len() ==> ((#[trigger] cm[c].action is Delete) <==> len1 <= c),
        forall|c: int|
            len1 <= c < cm.len() ==> !graph_has_id(g.models(), #[trigger] cm[c].id) && exists|
                j2: int| m - (t + 1) <= j2 < m && snapv[j2].id == cm[c].id,
        forall|j2: int|
            m - (t + 1) <= j2 < m && !graph_has_id(g.models(), #[trigger] snapv[j2].id)
                ==> exists|c: int|
                0 <= c < cm.len() && #[trigger] cm[c].id == snapv[j2].id && cm[c].action is Delete,
{
    let ds = g.models();
    let j = m - 1 - t;
    let cidx = pre_cm.len() as int;
    assert forall|c: int|
        0 <= c < cm.len() implies ((#[trigger] cm[c].action is Delete) <==> len1 <= c) by {
        if c < cidx {
            assert(cm[c] == pre_cm[c]);
        }
    }
    assert forall|c: int|
        len1 <= c < cm.len() implies !graph_has_id(ds, #[trigger] cm[c].id) && exists|j2: int|
        m - (t + 1) <= j2 < m && snapv[j2].id == cm[c].id by {
        if c < cidx {
            assert(cm[c] == pre_cm[c]);
            assert(len1 <= c < pre_cm.len());
            assert(!graph_has_id(ds, pre_cm[c].id));
            assert(exists|j2: int| m - t <= j2 < m && snapv[j2].id == pre_cm[c].id);
            let j2 = choose|j2: int| m - t <= j2 < m && snapv[j2].id == pre_cm[c].id;
            assert(m - (t + 1) <= j2 < m && snapv[j2].id == cm[c].id);
        } else {
            assert(cm[c].id == snapv[j].id);
            assert(m - (t + 1) <= j < m);
        }
    }
    assert forall|j2: int|
        m - (t + 1) <= j2 < m && !graph_has_id(ds, #[trigger] snapv[j2].id) implies exists|c: int|
        0 <= c < cm.len() && #[trigger] cm[c].id == snapv[j2].id && cm[c].action is Delete by {
        if j2 > j {
            let c = choose|c: int|
                0 <= c < pre_cm.len() && #[trigger] pre_cm[c].id == snapv[j2].id && pre_cm[c].action
                    is Delete;
            assert(cm[c] == pre_cm[c]);
            assert(cm[c].id == snapv[j2].id && cm[c].action is Delete);
        } else {
            assert(j2 == j);
            assert(cm[cidx].id == snapv[j2].id && cm[cidx].action is Delete);
        }
    }
}

/// The new delete's id names no node, so position order is untouched.
#[verifier::spinoff_prover]
proof fn lemma_orphan_sorted(g: &Graph, pre_cm: Seq<ChangeModel>, cm: Seq<ChangeModel>)
    requires
        cm.len() == pre_cm.len() + 1,
        forall|c: int| 0 <= c < pre_cm.len() ==> #[trigger] cm[c] == pre_cm[c],
        !graph_has_id(g.models(), cm[pre_cm.len() as int].id),
        changes_pos_sorted(g, pre_cm),
    ensures
        changes_pos_sorted(g, cm),
{
    let ds = g.models();
    let cidx = pre_cm.len() as int;
    assert forall|c1: int, c2: int, k1: int, k2: int|
        #![trigger g.models()[k1].id, g.models()[k2].id, cm[c1].id, cm[c2].id]
        0 <= c1 < c2 < cm.len() && 0 <= k1 < g.n() && 0 <= k2 < g.n() && g.models()[k1].id
            == cm[c1].id && g.models()[k2].id == cm[c2].id implies (g.pos@[k1] as int)
        < g.pos@[k2] as int by {
        if c2 == cidx {
            assert(graph_has_id(ds, cm[c2].id));
            assert(false);
        } else {
            assert(cm[c1] == pre_cm[c1]);
            assert(cm[c2] == pre_cm[c2]);
        }
    }
}

} // verus!

verus! {

/// The whole contract of `destroy_plan`: one `Delete` per snapshot entry,
/// in reverse snapshot order, each chained to the one before it.
pub open spec fn destroy_post(snap: Seq<EntryModel>, stack: Seq<char>, created_at: u64, plan: &Plan) -> bool {
    let cm = plan.models();
    &&& plan.stack@ == stack
    &&& plan.created_at == created_at
    &&& plan.fingerprint == spec_fp(snap)
    &&& plan.noop_ids@.len() == 0
    &&& cm.len() == snap.len()
    &&& forall|c: int|
        0 <= c < cm.len() ==> {
            let e = snap[snap.len() - 1 - c];
            (#[trigger] cm[c]).id == e.id && cm[c].action is Delete && cm[c].expected_version
                == Some(e.version)
        }
    &&& plan.wf()
}

/// Plan the deletion of everything recorded for the stack: a `Delete` for
/// every snapshot entry, dependents (recorded later) before what they were
/// built on.
pub fn destroy_plan(snap: &Snapshot, stack: String, created_at: u64) -> (r: Plan)
    requires
        snap.wf(),
    ensures
        destroy_post(snap@, stack@, created_at, &r),
{
    let ghost sv = snap@;
    let m = snap.entries.len();
    let mut changes: Vec<Change> = Vec::new();
    let mut t: usize = 0;
    while t < m
        invariant
            snap.wf(),
            sv == snap@,
            m == snap@.len(),
            0 <= t <= m,
            change_models(changes@).len() == t,
            forall|c: int|
                0 <= c < t ==> {
                    let e = sv[m - 1 - c];
                    (#[trigger] change_models(changes@)[c]).id == e.id && change_models(
                        changes@,
                    )[c].action is Delete && change_models(changes@)[c].expected_version == Some(
                        e.version,
                    )
                },
            forall|c: int, d: int|
                0 <= c < t && 0 <= d < change_models(changes@)[c].deps.len() ==> 0 <= #[trigger] change_models(changes@)[c].deps[d] < c,
            forall|c: int|
                0 <= c < t ==> paths_unique(#[trigger] change_models(changes@)[c].props),
        decreases m - t,
    {
        let j = m - 1 - t;
        proof {
            assert(sv[j as int] == snap.entries@[j as int]@);
        }
        let entry = &snap.entries[j];
        let mut depsv: Vec<usize> = Vec::new();
        if t > 0 {
            depsv.push(t - 1);
        }
        let ghost pre_cm = change_models(changes@);
        let c_new = Change {
            id: entry.id.clone(),
            provider: entry.provider.clone(),
            rtype: entry.rtype.clone(),
            action: ActionKind::Delete,
            props: Props::empty(),
            diff: Vec::new(),
            expected_version: Some(entry.version),
            deps: depsv,
        };
        changes.push(c_new);
        proof {
            let cm = change_models(changes@);
            assert(cm =~= pre_cm.push(changes@[t as int]@));
            assert(forall|c: int| 0 <= c < pre_cm.len() ==> #[trigger] cm[c] == pre_cm[c]);
            assert(cm[t as int].id == sv[j as int].id);
        }
        t = t + 1;
    }
    let fingerprint = snap.fingerprint();
    let r = Plan { stack, created_at, changes, noop_ids: Vec::new(), fingerprint };
    proof {
        let cm = r.models();
        assert forall|c1: int, c2: int|
            0 <= c1 < c2 < cm.len() implies cm[c1].id != cm[c2].id by {
            assert(cm[c1].id == sv[m - 1 - c1].id);
            assert(cm[c2].id == sv[m - 1 - c2].id);
            assert(sv[m - 1 - c2].id != sv[m - 1 - c1].id);
        }
        assert(r.wf());
    }
    r
}

/// Destroy order: of two recorded resources, the one recorded later (the
/// dependent, under append-order commits) is deleted first.
pub proof fn lemma_destroy_order(
    snap: Seq<EntryModel>,
    stack: Seq<char>,
    created_at: u64,
    plan: &Plan,
    j1: int,
    j2: int,
)
    requires
        destroy_post(snap, stack, created_at, plan),
        0 <= j1 < j2 < snap.len(),
    ensures
        plan.models()[snap.len() - 1 - j2].id == snap[j2].id,
        plan.models()[snap.len() - 1 - j1].id == snap[j1].id,
        snap.len() - 1 - j2 < snap.len() - 1 - j1,
{
    let cm = plan.models();
    assert(cm[snap.len() - 1 - j2].id == snap[j2].id);
    assert(cm[snap.len() - 1 - j1].id == snap[j1].id);
}

} // verus!

verus! {

/// What a reference to the recorded resource resolves to: its reported
/// `id` output when the provider reported one, else its resource id.
pub open spec fn resolved_value(e: EntryModel) -> LeafModel {
    if props_map(e.props).contains_key("id"@) {
        props_map(e.props)["id"@]
    } else {
        LeafModel::Str(e.id)
    }
}

/// Resolve one property value against the snapshot: a `${id}` reference to
/// a recorded resource becomes that resource's output, anything else is
/// kept.
pub open spec fn spec_resolve(l: LeafModel, snap: Seq<EntryModel>) -> LeafModel {
    if exists|j: int| 0 <= j < snap.len() && crate::decl::leaf_is_ref(l, #[trigger] snap[j].id) {
        let j = choose|j: int|
            0 <= j < snap.len() && crate::decl::leaf_is_ref(l, #[trigger] snap[j].id);
        resolved_value(snap[j])
    } else {
        l
    }
}

/// A string can be the `${id}` pattern of at most one id.
proof fn lemma_ref_str_injective(s: Seq<char>, a: Seq<char>, b: Seq<char>)
    requires
        crate::decl::is_ref_str(s, a),
        crate::decl::is_ref_str(s, b),
    ensures
        a == b,
{
    reveal_strlit("${");
    reveal_strlit("}");
    assert(s.len() == 2 + a.len() + 1);
    assert(s.len() == 2 + b.len() + 1);
    assert forall|i: int| 0 <= i < a.len() implies a[i] == b[i] by {
        assert(s[2 + i] == a[i]);
        assert(s[2 + i] == b[i]);
    }
    assert(a =~= b);
}

/// Resolve one property value against the snapshot.
fn resolve_leaf(leaf: &PropLeaf, snap: &Snapshot) -> (r: PropLeaf)
    requires
        snap.wf(),
    ensures
        r@ == spec_resolve(leaf@, snap@),
{
    let ghost sv = snap@;
    match leaf {
        PropLeaf::Str(v) => {
            let m = snap.entries.len();
            let mut j: usize = 0;
            while j < m
                invariant
                    snap.wf(),
                    sv == snap@,
                    m == snap.entries@.len(),
                    0 <= j <= m,
                    leaf@ == LeafModel::Str(v@),
                    forall|j2: int|
                        0 <= j2 < j ==> !crate::decl::leaf_is_ref(
                            LeafModel::Str(v@),
                            #[trigger] sv[j2].id,
                        ),
                decreases m - j,
            {
                proof {
                    assert(sv[j as int] == snap.entries@[j as int]@);
                }
                let se = &snap.entries[j];
                let pat = crate::decl::make_ref_string(&se.id);
                if *v == pat {
                    proof {
                        assert(crate::decl::leaf_is_ref(leaf@, sv[j as int].id));
                        let jw = choose|jw: int|
                            0 <= jw < sv.len() && crate::decl::leaf_is_ref(
                                leaf@,
                                #[trigger] sv[jw].id,
                            );
                        lemma_ref_str_injective(v@, sv[jw].id, sv[j as int].id);
                        if jw != j {
                            if jw < j {
                                assert(sv[jw].id != sv[j as int].id);
                            } else {
                                assert(sv[j as int].id != sv[jw].id);
                            }
                        }
                        assert(crate::store::entries_props_wf(sv));
                        assert(paths_unique(sv[j as int].props));
                    }
                    let id_key = String::from_str("id");
                    let r = match se.props.get(&id_key) {
                        Some(l) => l.clone(),
                        None => PropLeaf::Str(se.id.clone()),
                    };
                    proof {
                        assert(r@ == resolved_value(sv[j as int])) by {
                            reveal_strlit("id");
                        }
                        assert(r@ == spec_resolve(leaf@, sv));
                    }
                    return r;
                }
                j = j + 1;
            }
            proof {
                assert(forall|j2: int|
                    0 <= j2 < sv.len() ==> !crate::decl::leaf_is_ref(leaf@, #[trigger] sv[j2].id));
            }
            leaf.clone()
        },
        _ => {
            proof {
                assert(forall|j2: int|
                    0 <= j2 < sv.len() ==> !crate::decl::leaf_is_ref(leaf@, #[trigger] sv[j2].id));
            }
            leaf.clone()
        },
    }
}

/// Substitute recorded outputs into `${id}` references, path by path.
///
/// Value substitution is separate from edge inference: edges are computed
/// before any substitution, and a reference is resolved only from what the
/// store records, so a dependency's output is used only once it was applied.
pub fn substitute_refs(props: &Props, snap: &Snapshot) -> (r: Props)
    requires
        props.wf(),
        snap.wf(),
    ensures
        r.wf(),
        r@.len() == props@.len(),
        forall|e: int|
            0 <= e < props@.len() ==> (#[trigger] r@[e]).0 == props@[e].0 && r@[e].1
                == spec_resolve(props@[e].1, snap@),
{
    let ghost sv = snap@;
    let mut out: Vec<(String, PropLeaf)> = Vec::new();
    let n = props.entries.len();
    let mut i: usize = 0;
    while i < n
        invariant
            props.wf(),
            snap.wf(),
            sv == snap@,
            n == props.entries@.len(),
            0 <= i <= n,
            out@.len() == i,
            forall|e: int|
                0 <= e < i ==> (#[trigger] out@[e].0@) == props@[e].0 && out@[e].1@
                    == spec_resolve(props@[e].1, sv),
        decreases n - i,
    {
        proof {
            assert(props@[i as int] == (props.entries@[i as int].0@, props.entries@[i as int].1@));
        }
        let entry = &props.entries[i];
        let value = resolve_leaf(&entry.1, snap);
        out.push((entry.0.clone(), value));
        i = i + 1;
    }
    let r = Props { entries: out };
    proof {
        assert forall|e: int|
            0 <= e < props@.len() implies (#[trigger] r@[e]).0 == props@[e].0 && r@[e].1
            == spec_resolve(props@[e].1, snap@) by {
            assert(r@[e] == (out@[e].0@, out@[e].1@));
        }
        assert forall|a: int, b: int| 0 <= a < b < r@.len() implies r@[a].0 != r@[b].0 by {
            assert(r@[a].0 == props@[a].0);
            assert(r@[b].0 == props@[b].0);
        }
    }
    r
}

} // verus!
