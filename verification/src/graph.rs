//! The resource dependency graph.
//!
//! `build` turns a flat list of declarations into a directed acyclic graph:
//! explicit `depends_on` ids and implicit `${id}` property references are
//! resolved to node indices, and a topological order is computed. Duplicate
//! ids, unresolved references and dependency cycles are planning errors.

use vstd::prelude::*;
use vstd::set_lib::{lemma_int_range, lemma_len_subset, set_int_range};
use crate::decl::{Decl, DeclModel, decl_models, dep_edge, ids_unique, node_references, refs_resolve};
use crate::props::paths_unique;

verus! {

/// Why a declaration list cannot be planned.
#[derive(Debug)]
pub enum GraphError {
    /// Two declarations share this id.
    DuplicateId { id: String },
    /// `from` depends on `to`, which is not declared.
    UnknownReference { from: String, to: String },
    /// The listed ids form a dependency cycle, in order.
    CycleDetected { ids: Vec<String> },
}

/// A nonempty index sequence whose consecutive nodes (and wrap-around) are
/// dependency edges.
pub open spec fn is_cycle(ds: Seq<DeclModel>, c: Seq<int>) -> bool {
    &&& c.len() >= 1
    &&& forall|j: int| 0 <= j < c.len() ==> 0 <= #[trigger] c[j] < ds.len()
    &&& forall|j: int| 0 <= j < c.len() - 1 ==> dep_edge(ds, #[trigger] c[j], c[j + 1])
    &&& dep_edge(ds, c[c.len() - 1], c[0])
}

/// Some dependency cycle exists among the declarations.
pub open spec fn has_cycle(ds: Seq<DeclModel>) -> bool {
    exists|c: Seq<int>| is_cycle(ds, c)
}

/// A nonempty index sequence whose consecutive nodes (and wrap-around) are
/// recorded edges.
pub open spec fn is_rec_cycle(deps: Seq<Vec<usize>>, c: Seq<int>, n: int) -> bool {
    &&& c.len() >= 1
    &&& forall|j: int| 0 <= j < c.len() ==> 0 <= #[trigger] c[j] < n
    &&& forall|j: int| 0 <= j < c.len() - 1 ==> has_rec_edge(deps, #[trigger] c[j], c[j + 1])
    &&& has_rec_edge(deps, c[c.len() - 1], c[0])
}

/// The ids a cycle passes through, in order.
pub open spec fn cycle_ids(ds: Seq<DeclModel>, c: Seq<int>) -> Seq<Seq<char>> {
    Seq::new(c.len(), |j: int| ds[c[j]].id)
}

/// A declaration list whose graph can be built.
pub open spec fn buildable(ds: Seq<DeclModel>) -> bool {
    ids_unique(ds) && refs_resolve(ds) && !has_cycle(ds)
}

/// Recorded edges land inside the node range.
pub open spec fn edges_in_range(deps: Seq<Vec<usize>>, upto: int, n: int) -> bool {
    forall|a: int, j: int|
        0 <= a < upto && 0 <= j < deps[a]@.len() ==> (#[trigger] deps[a]@[j] as int) < n
}

/// Nodes `a` and `b` are joined by a recorded edge.
pub open spec fn has_rec_edge(deps: Seq<Vec<usize>>, a: int, b: int) -> bool {
    exists|j: int| 0 <= j < deps[a]@.len() && #[trigger] deps[a]@[j] as int == b
}

/// Every recorded edge is a dependency edge.
pub open spec fn edges_sound(ds: Seq<DeclModel>, deps: Seq<Vec<usize>>, upto: int) -> bool {
    forall|a: int, j: int|
        0 <= a < upto && 0 <= j < deps[a]@.len() ==> dep_edge(
            ds,
            a,
            #[trigger] deps[a]@[j] as int,
        )
}

/// Every dependency edge is recorded.
pub open spec fn edges_complete(ds: Seq<DeclModel>, deps: Seq<Vec<usize>>, upto: int) -> bool {
    forall|a: int, k: int|
        0 <= a < upto && 0 <= k < ds.len() && #[trigger] dep_edge(ds, a, k) ==> exists|j: int|
            0 <= j < deps[a]@.len() && #[trigger] deps[a]@[j] as int == k
}

/// The first `upto` explicit dependencies of node `i` have a matching entry
/// in `row`.
pub open spec fn row_covers_explicit(
    ds: Seq<DeclModel>,
    i: int,
    row: Seq<usize>,
    upto: int,
) -> bool {
    forall|x: int|
        0 <= x < upto ==> exists|j: int|
            0 <= j < row.len() && ds[row[j] as int].id == #[trigger] ds[i].depends_on[x]
}

/// Every implicit reference of node `i` to one of the first `upto` nodes has
/// a matching entry in `row`.
pub open spec fn row_covers_refs(ds: Seq<DeclModel>, i: int, row: Seq<usize>, upto: int) -> bool {
    forall|kk: int|
        0 <= kk < upto && crate::decl::references(ds[i], #[trigger] ds[kk].id) ==> exists|j: int|
            0 <= j < row.len() && #[trigger] row[j] as int == kk
}

/// The first `upto` explicit dependencies of node `i` name declared nodes.
pub open spec fn row_resolved(ds: Seq<DeclModel>, i: int, upto: int) -> bool {
    forall|x: int|
        0 <= x < upto ==> exists|j: int| 0 <= j < ds.len() && ds[j].id == #[trigger] ds[i].depends_on[x]
}

/// Byte-order comparison of ids, from position `i` on.
pub open spec fn id_le_from(a: Seq<char>, b: Seq<char>, i: int) -> bool
    decreases a.len() - i,
{
    if i < 0 || i >= a.len() {
        true
    } else if i >= b.len() {
        false
    } else if (a[i] as u32) < (b[i] as u32) {
        true
    } else if (a[i] as u32) > (b[i] as u32) {
        false
    } else {
        id_le_from(a, b, i + 1)
    }
}

/// `a` comes no later than `b` in id order.
pub open spec fn id_le(a: Seq<char>, b: Seq<char>) -> bool {
    id_le_from(a, b, 0)
}

proof fn lemma_id_le_refl(a: Seq<char>, i: int)
    ensures
        id_le_from(a, a, i),
    decreases a.len() - i,
{
    if 0 <= i && i < a.len() {
        lemma_id_le_refl(a, i + 1);
    }
}

proof fn lemma_id_le_total(a: Seq<char>, b: Seq<char>, i: int)
    ensures
        id_le_from(a, b, i) || id_le_from(b, a, i),
    decreases a.len() - i,
{
    if 0 <= i && i < a.len() && i < b.len() && (a[i] as u32) == (b[i] as u32) {
        lemma_id_le_total(a, b, i + 1);
    }
}

proof fn lemma_id_le_trans(a: Seq<char>, b: Seq<char>, c: Seq<char>, i: int)
    requires
        id_le_from(a, b, i),
        id_le_from(b, c, i),
    ensures
        id_le_from(a, c, i),
    decreases a.len() - i,
{
    if 0 <= i && i < a.len() && i < b.len() && i < c.len() && (a[i] as u32) == (b[i] as u32) && (b[i] as u32) == (c[i] as u32) {
        lemma_id_le_trans(a, b, c, i + 1);
    }
}

/// All recorded dependencies of `k` are placed.
pub open spec fn deps_placed(deps: Seq<Vec<usize>>, placed: Seq<bool>, k: int) -> bool {
    forall|j: int| 0 <= j < deps[k]@.len() ==> placed[#[trigger] deps[k]@[j] as int]
}

/// Among the nodes that could have been placed at each position, the one
/// with the least id (ties in the dependency order are broken by id).
pub open spec fn order_id_minimal(
    ds: Seq<DeclModel>,
    deps: Seq<Vec<usize>>,
    order: Seq<usize>,
    pos: Seq<usize>,
) -> bool {
    forall|p: int, k: int|
        #![trigger order[p], ds[k].id]
        0 <= p < order.len() && 0 <= k < ds.len() && (pos[k] as int) >= p && (forall|j: int|
            0 <= j < deps[k]@.len() ==> (pos[#[trigger] deps[k]@[j] as int] as int) < p) ==> id_le(
            ds[order[p] as int].id,
            ds[k].id,
        )
}

/// The same, while placement is still under way.
pub open spec fn tie_order_holds(
    ds: Seq<DeclModel>,
    deps: Seq<Vec<usize>>,
    placed: Seq<bool>,
    order: Seq<usize>,
    pos: Seq<usize>,
    n: int,
) -> bool {
    forall|p: int, k: int|
        #![trigger order[p], ds[k].id]
        0 <= p < order.len() && 0 <= k < n && (!placed[k] || (pos[k] as int) >= p) && (forall|
            j: int,
        |
            0 <= j < deps[k]@.len() ==> placed[#[trigger] deps[k]@[j] as int] && (pos[deps[k]@[j] as int] as int)
                < p) ==> id_le(ds[order[p] as int].id, ds[k].id)
}

/// Compare two ids.
fn str_le(a: &String, b: &String) -> (r: bool)
    ensures
        r == id_le(a@, b@),
{
    let la = a.as_str().unicode_len();
    let lb = b.as_str().unicode_len();
    let mut i: usize = 0;
    while i < la && i < lb
        invariant
            la == a@.len(),
            lb == b@.len(),
            0 <= i <= la,
            i <= lb,
            id_le(a@, b@) == id_le_from(a@, b@, i as int),
        decreases la - i,
    {
        let ca = a.as_str().get_char(i);
        let cb = b.as_str().get_char(i);
        if (ca as u32) < (cb as u32) {
            return true;
        }
        if (ca as u32) > (cb as u32) {
            return false;
        }
        i = i + 1;
    }
    i >= la
}

/// The dependency graph of a declaration list.
#[derive(Debug)]
pub struct Graph {
    /// The declarations, one node each, in declaration order.
    pub nodes: Vec<Decl>,
    /// `deps[i]` holds the nodes that node `i` depends on.
    pub deps: Vec<Vec<usize>>,
    /// A topological order: `order[p]` is the node at position `p`.
    pub order: Vec<usize>,
    /// The inverse of `order`: `pos[k]` is the position of node `k`.
    pub pos: Vec<usize>,
}

impl Graph {
    /// The node models.
    pub open spec fn models(&self) -> Seq<DeclModel> {
        decl_models(self.nodes@)
    }

    /// The number of nodes.
    pub open spec fn n(&self) -> int {
        self.nodes@.len() as int
    }

    /// Node `i` has a recorded edge to node `k`.
    pub open spec fn has_edge(&self, i: int, k: int) -> bool {
        exists|j: int| 0 <= j < self.deps@[i]@.len() && #[trigger] self.deps@[i]@[j] as int == k
    }

    /// The recorded edges are exactly the dependency edges.
    pub open spec fn edges_wf(&self) -> bool {
        &&& self.deps@.len() == self.n()
        &&& forall|i: int, j: int|
            0 <= i < self.n() && 0 <= j < self.deps@[i]@.len() ==> (#[trigger] self.deps@[i]@[j]
                as int) < self.n()
        &&& forall|i: int, j: int|
            0 <= i < self.n() && 0 <= j < self.deps@[i]@.len() ==> dep_edge(
                self.models(),
                i,
                #[trigger] self.deps@[i]@[j] as int,
            )
        &&& forall|i: int, k: int|
            0 <= i < self.n() && 0 <= k < self.n() && #[trigger] dep_edge(self.models(), i, k)
                ==> self.has_edge(i, k)
    }

    /// `order` and `pos` are inverse permutations and respect the edges.
    pub open spec fn order_wf(&self) -> bool {
        &&& self.order@.len() == self.n()
        &&& self.pos@.len() == self.n()
        &&& forall|p: int|
            0 <= p < self.n() ==> (#[trigger] self.order@[p] as int) < self.n() && self.pos@[self.order@[p] as int] as int == p
        &&& forall|k: int|
            0 <= k < self.n() ==> (#[trigger] self.pos@[k] as int) < self.n() && self.order@[self.pos@[k] as int] as int == k
        &&& forall|i: int, j: int|
            0 <= i < self.n() && 0 <= j < self.deps@[i]@.len() ==> (self.pos@[#[trigger] self.deps@[i]@[j] as int] as int) < self.pos@[i] as int
    }

    /// The graph is well formed.
    pub open spec fn wf(&self) -> bool {
        &&& ids_unique(self.models())
        &&& forall|i: int| 0 <= i < self.n() ==> paths_unique(#[trigger] self.models()[i].props)
        &&& self.edges_wf()
        &&& self.order_wf()
    }
}

/// Positions strictly descend along a cycle, which is impossible in a
/// well-ordered graph.
proof fn lemma_cycle_descent(g: &Graph, c: Seq<int>, j: int)
    requires
        g.edges_wf(),
        g.order_wf(),
        is_cycle(g.models(), c),
        0 <= j < c.len(),
    ensures
        g.pos@[c[j]] as int <= g.pos@[c[0]] as int - j,
    decreases j,
{
    if j > 0 {
        lemma_cycle_descent(g, c, j - 1);
        assert(dep_edge(g.models(), c[j - 1], c[j]));
        assert(g.has_edge(c[j - 1], c[j]));
        let e = choose|e: int|
            0 <= e < g.deps@[c[j - 1]]@.len() && #[trigger] g.deps@[c[j - 1]]@[e] as int == c[j];
        assert((g.pos@[g.deps@[c[j - 1]]@[e] as int] as int) < g.pos@[c[j - 1]] as int);
    }
}

/// A well-formed graph admits no dependency cycle.
pub proof fn lemma_wf_graph_acyclic(g: &Graph)
    requires
        g.wf(),
    ensures
        !has_cycle(g.models()),
{
    if has_cycle(g.models()) {
        let c = choose|c: Seq<int>| is_cycle(g.models(), c);
        let last = c.len() - 1;
        lemma_cycle_descent(g, c, last);
        assert(dep_edge(g.models(), c[last], c[0]));
        assert(g.has_edge(c[last], c[0]));
        let e = choose|e: int|
            0 <= e < g.deps@[c[last]]@.len() && #[trigger] g.deps@[c[last]]@[e] as int == c[0];
        assert((g.pos@[c[0]] as int) < g.pos@[c[last]] as int);
    }
}

/// A cycle of recorded edges is a dependency cycle when recorded edges are
/// sound.
proof fn lemma_rec_cycle_is_cycle(ds: Seq<DeclModel>, deps: Seq<Vec<usize>>, c: Seq<int>)
    requires
        deps.len() == ds.len(),
        edges_sound(ds, deps, ds.len() as int),
        is_rec_cycle(deps, c, ds.len() as int),
    ensures
        is_cycle(ds, c),
{
    assert forall|j: int| 0 <= j < c.len() - 1 implies dep_edge(ds, #[trigger] c[j], c[j + 1]) by {
        let e = choose|e: int| 0 <= e < deps[c[j]]@.len() && #[trigger] deps[c[j]]@[e] as int == c[j + 1];
    }
    assert(dep_edge(ds, c[c.len() - 1], c[0])) by {
        let e = choose|e: int|
            0 <= e < deps[c[c.len() - 1]]@.len() && #[trigger] deps[c[c.len() - 1]]@[e] as int == c[0];
    }
}

/// Find a pair of declarations sharing an id.
fn find_duplicate(decls: &Vec<Decl>) -> (r: Option<String>)
    ensures
        match r {
            Some(id) => exists|i: int, j: int|
                0 <= i < j < decls@.len() && decl_models(decls@)[i].id == decl_models(decls@)[j].id
                    && decl_models(decls@)[i].id == id@,
            None => ids_unique(decl_models(decls@)),
        },
{
    let ghost ds = decl_models(decls@);
    let n = decls.len();
    let mut i: usize = 0;
    while i < n
        invariant
            n == decls@.len(),
            ds == decl_models(decls@),
            0 <= i <= n,
            forall|a: int, b: int| 0 <= a < b < decls@.len() && a < i ==> ds[a].id != ds[b].id,
        decreases n - i,
    {
        let mut j: usize = i + 1;
        while j < n
            invariant
                n == decls@.len(),
                ds == decl_models(decls@),
                0 <= i < j <= n,
                forall|b: int| i < b < j ==> ds[i as int].id != ds[b].id,
            decreases n - j,
        {
            proof {
                assert(ds[i as int] == decls@[i as int]@);
                assert(ds[j as int] == decls@[j as int]@);
            }
            let same = { let a = &decls[i]; let b = &decls[j]; a.id == b.id };
            if same {
                return Some(decls[i].id.clone());
            }
            j = j + 1;
        }
        i = i + 1;
    }
    None
}

/// Find the declaration with the given id.
pub(crate) fn find_index(decls: &Vec<Decl>, id: &String) -> (r: Option<usize>)
    ensures
        match r {
            Some(k) => k < decls@.len() && decl_models(decls@)[k as int].id == id@,
            None => forall|j: int|
                0 <= j < decls@.len() ==> decl_models(decls@)[j].id != id@,
        },
{
    let ghost ds = decl_models(decls@);
    let n = decls.len();
    let mut j: usize = 0;
    while j < n
        invariant
            n == decls@.len(),
            ds == decl_models(decls@),
            0 <= j <= n,
            forall|b: int| 0 <= b < j ==> ds[b].id != id@,
        decreases n - j,
    {
        proof {
            assert(ds[j as int] == decls@[j as int]@);
        }
        let hit = { let d = &decls[j]; d.id == *id };
        if hit {
            return Some(j);
        }
        j = j + 1;
    }
    None
}

/// Resolve the dependency edges of every declaration.
fn build_edges(decls: &Vec<Decl>) -> (r: Result<Vec<Vec<usize>>, GraphError>)
    requires
        ids_unique(decl_models(decls@)),
    ensures
        match r {
            Ok(deps) => {
                let ds = decl_models(decls@);
                &&& refs_resolve(ds)
                &&& deps@.len() == ds.len()
                &&& forall|i: int, j: int|
                    0 <= i < ds.len() && 0 <= j < deps@[i]@.len() ==> (#[trigger] deps@[i]@[j]
                        as int) < ds.len()
                &&& forall|i: int, j: int|
                    0 <= i < ds.len() && 0 <= j < deps@[i]@.len() ==> dep_edge(
                        ds,
                        i,
                        #[trigger] deps@[i]@[j] as int,
                    )
                &&& forall|i: int, k: int|
                    0 <= i < ds.len() && 0 <= k < ds.len() && #[trigger] dep_edge(ds, i, k)
                        ==> exists|j: int|
                        0 <= j < deps@[i]@.len() && #[trigger] deps@[i]@[j] as int == k
            },
            Err(e) => {
                let ds = decl_models(decls@);
                &&& !refs_resolve(ds)
                &&& e matches GraphError::UnknownReference { from, to } && exists|i: int, k: int|
                    0 <= i < ds.len() && 0 <= k < ds[i].depends_on.len() && ds[i].id == from@ && (
                    #[trigger] ds[i].depends_on[k]) == to@ && forall|j: int|
                        0 <= j < ds.len() ==> ds[j].id != to@
            },
        },
{
    let ghost ds = decl_models(decls@);
    let n = decls.len();
    let mut deps: Vec<Vec<usize>> = Vec::new();
    let mut i: usize = 0;
    while i < n
        invariant
            n == decls@.len(),
            ds == decl_models(decls@),
            ids_unique(ds),
            0 <= i <= n,
            deps@.len() == i,
            edges_in_range(deps@, i as int, n as int),
            edges_sound(ds, deps@, i as int),
            edges_complete(ds, deps@, i as int),
            forall|a: int| 0 <= a < i ==> row_resolved(ds, a, ds[a].depends_on.len() as int),
        decreases n - i,
    {
        proof {
            assert(ds[i as int] == decls@[i as int]@);
        }
        let mut row: Vec<usize> = Vec::new();
        let nd = decls[i].depends_on.len();
        proof {
            assert(ds[i as int].depends_on.len() == nd as int);
        }
        let mut k: usize = 0;
        while k < nd
            invariant
                n == decls@.len(),
                ds == decl_models(decls@),
                ids_unique(ds),
                0 <= i < n,
                ds[i as int] == decls@[i as int]@,
                nd == decls@[i as int].depends_on@.len(),
                ds[i as int].depends_on.len() == nd as int,
                0 <= k <= nd,
                forall|j: int| 0 <= j < row@.len() ==> (#[trigger] row@[j] as int) < n,
                forall|j: int|
                    0 <= j < row@.len() ==> dep_edge(ds, i as int, #[trigger] row@[j] as int),
                row_covers_explicit(ds, i as int, row@, k as int),
                row_resolved(ds, i as int, k as int),
            decreases nd - k,
        {
            proof {
                assert(ds[i as int].depends_on[k as int] == decls@[i as int].depends_on@[k as int]@);
            }
            let dep_id = &decls[i].depends_on[k];
            match find_index(decls, dep_id) {
                Some(t) => {
                    let ghost pre = row@;
                    row.push(t);
                    proof {
                        assert(ds[t as int].id == dep_id@);
                        assert(ds[i as int].depends_on.contains(ds[t as int].id));
                        assert(row@[pre.len() as int] == t);
                        assert forall|x: int| 0 <= x < k + 1 implies exists|j: int|
                            0 <= j < row@.len() && ds[row@[j] as int].id == #[trigger] ds[
                            i as int].depends_on[x] by {
                            if x < k {
                                let j = choose|j: int|
                                    0 <= j < pre.len() && ds[pre[j] as int].id == ds[i as int].depends_on[x];
                                assert(row@[j] == pre[j]);
                            } else {
                                assert(ds[row@[pre.len() as int] as int].id == ds[i as int].depends_on[x]);
                            }
                        }
                        assert(row_covers_explicit(ds, i as int, row@, k + 1));
                        assert forall|x: int| 0 <= x < k + 1 implies exists|j: int|
                            0 <= j < ds.len() && ds[j].id == #[trigger] ds[i as int].depends_on[x]
                            by {
                            if x < k {
                                assert(row_resolved(ds, i as int, k as int));
                            } else {
                                assert(ds[t as int].id == ds[i as int].depends_on[x]);
                            }
                        }
                        assert(row_resolved(ds, i as int, k + 1));
                    }
                },
                None => {
                    proof {
                        assert(forall|j: int|
                            0 <= j < ds.len() ==> ds[j].id != ds[i as int].depends_on[k as int]);
                        assert(!refs_resolve(ds));
                    }
                    return Err(GraphError::UnknownReference {
                        from: decls[i].id.clone(),
                        to: decls[i].depends_on[k].clone(),
                    });
                },
            }
            k = k + 1;
        }
        // Implicit edges: property values of the form `${id}`.
        let mut t: usize = 0;
        proof {
            assert(row_covers_explicit(ds, i as int, row@, ds[i as int].depends_on.len() as int));
        }
        while t < n
            invariant
                n == decls@.len(),
                ds == decl_models(decls@),
                ids_unique(ds),
                0 <= i < n,
                ds[i as int] == decls@[i as int]@,
                0 <= t <= n,
                forall|j: int| 0 <= j < row@.len() ==> (#[trigger] row@[j] as int) < n,
                forall|j: int|
                    0 <= j < row@.len() ==> dep_edge(ds, i as int, #[trigger] row@[j] as int),
                row_covers_explicit(ds, i as int, row@, ds[i as int].depends_on.len() as int),
                row_resolved(ds, i as int, ds[i as int].depends_on.len() as int),
                row_covers_refs(ds, i as int, row@, t as int),
            decreases n - t,
        {
            proof {
                assert(ds[t as int] == decls@[t as int]@);
            }
            let refs = { let a = &decls[i]; let b = &decls[t]; node_references(a, &b.id) };
            if refs {
                let ghost pre = row@;
                row.push(t);
                proof {
                    assert(row@[pre.len() as int] == t);
                    assert forall|x: int|
                        0 <= x < ds[i as int].depends_on.len() implies exists|j: int|
                        0 <= j < row@.len() && ds[row@[j] as int].id == #[trigger] ds[
                        i as int].depends_on[x] by {
                        let j = choose|j: int|
                            0 <= j < pre.len() && ds[pre[j] as int].id == ds[i as int].depends_on[x];
                        assert(row@[j] == pre[j]);
                    }
                    assert(row_covers_explicit(ds, i as int, row@, ds[i as int].depends_on.len() as int));
                    assert forall|kk: int|
                        0 <= kk < t + 1 && crate::decl::references(ds[i as int], #[trigger] ds[kk].id)
                            implies exists|j: int| 0 <= j < row@.len() && #[trigger] row@[j]
                        as int == kk by {
                        if kk < t {
                            let j = choose|j: int| 0 <= j < pre.len() && pre[j] as int == kk;
                            assert(row@[j] == pre[j]);
                        } else {
                            assert(row@[pre.len() as int] as int == kk);
                        }
                    }
                    assert(row_covers_refs(ds, i as int, row@, t + 1));
                }
            }
            t = t + 1;
        }
        let ghost row_snap = row@;
        let ghost deps_snap = deps@;
        deps.push(row);
        proof {
            assert(deps@[i as int]@ == row_snap);
            assert forall|k2: int|
                0 <= k2 < n && #[trigger] dep_edge(ds, i as int, k2) implies exists|j: int|
                0 <= j < deps@[i as int]@.len() && #[trigger] deps@[i as int]@[j] as int == k2 by {
                if ds[i as int].depends_on.contains(ds[k2].id) {
                    let x = choose|x: int|
                        0 <= x < ds[i as int].depends_on.len() && ds[i as int].depends_on[x] == ds[k2].id;
                    assert(row_covers_explicit(ds, i as int, row_snap, ds[i as int].depends_on.len() as int));
                    let j = choose|j: int|
                        0 <= j < row_snap.len() && ds[row_snap[j] as int].id == ds[i as int].depends_on[x];
                    if row_snap[j] as int != k2 {
                        if (row_snap[j] as int) < k2 {
                            assert(ds[row_snap[j] as int].id != ds[k2].id);
                        } else {
                            assert(ds[k2].id != ds[row_snap[j] as int].id);
                        }
                    }
                    assert(deps@[i as int]@[j] as int == k2);
                } else {
                    assert(crate::decl::references(ds[i as int], ds[k2].id));
                    let j = choose|j: int| 0 <= j < row_snap.len() && row_snap[j] as int == k2;
                    assert(deps@[i as int]@[j] as int == k2);
                }
            }
            assert forall|a: int, k2: int|
                0 <= a < i + 1 && 0 <= k2 < n && #[trigger] dep_edge(ds, a, k2) implies exists|
                j: int|
                0 <= j < deps@[a]@.len() && #[trigger] deps@[a]@[j] as int == k2 by {
                if a < i {
                    assert(deps@[a] == deps_snap[a]);
                    assert(edges_complete(ds, deps_snap, i as int));
                    let j = choose|j: int|
                        0 <= j < deps_snap[a]@.len() && #[trigger] deps_snap[a]@[j] as int == k2;
                    assert(deps@[a]@[j] as int == k2);
                }
            }
            assert(edges_complete(ds, deps@, i + 1));
            assert(edges_in_range(deps@, i + 1, n as int));
            assert(edges_sound(ds, deps@, i + 1));
        }
        i = i + 1;
    }
    proof {
        assert forall|a: int, k: int|
            0 <= a < ds.len() && 0 <= k < ds[a].depends_on.len() implies exists|j: int|
            0 <= j < ds.len() && ds[j].id == #[trigger] ds[a].depends_on[k] by {
            assert(row_resolved(ds, a, ds[a].depends_on.len() as int));
        }
        assert(refs_resolve(ds));
    }
    Ok(deps)
}

} // verus!

verus! {

/// Find an unplaced dependency of an unplaced node.
fn first_unplaced_dep(deps: &Vec<Vec<usize>>, placed: &Vec<bool>, cur: usize, n: usize) -> (r:
    usize)
    requires
        deps@.len() == n as int,
        placed@.len() == n as int,
        cur < n,
        edges_in_range(deps@, n as int, n as int),
        !placed@[cur as int],
        forall|a: int|
            0 <= a < n && !placed@[a] ==> exists|j: int|
                0 <= j < deps@[a]@.len() && !placed@[#[trigger] deps@[a]@[j] as int],
    ensures
        r < n,
        !placed@[r as int],
        exists|j: int| 0 <= j < deps@[cur as int]@.len() && #[trigger] deps@[cur as int]@[j] == r,
{
    let m = deps[cur].len();
    let mut j: usize = 0;
    while j < m
        invariant
            deps@.len() == n as int,
            placed@.len() == n as int,
            cur < n,
            m == deps@[cur as int]@.len(),
            0 <= j <= m,
            edges_in_range(deps@, n as int, n as int),
            forall|jj: int| 0 <= jj < j ==> placed@[#[trigger] deps@[cur as int]@[jj] as int],
        decreases m - j,
    {
        let d = deps[cur][j];
        if !placed[d] {
            return d;
        }
        j = j + 1;
    }
    proof {
        assert(!placed@[cur as int]);
        let jj = choose|jj: int|
            0 <= jj < deps@[cur as int]@.len() && !placed@[#[trigger] deps@[cur as int]@[jj] as int];
        assert(false);
    }
    vstd::pervasive::unreached()
}

/// Walk unplaced dependencies until a node repeats; the repeated segment is
/// a dependency cycle.
#[verifier::rlimit(100)]
#[verifier::spinoff_prover]
fn extract_cycle(decls: &Vec<Decl>, deps: &Vec<Vec<usize>>, placed: &Vec<bool>, start: usize) -> (r:
    Vec<String>)
    requires
        deps@.len() == decls@.len(),
        placed@.len() == decls@.len(),
        edges_in_range(deps@, decls@.len() as int, decls@.len() as int),
        (start as int) < decls@.len(),
        !placed@[start as int],
        forall|a: int|
            0 <= a < decls@.len() && !placed@[a] ==> exists|j: int|
                0 <= j < deps@[a]@.len() && !placed@[#[trigger] deps@[a]@[j] as int],
    ensures
        exists|c: Seq<int>|
            is_rec_cycle(deps@, c, decls@.len() as int) && r@.map_values(|s: String| s@)
                == cycle_ids(decl_models(decls@), c),
{
    let ghost ds = decl_models(decls@);
    let n = decls.len();
    let mut path: Vec<usize> = Vec::new();
    path.push(start);
    let mut in_path: Vec<bool> = Vec::new();
    let mut z: usize = 0;
    while z < n
        invariant
            0 <= z <= n,
            in_path@.len() == z,
            forall|k: int| 0 <= k < z ==> !(#[trigger] in_path@[k]),
        decreases n - z,
    {
        in_path.push(false);
        z = z + 1;
    }
    in_path.set(start, true);
    let ghost mut path_set: Set<int> = Set::empty().insert(start as int);
    proof {
        assert(path@.len() == 1 && path@[0] == start);
        assert forall|k: int|
            0 <= k < n implies ((#[trigger] in_path@[k]) <==> exists|p: int|
            0 <= p < path@.len() && #[trigger] path@[p] as int == k) by {
            if k == start as int {
                assert(in_path@[k]);
                assert(path@[0] as int == k);
            } else {
                assert(!in_path@[k]);
                if exists|p: int| 0 <= p < path@.len() && #[trigger] path@[p] as int == k {
                    let p = choose|p: int| 0 <= p < path@.len() && #[trigger] path@[p] as int == k;
                    assert(p == 0);
                    assert(false);
                }
            }
        }
        assert(path_set.len() == 1);
        assert(forall|k: int| path_set.contains(k) <==> (0 <= k < n && in_path@[k]));
    }
    loop
        invariant
            n == decls@.len(),
            ds == decl_models(decls@),
            deps@.len() == n as int,
            placed@.len() == n as int,
            in_path@.len() == n as int,
            edges_in_range(deps@, n as int, n as int),
            forall|a: int|
                0 <= a < n && !placed@[a] ==> exists|j: int|
                    0 <= j < deps@[a]@.len() && !placed@[#[trigger] deps@[a]@[j] as int],
            path@.len() >= 1,
            forall|p: int|
                0 <= p < path@.len() ==> (#[trigger] path@[p] as int) < n && !placed@[path@[p] as int],
            forall|p: int|
                0 <= p < path@.len() - 1 ==> has_rec_edge(deps@, #[trigger] path@[p] as int, path@[p + 1] as int),
            forall|k: int|
                0 <= k < n ==> ((#[trigger] in_path@[k]) <==> exists|p: int|
                    0 <= p < path@.len() && #[trigger] path@[p] as int == k),
            path_set.finite(),
            forall|k: int| path_set.contains(k) <==> (0 <= k < n && in_path@[k]),
            path_set.len() == path@.len(),
        decreases n - path@.len(),
    {
        let cur = path[path.len() - 1];
        let d = first_unplaced_dep(deps, placed, cur, n);
        proof {
            assert(has_rec_edge(deps@, cur as int, d as int));
        }
        if in_path[d] {
            let idx = index_in_path(&path, d);
            return cycle_from_path(decls, deps, &path, idx, d);
        }
        // d is new: extend the path.
        let ghost pre_path = path@;
        let ghost pre_set = path_set;
        let ghost pre_in = in_path@;
        path.push(d);
        in_path.set(d, true);
        proof {
            assert(!pre_set.contains(d as int));
            path_set = pre_set.insert(d as int);
            lemma_path_extended(pre_path, path@, pre_in, in_path@, pre_set, path_set, d, n as int);
        }
    }
}

/// Pushing a fresh node onto the walk keeps the membership bookkeeping.
proof fn lemma_path_extended(
    pre_path: Seq<usize>,
    path: Seq<usize>,
    pre_in: Seq<bool>,
    in_path: Seq<bool>,
    pre_set: Set<int>,
    path_set: Set<int>,
    d: usize,
    n: int,
)
    requires
        path == pre_path.push(d),
        in_path == pre_in.update(d as int, true),
        pre_in.len() == n,
        0 <= (d as int) < n,
        !pre_in[d as int],
        forall|k: int|
            0 <= k < n ==> ((#[trigger] pre_in[k]) <==> exists|p: int|
                0 <= p < pre_path.len() && #[trigger] pre_path[p] as int == k),
        pre_set.finite(),
        forall|k: int| pre_set.contains(k) <==> (0 <= k < n && pre_in[k]),
        pre_set.len() == pre_path.len(),
        path_set == pre_set.insert(d as int),
    ensures
        forall|k: int|
            0 <= k < n ==> ((#[trigger] in_path[k]) <==> exists|p: int|
                0 <= p < path.len() && #[trigger] path[p] as int == k),
        path_set.finite(),
        forall|k: int| path_set.contains(k) <==> (0 <= k < n && in_path[k]),
        path_set.len() == path.len(),
        path.len() <= n,
{
    assert(!pre_set.contains(d as int));
    assert(path_set.len() == pre_set.len() + 1);
    assert forall|k: int|
        0 <= k < n implies ((#[trigger] in_path[k]) <==> exists|p: int|
        0 <= p < path.len() && #[trigger] path[p] as int == k) by {
        if in_path[k] {
            if k == d as int {
                assert(path[path.len() - 1] as int == k);
            } else {
                let p = choose|p: int| 0 <= p < pre_path.len() && #[trigger] pre_path[p] as int == k;
                assert(path[p] as int == k);
            }
        } else {
            if exists|p: int| 0 <= p < path.len() && #[trigger] path[p] as int == k {
                let p = choose|p: int| 0 <= p < path.len() && #[trigger] path[p] as int == k;
                if p < pre_path.len() {
                    assert(pre_path[p] as int == k);
                }
                assert(false);
            }
        }
    }
    assert(path_set <= set_int_range(0, n)) by {
        assert forall|k: int| path_set.contains(k) implies set_int_range(0, n).contains(k) by {}
    }
    lemma_int_range(0, n);
    lemma_len_subset(path_set, set_int_range(0, n));
}

} // verus!

verus! {

/// The position of a node known to be on the path.
fn index_in_path(path: &Vec<usize>, d: usize) -> (r: usize)
    requires
        exists|p: int| 0 <= p < path@.len() && #[trigger] path@[p] == d,
    ensures
        (r as int) < path@.len(),
        path@[r as int] == d,
{
    let plen = path.len();
    let mut q: usize = 0;
    while q < plen
        invariant
            plen == path@.len(),
            0 <= q <= plen,
            exists|p: int| 0 <= p < path@.len() && #[trigger] path@[p] == d,
            forall|p: int| 0 <= p < q ==> (#[trigger] path@[p]) != d,
        decreases plen - q,
    {
        if path[q] == d {
            return q;
        }
        q = q + 1;
    }
    proof {
        let p = choose|p: int| 0 <= p < path@.len() && #[trigger] path@[p] == d;
        assert(false);
    }
    vstd::pervasive::unreached()
}

/// Cut the repeated segment out of a dependency walk: it is a cycle.
#[verifier::rlimit(60)]
fn cycle_from_path(decls: &Vec<Decl>, deps: &Vec<Vec<usize>>, path: &Vec<usize>, idx: usize, d: usize) -> (r: Vec<String>)
    requires
        deps@.len() == decls@.len(),
        path@.len() >= 1,
        (idx as int) < path@.len(),
        forall|p: int|
            0 <= p < path@.len() ==> (#[trigger] path@[p] as int) < decls@.len(),
        forall|p: int|
            0 <= p < path@.len() - 1 ==> has_rec_edge(
                deps@,
                #[trigger] path@[p] as int,
                path@[p + 1] as int,
            ),
        path@[idx as int] == d,
        has_rec_edge(deps@, path@[path@.len() - 1] as int, d as int),
    ensures
        exists|c: Seq<int>|
            is_rec_cycle(deps@, c, decls@.len() as int) && r@.map_values(|s: String| s@)
                == cycle_ids(decl_models(decls@), c),
{
    let ghost ds = decl_models(decls@);
    let plen = path.len();
    let mut ids: Vec<String> = Vec::new();
    let mut p: usize = idx;
    while p < plen
        invariant
            ds == decl_models(decls@),
            plen == path@.len(),
            forall|x: int|
                0 <= x < path@.len() ==> (#[trigger] path@[x] as int) < decls@.len(),
            idx <= p <= plen,
            ids@.len() == p - idx,
            forall|x: int|
                0 <= x < ids@.len() ==> (#[trigger] ids@[x]@) == ds[path@[idx + x] as int].id,
        decreases plen - p,
    {
        proof {
            assert(ds[path@[p as int] as int] == decls@[path@[p as int] as int]@);
        }
        ids.push(decls[path[p]].id.clone());
        p = p + 1;
    }
    proof {
        let c = Seq::new((path@.len() - idx as int) as nat, |x: int| path@[idx + x] as int);
        assert(c.len() >= 1);
        assert(forall|x: int| 0 <= x < c.len() ==> 0 <= #[trigger] c[x] < ds.len());
        assert forall|x: int| 0 <= x < c.len() - 1 implies has_rec_edge(
            deps@,
            #[trigger] c[x],
            c[x + 1],
        ) by {
            assert(has_rec_edge(deps@, path@[idx + x] as int, path@[idx + x + 1] as int));
        }
        assert(c[c.len() - 1] == path@[path@.len() - 1] as int);
        assert(c[0] == path@[idx as int] as int);
        assert(has_rec_edge(deps@, c[c.len() - 1], c[0]));
        assert(is_rec_cycle(deps@, c, decls@.len() as int));
        assert(ids@.map_values(|s: String| s@) =~= cycle_ids(ds, c));
    }
    ids
}

} // verus!

verus! {

/// Are all recorded dependencies of `i` placed?
fn deps_all_placed(deps: &Vec<Vec<usize>>, placed: &Vec<bool>, i: usize, n: usize) -> (r: bool)
    requires
        deps@.len() == n as int,
        placed@.len() == n as int,
        i < n,
        edges_in_range(deps@, n as int, n as int),
    ensures
        r == (forall|j: int|
            0 <= j < deps@[i as int]@.len() ==> placed@[#[trigger] deps@[i as int]@[j] as int]),
{
    let m = deps[i].len();
    let mut j: usize = 0;
    while j < m
        invariant
            deps@.len() == n as int,
            placed@.len() == n as int,
            i < n,
            m == deps@[i as int]@.len(),
            0 <= j <= m,
            edges_in_range(deps@, n as int, n as int),
            forall|jj: int| 0 <= jj < j ==> placed@[#[trigger] deps@[i as int]@[jj] as int],
        decreases m - j,
    {
        let d = deps[i][j];
        if !placed[d] {
            return false;
        }
        j = j + 1;
    }
    true
}

/// Compute a topological order of the recorded edges, or report a cycle.
///
/// Among the nodes whose dependencies are all placed, the first in
/// declaration order is placed next, so the order is deterministic.
#[verifier::rlimit(100)]
#[verifier::spinoff_prover]
fn topo_sort(decls: &Vec<Decl>, deps: &Vec<Vec<usize>>) -> (r: Result<
    (Vec<usize>, Vec<usize>),
    Vec<String>,
>)
    requires
        deps@.len() == decls@.len(),
        edges_in_range(deps@, decls@.len() as int, decls@.len() as int),
        edges_sound(decl_models(decls@), deps@, decls@.len() as int),
    ensures
        match r {
            Ok(op) => {
                let n = decls@.len() as int;
                &&& op.0@.len() == n
                &&& op.1@.len() == n
                &&& forall|p: int|
                    0 <= p < n ==> (#[trigger] op.0@[p] as int) < n && op.1@[op.0@[p] as int] as int == p
                &&& forall|k: int|
                    0 <= k < n ==> (#[trigger] op.1@[k] as int) < n && op.0@[op.1@[k] as int] as int == k
                &&& forall|i: int, j: int|
                    0 <= i < n && 0 <= j < deps@[i]@.len() ==> (op.1@[#[trigger] deps@[i]@[j] as int] as int) < op.1@[i] as int
                &&& order_id_minimal(decl_models(decls@), deps@, op.0@, op.1@)
            },
            Err(ids) => exists|c: Seq<int>|
                is_cycle(decl_models(decls@), c) && ids@.map_values(|s: String| s@) == cycle_ids(
                    decl_models(decls@),
                    c,
                ),
        },
{
    let ghost ds = decl_models(decls@);
    let n = decls.len();
    let mut placed: Vec<bool> = Vec::new();
    let mut pos: Vec<usize> = Vec::new();
    let mut z: usize = 0;
    while z < n
        invariant
            0 <= z <= n,
            placed@.len() == z,
            pos@.len() == z,
            forall|k: int| 0 <= k < z ==> !(#[trigger] placed@[k]),
        decreases n - z,
    {
        placed.push(false);
        pos.push(0);
        z = z + 1;
    }
    let mut order: Vec<usize> = Vec::new();
    let ghost mut placed_set: Set<int> = Set::empty();
    while order.len() < n
        invariant
            n == decls@.len(),
            ds == decl_models(decls@),
            deps@.len() == n as int,
            edges_in_range(deps@, n as int, n as int),
            edges_sound(ds, deps@, n as int),
            placed@.len() == n as int,
            pos@.len() == n as int,
            order@.len() <= n as int,
            placed_set.finite(),
            forall|k: int| placed_set.contains(k) <==> (0 <= k < n && placed@[k]),
            placed_set.len() == order@.len(),
            forall|p: int|
                0 <= p < order@.len() ==> (#[trigger] order@[p] as int) < n && placed@[order@[p] as int] && pos@[order@[p] as int] as int == p,
            forall|k: int|
                0 <= k < n && placed@[k] ==> (#[trigger] pos@[k] as int) < order@.len() && order@[pos@[k] as int] as int == k,
            forall|i: int, j: int|
                0 <= i < n && placed@[i] && 0 <= j < deps@[i]@.len() ==> placed@[#[trigger] deps@[i]@[j] as int] && (pos@[deps@[i]@[j] as int] as int) < pos@[i] as int,
            tie_order_holds(ds, deps@, placed@, order@, pos@, n as int),
        decreases n - order@.len(),
    {
        let mut cand: Option<usize> = None;
        let mut first_unplaced: Option<usize> = None;
        let mut i: usize = 0;
        while i < n
            invariant
                n == decls@.len(),
                deps@.len() == n as int,
                placed@.len() == n as int,
                edges_in_range(deps@, n as int, n as int),
                0 <= i <= n,
                ds == decl_models(decls@),
                match cand {
                    Some(b) => (b as int) < n && !placed@[b as int] && (forall|j: int|
                        0 <= j < deps@[b as int]@.len() ==> placed@[#[trigger] deps@[b as int]@[j] as int])
                        && (forall|a: int|
                        0 <= a < i && !placed@[a] && #[trigger] deps_placed(deps@, placed@, a)
                            ==> id_le(ds[b as int].id, ds[a].id)),
                    None => forall|a: int|
                        0 <= a < i && !placed@[a] ==> exists|j: int|
                            0 <= j < deps@[a]@.len() && !placed@[#[trigger] deps@[a]@[j] as int],
                },
                match first_unplaced {
                    Some(u) => (u as int) < n && !placed@[u as int],
                    None => forall|a: int| 0 <= a < i ==> placed@[a],
                },
            decreases n - i,
        {
            if !placed[i] {
                if first_unplaced.is_none() {
                    first_unplaced = Some(i);
                }
                if deps_all_placed(deps, &placed, i, n) {
                    proof {
                        assert(deps_placed(deps@, placed@, i as int));
                    }
                    match cand {
                        None => {
                            proof {
                                lemma_id_le_refl(ds[i as int].id, 0);
                                assert forall|a: int|
                                    0 <= a < i + 1 && !placed@[a] && #[trigger] deps_placed(
                                    deps@,
                                    placed@,
                                    a,
                                ) implies id_le(ds[i as int].id, ds[a].id) by {
                                    if a < i {
                                        let j = choose|j: int|
                                            0 <= j < deps@[a]@.len() && !placed@[#[trigger] deps@[a]@[j] as int];
                                        assert(false);
                                    }
                                }
                            }
                            cand = Some(i);
                        },
                        Some(b) => {
                            let keep = { let x = &decls[b]; let y = &decls[i]; str_le(&x.id, &y.id) };
                            proof {
                                assert(ds[b as int].id == decls@[b as int]@.id);
                                assert(ds[i as int].id == decls@[i as int]@.id);
                            }
                            if keep {
                                proof {
                                    assert forall|a: int|
                                        0 <= a < i + 1 && !placed@[a] && #[trigger] deps_placed(
                                        deps@,
                                        placed@,
                                        a,
                                    ) implies id_le(ds[b as int].id, ds[a].id) by {
                                        if a == i {
                                            assert(id_le(ds[b as int].id, ds[i as int].id));
                                        }
                                    }
                                }
                            } else {
                                proof {
                                    lemma_id_le_total(ds[b as int].id, ds[i as int].id, 0);
                                    assert(id_le(ds[i as int].id, ds[b as int].id));
                                    lemma_id_le_refl(ds[i as int].id, 0);
                                    assert forall|a: int|
                                        0 <= a < i + 1 && !placed@[a] && #[trigger] deps_placed(
                                        deps@,
                                        placed@,
                                        a,
                                    ) implies id_le(ds[i as int].id, ds[a].id) by {
                                        if a < i {
                                            assert(id_le(ds[b as int].id, ds[a].id));
                                            lemma_id_le_trans(
                                                ds[i as int].id,
                                                ds[b as int].id,
                                                ds[a].id,
                                                0,
                                            );
                                        }
                                    }
                                }
                                cand = Some(i);
                            }
                        },
                    }
                } else {
                    proof {
                        if cand is Some {
                            let b2 = cand->0;
                            assert forall|a: int|
                                0 <= a < i + 1 && !placed@[a] && #[trigger] deps_placed(
                                deps@,
                                placed@,
                                a,
                            ) implies id_le(ds[b2 as int].id, ds[a].id) by {
                                if a == i {
                                    let j = choose|j: int|
                                        0 <= j < deps@[i as int]@.len() && !placed@[#[trigger] deps@[i as int]@[j] as int];
                                    assert(!deps_placed(deps@, placed@, a));
                                }
                            }
                        }
                    }
                }
            }
            i = i + 1;
        }
        match cand {
            Some(b) => {
                let ghost pre_placed = placed@;
                let ghost pre_pos = pos@;
                let ghost pre_order = order@;
                let ghost pre_set = placed_set;
                placed.set(b, true);
                pos.set(b, order.len());
                order.push(b);
                proof {
                    assert(!pre_set.contains(b as int));
                    placed_set = pre_set.insert(b as int);
                    assert(placed_set.len() == pre_set.len() + 1);
                    assert forall|k: int|
                        placed_set.contains(k) <==> (0 <= k < n && placed@[k]) by {}
                    assert forall|p: int|
                        0 <= p < order@.len() implies (#[trigger] order@[p] as int) < n
                        && placed@[order@[p] as int] && pos@[order@[p] as int] as int == p by {
                        if p < pre_order.len() {
                            assert(order@[p] == pre_order[p]);
                            assert(pre_order[p] as int != b as int);
                        } else {
                            assert(order@[p] == b);
                        }
                    }
                    assert forall|k: int|
                        0 <= k < n && placed@[k] implies (#[trigger] pos@[k] as int)
                        < order@.len() && order@[pos@[k] as int] as int == k by {
                        if k != b as int {
                            assert(pre_placed[k]);
                            assert(pos@[k] == pre_pos[k]);
                            assert(order@[pre_pos[k] as int] == pre_order[pre_pos[k] as int]);
                        } else {
                            assert(pos@[k] as int == pre_order.len());
                            assert(order@[pre_order.len() as int] == b);
                        }
                    }
                    assert forall|i2: int, j: int|
                        0 <= i2 < n && placed@[i2] && 0 <= j < deps@[i2]@.len() implies placed@[
                        #[trigger] deps@[i2]@[j] as int] && (pos@[deps@[i2]@[j] as int] as int)
                        < pos@[i2] as int by {
                        let t = deps@[i2]@[j] as int;
                        if i2 == b as int {
                            assert(pre_placed[t]);
                            assert(t != b as int);
                            assert((pre_pos[t] as int) < pre_order.len());
                        } else {
                            assert(pre_placed[i2]);
                            assert(pre_placed[t]);
                            assert(t != b as int);
                            assert(i2 != b as int);
                        }
                    }
                }
                    assert forall|p: int, k: int|
                        #![trigger order@[p], ds[k].id]
                        0 <= p < order@.len() && 0 <= k < n && (!placed@[k] || (pos@[k] as int)
                            >= p) && (forall|j: int|
                            0 <= j < deps@[k]@.len() ==> placed@[#[trigger] deps@[k]@[j] as int]
                                && (pos@[deps@[k]@[j] as int] as int) < p) implies id_le(
                        ds[order@[p] as int].id,
                        ds[k].id,
                    ) by {
                        let bp = pre_order.len() as int;
                        if p < bp {
                            assert(order@[p] == pre_order[p]);
                            assert forall|j: int|
                                0 <= j < deps@[k]@.len() implies pre_placed[#[trigger] deps@[k]@[j] as int]
                                    && (pre_pos[deps@[k]@[j] as int] as int) < p by {
                                let t = deps@[k]@[j] as int;
                                assert(placed@[t] && (pos@[t] as int) < p);
                                if t == b as int {
                                    assert(pos@[t] as int == bp);
                                    assert(false);
                                }
                            }
                            if k == b as int {
                                assert(!pre_placed[k]);
                            } else {
                                assert(placed@[k] ==> pre_placed[k]);
                                assert(pos@[k] == pre_pos[k]);
                            }
                            assert(tie_order_holds(ds, deps@, pre_placed, pre_order, pre_pos, n as int));
                            assert(id_le(ds[pre_order[p] as int].id, ds[k].id));
                        } else {
                            assert(p == bp);
                            assert(order@[p] == b);
                            if k == b as int {
                                lemma_id_le_refl(ds[b as int].id, 0);
                            } else {
                                assert(!pre_placed[k]) by {
                                    if pre_placed[k] {
                                        assert(placed@[k]);
                                        assert(pos@[k] == pre_pos[k]);
                                        assert((pre_pos[k] as int) < bp);
                                        assert(false);
                                    }
                                }
                                assert(deps_placed(deps@, pre_placed, k)) by {
                                    assert forall|j: int|
                                        0 <= j < deps@[k]@.len() implies pre_placed[#[trigger] deps@[k]@[j] as int] by {
                                        let t = deps@[k]@[j] as int;
                                        assert(placed@[t] && (pos@[t] as int) < p);
                                        if t == b as int {
                                            assert(pos@[t] as int == bp);
                                            assert(false);
                                        }
                                    }
                                }
                                assert(id_le(ds[b as int].id, ds[k].id));
                            }
                        }
                    }
            },
            None => {
                match first_unplaced {
                    Some(u) => {
                        let ids = extract_cycle(decls, deps, &placed, u);
                        proof {
                            let c = choose|c: Seq<int>|
                                is_rec_cycle(deps@, c, decls@.len() as int) && ids@.map_values(
                                    |s: String| s@,
                                ) == cycle_ids(decl_models(decls@), c);
                            lemma_rec_cycle_is_cycle(ds, deps@, c);
                        }
                        return Err(ids);
                    },
                    None => {
                        proof {
                            assert(forall|k: int| 0 <= k < n ==> placed@[k]);
                            assert(set_int_range(0, n as int) <= placed_set) by {
                                assert forall|k: int|
                                    set_int_range(0, n as int).contains(k) implies placed_set.contains(
                                    k,
                                ) by {}
                            }
                            lemma_int_range(0, n as int);
                            lemma_len_subset(set_int_range(0, n as int), placed_set);
                            assert(false);
                        }
                        return vstd::pervasive::unreached();
                    },
                }
            },
        }
    }
    proof {
        assert forall|k: int| 0 <= k < n implies placed@[k] by {
            if !placed@[k] {
                assert(!placed_set.contains(k));
                lemma_int_range(0, n as int);
                assert(set_int_range(0, n as int).contains(k));
                assert(placed_set <= set_int_range(0, n as int).remove(k)) by {
                    assert forall|x: int| placed_set.contains(x) implies set_int_range(
                        0,
                        n as int,
                    ).remove(k).contains(x) by {}
                }
                lemma_len_subset(placed_set, set_int_range(0, n as int).remove(k));
                assert(set_int_range(0, n as int).remove(k).len() == n - 1);
                assert(false);
            }
        }
        assert forall|p: int, k: int|
            #![trigger order@[p], ds[k].id]
            0 <= p < order@.len() && 0 <= k < ds.len() && (pos@[k] as int) >= p && (forall|j: int|
                0 <= j < deps@[k]@.len() ==> (pos@[#[trigger] deps@[k]@[j] as int] as int) < p)
            implies id_le(ds[order@[p] as int].id, ds[k].id) by {
            assert(placed@[k]);
            assert(forall|j: int|
                0 <= j < deps@[k]@.len() ==> placed@[#[trigger] deps@[k]@[j] as int] && (pos@[deps@[k]@[j] as int] as int) < p);
            assert(tie_order_holds(ds, deps@, placed@, order@, pos@, n as int));
        }
        assert(order_id_minimal(ds, deps@, order@, pos@));
    }
    Ok((order, pos))
}

/// Build the dependency graph of a declaration list.
///
/// Fails with `DuplicateId` when two declarations share an id, with
/// `UnknownReference` when a `depends_on` entry names no declaration, and
/// with `CycleDetected`, reporting the cycle in order, when the dependency
/// relation admits no topological order.
pub fn build(decls: Vec<Decl>) -> (r: Result<Graph, GraphError>)
    requires
        forall|i: int| 0 <= i < decls@.len() ==> (#[trigger] decls@[i]).wf(),
    ensures
        match r {
            Ok(g) => {
                &&& g.wf()
                &&& g.models() == decl_models(decls@)
                &&& buildable(decl_models(decls@))
                // Ties among independent nodes are broken by ascending id.
                &&& order_id_minimal(g.models(), g.deps@, g.order@, g.pos@)
            },
            Err(e) => match e {
                GraphError::DuplicateId { id } => !ids_unique(decl_models(decls@))
                    && exists|i: int, j: int|
                    0 <= i < j < decls@.len() && decl_models(decls@)[i].id == decl_models(
                        decls@,
                    )[j].id && decl_models(decls@)[i].id == id@,
                GraphError::UnknownReference { from, to } => {
                    let ds = decl_models(decls@);
                    &&& ids_unique(ds)
                    &&& !refs_resolve(ds)
                    &&& exists|i: int, k: int|
                        0 <= i < ds.len() && 0 <= k < ds[i].depends_on.len() && ds[i].id == from@
                            && (#[trigger] ds[i].depends_on[k]) == to@ && forall|j: int|
                            0 <= j < ds.len() ==> ds[j].id != to@
                },
                GraphError::CycleDetected { ids } => {
                    let ds = decl_models(decls@);
                    &&& ids_unique(ds)
                    &&& refs_resolve(ds)
                    &&& has_cycle(ds)
                    &&& exists|c: Seq<int>|
                        is_cycle(ds, c) && ids@.map_values(|s: String| s@) == cycle_ids(ds, c)
                },
            },
        },
        r is Ok <==> buildable(decl_models(decls@)),
{
    let ghost ds = decl_models(decls@);
    match find_duplicate(&decls) {
        Some(id) => {
            return Err(GraphError::DuplicateId { id });
        },
        None => {},
    }
    let deps = match build_edges(&decls) {
        Ok(d) => d,
        Err(e) => {
            return Err(e);
        },
    };
    let (order, pos) = match topo_sort(&decls, &deps) {
        Ok(op) => op,
        Err(ids) => {
            proof {
                let c = choose|c: Seq<int>|
                    is_cycle(ds, c) && ids@.map_values(|s: String| s@) == cycle_ids(ds, c);
                assert(is_cycle(ds, c));
                assert(has_cycle(ds));
            }
            return Err(GraphError::CycleDetected { ids });
        },
    };
    let ghost deps_snap = deps@;
    let ghost order_snap = order@;
    let ghost pos_snap = pos@;
    let g = Graph { nodes: decls, deps, order, pos };
    proof {
        assert(g.models() == ds);
        assert forall|i: int| 0 <= i < g.n() implies paths_unique(#[trigger] g.models()[i].props) by {
            assert(g.models()[i] == g.nodes@[i]@);
            assert(g.nodes@[i].wf());
        }
        assert(g.edges_wf());
        assert(g.order_wf());
        assert(g.wf());
        lemma_wf_graph_acyclic(&g);
    }
    Ok(g)
}

} // verus!
