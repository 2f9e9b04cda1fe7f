//! Declared resources.
//!
//! A `Decl` is the desired state of one resource as authored: a stable id,
//! a resource type, the provider that manages it, a property document, and
//! the ids of the resources it depends on. A property whose value is exactly
//! `${other_id}` adds an implicit dependency on the resource `other_id`.

use vstd::prelude::*;
use vstd::string::StringExecFns;
use crate::props::{LeafModel, PropLeaf, Props, paths_unique};

verus! {

/// Desired state of one resource, as authored.
#[derive(Debug)]
pub struct Decl {
    pub id: String,
    pub rtype: String,
    pub provider: String,
    pub props: Props,
    pub depends_on: Vec<String>,
}

/// Mathematical model of a declaration.
pub struct DeclModel {
    pub id: Seq<char>,
    pub rtype: Seq<char>,
    pub provider: Seq<char>,
    pub props: Seq<(Seq<char>, LeafModel)>,
    pub depends_on: Seq<Seq<char>>,
}

impl View for Decl {
    type V = DeclModel;

    open spec fn view(&self) -> DeclModel {
        DeclModel {
            id: self.id@,
            rtype: self.rtype@,
            provider: self.provider@,
            props: self.props@,
            depends_on: self.depends_on@.map_values(|s: String| s@),
        }
    }
}

impl Decl {
    /// The property document is well formed.
    pub open spec fn wf(&self) -> bool {
        paths_unique(self@.props)
    }
}

impl Clone for Decl {
    fn clone(&self) -> (r: Self)
        ensures
            r@ == self@,
    {
        let mut depends_on: Vec<String> = Vec::new();
        let n = self.depends_on.len();
        let mut i: usize = 0;
        while i < n
            invariant
                n == self.depends_on.len(),
                0 <= i <= n,
                depends_on@.len() == i,
                forall|j: int| 0 <= j < i ==> depends_on@[j]@ == self.depends_on@[j]@,
            decreases n - i,
        {
            depends_on.push(self.depends_on[i].clone());
            i = i + 1;
        }
        let r = Decl {
            id: self.id.clone(),
            rtype: self.rtype.clone(),
            provider: self.provider.clone(),
            props: self.props.clone(),
            depends_on,
        };
        proof {
            assert(r@.depends_on =~= self@.depends_on);
        }
        r
    }
}

/// The models of a declaration list.
pub open spec fn decl_models(ds: Seq<Decl>) -> Seq<DeclModel> {
    ds.map_values(|d: Decl| d@)
}

/// Ids are pairwise distinct.
pub open spec fn ids_unique(ds: Seq<DeclModel>) -> bool {
    forall|i: int, j: int| 0 <= i < j < ds.len() ==> ds[i].id != ds[j].id
}

/// Every explicit dependency names a declared resource.
pub open spec fn refs_resolve(ds: Seq<DeclModel>) -> bool {
    forall|i: int, k: int|
        0 <= i < ds.len() && 0 <= k < ds[i].depends_on.len() ==> exists|j: int|
            0 <= j < ds.len() && ds[j].id == #[trigger] ds[i].depends_on[k]
}

/// A string value of exactly `${id}` references the resource `id`.
pub open spec fn is_ref_str(s: Seq<char>, id: Seq<char>) -> bool {
    s == "${"@ + id + "}"@
}

/// A leaf value referencing the resource `id`.
pub open spec fn leaf_is_ref(l: LeafModel, id: Seq<char>) -> bool {
    l matches LeafModel::Str(s) && is_ref_str(s, id)
}

/// Some property value of the declaration references the resource `id`.
pub open spec fn references(d: DeclModel, id: Seq<char>) -> bool {
    exists|e: int| 0 <= e < d.props.len() && leaf_is_ref(d.props[e].1, id)
}

/// Node `i` depends on node `k`: by explicit `depends_on` or by an implicit
/// property reference.
pub open spec fn dep_edge(ds: Seq<DeclModel>, i: int, k: int) -> bool {
    ds[i].depends_on.contains(ds[k].id) || references(ds[i], ds[k].id)
}

/// The reference pattern `${id}` for a resource id.
pub fn make_ref_string(id: &String) -> (r: String)
    ensures
        r@ == "${"@ + id@ + "}"@,
{
    let mut r = String::from_str("${");
    r.append(id.as_str());
    r.append("}");
    r
}

/// Does some property value of `d` reference the resource `id`?
pub fn node_references(d: &Decl, id: &String) -> (r: bool)
    ensures
        r == references(d@, id@),
{
    let pat = make_ref_string(id);
    let n = d.props.entries.len();
    let mut i: usize = 0;
    while i < n
        invariant
            n == d.props.entries.len(),
            0 <= i <= n,
            pat@ == "${"@ + id@ + "}"@,
            forall|e: int| 0 <= e < i ==> !leaf_is_ref(d@.props[e].1, id@),
        decreases n - i,
    {
        proof {
            assert(d@.props[i as int] == (
                d.props.entries@[i as int].0@,
                d.props.entries@[i as int].1@,
            ));
        }
        let e = &d.props.entries[i];
        match &e.1 {
            PropLeaf::Str(s) => {
                if *s == pat {
                    return true;
                }
            },
            _ => {},
        }
        i = i + 1;
    }
    false
}

} // verus!
