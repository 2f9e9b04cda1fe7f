//! Resource property documents.
//!
//! A declared or recorded resource carries a structured key/value document.
//! The engine works on the flattened form: a vector of (path, leaf value)
//! pairs with pairwise distinct paths, denoting a finite map from property
//! paths to leaf values.

use vstd::prelude::*;

verus! {

/// One property value at a property path.
#[derive(Debug)]
pub enum PropLeaf {
    Null,
    Bool(bool),
    Int(i64),
    Str(String),
}

/// Mathematical model of a property value.
pub enum LeafModel {
    Null,
    Bool(bool),
    Int(int),
    Str(Seq<char>),
}

impl View for PropLeaf {
    type V = LeafModel;

    open spec fn view(&self) -> LeafModel {
        match self {
            PropLeaf::Null => LeafModel::Null,
            PropLeaf::Bool(b) => LeafModel::Bool(*b),
            PropLeaf::Int(i) => LeafModel::Int(*i as int),
            PropLeaf::Str(s) => LeafModel::Str(s@),
        }
    }
}

impl Clone for PropLeaf {
    fn clone(&self) -> (r: Self)
        ensures
            r@ == self@,
    {
        match self {
            PropLeaf::Null => PropLeaf::Null,
            PropLeaf::Bool(b) => PropLeaf::Bool(*b),
            PropLeaf::Int(i) => PropLeaf::Int(*i),
            PropLeaf::Str(s) => PropLeaf::Str(s.clone()),
        }
    }
}

/// Structural equality of two property values.
pub fn leaf_eq(a: &PropLeaf, b: &PropLeaf) -> (r: bool)
    ensures
        r == (a@ == b@),
{
    match (a, b) {
        (PropLeaf::Null, PropLeaf::Null) => true,
        (PropLeaf::Bool(x), PropLeaf::Bool(y)) => *x == *y,
        (PropLeaf::Int(x), PropLeaf::Int(y)) => *x == *y,
        (PropLeaf::Str(x), PropLeaf::Str(y)) => *x == *y,
        _ => false,
    }
}

/// A property document: property paths mapped to leaf values.
#[derive(Debug)]
pub struct Props {
    pub entries: Vec<(String, PropLeaf)>,
}

impl View for Props {
    type V = Seq<(Seq<char>, LeafModel)>;

    open spec fn view(&self) -> Seq<(Seq<char>, LeafModel)> {
        self.entries@.map_values(|e: (String, PropLeaf)| (e.0@, e.1@))
    }
}

/// Paths of the entry sequence are pairwise distinct.
pub open spec fn paths_unique(s: Seq<(Seq<char>, LeafModel)>) -> bool {
    forall|i: int, j: int| 0 <= i < j < s.len() ==> s[i].0 != s[j].0
}

/// The finite map an entry sequence denotes.
pub open spec fn props_map(s: Seq<(Seq<char>, LeafModel)>) -> Map<Seq<char>, LeafModel> {
    Map::new(
        |k: Seq<char>| exists|i: int| 0 <= i < s.len() && s[i].0 == k,
        |k: Seq<char>| s[choose|i: int| 0 <= i < s.len() && s[i].0 == k].1,
    )
}

/// Each entry of a duplicate-free sequence is recorded in its map, at its own value.
pub proof fn lemma_props_entry(s: Seq<(Seq<char>, LeafModel)>, i: int)
    requires
        paths_unique(s),
        0 <= i < s.len(),
    ensures
        props_map(s).contains_key(s[i].0),
        props_map(s)[s[i].0] == s[i].1,
{
    let k = s[i].0;
    assert(0 <= i < s.len() && s[i].0 == k);
    let j = choose|j: int| 0 <= j < s.len() && s[j].0 == k;
    if j != i {
        if j < i {
            assert(s[j].0 != s[i].0);
        } else {
            assert(s[i].0 != s[j].0);
        }
    }
}

impl Props {
    /// Paths are pairwise distinct, so the document denotes a map faithfully.
    pub open spec fn wf(&self) -> bool {
        paths_unique(self@)
    }

    /// The property map this document denotes.
    pub open spec fn as_map(&self) -> Map<Seq<char>, LeafModel> {
        props_map(self@)
    }

    /// An empty document.
    pub fn empty() -> (r: Props)
        ensures
            r@ =~= Seq::<(Seq<char>, LeafModel)>::empty(),
            r.wf(),
            r.as_map() =~= Map::<Seq<char>, LeafModel>::empty(),
    {
        let r = Props { entries: Vec::new() };
        proof {
            assert(r@ =~= Seq::<(Seq<char>, LeafModel)>::empty());
            assert(r.as_map() =~= Map::<Seq<char>, LeafModel>::empty());
        }
        r
    }

    /// Look up the value at a path.
    pub fn get(&self, path: &String) -> (r: Option<&PropLeaf>)
        requires
            self.wf(),
        ensures
            match r {
                Some(l) => self.as_map().contains_key(path@) && self.as_map()[path@] == l@,
                None => !self.as_map().contains_key(path@),
            },
    {
        let n = self.entries.len();
        let mut i: usize = 0;
        while i < n
            invariant
                n == self.entries.len(),
                0 <= i <= n,
                self.wf(),
                forall|j: int| 0 <= j < i ==> self@[j].0 != path@,
            decreases n - i,
        {
            proof {
                assert(self@[i as int] == (self.entries@[i as int].0@, self.entries@[i as int].1@));
            }
            let e = &self.entries[i];
            if e.0 == *path {
                proof {
                    lemma_props_entry(self@, i as int);
                }
                return Some(&e.1);
            }
            i = i + 1;
        }
        proof {
            assert(forall|j: int| 0 <= j < self@.len() ==> self@[j].0 != path@);
        }
        None
    }

    /// Record a value at a path, replacing any prior value there.
    pub fn put(&mut self, path: String, value: PropLeaf)
        requires
            old(self).wf(),
        ensures
            final(self).wf(),
            final(self).as_map() =~= old(self).as_map().insert(path@, value@),
            // The entry order is pinned: replacement in place, or appended last.
            (exists|i: int|
                0 <= i < old(self)@.len() && old(self)@[i].0 == path@
                    && final(self)@ =~= old(self)@.update(i, (path@, value@)))
                || (!old(self).as_map().contains_key(path@)
                    && final(self)@ =~= old(self)@.push((path@, value@))),
    {
        let ghost old_view = self@;
        let n = self.entries.len();
        let mut i: usize = 0;
        while i < n
            invariant
                n == self.entries.len(),
                0 <= i <= n,
                paths_unique(old_view),
                old_view == old(self)@,
                self@ == old_view,
                forall|j: int| 0 <= j < i ==> old_view[j].0 != path@,
            decreases n - i,
        {
            proof {
                assert(self@[i as int] == (self.entries@[i as int].0@, self.entries@[i as int].1@));
            }
            let hit = { let e = &self.entries[i]; e.0 == path };
            if hit {
                let ghost pre_entries = self.entries@;
                self.entries.set(i, (path, value));
                proof {
                    let iv = i as int;
                    assert(self.entries@ =~= pre_entries.update(iv, self.entries@[iv]));
                    assert forall|j: int| 0 <= j < self@.len() implies self@[j] == (
                        self.entries@[j].0@,
                        self.entries@[j].1@,
                    ) by {}
                    assert forall|j: int| 0 <= j < old_view.len() implies old_view[j] == (
                        pre_entries[j].0@,
                        pre_entries[j].1@,
                    ) by {}
                    assert(self@ =~= old_view.update(iv, (old_view[iv].0, value@)));
                    assert(paths_unique(self@));
                    lemma_props_entry(self@, iv);
                    assert forall|k: Seq<char>|
                        self.as_map().contains_key(k) <==> props_map(old_view).insert(
                            path@,
                            value@,
                        ).contains_key(k) by {
                        if k != path@ {
                            assert forall|j: int| 0 <= j < self@.len() implies (self@[j].0 == k
                                <==> old_view[j].0 == k) by {}
                        }
                    }
                    assert forall|k: Seq<char>| self.as_map().contains_key(k) implies
                        self.as_map()[k] == props_map(old_view).insert(path@, value@)[k] by {
                        if k == path@ {
                        } else {
                            let j = choose|j: int|
                                0 <= j < self@.len() && self@[j].0 == k;
                            lemma_props_entry(self@, j);
                            lemma_props_entry(old_view, j);
                        }
                    }
                    assert(self.as_map() =~= props_map(old_view).insert(path@, value@));
                    assert(old_view[iv].0 == path@);
                    assert(0 <= iv < old_view.len() && old_view[iv].0 == path@ && self@
                        =~= old_view.update(iv, (path@, value@)));
                }
                return ;
            }
            i = i + 1;
        }
        self.entries.push((path, value));
        proof {
            assert(self@ =~= old_view.push((path@, value@)));
            assert(forall|j: int| 0 <= j < old_view.len() ==> old_view[j].0 != path@);
            assert(paths_unique(self@));
            assert(!props_map(old_view).contains_key(path@));
            let m = old_view.len() as int;
            lemma_props_entry(self@, m);
            assert forall|k: Seq<char>|
                self.as_map().contains_key(k) <==> props_map(old_view).insert(
                    path@,
                    value@,
                ).contains_key(k) by {
                if k != path@ {
                    assert forall|j: int| 0 <= j < m implies (self@[j].0 == old_view[j].0) by {}
                }
            }
            assert forall|k: Seq<char>| self.as_map().contains_key(k) implies self.as_map()[k]
                == props_map(old_view).insert(path@, value@)[k] by {
                if k == path@ {
                } else {
                    let j = choose|j: int| 0 <= j < self@.len() && self@[j].0 == k;
                    assert(j < m);
                    lemma_props_entry(self@, j);
                    lemma_props_entry(old_view, j);
                }
            }
            assert(self.as_map() =~= props_map(old_view).insert(path@, value@));
        }
    }
}

impl Clone for Props {
    fn clone(&self) -> (r: Self)
        ensures
            r@ == self@,
    {
        let mut entries: Vec<(String, PropLeaf)> = Vec::new();
        let n = self.entries.len();
        let mut i: usize = 0;
        while i < n
            invariant
                n == self.entries.len(),
                0 <= i <= n,
                entries@.len() == i,
                forall|j: int| 0 <= j < i ==> entries@.map_values(
                    |e: (String, PropLeaf)| (e.0@, e.1@),
                )[j] == self@[j],
            decreases n - i,
        {
            let e = &self.entries[i];
            entries.push((e.0.clone(), e.1.clone()));
            i = i + 1;
        }
        let r = Props { entries };
        proof {
            assert(r@ =~= self@);
        }
        r
    }
}

} // verus!

verus! {

/// The model of an `Option<PropLeaf>`.
pub open spec fn opt_leaf_model(o: Option<PropLeaf>) -> Option<LeafModel> {
    match o {
        Option::Some(l) => Option::Some(l@),
        Option::None => Option::None,
    }
}

/// One reported difference: a property path with its stored and desired values.
#[derive(Debug)]
pub struct DiffEntry {
    pub path: String,
    pub old_value: Option<PropLeaf>,
    pub new_value: Option<PropLeaf>,
}

impl View for DiffEntry {
    type V = (Seq<char>, Option<LeafModel>, Option<LeafModel>);

    open spec fn view(&self) -> (Seq<char>, Option<LeafModel>, Option<LeafModel>) {
        (self.path@, opt_leaf_model(self.old_value), opt_leaf_model(self.new_value))
    }
}

impl Clone for DiffEntry {
    fn clone(&self) -> (r: Self)
        ensures
            r@ == self@,
    {
        let old_value = match &self.old_value {
            Option::Some(l) => Option::Some(l.clone()),
            Option::None => Option::None,
        };
        let new_value = match &self.new_value {
            Option::Some(l) => Option::Some(l.clone()),
            Option::None => Option::None,
        };
        DiffEntry { path: self.path.clone(), old_value, new_value }
    }
}

/// Differences contributed by the first `i` desired entries: those whose
/// stored value is absent or differs.
pub open spec fn spec_diff_prefix(
    d: Seq<(Seq<char>, LeafModel)>,
    s: Seq<(Seq<char>, LeafModel)>,
    i: int,
) -> Seq<(Seq<char>, Option<LeafModel>, Option<LeafModel>)>
    decreases i,
{
    if i <= 0 {
        Seq::empty()
    } else {
        let head = spec_diff_prefix(d, s, i - 1);
        if props_map(s).get(d[i - 1].0) != Option::Some(d[i - 1].1) {
            head.push((d[i - 1].0, props_map(s).get(d[i - 1].0), Option::Some(d[i - 1].1)))
        } else {
            head
        }
    }
}

/// Differences contributed by the first `i` stored entries whose path was
/// removed from the desired document.
pub open spec fn spec_removed_prefix(
    d: Seq<(Seq<char>, LeafModel)>,
    s: Seq<(Seq<char>, LeafModel)>,
    i: int,
) -> Seq<(Seq<char>, Option<LeafModel>, Option<LeafModel>)>
    decreases i,
{
    if i <= 0 {
        Seq::empty()
    } else {
        let head = spec_removed_prefix(d, s, i - 1);
        if !props_map(d).contains_key(s[i - 1].0) {
            head.push((s[i - 1].0, Option::Some(s[i - 1].1), Option::None))
        } else {
            head
        }
    }
}

/// The value-level difference of two documents: changed or added desired
/// paths in desired order, then removed paths in stored order.
pub open spec fn spec_props_diff(
    d: Seq<(Seq<char>, LeafModel)>,
    s: Seq<(Seq<char>, LeafModel)>,
) -> Seq<(Seq<char>, Option<LeafModel>, Option<LeafModel>)> {
    spec_diff_prefix(d, s, d.len() as int) + spec_removed_prefix(d, s, s.len() as int)
}

proof fn lemma_diff_prefix_empty(
    d: Seq<(Seq<char>, LeafModel)>,
    s: Seq<(Seq<char>, LeafModel)>,
    i: int,
)
    requires
        0 <= i <= d.len(),
    ensures
        spec_diff_prefix(d, s, i).len() == 0 <==> (forall|j: int|
            0 <= j < i ==> props_map(s).get(d[j].0) == Option::Some(d[j].1)),
    decreases i,
{
    if i > 0 {
        lemma_diff_prefix_empty(d, s, i - 1);
    }
}

proof fn lemma_removed_prefix_empty(
    d: Seq<(Seq<char>, LeafModel)>,
    s: Seq<(Seq<char>, LeafModel)>,
    i: int,
)
    requires
        0 <= i <= s.len(),
    ensures
        spec_removed_prefix(d, s, i).len() == 0 <==> (forall|j: int|
            0 <= j < i ==> props_map(d).contains_key(s[j].0)),
    decreases i,
{
    if i > 0 {
        lemma_removed_prefix_empty(d, s, i - 1);
    }
}

/// The difference of two well-formed documents is empty exactly when they
/// denote the same property map.
pub proof fn lemma_props_diff_empty(
    d: Seq<(Seq<char>, LeafModel)>,
    s: Seq<(Seq<char>, LeafModel)>,
)
    requires
        paths_unique(d),
        paths_unique(s),
    ensures
        spec_props_diff(d, s).len() == 0 <==> props_map(d) == props_map(s),
{
    lemma_diff_prefix_empty(d, s, d.len() as int);
    lemma_removed_prefix_empty(d, s, s.len() as int);
    if spec_props_diff(d, s).len() == 0 {
        assert forall|k: Seq<char>|
            props_map(d).contains_key(k) <==> props_map(s).contains_key(k) by {
            if props_map(d).contains_key(k) {
                let j = choose|j: int| 0 <= j < d.len() && d[j].0 == k;
                assert(props_map(s).get(d[j].0) == Option::Some(d[j].1));
            }
            if props_map(s).contains_key(k) {
                let j = choose|j: int| 0 <= j < s.len() && s[j].0 == k;
                assert(props_map(d).contains_key(s[j].0));
            }
        }
        assert forall|k: Seq<char>| props_map(d).contains_key(k) implies props_map(d)[k]
            == props_map(s)[k] by {
            let j = choose|j: int| 0 <= j < d.len() && d[j].0 == k;
            lemma_props_entry(d, j);
            assert(props_map(s).get(d[j].0) == Option::Some(d[j].1));
        }
        assert(props_map(d) =~= props_map(s));
    }
    if props_map(d) == props_map(s) {
        assert forall|j: int| 0 <= j < d.len() implies props_map(s).get(d[j].0) == Option::Some(
            d[j].1,
        ) by {
            lemma_props_entry(d, j);
        }
        assert forall|j: int| 0 <= j < s.len() implies props_map(d).contains_key(s[j].0) by {
            lemma_props_entry(s, j);
        }
    }
}

/// Compute the value-level difference of two documents.
pub fn props_diff(desired: &Props, stored: &Props) -> (r: Vec<DiffEntry>)
    requires
        desired.wf(),
        stored.wf(),
    ensures
        r@.map_values(|e: DiffEntry| e@) == spec_props_diff(desired@, stored@),
{
    let ghost d = desired@;
    let ghost s = stored@;
    let mut out: Vec<DiffEntry> = Vec::new();
    let nd = desired.entries.len();
    let mut i: usize = 0;
    while i < nd
        invariant
            nd == desired.entries.len(),
            0 <= i <= nd,
            desired.wf(),
            stored.wf(),
            d == desired@,
            s == stored@,
            out@.map_values(|e: DiffEntry| e@) == spec_diff_prefix(d, s, i as int),
        decreases nd - i,
    {
        proof {
            assert(d[i as int] == (desired.entries@[i as int].0@, desired.entries@[i as int].1@));
        }
        let e = &desired.entries[i];
        let stored_val = stored.get(&e.0);
        let is_changed = match stored_val {
            Option::Some(l) => !leaf_eq(l, &e.1),
            Option::None => true,
        };
        proof {
            assert(is_changed == (props_map(s).get(d[i as int].0) != Option::Some(d[i as int].1)));
        }
        if is_changed {
            let old_value = match stored_val {
                Option::Some(l) => Option::Some(l.clone()),
                Option::None => Option::None,
            };
            let ghost pre = out@;
            out.push(DiffEntry { path: e.0.clone(), old_value, new_value: Option::Some(e.1.clone()) });
            proof {
                assert(out@.map_values(|x: DiffEntry| x@) =~= pre.map_values(
                    |x: DiffEntry| x@,
                ).push(out@[out@.len() - 1]@));
                assert(out@.map_values(|x: DiffEntry| x@) == spec_diff_prefix(d, s, i + 1));
            }
        } else {
            proof {
                assert(out@.map_values(|x: DiffEntry| x@) == spec_diff_prefix(d, s, i + 1));
            }
        }
        i = i + 1;
    }
    let ns = stored.entries.len();
    let mut j: usize = 0;
    while j < ns
        invariant
            ns == stored.entries.len(),
            0 <= j <= ns,
            desired.wf(),
            stored.wf(),
            d == desired@,
            s == stored@,
            out@.map_values(|e: DiffEntry| e@) == spec_diff_prefix(d, s, d.len() as int)
                + spec_removed_prefix(d, s, j as int),
        decreases ns - j,
    {
        proof {
            assert(s[j as int] == (stored.entries@[j as int].0@, stored.entries@[j as int].1@));
        }
        let e = &stored.entries[j];
        let in_desired = match desired.get(&e.0) {
            Option::Some(_) => true,
            Option::None => false,
        };
        if !in_desired {
            let ghost pre = out@;
            out.push(DiffEntry {
                path: e.0.clone(),
                old_value: Option::Some(e.1.clone()),
                new_value: Option::None,
            });
            proof {
                assert(out@.map_values(|x: DiffEntry| x@) =~= pre.map_values(
                    |x: DiffEntry| x@,
                ).push(out@[out@.len() - 1]@));
                assert(out@.map_values(|x: DiffEntry| x@) == spec_diff_prefix(d, s, d.len() as int)
                    + spec_removed_prefix(d, s, j + 1));
            }
        } else {
            proof {
                assert(spec_removed_prefix(d, s, j + 1) == spec_removed_prefix(d, s, j as int));
                assert(out@.map_values(|x: DiffEntry| x@) == spec_diff_prefix(d, s, d.len() as int)
                    + spec_removed_prefix(d, s, j + 1));
            }
        }
        j = j + 1;
    }
    proof {
        assert(out@.map_values(|e: DiffEntry| e@) == spec_props_diff(d, s));
    }
    out
}

} // verus!

verus! {

/// Check path distinctness at run time, for documents assembled outside the
/// library.
pub fn props_wf_check(p: &Props) -> (r: bool)
    ensures
        r == paths_unique(p@),
{
    let n = p.entries.len();
    let mut i: usize = 0;
    while i < n
        invariant
            n == p.entries@.len(),
            0 <= i <= n,
            forall|a: int, b: int| 0 <= a < b < i ==> p@[a].0 != p@[b].0,
        decreases n - i,
    {
        proof {
            assert(p@[i as int] == (p.entries@[i as int].0@, p.entries@[i as int].1@));
        }
        let e = &p.entries[i];
        let mut j: usize = 0;
        while j < i
            invariant
                n == p.entries@.len(),
                0 <= j <= i < n,
                e == &p.entries@[i as int],
                forall|b: int| 0 <= b < j ==> p@[b].0 != p@[i as int].0,
            decreases i - j,
        {
            proof {
                assert(p@[j as int] == (p.entries@[j as int].0@, p.entries@[j as int].1@));
            }
            let dup = { let q = &p.entries[j]; q.0 == e.0 };
            if dup {
                proof {
                    assert(p@[j as int].0 == p@[i as int].0);
                }
                return false;
            }
            j = j + 1;
        }
        proof {
            assert forall|a: int, b: int| 0 <= a < b < i + 1 implies p@[a].0 != p@[b].0 by {}
        }
        i = i + 1;
    }
    true
}

} // verus!
