//! The state store.
//!
//! The store is the durable record of the last-known actual state of every
//! resource, keyed by resource id, with a monotonic version counter per entry
//! for optimistic-concurrency commits. A snapshot is a copy of the entries;
//! its fingerprint lets a later apply detect that the store has moved on.

use vstd::prelude::*;
use crate::props::{LeafModel, Props, paths_unique};

verus! {

/// Last-applied actual state of one resource.
#[derive(Debug)]
pub struct StateEntry {
    pub id: String,
    pub provider: String,
    pub rtype: String,
    pub props: Props,
    pub version: u64,
    pub last_applied_at: u64,
}

/// Mathematical model of a state entry.
pub struct EntryModel {
    pub id: Seq<char>,
    pub provider: Seq<char>,
    pub rtype: Seq<char>,
    pub props: Seq<(Seq<char>, LeafModel)>,
    pub version: u64,
    pub last_applied_at: u64,
}

impl View for StateEntry {
    type V = EntryModel;

    open spec fn view(&self) -> EntryModel {
        EntryModel {
            id: self.id@,
            provider: self.provider@,
            rtype: self.rtype@,
            props: self.props@,
            version: self.version,
            last_applied_at: self.last_applied_at,
        }
    }
}

impl Clone for StateEntry {
    fn clone(&self) -> (r: Self)
        ensures
            r@ == self@,
    {
        StateEntry {
            id: self.id.clone(),
            provider: self.provider.clone(),
            rtype: self.rtype.clone(),
            props: self.props.clone(),
            version: self.version,
            last_applied_at: self.last_applied_at,
        }
    }
}

/// The models of an entry list.
pub open spec fn entry_models(es: Seq<StateEntry>) -> Seq<EntryModel> {
    es.map_values(|e: StateEntry| e@)
}

/// Entry ids are pairwise distinct.
pub open spec fn entry_ids_unique(s: Seq<EntryModel>) -> bool {
    forall|i: int, j: int| 0 <= i < j < s.len() ==> s[i].id != s[j].id
}

/// The finite map an entry list denotes, keyed by resource id.
pub open spec fn entries_map(s: Seq<EntryModel>) -> Map<Seq<char>, EntryModel> {
    Map::new(
        |k: Seq<char>| exists|i: int| 0 <= i < s.len() && s[i].id == k,
        |k: Seq<char>| s[choose|i: int| 0 <= i < s.len() && s[i].id == k],
    )
}

/// Each entry of a duplicate-free list is recorded in its map.
pub proof fn lemma_entries_map_at(s: Seq<EntryModel>, i: int)
    requires
        entry_ids_unique(s),
        0 <= i < s.len(),
    ensures
        entries_map(s).contains_key(s[i].id),
        entries_map(s)[s[i].id] == s[i],
{
    let k = s[i].id;
    assert(0 <= i < s.len() && s[i].id == k);
    let j = choose|j: int| 0 <= j < s.len() && s[j].id == k;
    if j != i {
        if j < i {
            assert(s[j].id != s[i].id);
        } else {
            assert(s[i].id != s[j].id);
        }
    }
}

/// All property documents of the entries are well formed.
pub open spec fn entries_props_wf(s: Seq<EntryModel>) -> bool {
    forall|i: int| 0 <= i < s.len() ==> paths_unique(#[trigger] s[i].props)
}

/// Find the entry with the given id.
pub fn find_entry(entries: &Vec<StateEntry>, id: &String) -> (r: Option<usize>)
    ensures
        match r {
            Some(i) => (i as int) < entries@.len() && entry_models(entries@)[i as int].id == id@,
            None => forall|j: int|
                0 <= j < entries@.len() ==> entry_models(entries@)[j].id != id@,
        },
{
    let ghost s = entry_models(entries@);
    let n = entries.len();
    let mut j: usize = 0;
    while j < n
        invariant
            n == entries@.len(),
            s == entry_models(entries@),
            0 <= j <= n,
            forall|b: int| 0 <= b < j ==> s[b].id != id@,
        decreases n - j,
    {
        proof {
            assert(s[j as int] == entries@[j as int]@);
        }
        let hit = { let e = &entries[j]; e.id == *id };
        if hit {
            return Some(j);
        }
        j = j + 1;
    }
    None
}

/// One mixing step of the snapshot fingerprint.
pub open spec fn fp_step(h: u64, x: u64) -> u64 {
    vstd::wrapping::u64_specs::wrapping_mul(h ^ x, 0x100000001b3)
}

/// Fold the first `i` characters of a string into the fingerprint.
pub open spec fn fp_chars(h: u64, s: Seq<char>, i: int) -> u64
    decreases i,
{
    if i <= 0 {
        h
    } else {
        fp_step(fp_chars(h, s, i - 1), s[i - 1] as u64)
    }
}

/// Fold one entry into the fingerprint: its id, version, document size and
/// apply time. Any commit changes some entry's version or the entry count,
/// so the fingerprint of a store changes whenever the store does.
pub open spec fn fp_entry(h: u64, e: EntryModel) -> u64 {
    fp_step(
        fp_step(
            fp_step(fp_chars(fp_step(h, e.id.len() as u64), e.id, e.id.len() as int), e.version),
            e.props.len() as u64,
        ),
        e.last_applied_at,
    )
}

/// Fold the first `i` entries into the fingerprint.
pub open spec fn fp_prefix(s: Seq<EntryModel>, i: int) -> u64
    decreases i,
{
    if i <= 0 {
        0xcbf29ce484222325u64
    } else {
        fp_entry(fp_prefix(s, i - 1), s[i - 1])
    }
}

/// The fingerprint of a snapshot.
pub open spec fn spec_fp(s: Seq<EntryModel>) -> u64 {
    fp_prefix(s, s.len() as int)
}

/// A copy of the store's entries at one moment.
#[derive(Debug)]
pub struct Snapshot {
    pub entries: Vec<StateEntry>,
}

impl View for Snapshot {
    type V = Seq<EntryModel>;

    open spec fn view(&self) -> Seq<EntryModel> {
        entry_models(self.entries@)
    }
}

impl Snapshot {
    /// Ids are distinct and documents well formed.
    pub open spec fn wf(&self) -> bool {
        entry_ids_unique(self@) && entries_props_wf(self@)
    }

    /// The map from id to entry.
    pub open spec fn as_map(&self) -> Map<Seq<char>, EntryModel> {
        entries_map(self@)
    }

    /// Look up the entry recorded for an id.
    pub fn get(&self, id: &String) -> (r: Option<&StateEntry>)
        requires
            self.wf(),
        ensures
            match r {
                Some(e) => self.as_map().contains_key(id@) && self.as_map()[id@] == e@,
                None => !self.as_map().contains_key(id@),
            },
    {
        match find_entry(&self.entries, id) {
            Some(i) => {
                proof {
                    lemma_entries_map_at(self@, i as int);
                }
                Some(&self.entries[i])
            },
            None => {
                proof {
                    if self.as_map().contains_key(id@) {
                        let j = choose|j: int| 0 <= j < self@.len() && self@[j].id == id@;
                    }
                }
                None
            },
        }
    }

    /// Compute the fingerprint of this snapshot.
    pub fn fingerprint(&self) -> (r: u64)
        ensures
            r == spec_fp(self@),
    {
        let ghost s = self@;
        let mut h: u64 = 0xcbf29ce484222325u64;
        let n = self.entries.len();
        let mut i: usize = 0;
        while i < n
            invariant
                n == self.entries@.len(),
                s == self@,
                0 <= i <= n,
                h == fp_prefix(s, i as int),
            decreases n - i,
        {
            proof {
                assert(s[i as int] == self.entries@[i as int]@);
            }
            let e = &self.entries[i];
            let idlen = e.id.as_str().unicode_len();
            h = (h ^ (idlen as u64)).wrapping_mul(0x100000001b3);
            let mut c: usize = 0;
            while c < idlen
                invariant
                    s == self@,
                    0 <= i < n,
                    n == self.entries@.len(),
                    s[i as int] == self.entries@[i as int]@,
                    idlen == self.entries@[i as int].id@.len(),
                    0 <= c <= idlen,
                    h == fp_chars(
                        fp_step(fp_prefix(s, i as int), idlen as u64),
                        s[i as int].id,
                        c as int,
                    ),
                decreases idlen - c,
            {
                let ch = self.entries[i].id.as_str().get_char(c);
                h = (h ^ (ch as u64)).wrapping_mul(0x100000001b3);
                c = c + 1;
            }
            let e2 = &self.entries[i];
            h = (h ^ e2.version).wrapping_mul(0x100000001b3);
            let plen = e2.props.entries.len();
            h = (h ^ (plen as u64)).wrapping_mul(0x100000001b3);
            h = (h ^ e2.last_applied_at).wrapping_mul(0x100000001b3);
            proof {
                assert(s[i as int].props.len() == self.entries@[i as int].props.entries@.len());
                assert(h == fp_entry(fp_prefix(s, i as int), s[i as int]));
                assert(h == fp_prefix(s, i + 1));
            }
            i = i + 1;
        }
        h
    }
}

impl Clone for Snapshot {
    fn clone(&self) -> (r: Self)
        ensures
            r@ == self@,
    {
        let mut entries: Vec<StateEntry> = Vec::new();
        let n = self.entries.len();
        let mut i: usize = 0;
        while i < n
            invariant
                n == self.entries@.len(),
                0 <= i <= n,
                entries@.len() == i,
                forall|j: int| 0 <= j < i ==> entry_models(entries@)[j] == self@[j],
            decreases n - i,
        {
            let e = self.entries[i].clone();
            entries.push(e);
            i = i + 1;
        }
        let r = Snapshot { entries };
        proof {
            assert(r@ =~= self@);
        }
        r
    }
}

} // verus!

verus! {

/// A commit found a different version (or presence) than its caller expected.
#[derive(Debug, Clone, Copy, PartialEq, Eq)]
pub struct ConflictError;

/// The durable record of last-known actual resource state.
#[derive(Debug)]
pub struct StateStore {
    pub entries: Vec<StateEntry>,
    /// Monotonic commit counter; stamps `last_applied_at` and bounds versions.
    pub tick: u64,
}

impl View for StateStore {
    type V = Seq<EntryModel>;

    open spec fn view(&self) -> Seq<EntryModel> {
        entry_models(self.entries@)
    }
}

impl StateStore {
    /// Ids distinct, documents well formed, versions below the counter.
    pub open spec fn wf(&self) -> bool {
        &&& entry_ids_unique(self@)
        &&& entries_props_wf(self@)
        &&& forall|i: int| 0 <= i < self@.len() ==> (#[trigger] self@[i].version as int) <= self.tick as int
    }

    /// The map from id to entry.
    pub open spec fn as_map(&self) -> Map<Seq<char>, EntryModel> {
        entries_map(self@)
    }

    /// An empty store.
    pub fn new() -> (r: StateStore)
        ensures
            r.wf(),
            r@ =~= Seq::<EntryModel>::empty(),
            r.tick == 1,
    {
        StateStore { entries: Vec::new(), tick: 1 }
    }

    /// Look up the entry recorded for an id.
    pub fn get(&self, id: &String) -> (r: Option<&StateEntry>)
        requires
            self.wf(),
        ensures
            match r {
                Some(e) => self.as_map().contains_key(id@) && self.as_map()[id@] == e@,
                None => !self.as_map().contains_key(id@),
            },
    {
        match find_entry(&self.entries, id) {
            Some(i) => {
                proof {
                    lemma_entries_map_at(self@, i as int);
                }
                Some(&self.entries[i])
            },
            None => {
                proof {
                    if self.as_map().contains_key(id@) {
                        let j = choose|j: int| 0 <= j < self@.len() && self@[j].id == id@;
                    }
                }
                None
            },
        }
    }

    /// Copy the entries as they stand.
    pub fn snapshot(&self) -> (r: Snapshot)
        requires
            self.wf(),
        ensures
            r@ == self@,
            r.wf(),
    {
        let mut entries: Vec<StateEntry> = Vec::new();
        let n = self.entries.len();
        let mut i: usize = 0;
        while i < n
            invariant
                n == self.entries@.len(),
                0 <= i <= n,
                entries@.len() == i,
                forall|j: int| 0 <= j < i ==> entry_models(entries@)[j] == self@[j],
            decreases n - i,
        {
            let e = self.entries[i].clone();
            entries.push(e);
            i = i + 1;
        }
        let r = Snapshot { entries };
        proof {
            assert(r@ =~= self@);
        }
        r
    }

    /// Record the state of a resource, guarded by the version the caller
    /// last saw: `None` claims the id is absent. On success the entry is
    /// written with the next version and the current commit time.
    pub fn commit_put(
        &mut self,
        id: String,
        provider: String,
        rtype: String,
        props: Props,
        expected: Option<u64>,
    ) -> (r: Result<(), ConflictError>)
        requires
            old(self).wf(),
            paths_unique(props@),
            old(self).tick < u64::MAX,
        ensures
            final(self).wf(),
            match r {
                Ok(()) => {
                    &&& match expected {
                        Some(v) => old(self).as_map().contains_key(id@) && old(self).as_map()[id@].version == v,
                        None => !old(self).as_map().contains_key(id@),
                    }
                    &&& final(self).as_map() =~= old(self).as_map().insert(
                        id@,
                        final(self).as_map()[id@],
                    )
                    &&& final(self).as_map().contains_key(id@)
                    &&& final(self).as_map()[id@].id == id@
                    &&& final(self).as_map()[id@].provider == provider@
                    &&& final(self).as_map()[id@].rtype == rtype@
                    &&& final(self).as_map()[id@].props == props@
                    &&& final(self).as_map()[id@].version as int == (match expected {
                        Some(v) => v as int + 1,
                        None => 1,
                    })
                    &&& final(self).as_map()[id@].last_applied_at == old(self).tick
                    &&& final(self).tick as int == old(self).tick as int + 1
                    // The entry order is pinned: replacement in place, or appended last.
                    &&& (exists|i: int|
                        0 <= i < old(self)@.len() && old(self)@[i].id == id@ && final(self)@
                            =~= old(self)@.update(i, final(self).as_map()[id@]))
                        || (!old(self).as_map().contains_key(id@) && final(self)@ =~= old(
                        self,
                    )@.push(final(self).as_map()[id@]))
                },
                Err(_) => {
                    &&& *final(self) == *old(self)
                    &&& match expected {
                        Some(v) => !old(self).as_map().contains_key(id@) || old(self).as_map()[id@].version != v,
                        None => old(self).as_map().contains_key(id@),
                    }
                },
            },
    {
        let ghost old_view = self@;
        let ghost old_map = self.as_map();
        match find_entry(&self.entries, &id) {
            Some(i) => {
                proof {
                    lemma_entries_map_at(old_view, i as int);
                }
                proof {
                    assert(self.entries@[i as int]@ == old_view[i as int]);
                    assert(old_view[i as int].version as int <= self.tick as int);
                }
                let cur_version = self.entries[i].version;
                match expected {
                    Some(v) => {
                        if v != cur_version {
                            return Err(ConflictError);
                        }
                        let e = StateEntry {
                            id,
                            provider,
                            rtype,
                            props,
                            version: cur_version + 1,
                            last_applied_at: self.tick,
                        };
                        let ghost em = e@;
                        self.entries.set(i, e);
                        self.tick = self.tick + 1;
                        proof {
                            let iv = i as int;
                            assert(self@ =~= old_view.update(iv, em));
                            assert(entry_ids_unique(self@));
                            lemma_entries_map_at(self@, iv);
                            assert forall|k: Seq<char>|
                                self.as_map().contains_key(k) <==> old_map.insert(
                                    id@,
                                    em,
                                ).contains_key(k) by {
                                if k != id@ {
                                    assert(forall|j: int|
                                        0 <= j < self@.len() ==> (self@[j].id == k <==> old_view[j].id == k));
                                }
                            }
                            assert forall|k: Seq<char>| self.as_map().contains_key(k) implies
                                self.as_map()[k] == old_map.insert(id@, em)[k] by {
                                if k != id@ {
                                    let j = choose|j: int| 0 <= j < self@.len() && self@[j].id == k;
                                    lemma_entries_map_at(self@, j);
                                    lemma_entries_map_at(old_view, j);
                                }
                            }
                            assert(self.as_map() =~= old_map.insert(id@, em));
                            assert(entries_props_wf(self@));
                            assert(forall|j: int|
                                0 <= j < self@.len() ==> (#[trigger] self@[j].version as int) <= self.tick as int);
                        }
                        Ok(())
                    },
                    None => Err(ConflictError),
                }
            },
            None => {
                proof {
                    if old_map.contains_key(id@) {
                        let j = choose|j: int| 0 <= j < old_view.len() && old_view[j].id == id@;
                    }
                }
                match expected {
                    Some(_) => Err(ConflictError),
                    None => {
                        let e = StateEntry {
                            id,
                            provider,
                            rtype,
                            props,
                            version: 1,
                            last_applied_at: self.tick,
                        };
                        let ghost em = e@;
                        self.entries.push(e);
                        self.tick = self.tick + 1;
                        proof {
                            assert(self@ =~= old_view.push(em));
                            assert(forall|j: int| 0 <= j < old_view.len() ==> old_view[j].id != id@);
                            assert(entry_ids_unique(self@));
                            let m = old_view.len() as int;
                            lemma_entries_map_at(self@, m);
                            assert forall|k: Seq<char>|
                                self.as_map().contains_key(k) <==> old_map.insert(
                                    id@,
                                    em,
                                ).contains_key(k) by {
                                if k != id@ {
                                    assert(forall|j: int| 0 <= j < m ==> self@[j] == old_view[j]);
                                }
                            }
                            assert forall|k: Seq<char>| self.as_map().contains_key(k) implies
                                self.as_map()[k] == old_map.insert(id@, em)[k] by {
                                if k != id@ {
                                    let j = choose|j: int| 0 <= j < self@.len() && self@[j].id == k;
                                    assert(j < m);
                                    lemma_entries_map_at(self@, j);
                                    lemma_entries_map_at(old_view, j);
                                }
                            }
                            assert(self.as_map() =~= old_map.insert(id@, em));
                            assert(entries_props_wf(self@));
                            assert(forall|j: int|
                                0 <= j < self@.len() ==> (#[trigger] self@[j].version as int) <= self.tick as int);
                        }
                        Ok(())
                    },
                }
            },
        }
    }

    /// Remove the entry for an id, guarded by the version the caller last
    /// saw.
    pub fn commit_delete(&mut self, id: &String, expected: u64) -> (r: Result<(), ConflictError>)
        requires
            old(self).wf(),
        ensures
            final(self).wf(),
            final(self).tick == old(self).tick,
            match r {
                Ok(()) => {
                    &&& old(self).as_map().contains_key(id@)
                    &&& old(self).as_map()[id@].version == expected
                    &&& final(self).as_map() =~= old(self).as_map().remove(id@)
                    // The entry order of the others is kept.
                    &&& exists|i: int|
                        0 <= i < old(self)@.len() && old(self)@[i].id == id@ && final(self)@
                            =~= old(self)@.remove(i)
                },
                Err(_) => {
                    &&& *final(self) == *old(self)
                    &&& (!old(self).as_map().contains_key(id@) || old(self).as_map()[id@].version != expected)
                },
            },
    {
        let ghost old_view = self@;
        let ghost old_map = self.as_map();
        match find_entry(&self.entries, id) {
            Some(i) => {
                proof {
                    lemma_entries_map_at(old_view, i as int);
                }
                if self.entries[i].version != expected {
                    return Err(ConflictError);
                }
                self.entries.remove(i);
                proof {
                    let iv = i as int;
                    assert(self@ =~= old_view.remove(iv));
                    assert forall|a: int, b: int|
                        0 <= a < b < self@.len() implies self@[a].id != self@[b].id by {
                        if b < iv {
                        } else if a < iv {
                            assert(self@[b] == old_view[b + 1]);
                        } else {
                            assert(self@[a] == old_view[a + 1]);
                            assert(self@[b] == old_view[b + 1]);
                        }
                    }
                    assert(entry_ids_unique(self@));
                    assert forall|k: Seq<char>|
                        self.as_map().contains_key(k) <==> old_map.remove(id@).contains_key(k) by {
                        if k != id@ {
                            if exists|j: int| 0 <= j < old_view.len() && old_view[j].id == k {
                                let j = choose|j: int| 0 <= j < old_view.len() && old_view[j].id == k;
                                if j < iv {
                                    assert(self@[j].id == k);
                                } else if j > iv {
                                    assert(self@[j - 1].id == k);
                                }
                            }
                            if exists|j: int| 0 <= j < self@.len() && self@[j].id == k {
                                let j = choose|j: int| 0 <= j < self@.len() && self@[j].id == k;
                                if j < iv {
                                    assert(old_view[j].id == k);
                                } else {
                                    assert(old_view[j + 1].id == k);
                                }
                            }
                        } else {
                            if exists|j: int| 0 <= j < self@.len() && self@[j].id == k {
                                let j = choose|j: int| 0 <= j < self@.len() && self@[j].id == k;
                                if j < iv {
                                } else {
                                    assert(old_view[j + 1].id == k);
                                }
                                assert(false);
                            }
                        }
                    }
                    assert forall|k: Seq<char>| self.as_map().contains_key(k) implies
                        self.as_map()[k] == old_map.remove(id@)[k] by {
                        let j = choose|j: int| 0 <= j < self@.len() && self@[j].id == k;
                        lemma_entries_map_at(self@, j);
                        if j < iv {
                            lemma_entries_map_at(old_view, j);
                        } else {
                            lemma_entries_map_at(old_view, j + 1);
                        }
                    }
                    assert(self.as_map() =~= old_map.remove(id@));
                }
                Ok(())
            },
            None => {
                proof {
                    if old_map.contains_key(id@) {
                        let j = choose|j: int| 0 <= j < old_view.len() && old_view[j].id == id@;
                    }
                }
                Err(ConflictError)
            },
        }
    }
}

} // verus!

verus! {

impl StateStore {
    /// Check well-formedness at run time, for stores read back from
    /// storage outside the library.
    pub fn check_wf(&self) -> (r: bool)
        ensures
            r ==> self.wf(),
    {
        let n = self.entries.len();
        let mut i: usize = 0;
        while i < n
            invariant
                n == self.entries@.len(),
                0 <= i <= n,
                forall|a: int, b: int| 0 <= a < b < i ==> self@[a].id != self@[b].id,
                forall|a: int| 0 <= a < i ==> paths_unique(#[trigger] self@[a].props),
                forall|a: int| 0 <= a < i ==> (#[trigger] self@[a].version as int) <= self.tick as int,
            decreases n - i,
        {
            proof {
                assert(self@[i as int] == self.entries@[i as int]@);
            }
            let e = &self.entries[i];
            if e.version > self.tick {
                return false;
            }
            if !crate::props::props_wf_check(&e.props) {
                return false;
            }
            let mut j: usize = 0;
            while j < i
                invariant
                    n == self.entries@.len(),
                    0 <= j <= i < n,
                    e == &self.entries@[i as int],
                    self@[i as int] == self.entries@[i as int]@,
                    forall|b: int| 0 <= b < j ==> self@[b].id != self@[i as int].id,
                decreases i - j,
            {
                proof {
                    assert(self@[j as int] == self.entries@[j as int]@);
                }
                let dup = { let q = &self.entries[j]; q.id == e.id };
                if dup {
                    return false;
                }
                j = j + 1;
            }
            proof {
                assert forall|a: int, b: int|
                    0 <= a < b < i + 1 implies self@[a].id != self@[b].id by {}
            }
            i = i + 1;
        }
        true
    }
}

} // verus!
