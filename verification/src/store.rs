//! The storage store: a hash-addressed registry of per-block snapshots,
//! with parent/child derivation and eviction.

use vstd::prelude::*;

use crate::delta::{apply_delta, delta_pairs_model, lemma_apply_delta_set, lemma_apply_delta_del,
    DeltaSet};
use crate::snapshot::{clone_bytes, Snapshot};

verus! {

/// What one snapshot contributes to the store's model: its parent
/// back-reference and its key/value contents.
pub struct SnapshotModel {
    pub parent: u64,
    pub entries: Map<Seq<u8>, Seq<u8>>,
}

/// The model of one stored snapshot.
pub open spec fn snap_model(s: Snapshot) -> SnapshotModel {
    SnapshotModel { parent: s.parent_hash, entries: s@ }
}

/// The map that a list of store slots denotes.
pub open spec fn slots_map(s: Seq<(u64, Snapshot)>) -> Map<u64, SnapshotModel>
    decreases s.len(),
{
    if s.len() == 0 {
        Map::empty()
    } else {
        slots_map(s.drop_last()).insert(s.last().0, snap_model(s.last().1))
    }
}

/// No two slots share a block hash.
pub open spec fn slots_distinct(s: Seq<(u64, Snapshot)>) -> bool {
    forall|i: int, j: int|
        #![trigger s[i], s[j]]
        0 <= i < j < s.len() ==> s[i].0 != s[j].0
}

/// Every slot is keyed by its snapshot's own block hash, and the snapshot is
/// well formed.
pub open spec fn slots_wf(s: Seq<(u64, Snapshot)>) -> bool {
    forall|i: int|
        #![trigger s[i]]
        0 <= i < s.len() ==> s[i].1.wf() && s[i].1.block_hash == s[i].0
}

/// A hash is in the denoted map exactly when some slot carries it.
pub proof fn lemma_slots_map_contains(s: Seq<(u64, Snapshot)>, h: u64)
    ensures
        slots_map(s).contains_key(h) <==> exists|i: int| 0 <= i < s.len() && (#[trigger] s[i]).0
            == h,
    decreases s.len(),
{
    if s.len() > 0 {
        lemma_slots_map_contains(s.drop_last(), h);
        if slots_map(s).contains_key(h) {
            if h == s.last().0 {
                assert((s[s.len() - 1]).0 == h);
            } else {
                let i = choose|i: int|
                    0 <= i < s.drop_last().len() && (#[trigger] s.drop_last()[i]).0 == h;
                assert((s[i]).0 == h);
            }
        }
        if exists|i: int| 0 <= i < s.len() && (#[trigger] s[i]).0 == h {
            let i = choose|i: int| 0 <= i < s.len() && (#[trigger] s[i]).0 == h;
            if i < s.len() - 1 {
                assert((s.drop_last()[i]).0 == h);
            }
        }
    }
}

/// With distinct hashes, each slot's hash maps to that slot's snapshot.
pub proof fn lemma_slots_map_index(s: Seq<(u64, Snapshot)>, i: int)
    requires
        slots_distinct(s),
        0 <= i < s.len(),
    ensures
        slots_map(s).contains_key(s[i].0),
        slots_map(s)[s[i].0] == snap_model(s[i].1),
    decreases s.len(),
{
    if i < s.len() - 1 {
        assert forall|p: int, q: int|
            #![trigger s.drop_last()[p], s.drop_last()[q]]
            0 <= p < q < s.drop_last().len() implies (s.drop_last()[p]).0
            != (s.drop_last()[q]).0 by {
            assert(s.drop_last()[p] == s[p]);
            assert(s.drop_last()[q] == s[q]);
        }
        lemma_slots_map_index(s.drop_last(), i);
        assert(s.drop_last()[i] == s[i]);
        assert(s[i].0 != s.last().0);
    }
}

/// A distinct slot list denotes the one map that agrees with it pointwise.
pub proof fn lemma_slots_map_agrees(s: Seq<(u64, Snapshot)>, m: Map<u64, SnapshotModel>)
    requires
        slots_distinct(s),
        forall|i: int|
            0 <= i < s.len() ==> m.contains_key((#[trigger] s[i]).0) && m[s[i].0] == snap_model(
                s[i].1,
            ),
        forall|h: u64|
            #[trigger] m.contains_key(h) ==> exists|i: int| 0 <= i < s.len() && (#[trigger] s[i]).0
                == h,
    ensures
        slots_map(s) == m,
{
    assert forall|h: u64| #[trigger]
        slots_map(s).contains_key(h) implies m.contains_key(h) && slots_map(s)[h] == m[h] by {
        lemma_slots_map_contains(s, h);
        let i = choose|i: int| 0 <= i < s.len() && (#[trigger] s[i]).0 == h;
        lemma_slots_map_index(s, i);
    }
    assert forall|h: u64| #[trigger] m.contains_key(h) implies slots_map(s).contains_key(h) by {
        let i = choose|i: int| 0 <= i < s.len() && (#[trigger] s[i]).0 == h;
        lemma_slots_map_index(s, i);
    }
    assert(slots_map(s) =~= m);
}

/// How a store operation can fail.
#[derive(Debug, PartialEq, Eq)]
pub enum StoreError {
    /// The requested block hash has no snapshot.
    NotFound,
    /// The parent hash handed to a derivation is unknown.
    MissingParentSnapshot,
}

/// Hash-addressed registry of storage snapshots, at most one per block hash.
pub struct Store {
    /// The stored snapshots, keyed by block hash (see `wf`).
    pub slots: Vec<(u64, Snapshot)>,
}

impl View for Store {
    type V = Map<u64, SnapshotModel>;

    open spec fn view(&self) -> Map<u64, SnapshotModel> {
        slots_map(self.slots@)
    }
}

impl Store {
    /// Hashes are unique and each slot is keyed by its snapshot's own hash.
    pub open spec fn wf(&self) -> bool {
        slots_distinct(self.slots@) && slots_wf(self.slots@)
    }

    /// An empty store.
    pub fn new() -> (r: Store)
        ensures
            r.wf(),
            r@ == Map::<u64, SnapshotModel>::empty(),
    {
        Store { slots: Vec::new() }
    }

    /// The snapshot recorded for `hash`; fails with `NotFound` if absent.
    pub fn get(&self, hash: u64) -> (r: Result<&Snapshot, StoreError>)
        requires
            self.wf(),
        ensures
            match r {
                Ok(s) => self@.contains_key(hash) && s.wf() && s.block_hash == hash
                    && s.parent_hash == self@[hash].parent && s@ == self@[hash].entries,
                Err(e) => !self@.contains_key(hash) && e == StoreError::NotFound,
            },
    {
        let n = self.slots.len();
        let mut i: usize = 0;
        while i < n
            invariant
                self.wf(),
                0 <= i <= n,
                n == self.slots@.len(),
                forall|j: int| 0 <= j < i ==> (#[trigger] self.slots@[j]).0 != hash,
            decreases n - i,
        {
            if self.slots[i].0 == hash {
                proof {
                    lemma_slots_map_index(self.slots@, i as int);
                }
                return Ok(&self.slots[i].1);
            }
            i = i + 1;
        }
        proof {
            lemma_slots_map_contains(self.slots@, hash);
        }
        Err(StoreError::NotFound)
    }

    /// Records `snapshot` under its own block hash, replacing any snapshot
    /// already recorded there.
    pub fn insert_snapshot(&mut self, snapshot: Snapshot)
        requires
            old(self).wf(),
            snapshot.wf(),
        ensures
            final(self).wf(),
            final(self)@ == old(self)@.insert(snapshot.block_hash, snap_model(snapshot)),
    {
        proof {
            lemma_slots_map_contains(self.slots@, snapshot.block_hash);
        }
        let ghost old_slots = self.slots@;
        let ghost m = slots_map(old_slots).insert(snapshot.block_hash, snap_model(snapshot));
        let hash = snapshot.block_hash;
        let n = self.slots.len();
        let mut i: usize = 0;
        while i < n
            invariant
                0 <= i <= n,
                n == self.slots@.len(),
                self.slots@ == old_slots,
                old_slots == old(self).slots@,
                slots_distinct(old_slots),
                slots_wf(old_slots),
                hash == snapshot.block_hash,
                snapshot.wf(),
                m == slots_map(old_slots).insert(snapshot.block_hash, snap_model(snapshot)),
                forall|j: int| 0 <= j < i ==> (#[trigger] old_slots[j]).0 != hash,
            decreases n - i,
        {
            if self.slots[i].0 == hash {
                self.slots.remove(i);
                self.slots.insert(i, (hash, snapshot));
                proof {
                    let s = self.slots@;
                    assert(s == old_slots.remove(i as int).insert(i as int, s[i as int]));
                    assert(s.len() == old_slots.len());
                    assert forall|j: int| #![trigger s[j]] 0 <= j < s.len() && j != i implies s[j]
                        == old_slots[j] by {}
                    assert(s[i as int].0 == hash);
                    assert(slots_distinct(s));
                    assert(slots_wf(s));
                    assert forall|j: int|
                        0 <= j < s.len() implies m.contains_key((#[trigger] s[j]).0) && m[s[j].0]
                        == snap_model(s[j].1) by {
                        if j != i {
                            lemma_slots_map_index(old_slots, j);
                            assert(s[j].0 != hash);
                        }
                    }
                    assert forall|h: u64| #[trigger] m.contains_key(h) implies exists|j: int|
                        0 <= j < s.len() && (#[trigger] s[j]).0 == h by {
                        if h == hash {
                            assert(s[i as int].0 == h);
                        } else {
                            lemma_slots_map_contains(old_slots, h);
                            let j = choose|j: int|
                                0 <= j < old_slots.len() && (#[trigger] old_slots[j]).0 == h;
                            assert(s[j].0 == h);
                        }
                    }
                    lemma_slots_map_agrees(s, m);
                }
                return ;
            }
            i = i + 1;
        }
        self.slots.push((hash, snapshot));
        proof {
            let s = self.slots@;
            assert(s == old_slots.push((hash, snapshot)));
            assert forall|j: int| #![trigger s[j]] 0 <= j < old_slots.len() implies s[j]
                == old_slots[j] by {}
            assert(s[s.len() - 1].0 == hash);
            assert(slots_distinct(s));
            assert(slots_wf(s));
            assert forall|j: int|
                0 <= j < s.len() implies m.contains_key((#[trigger] s[j]).0) && m[s[j].0]
                == snap_model(s[j].1) by {
                if j < s.len() - 1 {
                    lemma_slots_map_index(old_slots, j);
                    assert(s[j].0 != hash);
                }
            }
            assert forall|h: u64| #[trigger] m.contains_key(h) implies exists|j: int|
                0 <= j < s.len() && (#[trigger] s[j]).0 == h by {
                if h == hash {
                    assert(s[s.len() - 1].0 == h);
                } else {
                    lemma_slots_map_contains(old_slots, h);
                    let j = choose|j: int|
                        0 <= j < old_slots.len() && (#[trigger] old_slots[j]).0 == h;
                    assert(s[j].0 == h);
                }
            }
            lemma_slots_map_agrees(s, m);
        }
    }

    /// Evicts the snapshot recorded under `hash`, if any; a later `get` on
    /// that hash fails with `NotFound`.
    pub fn evict(&mut self, hash: u64)
        requires
            old(self).wf(),
        ensures
            final(self).wf(),
            final(self)@ == old(self)@.remove(hash),
    {
        let ghost old_slots = self.slots@;
        let ghost m = slots_map(old_slots).remove(hash);
        let n = self.slots.len();
        let mut i: usize = 0;
        while i < n
            invariant
                0 <= i <= n,
                n == self.slots@.len(),
                self.slots@ == old_slots,
                old_slots == old(self).slots@,
                slots_distinct(old_slots),
                slots_wf(old_slots),
                m == slots_map(old_slots).remove(hash),
                forall|j: int| 0 <= j < i ==> (#[trigger] old_slots[j]).0 != hash,
            decreases n - i,
        {
            if self.slots[i].0 == hash {
                self.slots.remove(i);
                proof {
                    let s = self.slots@;
                    assert(s == old_slots.remove(i as int));
                    assert forall|j: int| #![trigger s[j]] 0 <= j < s.len() implies s[j] == (
                    if j < i {
                        old_slots[j]
                    } else {
                        old_slots[j + 1]
                    }) by {}
                    assert(slots_distinct(s));
                    assert(slots_wf(s));
                    assert forall|j: int|
                        0 <= j < s.len() implies m.contains_key((#[trigger] s[j]).0) && m[s[j].0]
                        == snap_model(s[j].1) by {
                        let oj: int = if j < i {
                            j
                        } else {
                            j + 1
                        };
                        lemma_slots_map_index(old_slots, oj);
                        assert(old_slots[oj].0 != hash);
                    }
                    assert forall|h: u64| #[trigger] m.contains_key(h) implies exists|j: int|
                        0 <= j < s.len() && (#[trigger] s[j]).0 == h by {
                        lemma_slots_map_contains(old_slots, h);
                        let j = choose|j: int|
                            0 <= j < old_slots.len() && (#[trigger] old_slots[j]).0 == h;
                        assert(h != hash);
                        assert(j != i);
                        if j < i {
                            assert(s[j].0 == h);
                        } else {
                            assert(s[j - 1].0 == h);
                        }
                    }
                    lemma_slots_map_agrees(s, m);
                }
                return ;
            }
            i = i + 1;
        }
        proof {
            lemma_slots_map_contains(old_slots, hash);
            assert(slots_map(old_slots) =~= m);
        }
    }

    /// Derives a child snapshot: the parent's contents with `delta` applied
    /// (a present value overwrites or inserts, an absent value deletes),
    /// recorded under `new_hash`. Fails with `MissingParentSnapshot` when
    /// `parent_hash` is unknown, leaving the store unchanged.
    pub fn derive_child(&mut self, parent_hash: u64, new_hash: u64, delta: &DeltaSet) -> (r: Result<
        Snapshot,
        StoreError,
    >)
        requires
            old(self).wf(),
        ensures
            final(self).wf(),
            match r {
                Ok(child) => old(self)@.contains_key(parent_hash) && child.wf()
                    && child.block_hash == new_hash && child.parent_hash == parent_hash && child@
                    == apply_delta(old(self)@[parent_hash].entries, delta@) && final(self)@ == old(
                    self,
                )@.insert(new_hash, snap_model(child)),
                Err(e) => !old(self)@.contains_key(parent_hash) && e
                    == StoreError::MissingParentSnapshot && final(self)@ == old(self)@,
            },
    {
        let parent = match self.get(parent_hash) {
            Ok(p) => p,
            Err(_) => {
                return Err(StoreError::MissingParentSnapshot);
            },
        };
        let mut child = parent.child_copy(new_hash);
        let pairs = delta.pairs();
        let ghost parent_entries = parent@;
        let n = pairs.len();
        let mut i: usize = 0;
        while i < n
            invariant
                child.wf(),
                child.block_hash == new_hash,
                child.parent_hash == parent_hash,
                0 <= i <= n,
                n == pairs@.len(),
                child@ == apply_delta(parent_entries, delta_pairs_model(pairs@.take(i as int))),
            decreases n - i,
        {
            proof {
                assert(pairs@.take(i + 1 as int).drop_last() =~= pairs@.take(i as int));
                assert(pairs@.take(i + 1 as int).last() == pairs@[i as int]);
            }
            match &pairs[i].1 {
                Some(v) => {
                    let k = clone_bytes(&pairs[i].0);
                    let value = clone_bytes(v);
                    proof {
                        lemma_apply_delta_set(
                            parent_entries,
                            delta_pairs_model(pairs@.take(i as int)),
                            pairs@[i as int].0@,
                            pairs@[i as int].1->0@,
                        );
                    }
                    child.insert_entry(k, value);
                },
                None => {
                    proof {
                        lemma_apply_delta_del(
                            parent_entries,
                            delta_pairs_model(pairs@.take(i as int)),
                            pairs@[i as int].0@,
                        );
                    }
                    child.remove_entry(&pairs[i].0);
                },
            }
            i = i + 1;
        }
        proof {
            assert(pairs@.take(n as int) =~= pairs@);
        }
        let stored = child.duplicate();
        self.insert_snapshot(stored);
        Ok(child)
    }
}

} // verus!
