//! Storage snapshots: the complete key/value state owned by one block,
//! kept as a strictly sorted list of entries and viewed as a map from
//! byte-string keys to byte-string values.

use vstd::prelude::*;

use crate::keys::{key_eq, key_lt, has_prefix, is_prefix_of, lex_lt, lemma_lex_trichotomy};

verus! {

/// The map that a list of entries denotes; a later entry overrides an
/// earlier one with the same key.
pub open spec fn entries_map(s: Seq<(Vec<u8>, Vec<u8>)>) -> Map<Seq<u8>, Seq<u8>>
    decreases s.len(),
{
    if s.len() == 0 {
        Map::empty()
    } else {
        entries_map(s.drop_last()).insert(s.last().0@, s.last().1@)
    }
}

/// Entry keys are strictly ascending in lexicographic order.
pub open spec fn entries_sorted(s: Seq<(Vec<u8>, Vec<u8>)>) -> bool {
    forall|i: int, j: int|
        #![trigger s[i], s[j]]
        0 <= i < j < s.len() ==> lex_lt(s[i].0@, s[j].0@)
}

/// No two entries share a key.
pub open spec fn entries_distinct(s: Seq<(Vec<u8>, Vec<u8>)>) -> bool {
    forall|i: int, j: int|
        #![trigger s[i], s[j]]
        0 <= i < j < s.len() ==> s[i].0@ != s[j].0@
}

pub proof fn lemma_sorted_distinct(s: Seq<(Vec<u8>, Vec<u8>)>)
    requires
        entries_sorted(s),
    ensures
        entries_distinct(s),
{
    assert forall|i: int, j: int|
        #![trigger s[i], s[j]]
        0 <= i < j < s.len() implies s[i].0@ != s[j].0@ by {
        lemma_lex_trichotomy(s[i].0@, s[j].0@);
    }
}

/// A key is in the denoted map exactly when some entry carries it.
pub proof fn lemma_entries_map_contains(s: Seq<(Vec<u8>, Vec<u8>)>, k: Seq<u8>)
    ensures
        entries_map(s).contains_key(k) <==> exists|i: int|
            0 <= i < s.len() && #[trigger] s[i].0@ == k,
    decreases s.len(),
{
    if s.len() > 0 {
        lemma_entries_map_contains(s.drop_last(), k);
        if entries_map(s).contains_key(k) {
            if k == s.last().0@ {
                assert(s[s.len() - 1].0@ == k);
            } else {
                let i = choose|i: int|
                    0 <= i < s.drop_last().len() && #[trigger] s.drop_last()[i].0@ == k;
                assert(s[i].0@ == k);
            }
        }
        if exists|i: int| 0 <= i < s.len() && #[trigger] s[i].0@ == k {
            let i = choose|i: int| 0 <= i < s.len() && #[trigger] s[i].0@ == k;
            if i < s.len() - 1 {
                assert(s.drop_last()[i].0@ == k);
            }
        }
    }
}

/// With distinct keys, each entry's key maps to that entry's value.
pub proof fn lemma_entries_map_index(s: Seq<(Vec<u8>, Vec<u8>)>, i: int)
    requires
        entries_distinct(s),
        0 <= i < s.len(),
    ensures
        entries_map(s).contains_key(s[i].0@),
        entries_map(s)[s[i].0@] == s[i].1@,
    decreases s.len(),
{
    if i == s.len() - 1 {
    } else {
        assert forall|p: int, q: int|
            #![trigger s.drop_last()[p], s.drop_last()[q]]
            0 <= p < q < s.drop_last().len() implies s.drop_last()[p].0@
            != s.drop_last()[q].0@ by {
            assert(s.drop_last()[p] == s[p]);
            assert(s.drop_last()[q] == s[q]);
        }
        lemma_entries_map_index(s.drop_last(), i);
        assert(s.drop_last()[i] == s[i]);
        assert(s[i].0@ != s.last().0@);
    }
}

/// A distinct entry list denotes the one map that agrees with it pointwise.
pub proof fn lemma_entries_map_agrees(s: Seq<(Vec<u8>, Vec<u8>)>, m: Map<Seq<u8>, Seq<u8>>)
    requires
        entries_distinct(s),
        forall|i: int|
            0 <= i < s.len() ==> m.contains_key(#[trigger] s[i].0@) && m[s[i].0@] == s[i].1@,
        forall|k: Seq<u8>|
            #[trigger] m.contains_key(k) ==> exists|i: int|
                0 <= i < s.len() && #[trigger] s[i].0@ == k,
    ensures
        entries_map(s) == m,
{
    assert forall|k: Seq<u8>| #[trigger]
        entries_map(s).contains_key(k) implies m.contains_key(k) && entries_map(s)[k] == m[k] by {
        lemma_entries_map_contains(s, k);
        let i = choose|i: int| 0 <= i < s.len() && #[trigger] s[i].0@ == k;
        lemma_entries_map_index(s, i);
    }
    assert forall|k: Seq<u8>| #[trigger] m.contains_key(k) implies entries_map(s).contains_key(
        k,
    ) by {
        let i = choose|i: int| 0 <= i < s.len() && #[trigger] s[i].0@ == k;
        lemma_entries_map_index(s, i);
    }
    assert(entries_map(s) =~= m);
}

/// Two entry lists equal under the view denote the same map.
pub proof fn lemma_entries_map_congruence(s1: Seq<(Vec<u8>, Vec<u8>)>, s2: Seq<(Vec<u8>, Vec<u8>)>)
    requires
        s1.len() == s2.len(),
        forall|i: int|
            #![trigger s1[i], s2[i]]
            0 <= i < s1.len() ==> s1[i].0@ == s2[i].0@ && s1[i].1@ == s2[i].1@,
    ensures
        entries_map(s1) == entries_map(s2),
    decreases s1.len(),
{
    if s1.len() > 0 {
        assert forall|i: int|
            #![trigger s1.drop_last()[i], s2.drop_last()[i]]
            0 <= i < s1.drop_last().len() implies s1.drop_last()[i].0@ == s2.drop_last()[i].0@
            && s1.drop_last()[i].1@ == s2.drop_last()[i].1@ by {
            assert(s1.drop_last()[i] == s1[i]);
            assert(s2.drop_last()[i] == s2[i]);
        }
        lemma_entries_map_congruence(s1.drop_last(), s2.drop_last());
        assert(s1[s1.len() - 1].0@ == s2[s2.len() - 1].0@);
        assert(s1[s1.len() - 1].1@ == s2[s2.len() - 1].1@);
    }
}

/// Copies a byte string.
pub fn clone_bytes(v: &Vec<u8>) -> (r: Vec<u8>)
    ensures
        r@ == v@,
{
    let mut r: Vec<u8> = Vec::new();
    let mut i: usize = 0;
    while i < v.len()
        invariant
            0 <= i <= v@.len(),
            r@ == v@.take(i as int),
        decreases v@.len() - i,
    {
        r.push(v[i]);
        proof {
            assert(r@ =~= v@.take(i + 1 as int));
        }
        i = i + 1;
    }
    proof {
        assert(v@.take(v@.len() as int) =~= v@);
    }
    r
}

/// The storage state belonging to one block: its owning block hash, a
/// back-reference to the parent block's hash, and an ordered key/value
/// mapping.
pub struct Snapshot {
    /// Hash of the block this state belongs to.
    pub block_hash: u64,
    /// Hash of the parent block (lookup-only back-reference).
    pub parent_hash: u64,
    /// The key/value entries, strictly sorted by key (see `wf`).
    pub entries: Vec<(Vec<u8>, Vec<u8>)>,
}

impl View for Snapshot {
    type V = Map<Seq<u8>, Seq<u8>>;

    open spec fn view(&self) -> Map<Seq<u8>, Seq<u8>> {
        entries_map(self.entries@)
    }
}

impl Snapshot {
    /// Entries are kept strictly sorted by key.
    pub open spec fn wf(&self) -> bool {
        entries_sorted(self.entries@)
    }

    /// An empty snapshot for the given block.
    pub fn empty(block_hash: u64, parent_hash: u64) -> (r: Snapshot)
        ensures
            r.wf(),
            r@ == Map::<Seq<u8>, Seq<u8>>::empty(),
            r.block_hash == block_hash,
            r.parent_hash == parent_hash,
    {
        Snapshot { block_hash, parent_hash, entries: Vec::new() }
    }

    /// Point lookup: the value stored under `key`, if any.
    pub fn get(&self, key: &Vec<u8>) -> (r: Option<Vec<u8>>)
        requires
            self.wf(),
        ensures
            match r {
                Some(v) => self@.contains_key(key@) && v@ == self@[key@],
                None => !self@.contains_key(key@),
            },
    {
        let n = self.entries.len();
        let mut i: usize = 0;
        while i < n
            invariant
                self.wf(),
                0 <= i <= n,
                n == self.entries@.len(),
                forall|j: int| 0 <= j < i ==> (#[trigger] self.entries@[j]).0@ != key@,
            decreases n - i,
        {
            if key_eq(&self.entries[i].0, key) {
                proof {
                    lemma_sorted_distinct(self.entries@);
                    lemma_entries_map_index(self.entries@, i as int);
                }
                return Some(clone_bytes(&self.entries[i].1));
            }
            i = i + 1;
        }
        proof {
            lemma_entries_map_contains(self.entries@, key@);
        }
        None
    }

    /// All keys carrying the given prefix, in ascending order.
    #[verifier::rlimit(50)]
    pub fn keys_with_prefix(&self, prefix: &Vec<u8>) -> (r: Vec<Vec<u8>>)
        requires
            self.wf(),
        ensures
            forall|t: int|
                0 <= t < r@.len() ==> self@.contains_key((#[trigger] r@[t])@) && is_prefix_of(
                    prefix@,
                    r@[t]@,
                ),
            forall|k: Seq<u8>|
                self@.contains_key(k) && is_prefix_of(prefix@, k) ==> exists|t: int|
                    0 <= t < r@.len() && (#[trigger] r@[t])@ == k,
            forall|t1: int, t2: int|
                #![trigger r@[t1], r@[t2]]
                0 <= t1 < t2 < r@.len() ==> lex_lt(r@[t1]@, r@[t2]@),
    {
        let n = self.entries.len();
        let mut r: Vec<Vec<u8>> = Vec::new();
        let ghost mut idxs: Seq<int> = Seq::empty();
        let mut i: usize = 0;
        while i < n
            invariant
                self.wf(),
                0 <= i <= n,
                n == self.entries@.len(),
                idxs.len() == r@.len(),
                forall|t: int|
                    #![trigger idxs[t]]
                    0 <= t < idxs.len() ==> 0 <= idxs[t] < i && is_prefix_of(
                        prefix@,
                        self.entries@[idxs[t]].0@,
                    ) && r@[t]@ == self.entries@[idxs[t]].0@,
                forall|t1: int, t2: int|
                    #![trigger idxs[t1], idxs[t2]]
                    0 <= t1 < t2 < idxs.len() ==> idxs[t1] < idxs[t2],
                forall|j: int|
                    #![trigger self.entries@[j]]
                    0 <= j < i && is_prefix_of(prefix@, self.entries@[j].0@) ==> exists|t: int|
                        #![trigger idxs[t]]
                        0 <= t < idxs.len() && idxs[t] == j,
            decreases n - i,
        {
            let keep = has_prefix(&self.entries[i].0, prefix);
            if keep {
                let k = clone_bytes(&self.entries[i].0);
                let ghost old_idxs = idxs;
                let ghost old_r = r@;
                r.push(k);
                proof {
                    idxs = idxs.push(i as int);
                    assert(r@ == old_r.push(k));
                    assert(idxs[idxs.len() - 1] == i as int);
                    assert(r@[idxs.len() - 1]@ == self.entries@[i as int].0@);
                    assert forall|j: int|
                        #![trigger self.entries@[j]]
                        0 <= j < i + 1 && is_prefix_of(prefix@, self.entries@[j].0@) implies exists|
                        t: int,
                    |
                        #![trigger idxs[t]]
                        0 <= t < idxs.len() && idxs[t] == j by {
                        if j < i {
                            let t = choose|t: int|
                                #![trigger old_idxs[t]]
                                0 <= t < old_idxs.len() && old_idxs[t] == j;
                            assert(idxs[t] == j);
                        } else {
                            assert(idxs[idxs.len() - 1] == j);
                        }
                    }
                }
            } else {
                proof {
                    assert forall|j: int|
                        #![trigger self.entries@[j]]
                        0 <= j < i + 1 && is_prefix_of(prefix@, self.entries@[j].0@) implies exists|
                        t: int,
                    |
                        #![trigger idxs[t]]
                        0 <= t < idxs.len() && idxs[t] == j by {
                        assert(j < i);
                    }
                }
            }
            i = i + 1;
        }
        proof {
            assert forall|t: int| #![trigger r@[t]] 0 <= t < r@.len() implies self@.contains_key(
                r@[t]@,
            ) && is_prefix_of(prefix@, r@[t]@) by {
                lemma_entries_map_contains(self.entries@, r@[t]@);
                assert(self.entries@[idxs[t]].0@ == r@[t]@);
            }
            assert forall|k: Seq<u8>|
                self@.contains_key(k) && is_prefix_of(prefix@, k) implies exists|t: int|
                #![trigger r@[t]]
                0 <= t < r@.len() && r@[t]@ == k by {
                lemma_entries_map_contains(self.entries@, k);
                let j = choose|j: int| 0 <= j < self.entries@.len() && #[trigger] self.entries@[j].0@
                    == k;
                assert(is_prefix_of(prefix@, self.entries@[j].0@));
                let t = choose|t: int| #![trigger idxs[t]] 0 <= t < idxs.len() && idxs[t] == j;
                assert(r@[t]@ == k);
            }
            assert forall|t1: int, t2: int|
                #![trigger r@[t1], r@[t2]]
                0 <= t1 < t2 < r@.len() implies lex_lt(r@[t1]@, r@[t2]@) by {
                assert(idxs[t1] < idxs[t2]);
                assert(lex_lt(self.entries@[idxs[t1]].0@, self.entries@[idxs[t2]].0@));
            }
        }
        r
    }

    /// The smallest key strictly greater than `key`, if any.
    pub fn next_key(&self, key: &Vec<u8>) -> (r: Option<Vec<u8>>)
        requires
            self.wf(),
        ensures
            match r {
                Some(nk) => self@.contains_key(nk@) && lex_lt(key@, nk@) && forall|k2: Seq<u8>|
                    self@.contains_key(k2) && lex_lt(key@, k2) ==> (k2 == nk@ || lex_lt(nk@, k2)),
                None => forall|k2: Seq<u8>| self@.contains_key(k2) ==> !lex_lt(key@, k2),
            },
    {
        let n = self.entries.len();
        let mut i: usize = 0;
        while i < n
            invariant
                self.wf(),
                0 <= i <= n,
                n == self.entries@.len(),
                forall|j: int| 0 <= j < i ==> !lex_lt(key@, (#[trigger] self.entries@[j]).0@),
            decreases n - i,
        {
            if key_lt(key, &self.entries[i].0) {
                let nk = clone_bytes(&self.entries[i].0);
                proof {
                    lemma_sorted_distinct(self.entries@);
                    lemma_entries_map_index(self.entries@, i as int);
                    assert forall|k2: Seq<u8>|
                        self@.contains_key(k2) && lex_lt(key@, k2) implies (k2 == nk@ || lex_lt(
                        nk@,
                        k2,
                    )) by {
                        lemma_entries_map_contains(self.entries@, k2);
                        let j = choose|j: int|
                            0 <= j < self.entries@.len() && #[trigger] self.entries@[j].0@ == k2;
                        if j < i {
                            assert(!lex_lt(key@, self.entries@[j].0@));
                        } else if j > i {
                            assert(lex_lt(self.entries@[i as int].0@, self.entries@[j].0@));
                        }
                    }
                }
                return Some(nk);
            }
            i = i + 1;
        }
        proof {
            assert forall|k2: Seq<u8>| self@.contains_key(k2) implies !lex_lt(key@, k2) by {
                lemma_entries_map_contains(self.entries@, k2);
                let j = choose|j: int|
                    0 <= j < self.entries@.len() && #[trigger] self.entries@[j].0@ == k2;
                assert(!lex_lt(key@, self.entries@[j].0@));
            }
        }
        None
    }

    /// Inserts or overwrites the value under `key`.
    pub fn insert_entry(&mut self, key: Vec<u8>, value: Vec<u8>)
        requires
            old(self).wf(),
        ensures
            final(self).wf(),
            final(self)@ == old(self)@.insert(key@, value@),
            final(self).block_hash == old(self).block_hash,
            final(self).parent_hash == old(self).parent_hash,
    {
        proof {
            lemma_sorted_distinct(self.entries@);
        }
        let ghost old_entries = self.entries@;
        let ghost m = entries_map(old_entries).insert(key@, value@);
        let n = self.entries.len();
        let mut i: usize = 0;
        while i < n && key_lt(&self.entries[i].0, &key)
            invariant
                0 <= i <= n,
                n == self.entries@.len(),
                self.entries@ == old_entries,
                forall|j: int| 0 <= j < i ==> lex_lt((#[trigger] self.entries@[j]).0@, key@),
            decreases n - i,
        {
            i = i + 1;
        }
        if i < n && key_eq(&self.entries[i].0, &key) {
            // Same key: replace the value in place.
            self.entries.remove(i);
            self.entries.insert(i, (key, value));
            proof {
                let s = self.entries@;
                assert(s.len() == old_entries.len());
                assert forall|j: int|
                    #![trigger s[j]]
                    0 <= j < s.len() && j != i implies s[j] == old_entries[j] by {
                    assert(s == old_entries.remove(i as int).insert(i as int, (s[i as int])));
                }
                assert(s[i as int].0@ == old_entries[i as int].0@);
                assert forall|p: int, q: int|
                    #![trigger s[p], s[q]]
                    0 <= p < q < s.len() implies lex_lt(s[p].0@, s[q].0@) by {
                    assert(lex_lt(old_entries[p].0@, old_entries[q].0@));
                }
                lemma_sorted_distinct(s);
                assert forall|j: int|
                    0 <= j < s.len() implies m.contains_key(#[trigger] s[j].0@) && m[s[j].0@]
                    == s[j].1@ by {
                    if j != i {
                        lemma_entries_map_index(old_entries, j);
                        assert(s[j].0@ != key@);
                    }
                }
                assert forall|k: Seq<u8>| #[trigger] m.contains_key(k) implies exists|j: int|
                    0 <= j < s.len() && #[trigger] s[j].0@ == k by {
                    if k == key@ {
                        assert(s[i as int].0@ == k);
                    } else {
                        lemma_entries_map_contains(old_entries, k);
                        let j = choose|j: int|
                            0 <= j < old_entries.len() && #[trigger] old_entries[j].0@ == k;
                        assert(j != i);
                        assert(s[j].0@ == k);
                    }
                }
                lemma_entries_map_agrees(s, m);
            }
        } else {
            // New key: it sits strictly between the scanned prefix and the rest.
            proof {
                if i < n {
                    lemma_lex_trichotomy(self.entries@[i as int].0@, key@);
                }
            }
            self.entries.insert(i, (key, value));
            proof {
                let s = self.entries@;
                assert(s.len() == old_entries.len() + 1);
                assert(s == old_entries.insert(i as int, (s[i as int])));
                assert forall|j: int| #![trigger s[j]] 0 <= j < i implies s[j]
                    == old_entries[j] by {}
                assert forall|j: int| #![trigger s[j]] i < j < s.len() implies s[j]
                    == old_entries[j - 1] by {}
                assert(s[i as int].0@ == key@);
                assert forall|p: int, q: int|
                    #![trigger s[p], s[q]]
                    0 <= p < q < s.len() implies lex_lt(s[p].0@, s[q].0@) by {
                    if p < i && q < i {
                        assert(lex_lt(old_entries[p].0@, old_entries[q].0@));
                    } else if p < i && q == i {
                        assert(lex_lt(old_entries[p].0@, key@));
                    } else if p < i && q > i {
                        assert(lex_lt(old_entries[p].0@, key@));
                        if q - 1 == i {
                            if i < n {
                                crate::keys::lemma_lex_trans(
                                    old_entries[p].0@,
                                    key@,
                                    old_entries[i as int].0@,
                                );
                            }
                        }
                        if q - 1 > i {
                            assert(lex_lt(old_entries[i as int].0@, old_entries[q - 1].0@));
                        }
                        if lex_lt(key@, old_entries[q - 1].0@) {
                            crate::keys::lemma_lex_trans(
                                old_entries[p].0@,
                                key@,
                                old_entries[q - 1].0@,
                            );
                        } else {
                            assert(q - 1 >= i);
                            assert(lex_lt(key@, old_entries[i as int].0@));
                            if q - 1 > i {
                                crate::keys::lemma_lex_trans(
                                    key@,
                                    old_entries[i as int].0@,
                                    old_entries[q - 1].0@,
                                );
                            }
                        }
                    } else if p == i {
                        assert(q > i);
                        assert(lex_lt(key@, old_entries[i as int].0@));
                        if q - 1 > i {
                            crate::keys::lemma_lex_trans(
                                key@,
                                old_entries[i as int].0@,
                                old_entries[q - 1].0@,
                            );
                        }
                    } else {
                        assert(p > i && q > i);
                        assert(lex_lt(old_entries[p - 1].0@, old_entries[q - 1].0@));
                    }
                }
                lemma_sorted_distinct(s);
                lemma_sorted_distinct(old_entries);
                assert forall|j: int|
                    0 <= j < s.len() implies m.contains_key(#[trigger] s[j].0@) && m[s[j].0@]
                    == s[j].1@ by {
                    if j != i {
                        let oj: int = if j < i {
                            j
                        } else {
                            j - 1
                        };
                        lemma_entries_map_index(old_entries, oj);
                        assert(s[j].0@ != key@);
                    }
                }
                assert forall|k: Seq<u8>| #[trigger] m.contains_key(k) implies exists|j: int|
                    0 <= j < s.len() && #[trigger] s[j].0@ == k by {
                    if k == key@ {
                        assert(s[i as int].0@ == k);
                    } else {
                        lemma_entries_map_contains(old_entries, k);
                        let j = choose|j: int|
                            0 <= j < old_entries.len() && #[trigger] old_entries[j].0@ == k;
                        if j < i {
                            assert(s[j].0@ == k);
                        } else {
                            assert(s[j + 1].0@ == k);
                        }
                    }
                }
                lemma_entries_map_agrees(s, m);
            }
        }
    }

    /// Removes the entry under `key`, if present.
    pub fn remove_entry(&mut self, key: &Vec<u8>)
        requires
            old(self).wf(),
        ensures
            final(self).wf(),
            final(self)@ == old(self)@.remove(key@),
            final(self).block_hash == old(self).block_hash,
            final(self).parent_hash == old(self).parent_hash,
    {
        proof {
            lemma_sorted_distinct(self.entries@);
        }
        let ghost old_entries = self.entries@;
        let ghost m = entries_map(old_entries).remove(key@);
        let n = self.entries.len();
        let mut i: usize = 0;
        while i < n
            invariant
                0 <= i <= n,
                n == self.entries@.len(),
                self.entries@ == old_entries,
                old_entries == old(self).entries@,
                self.block_hash == old(self).block_hash,
                self.parent_hash == old(self).parent_hash,
                m == entries_map(old_entries).remove(key@),
                entries_sorted(old_entries),
                entries_distinct(old_entries),
                forall|j: int| 0 <= j < i ==> (#[trigger] old_entries[j]).0@ != key@,
            decreases n - i,
        {
            if key_eq(&self.entries[i].0, key) {
                self.entries.remove(i);
                proof {
                    let s = self.entries@;
                    assert(s == old_entries.remove(i as int));
                    assert(s.len() == old_entries.len() - 1);
                    assert forall|j: int| #![trigger s[j]] 0 <= j < s.len() implies s[j] == (
                    if j < i {
                        old_entries[j]
                    } else {
                        old_entries[j + 1]
                    }) by {}
                    assert forall|p: int, q: int|
                        #![trigger s[p], s[q]]
                        0 <= p < q < s.len() implies lex_lt(s[p].0@, s[q].0@) by {
                        let op: int = if p < i {
                            p
                        } else {
                            p + 1
                        };
                        let oq: int = if q < i {
                            q
                        } else {
                            q + 1
                        };
                        assert(lex_lt(old_entries[op].0@, old_entries[oq].0@));
                    }
                    lemma_sorted_distinct(s);
                    assert forall|j: int|
                        0 <= j < s.len() implies m.contains_key(#[trigger] s[j].0@) && m[s[j].0@]
                        == s[j].1@ by {
                        let oj: int = if j < i {
                            j
                        } else {
                            j + 1
                        };
                        lemma_entries_map_index(old_entries, oj);
                        assert(old_entries[oj].0@ != key@);
                    }
                    assert forall|k: Seq<u8>| #[trigger] m.contains_key(k) implies exists|j: int|
                        0 <= j < s.len() && #[trigger] s[j].0@ == k by {
                        lemma_entries_map_contains(old_entries, k);
                        let j = choose|j: int|
                            0 <= j < old_entries.len() && #[trigger] old_entries[j].0@ == k;
                        assert(k != key@);
                        assert(j != i);
                        if j < i {
                            assert(s[j].0@ == k);
                        } else {
                            assert(s[j - 1].0@ == k);
                        }
                    }
                    lemma_entries_map_agrees(s, m);
                }
                return ;
            }
            i = i + 1;
        }
        proof {
            lemma_entries_map_contains(old_entries, key@);
            assert(!entries_map(old_entries).contains_key(key@));
            assert(entries_map(old_entries) =~= m);
        }
    }

    /// A copy of this snapshot's contents recorded for a new block, with
    /// this snapshot's owner as the parent back-reference.
    pub fn child_copy(&self, new_hash: u64) -> (r: Snapshot)
        requires
            self.wf(),
        ensures
            r.wf(),
            r@ == self@,
            r.block_hash == new_hash,
            r.parent_hash == self.block_hash,
    {
        let n = self.entries.len();
        let mut entries: Vec<(Vec<u8>, Vec<u8>)> = Vec::new();
        let mut i: usize = 0;
        while i < n
            invariant
                self.wf(),
                0 <= i <= n,
                n == self.entries@.len(),
                entries@.len() == i,
                forall|j: int|
                    #![trigger entries@[j]]
                    0 <= j < i ==> entries@[j].0@ == self.entries@[j].0@ && entries@[j].1@
                        == self.entries@[j].1@,
            decreases n - i,
        {
            let k = clone_bytes(&self.entries[i].0);
            let v = clone_bytes(&self.entries[i].1);
            entries.push((k, v));
            i = i + 1;
        }
        proof {
            lemma_entries_map_congruence(entries@, self.entries@);
        }
        Snapshot { block_hash: new_hash, parent_hash: self.block_hash, entries }
    }

    /// An identical copy of this snapshot.
    pub fn duplicate(&self) -> (r: Snapshot)
        requires
            self.wf(),
        ensures
            r.wf(),
            r@ == self@,
            r.block_hash == self.block_hash,
            r.parent_hash == self.parent_hash,
    {
        let n = self.entries.len();
        let mut entries: Vec<(Vec<u8>, Vec<u8>)> = Vec::new();
        let mut i: usize = 0;
        while i < n
            invariant
                self.wf(),
                0 <= i <= n,
                n == self.entries@.len(),
                entries@.len() == i,
                forall|j: int|
                    #![trigger entries@[j]]
                    0 <= j < i ==> entries@[j].0@ == self.entries@[j].0@ && entries@[j].1@
                        == self.entries@[j].1@,
            decreases n - i,
        {
            let k = clone_bytes(&self.entries[i].0);
            let v = clone_bytes(&self.entries[i].1);
            entries.push((k, v));
            i = i + 1;
        }
        proof {
            lemma_entries_map_congruence(entries@, self.entries@);
        }
        Snapshot { block_hash: self.block_hash, parent_hash: self.parent_hash, entries }
    }

    /// Builds a snapshot from a list of key/value pairs; a later pair
    /// overrides an earlier one with the same key.
    pub fn from_pairs(block_hash: u64, parent_hash: u64, pairs: Vec<(Vec<u8>, Vec<u8>)>) -> (r:
        Snapshot)
        ensures
            r.wf(),
            r@ == entries_map(pairs@),
            r.block_hash == block_hash,
            r.parent_hash == parent_hash,
    {
        let mut r = Snapshot::empty(block_hash, parent_hash);
        let n = pairs.len();
        let mut i: usize = 0;
        while i < n
            invariant
                r.wf(),
                0 <= i <= n,
                n == pairs@.len(),
                r@ == entries_map(pairs@.take(i as int)),
                r.block_hash == block_hash,
                r.parent_hash == parent_hash,
            decreases n - i,
        {
            let k = clone_bytes(&pairs[i].0);
            let v = clone_bytes(&pairs[i].1);
            r.insert_entry(k, v);
            proof {
                assert(pairs@.take(i + 1 as int).drop_last() =~= pairs@.take(i as int));
                assert(pairs@.take(i + 1 as int).last() == pairs@[i as int]);
            }
            i = i + 1;
        }
        proof {
            assert(pairs@.take(n as int) =~= pairs@);
        }
        r
    }
}

} // verus!
