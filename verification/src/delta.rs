//! Delta sets: the key mutations produced by verifying one block. Each key
//! maps to a replacement value, or to nothing for deletion. The entries are
//! held in a `hashbrown` hash map, reached only through trusted wrappers.

use vstd::prelude::*;

verus! {

#[verifier::external_type_specification]
#[verifier::external_body]
#[verifier::reject_recursive_types(K)]
#[verifier::reject_recursive_types(V)]
#[verifier::reject_recursive_types(S)]
pub struct ExHashMap<K, V, S>(hashbrown::HashMap<K, V, S>);

/// The entries a delta-set hash map holds, as a map from key to optional
/// replacement value.
pub uninterp spec fn delta_model(
    m: hashbrown::HashMap<Vec<u8>, Option<Vec<u8>>, std::collections::hash_map::RandomState>,
) -> Map<Seq<u8>, Option<Seq<u8>>>;

/// View of an optional byte string.
pub open spec fn opt_bytes(v: Option<Vec<u8>>) -> Option<Seq<u8>> {
    match v {
        Some(b) => Some(b@),
        None => None,
    }
}

/// The map that a list of delta pairs denotes; a later pair overrides an
/// earlier one with the same key.
pub open spec fn delta_pairs_model(s: Seq<(Vec<u8>, Option<Vec<u8>>)>) -> Map<
    Seq<u8>,
    Option<Seq<u8>>,
>
    decreases s.len(),
{
    if s.len() == 0 {
        Map::empty()
    } else {
        delta_pairs_model(s.drop_last()).insert(s.last().0@, opt_bytes(s.last().1))
    }
}

/// The delta map with no entries.
pub open spec fn empty_delta() -> Map<Seq<u8>, Option<Seq<u8>>> {
    Map::empty()
}

/// Relies on hashbrown::HashMap::with_hasher: the new map holds no entry.
#[verifier::external_body]
fn raw_delta_new() -> (r: hashbrown::HashMap<Vec<u8>, Option<Vec<u8>>, std::collections::hash_map::RandomState>)
    ensures
        delta_model(r) == empty_delta(),
{
    hashbrown::HashMap::with_hasher(std::collections::hash_map::RandomState::new())
}

/// Relies on hashbrown::HashMap::insert: the entry is added, replacing any
/// prior entry with the same key.
#[verifier::external_body]
fn raw_delta_insert(
    m: &mut hashbrown::HashMap<Vec<u8>, Option<Vec<u8>>, std::collections::hash_map::RandomState>,
    key: Vec<u8>,
    value: Option<Vec<u8>>,
)
    ensures
        delta_model(*final(m)) == delta_model(*old(m)).insert(key@, opt_bytes(value)),
{
    m.insert(key, value);
}

/// Relies on hashbrown::HashMap::contains_key: true exactly when an entry
/// with that key is present.
#[verifier::external_body]
fn raw_delta_contains(m: &hashbrown::HashMap<Vec<u8>, Option<Vec<u8>>, std::collections::hash_map::RandomState>, key: &Vec<u8>) -> (r: bool)
    ensures
        r == delta_model(*m).contains_key(key@),
{
    m.contains_key(key)
}

/// Relies on hashbrown::HashMap::iter: every entry is yielded exactly once,
/// in no promised order.
#[verifier::external_body]
fn raw_delta_pairs(m: &hashbrown::HashMap<Vec<u8>, Option<Vec<u8>>, std::collections::hash_map::RandomState>) -> (r: Vec<
    (Vec<u8>, Option<Vec<u8>>),
>)
    ensures
        delta_pairs_model(r@) == delta_model(*m),
        forall|i: int, j: int|
            #![trigger r@[i], r@[j]]
            0 <= i < j < r@.len() ==> r@[i].0@ != r@[j].0@,
{
    let mut out: Vec<(Vec<u8>, Option<Vec<u8>>)> = Vec::new();
    for (k, v) in m.iter() {
        out.push((k.clone(), v.clone()));
    }
    out
}

/// The set of key mutations one verified block applies to its parent state.
pub struct DeltaSet {
    inner: hashbrown::HashMap<Vec<u8>, Option<Vec<u8>>, std::collections::hash_map::RandomState>,
}

impl View for DeltaSet {
    type V = Map<Seq<u8>, Option<Seq<u8>>>;

    closed spec fn view(&self) -> Map<Seq<u8>, Option<Seq<u8>>> {
        delta_model(self.inner)
    }
}

impl DeltaSet {
    /// An empty delta set.
    pub fn new() -> (r: DeltaSet)
        ensures
            r@ == empty_delta(),
    {
        DeltaSet { inner: raw_delta_new() }
    }

    /// Records that `key` is overwritten (with `Some` value) or deleted
    /// (with `None`), replacing any earlier mutation of the same key.
    pub fn set(&mut self, key: Vec<u8>, value: Option<Vec<u8>>)
        ensures
            final(self)@ == old(self)@.insert(key@, opt_bytes(value)),
    {
        raw_delta_insert(&mut self.inner, key, value);
    }

    /// Whether the delta set touches `key` at all.
    pub fn contains(&self, key: &Vec<u8>) -> (r: bool)
        ensures
            r == self@.contains_key(key@),
    {
        raw_delta_contains(&self.inner, key)
    }

    /// The mutations as a list of pairs with pairwise distinct keys, in no
    /// promised order.
    pub fn pairs(&self) -> (r: Vec<(Vec<u8>, Option<Vec<u8>>)>)
        ensures
            delta_pairs_model(r@) == self@,
            forall|i: int, j: int|
                #![trigger r@[i], r@[j]]
                0 <= i < j < r@.len() ==> r@[i].0@ != r@[j].0@,
    {
        raw_delta_pairs(&self.inner)
    }
}

/// The parent state with a delta applied: a key mapped to a value is
/// overwritten or inserted, a key mapped to nothing is deleted, every other
/// key keeps its parent value.
pub open spec fn apply_delta(
    m: Map<Seq<u8>, Seq<u8>>,
    d: Map<Seq<u8>, Option<Seq<u8>>>,
) -> Map<Seq<u8>, Seq<u8>> {
    Map::new(
        |k: Seq<u8>|
            if d.contains_key(k) {
                d[k] is Some
            } else {
                m.contains_key(k)
            },
        |k: Seq<u8>|
            if d.contains_key(k) && d[k] is Some {
                d[k]->0
            } else {
                m[k]
            },
    )
}

/// Extending a delta with an overwrite inserts into the applied state.
pub proof fn lemma_apply_delta_set(
    m: Map<Seq<u8>, Seq<u8>>,
    d: Map<Seq<u8>, Option<Seq<u8>>>,
    k: Seq<u8>,
    v: Seq<u8>,
)
    ensures
        apply_delta(m, d.insert(k, Some(v))) == apply_delta(m, d).insert(k, v),
{
    assert(apply_delta(m, d.insert(k, Some(v))) =~= apply_delta(m, d).insert(k, v));
}

/// Extending a delta with a deletion removes from the applied state.
pub proof fn lemma_apply_delta_del(
    m: Map<Seq<u8>, Seq<u8>>,
    d: Map<Seq<u8>, Option<Seq<u8>>>,
    k: Seq<u8>,
)
    ensures
        apply_delta(m, d.insert(k, None)) == apply_delta(m, d).remove(k),
{
    assert(apply_delta(m, d.insert(k, None)) =~= apply_delta(m, d).remove(k));
}

/// A key the delta does not touch keeps its parent binding.
pub proof fn lemma_apply_delta_untouched(
    m: Map<Seq<u8>, Seq<u8>>,
    d: Map<Seq<u8>, Option<Seq<u8>>>,
    k: Seq<u8>,
)
    requires
        !d.contains_key(k),
    ensures
        apply_delta(m, d).contains_key(k) == m.contains_key(k),
        m.contains_key(k) ==> apply_delta(m, d)[k] == m[k],
{
}

} // verus!
