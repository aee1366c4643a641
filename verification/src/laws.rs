//! Laws of the coordinator's state transitions: what a whole chain of
//! committed blocks leaves in the store, and how the program cache behaves
//! across commits.

use vstd::prelude::*;

use crate::coordinator::{cache_after_commit, commit_model, needs_compile, nth_ancestor,
    lemma_nth_ancestor_step};
use crate::delta::{apply_delta, lemma_apply_delta_untouched};
use crate::keys::program_key;
use crate::store::SnapshotModel;

verus! {

/// One link of a chain to execute: the block's hash, its parent's hash, and
/// the delta set its verification produced.
pub struct ChainLink {
    pub hash: u64,
    pub parent: u64,
    pub delta: Map<Seq<u8>, Option<Seq<u8>>>,
}

/// The store left by committing the links in order, under the
/// single-ancestor retention policy (retention depth zero).
pub open spec fn run_chain(m: Map<u64, SnapshotModel>, links: Seq<ChainLink>) -> Map<
    u64,
    SnapshotModel,
>
    decreases links.len(),
{
    if links.len() == 0 {
        m
    } else {
        commit_model(
            run_chain(m, links.drop_last()),
            links.last().parent,
            links.last().hash,
            links.last().delta,
            0,
        )
    }
}

/// The contents reached from `init` by applying the links' deltas in order.
pub open spec fn chain_contents(init: Map<Seq<u8>, Seq<u8>>, links: Seq<ChainLink>) -> Map<
    Seq<u8>,
    Seq<u8>,
>
    decreases links.len(),
{
    if links.len() == 0 {
        init
    } else {
        apply_delta(chain_contents(init, links.drop_last()), links.last().delta)
    }
}

/// Each link's parent is the block before it (the first link's parent is
/// `g`), and no block is its own parent.
pub open spec fn linear_chain(g: u64, links: Seq<ChainLink>) -> bool {
    &&& forall|i: int|
        #![trigger links[i]]
        0 <= i < links.len() ==> links[i].parent == (if i == 0 {
            g
        } else {
            links[i - 1].hash
        })
    &&& forall|i: int| #![trigger links[i]] 0 <= i < links.len() ==> links[i].hash != links[i].parent
}

/// Executing a valid linear chain in order, starting from a store that holds
/// only the genesis snapshot, leaves exactly one live snapshot: the last
/// block's. Its contents equal the genesis contents with every block's delta
/// set applied in order (a present value overwrites, an absent value
/// deletes), and its parent back-reference names the block before it.
pub proof fn lemma_linear_chain_execution(
    m0: Map<u64, SnapshotModel>,
    g: u64,
    links: Seq<ChainLink>,
)
    requires
        m0.dom() == set![g],
        linear_chain(g, links),
        links.len() > 0,
    ensures
        run_chain(m0, links).dom() == set![links.last().hash],
        run_chain(m0, links)[links.last().hash].entries == chain_contents(m0[g].entries, links),
        run_chain(m0, links)[links.last().hash].parent == links.last().parent,
    decreases links.len(),
{
    let l = links.last();
    let prev = run_chain(m0, links.drop_last());
    let prev_contents = chain_contents(m0[g].entries, links.drop_last());
    if links.len() == 1 {
        assert(run_chain(m0, links.drop_last()) == m0);
        assert(chain_contents(m0[g].entries, links.drop_last()) == m0[g].entries);
        assert(l.parent == g);
        assert(m0.dom().contains(g));
    } else {
        assert forall|i: int|
            #![trigger links.drop_last()[i]]
            0 <= i < links.drop_last().len() implies links.drop_last()[i] == links[i] by {}
        assert(linear_chain(g, links.drop_last()));
        lemma_linear_chain_execution(m0, g, links.drop_last());
        assert(l.parent == links[links.len() - 2].hash);
        assert(links.drop_last().last() == links[links.len() - 2]);
        assert(prev.dom() == set![l.parent]);
    }
    // In either case: prev holds exactly l.parent, with the accumulated contents.
    assert(prev.dom().contains(l.parent));
    assert(prev.contains_key(l.parent));
    assert(prev[l.parent].entries == prev_contents);
    let child = SnapshotModel { parent: l.parent, entries: apply_delta(prev_contents, l.delta) };
    let mid = prev.insert(l.hash, child);
    lemma_nth_ancestor_step(mid, l.hash, 0);
    assert(mid.contains_key(l.hash));
    assert(mid[l.hash] == child);
    assert(nth_ancestor(mid, l.hash, 1) == Some(l.parent));
    let m2 = mid.remove(l.parent);
    assert(run_chain(m0, links) == m2);
    assert(l.hash != l.parent);
    assert(m2.dom() =~= set![l.hash]);
    assert(m2[l.hash] == child);
    assert(chain_contents(m0[g].entries, links) == apply_delta(prev_contents, l.delta));
}

/// While the program bytes stand unchanged, nothing recompiles: committing a
/// block whose delta set leaves the reserved program key untouched keeps the
/// program bytes of the new snapshot equal to its parent's, and keeps the
/// cache key as it was; a cache that matched the parent's program therefore
/// still matches the committed block's program, and planning the next
/// request against it compiles nothing.
pub proof fn lemma_cache_reuse_across_commit(
    cache_key: Option<Seq<u8>>,
    m: Map<u64, SnapshotModel>,
    parent: u64,
    h: u64,
    d: Map<Seq<u8>, Option<Seq<u8>>>,
    retain: u64,
)
    requires
        m.contains_key(parent),
        m[parent].entries.contains_key(program_key()),
        !needs_compile(cache_key, m[parent].entries[program_key()]),
        !d.contains_key(program_key()),
        commit_model(m, parent, h, d, retain).contains_key(h),
    ensures
        commit_model(m, parent, h, d, retain)[h].entries.contains_key(program_key()),
        commit_model(m, parent, h, d, retain)[h].entries[program_key()]
            == m[parent].entries[program_key()],
        cache_after_commit(cache_key, d) == cache_key,
        !needs_compile(
            cache_after_commit(cache_key, d),
            commit_model(m, parent, h, d, retain)[h].entries[program_key()],
        ),
{
    lemma_apply_delta_untouched(m[parent].entries, d, program_key());
    let child = SnapshotModel { parent: parent, entries: apply_delta(m[parent].entries, d) };
    let mid = m.insert(h, child);
    let m2 = commit_model(m, parent, h, d, retain);
    match nth_ancestor(mid, h, (retain + 1) as nat) {
        Some(t) => {
            assert(m2 == mid.remove(t));
            assert(t != h);
            assert(m2[h] == child);
        },
        None => {
            assert(m2 == mid);
            assert(m2[h] == child);
        },
    }
}

/// Across a whole run of blocks whose delta sets never touch the reserved
/// program key, a cache that matched the genesis program bytes matches every
/// later block's program bytes as well — the bytes never change, so nothing
/// ever recompiles.
pub proof fn lemma_zero_recompiles_across_chain(
    cache_key: Option<Seq<u8>>,
    m0: Map<u64, SnapshotModel>,
    g: u64,
    links: Seq<ChainLink>,
)
    requires
        m0.dom() == set![g],
        linear_chain(g, links),
        m0[g].entries.contains_key(program_key()),
        !needs_compile(cache_key, m0[g].entries[program_key()]),
        forall|i: int|
            #![trigger links[i]]
            0 <= i < links.len() ==> !links[i].delta.contains_key(program_key()),
        links.len() > 0,
    ensures
        run_chain(m0, links)[links.last().hash].entries.contains_key(program_key()),
        run_chain(m0, links)[links.last().hash].entries[program_key()] == m0[g].entries[
            program_key()
        ],
        !needs_compile(
            cache_key,
            run_chain(m0, links)[links.last().hash].entries[program_key()],
        ),
    decreases links.len(),
{
    let l = links.last();
    lemma_linear_chain_execution(m0, g, links);
    if links.len() == 1 {
        assert(run_chain(m0, links.drop_last()) == m0);
        assert(l.parent == g);
        lemma_cache_reuse_across_commit(cache_key, m0, g, l.hash, l.delta, 0);
    } else {
        assert forall|i: int|
            #![trigger links.drop_last()[i]]
            0 <= i < links.drop_last().len() implies links.drop_last()[i] == links[i] by {}
        assert(linear_chain(g, links.drop_last()));
        lemma_zero_recompiles_across_chain(cache_key, m0, g, links.drop_last());
        lemma_linear_chain_execution(m0, g, links.drop_last());
        let prev = run_chain(m0, links.drop_last());
        assert(links.drop_last().last() == links[links.len() - 2]);
        assert(l.parent == links[links.len() - 2].hash);
        assert(prev.contains_key(l.parent));
        lemma_cache_reuse_across_commit(cache_key, prev, l.parent, l.hash, l.delta, 0);
    }
}

/// A runtime upgrade recompiles exactly once: committing a block whose
/// delta set writes new program bytes under the reserved key clears the
/// cache, and the committed snapshot carries exactly those new bytes; the
/// next request, with that block as parent, must therefore compile, and it
/// compiles the new bytes, before any verification proceeds.
pub proof fn lemma_upgrade_forces_recompile(
    cache_key: Option<Seq<u8>>,
    m: Map<u64, SnapshotModel>,
    parent: u64,
    h: u64,
    d: Map<Seq<u8>, Option<Seq<u8>>>,
    retain: u64,
    new_code: Seq<u8>,
)
    requires
        m.contains_key(parent),
        d.contains_key(program_key()),
        d[program_key()] == Some(new_code),
        commit_model(m, parent, h, d, retain).contains_key(h),
    ensures
        cache_after_commit(cache_key, d) is None,
        commit_model(m, parent, h, d, retain)[h].entries.contains_key(program_key()),
        commit_model(m, parent, h, d, retain)[h].entries[program_key()] == new_code,
        needs_compile(
            cache_after_commit(cache_key, d),
            commit_model(m, parent, h, d, retain)[h].entries[program_key()],
        ),
{
    let child = SnapshotModel { parent: parent, entries: apply_delta(m[parent].entries, d) };
    let mid = m.insert(h, child);
    let m2 = commit_model(m, parent, h, d, retain);
    assert(child.entries.contains_key(program_key()));
    assert(child.entries[program_key()] == new_code);
    match nth_ancestor(mid, h, (retain + 1) as nat) {
        Some(t) => {
            assert(m2 == mid.remove(t));
            assert(t != h);
            assert(m2[h] == child);
        },
        None => {
            assert(m2 == mid);
            assert(m2[h] == child);
        },
    }
}

} // verus!
