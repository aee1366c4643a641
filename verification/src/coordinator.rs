//! The coordinator: decision logic that turns one execution request into a
//! validated, committed state transition. The surrounding event loop hands
//! in the request, performs the external compile and verify steps, and hands
//! their results back; every decision in between is made here.

use vstd::prelude::*;

use crate::delta::{apply_delta, DeltaSet};
use crate::keys::{key_eq, program_key, program_storage_key};
use crate::snapshot::{clone_bytes, Snapshot};
use crate::store::{SnapshotModel, Store};

verus! {

/// A block to execute: its own derived hash, its parent's hash, and the
/// opaque body.
pub struct Block {
    pub hash: u64,
    pub parent_hash: u64,
    pub extrinsics: Vec<Vec<u8>>,
}

/// The chain's state-transition program: its source bytes as stored under
/// the reserved key, and a handle to the compiled form the execution engine
/// keeps.
pub struct RuntimeProgram {
    pub source: Vec<u8>,
    pub compiled: u64,
}

/// Why one request failed; each failure resolves that request alone.
pub enum ExecError {
    /// The block's parent hash is unknown to the storage store.
    MissingParentSnapshot,
    /// The parent state holds no usable program, or its bytes do not compile.
    CompileFailure,
    /// The verifier rejected the block.
    VerificationRejected { cause: Vec<u8> },
    /// A snapshot vanished between planning and commit.
    StorageInconsistency,
}

/// What the external verifier resolved to.
pub enum VerifyOutcome {
    Accepted { changes: DeltaSet },
    Rejected { cause: Vec<u8> },
}

/// What the caller must do next for one request.
pub enum RequestPlan {
    /// The reply channel is gone: do nothing at all for this request.
    Discard,
    /// Deliver this failure as the request's outcome.
    Reject { error: ExecError },
    /// Compile these program bytes externally, then hand the result to
    /// `resolve_program` and plan the request again.
    Compile { source: Vec<u8> },
    /// Run the external verifier with this program and this read-only view
    /// of the parent state, then hand the outcome to `apply_outcome`.
    Verify { program: RuntimeProgram, reader: Snapshot },
}

/// A successful execution: the block itself and the mutations it applied.
pub struct ExecuteSuccess {
    /// The block that was passed as parameter.
    pub block: Block,
    /// The delta set the verifier produced for it.
    pub storage_changes: DeltaSet,
}

/// The cache misses exactly when it holds no program compiled from these
/// source bytes.
pub open spec fn needs_compile(cache_key: Option<Seq<u8>>, code: Seq<u8>) -> bool {
    cache_key != Some(code)
}

/// The hash reached from `h` by following `n` parent back-references.
pub open spec fn nth_ancestor(m: Map<u64, SnapshotModel>, h: u64, n: nat) -> Option<u64>
    decreases n,
{
    if n == 0 {
        Some(h)
    } else if m.contains_key(h) {
        nth_ancestor(m, m[h].parent, (n - 1) as nat)
    } else {
        None
    }
}

/// One more step of the ancestor walk, taken at the far end.
pub proof fn lemma_nth_ancestor_step(m: Map<u64, SnapshotModel>, h: u64, n: nat)
    ensures
        nth_ancestor(m, h, n + 1) == (match nth_ancestor(m, h, n) {
            Some(c) => if m.contains_key(c) {
                Some(m[c].parent)
            } else {
                None
            },
            None => None,
        }),
    decreases n,
{
    if n == 0 {
        assert(nth_ancestor(m, h, 0) == Some(h));
        if m.contains_key(h) {
            assert(nth_ancestor(m, h, 1) == nth_ancestor(m, m[h].parent, 0));
            assert(nth_ancestor(m, m[h].parent, 0) == Some(m[h].parent));
        } else {
            assert(nth_ancestor(m, h, 1) is None);
        }
    } else {
        if m.contains_key(h) {
            lemma_nth_ancestor_step(m, m[h].parent, (n - 1) as nat);
        }
    }
}

/// A walk that has fallen off the chain stays off it.
pub proof fn lemma_nth_ancestor_none(m: Map<u64, SnapshotModel>, h: u64, n: nat, n2: nat)
    requires
        nth_ancestor(m, h, n) is None,
        n <= n2,
    ensures
        nth_ancestor(m, h, n2) is None,
    decreases n2,
{
    if n2 > n {
        lemma_nth_ancestor_none(m, h, n, (n2 - 1) as nat);
        lemma_nth_ancestor_step(m, h, (n2 - 1) as nat);
    }
}

/// The store after committing a child of `parent` under `h` with delta `d`:
/// the child is recorded, and the ancestor `retain + 1` steps above the new
/// block (one step: the parent) is evicted, if the walk stays on known
/// snapshots.
pub open spec fn commit_model(
    m: Map<u64, SnapshotModel>,
    parent: u64,
    h: u64,
    d: Map<Seq<u8>, Option<Seq<u8>>>,
    retain: u64,
) -> Map<u64, SnapshotModel> {
    let child = SnapshotModel { parent: parent, entries: apply_delta(m[parent].entries, d) };
    let mid = m.insert(h, child);
    match nth_ancestor(mid, h, (retain + 1) as nat) {
        Some(t) => mid.remove(t),
        None => mid,
    }
}

/// The cache key after a commit: unchanged, unless the delta touched the
/// reserved program key, which forces the next resolution to recompile.
pub open spec fn cache_after_commit(
    cache_key: Option<Seq<u8>>,
    d: Map<Seq<u8>, Option<Seq<u8>>>,
) -> Option<Seq<u8>> {
    if d.contains_key(program_key()) {
        None
    } else {
        cache_key
    }
}

/// The serialized task state: the snapshot store, the single-entry program
/// cache, and the retention depth of the eviction policy.
pub struct Coordinator {
    /// All known storage snapshots.
    pub store: Store,
    /// The most recently compiled program, keyed by its source bytes.
    pub cache: Option<RuntimeProgram>,
    /// How many ancestors of a newly committed block stay alive; zero means
    /// the parent is evicted as soon as its child is committed.
    pub retain_depth: u64,
}

impl Coordinator {
    /// The store is well formed and the retention depth leaves room for the
    /// walk one step past it.
    pub open spec fn wf(&self) -> bool {
        self.store.wf() && self.retain_depth < u64::MAX
    }

    /// The source bytes the cached program was compiled from, if any.
    pub open spec fn cache_key(&self) -> Option<Seq<u8>> {
        match self.cache {
            Some(p) => Some(p.source@),
            None => None,
        }
    }

    /// A coordinator over an existing store, with a cold program cache.
    pub fn new(store: Store, retain_depth: u64) -> (r: Coordinator)
        requires
            store.wf(),
            retain_depth < u64::MAX,
        ensures
            r.wf(),
            r.store == store,
            r.cache is None,
            r.retain_depth == retain_depth,
    {
        Coordinator { store, cache: None, retain_depth }
    }

    /// Decides what to do for one incoming request, mutating nothing: a
    /// request whose reply channel is gone is discarded outright; an unknown
    /// parent or a parent without program bytes is rejected; otherwise the
    /// plan is to compile (cache miss) or to verify (cache hit) against a
    /// read-only view of the parent snapshot.
    pub fn handle_request(&self, block: &Block, live: bool) -> (r: RequestPlan)
        requires
            self.wf(),
        ensures
            !live ==> r is Discard,
            (live && !self.store@.contains_key(block.parent_hash)) ==> (r matches
                RequestPlan::Reject { error } && error is MissingParentSnapshot),
            (live && self.store@.contains_key(block.parent_hash)
                && !self.store@[block.parent_hash].entries.contains_key(program_key())) ==> (r
                matches RequestPlan::Reject { error } && error is CompileFailure),
            (live && self.store@.contains_key(block.parent_hash)
                && self.store@[block.parent_hash].entries.contains_key(program_key())
                && needs_compile(
                self.cache_key(),
                self.store@[block.parent_hash].entries[program_key()],
            )) ==> (r matches RequestPlan::Compile { source } && source@
                == self.store@[block.parent_hash].entries[program_key()]),
            (live && self.store@.contains_key(block.parent_hash)
                && self.store@[block.parent_hash].entries.contains_key(program_key())
                && !needs_compile(
                self.cache_key(),
                self.store@[block.parent_hash].entries[program_key()],
            )) ==> (r matches RequestPlan::Verify { program, reader } && self.cache matches Some(p)
                && program.source@ == p.source@ && program.compiled == p.compiled && program.source@
                == self.store@[block.parent_hash].entries[program_key()] && reader.wf() && reader@
                == self.store@[block.parent_hash].entries && reader.block_hash == block.parent_hash
                && reader.parent_hash == self.store@[block.parent_hash].parent),
    {
        if !live {
            return RequestPlan::Discard;
        }
        let parent = match self.store.get(block.parent_hash) {
            Ok(p) => p,
            Err(_) => {
                return RequestPlan::Reject { error: ExecError::MissingParentSnapshot };
            },
        };
        let pk = program_storage_key();
        let code = match parent.get(&pk) {
            Some(c) => c,
            None => {
                return RequestPlan::Reject { error: ExecError::CompileFailure };
            },
        };
        match &self.cache {
            Some(p) => {
                if key_eq(&p.source, &code) {
                    RequestPlan::Verify {
                        program: RuntimeProgram {
                            source: clone_bytes(&p.source),
                            compiled: p.compiled,
                        },
                        reader: parent.duplicate(),
                    }
                } else {
                    RequestPlan::Compile { source: code }
                }
            },
            None => RequestPlan::Compile { source: code },
        }
    }

    /// Takes the result of the external compiler for `source`: a handle
    /// means the cache now holds that program; no handle means the bytes
    /// were malformed, which fails the current request alone.
    pub fn resolve_program(&mut self, source: Vec<u8>, compiled: Option<u64>) -> (r: Result<
        (),
        ExecError,
    >)
        requires
            old(self).wf(),
        ensures
            final(self).wf(),
            final(self).store == old(self).store,
            final(self).retain_depth == old(self).retain_depth,
            compiled matches Some(h) ==> (r is Ok && (final(self).cache matches Some(p)
                && p.source@ == source@ && p.compiled == h) && final(self).cache_key() == Some(
                source@,
            )),
            compiled is None ==> ((r matches Err(e) && e is CompileFailure) && final(self).cache
                == old(self).cache),
    {
        match compiled {
            Some(h) => {
                self.cache = Some(RuntimeProgram { source, compiled: h });
                Ok(())
            },
            None => Err(ExecError::CompileFailure),
        }
    }

    /// Takes the verifier's outcome for `block`. A rejection becomes a typed
    /// per-request failure, leaving all state unchanged. An acceptance
    /// commits the child snapshot derived from the parent plus the delta
    /// set, evicts the ancestor beyond the retention depth, and invalidates
    /// the program cache when the delta touched the reserved program key; if
    /// the parent snapshot has meanwhile vanished, the request fails with
    /// `StorageInconsistency` and nothing changes.
    pub fn apply_outcome(&mut self, block: Block, outcome: VerifyOutcome) -> (r: Result<
        ExecuteSuccess,
        ExecError,
    >)
        requires
            old(self).wf(),
        ensures
            final(self).wf(),
            final(self).retain_depth == old(self).retain_depth,
            outcome matches VerifyOutcome::Rejected { cause } ==> ((r matches Err(
                ExecError::VerificationRejected { cause: c },
            ) && c@ == cause@) && final(self).store@ == old(self).store@ && final(self).cache
                == old(self).cache),
            outcome matches VerifyOutcome::Accepted { changes } ==> ((
            if !old(self).store@.contains_key(block.parent_hash) {
                (r matches Err(e) && e is StorageInconsistency) && final(self).store@ == old(self).store@ && final(self).cache == old(self).cache
            } else {
                (r matches Ok(s) && s.block == block && s.storage_changes@ == changes@)
                    && final(self).store@ == commit_model(
                    old(self).store@,
                    block.parent_hash,
                    block.hash,
                    changes@,
                    old(self).retain_depth,
                ) && final(self).cache_key() == cache_after_commit(
                    old(self).cache_key(),
                    changes@,
                ) && (!changes@.contains_key(program_key()) ==> final(self).cache == old(self).cache)
            })),
    {
        match outcome {
            VerifyOutcome::Rejected { cause } => Err(ExecError::VerificationRejected { cause }),
            VerifyOutcome::Accepted { changes } => {
                match self.store.derive_child(block.parent_hash, block.hash, &changes) {
                    Ok(_) => {},
                    Err(_) => {
                        return Err(ExecError::StorageInconsistency);
                    },
                }
                let ghost mid = self.store@;
                let limit = self.retain_depth + 1;
                let mut cur: u64 = block.hash;
                let mut steps: u64 = 0;
                let mut dead = false;
                while steps < limit && !dead
                    invariant
                        self.store.wf(),
                        self.store@ == mid,
                        self.cache == old(self).cache,
                        self.retain_depth == old(self).retain_depth,
                        steps <= limit,
                        limit == old(self).retain_depth + 1,
                        !dead ==> nth_ancestor(mid, block.hash, steps as nat) == Some(cur),
                        dead ==> nth_ancestor(mid, block.hash, limit as nat) is None,
                    decreases limit - steps + (if dead {
                        0int
                    } else {
                        1int
                    }),
                {
                    match self.store.get(cur) {
                        Ok(s) => {
                            proof {
                                lemma_nth_ancestor_step(mid, block.hash, steps as nat);
                            }
                            cur = s.parent_hash;
                            steps = steps + 1;
                        },
                        Err(_) => {
                            proof {
                                lemma_nth_ancestor_step(mid, block.hash, steps as nat);
                                lemma_nth_ancestor_none(
                                    mid,
                                    block.hash,
                                    (steps + 1) as nat,
                                    limit as nat,
                                );
                            }
                            dead = true;
                        },
                    }
                }
                if !dead {
                    self.store.evict(cur);
                }
                let pk = program_storage_key();
                if changes.contains(&pk) {
                    self.cache = None;
                }
                Ok(ExecuteSuccess { block, storage_changes: changes })
            },
        }
    }
}

} // verus!
