//! The engine: versioned store, transactions and guards, the evaluator, the
//! per-compute context, and demand-driven invalidation with early cutoff.

use vstd::prelude::*;
use crate::keys::{KeyDef, Expr, Transform, esize, reqs_expr, reqs_key, run_transform};
use crate::semantics::{World, Outcome, den_key, den_expr, input_at, count_false, all_false,
    subvis, lemma_count_false_update};
use crate::cutoff::{reaches, reaches_n, lemma_reaches_step, lemma_den_extend_key,
    lemma_den_hist_append_key, lemma_den_shrink_key, lemma_cutoff_key, lemma_key_available,
    lemma_dep_available};

verus! {

/// The error channel of the engine.
#[derive(Debug, Clone, Copy, PartialEq, Eq, Structural)]
pub enum EngineError {
    /// A user computation or projection transform failed; never cached.
    Computation,
    /// A computation requested itself, directly or transitively.
    Cycle,
    /// The operation was attempted against a released guard.
    GuardExpired,
}

/// A committed cache entry: an immutable value, the dependencies observed
/// while producing it (key and value seen), and every version at which the
/// entry has been verified.
pub struct Entry {
    pub value: u64,
    pub deps: Vec<(usize, u64)>,
    pub versions: Vec<u64>,
}

/// One transaction guard: the version it pins and whether it is still held.
pub struct GuardSlot {
    pub version: u64,
    pub active: bool,
}

/// The mutable shared state: input histories, invalidation marks, the
/// version counter, committed entries, guards, and invocation counts.
pub struct Store {
    pub hists: Vec<Vec<(u64, u64)>>,
    pub changed: Vec<u64>,
    pub version: u64,
    pub entries: Vec<Vec<Entry>>,
    pub guards: Vec<GuardSlot>,
    pub counts: Vec<u64>,
}

/// The engine instance: registered key definitions plus the store.
pub struct Engine {
    pub defs: Vec<KeyDef>,
    pub store: Store,
}

/// A transaction: the guard it holds and the version it observes.
#[derive(Clone, Copy)]
pub struct TransactionHandle {
    pub guard: usize,
    pub version: u64,
}

/// Evaluates keys on behalf of one pinned version and its guard.
#[derive(Clone, Copy)]
pub struct AsyncEvaluator {
    pub version: u64,
    pub guard: usize,
}

/// The per-compute dependency accumulator, created fresh for exactly one
/// evaluator invocation.
pub struct ComputeContext {
    pub deps: Vec<(usize, u64)>,
}

/// The input histories as mathematical sequences.
pub open spec fn hists_view(h: Seq<Vec<(u64, u64)>>) -> Seq<Seq<(u64, u64)>> {
    Seq::new(h.len(), |i: int| h[i]@)
}

/// The ground data the semantics is read over.
pub open spec fn world_of(defs: Seq<KeyDef>, s: Store) -> World {
    World { defs: defs, hists: hists_view(s.hists@) }
}

/// The entry has been verified at version `v`.
pub open spec fn entry_covers(e: Entry, v: u64) -> bool {
    e.versions@.contains(v)
}

/// Some committed entry is verified at `v`.
pub open spec fn is_covered(es: Seq<Entry>, v: u64) -> bool {
    exists|i: int| 0 <= i < es.len() && entry_covers(es[i], v)
}

/// Some committed entry is verified at `v` and holds the value `y`.
pub open spec fn covered_val(es: Seq<Entry>, v: u64, y: u64) -> bool {
    exists|i: int| 0 <= i < es.len() && entry_covers(es[i], v) && es[i].value == y
}

/// No key occurs twice in a recorded dependency list.
pub open spec fn deps_nodup(ds: Seq<(usize, u64)>) -> bool {
    forall|i: int, j: int| 0 <= i < j < ds.len() ==> ds[i].0 != ds[j].0
}

/// The set of keys a recorded dependency list mentions.
pub open spec fn dep_keys(ds: Seq<(usize, u64)>) -> Set<int> {
    Set::new(|d: int| exists|i: int| 0 <= i < ds.len() && ds[i].0 as int == d)
}

/// Well-formedness of a leaf's input history: non-empty, strictly ascending
/// versions bounded by the current one, ending at the last change mark.
pub open spec fn hist_wf(h: Seq<(u64, u64)>, changed: u64, version: u64) -> bool {
    &&& h.len() >= 1
    &&& forall|i: int, j: int| 0 <= i < j < h.len() ==> h[i].0 < h[j].0
    &&& forall|i: int| 0 <= i < h.len() ==> h[i].0 <= version
    &&& h.last().0 == changed
}

/// Coherence of one committed entry for key `k`: at every verified version
/// the key denotes the entry's value, the recorded dependencies are exactly
/// the key's request set without duplicates, and each recorded dependency
/// value is what that dependency denotes at every verified version.
pub open spec fn entry_wf(defs: Seq<KeyDef>, w: World, k: int, e: Entry, version: u64) -> bool {
    &&& e.versions@.len() >= 1
    &&& forall|i: int, j: int| 0 <= i < j < e.versions@.len() ==> e.versions@[i] < e.versions@[j]
    &&& forall|i: int| 0 <= i < e.versions@.len() ==> e.versions@[i] <= version
    &&& forall|i: int|
        0 <= i < e.versions@.len() ==> den_key(w, e.versions@[i], k, all_false(defs.len()))
            == Outcome::Val(e.value)
    &&& deps_nodup(e.deps@)
    &&& dep_keys(e.deps@) == reqs_key(defs, k)
    &&& forall|i: int, j: int|
        0 <= i < e.deps@.len() && 0 <= j < e.versions@.len() ==> den_key(
            w,
            e.versions@[j],
            e.deps@[i].0 as int,
            all_false(defs.len()),
        ) == Outcome::Val(e.deps@[i].1)
}

/// The store invariant.
pub open spec fn store_wf(defs: Seq<KeyDef>, s: Store) -> bool {
    &&& s.hists@.len() == defs.len()
    &&& s.changed@.len() == defs.len()
    &&& s.entries@.len() == defs.len()
    &&& s.counts@.len() == defs.len()
    &&& s.version >= 1
    &&& forall|k: int|
        0 <= k < defs.len() ==> match #[trigger] defs[k] {
            KeyDef::Leaf => hist_wf(s.hists@[k]@, s.changed@[k], s.version),
            _ => s.hists@[k]@.len() == 0 && s.changed@[k] == 0,
        }
    &&& forall|k: int, i: int|
        0 <= k < defs.len() && 0 <= i < s.entries@[k]@.len() ==> entry_wf(
            defs,
            world_of(defs, s),
            k,
            #[trigger] s.entries@[k]@[i],
            s.version,
        )
    &&& forall|g: int|
        0 <= g < s.guards@.len() ==> 1 <= #[trigger] s.guards@[g].version <= s.version
}

/// Every key marked in progress has a dependency path to `k`: the marks are
/// exactly the chain of requests that led here.
pub open spec fn chain_ok(defs: Seq<KeyDef>, vis: Seq<bool>, k: int) -> bool {
    forall|x: int| 0 <= x < vis.len() && vis[x] ==> #[trigger] reaches(defs, x, k)
}

/// The result a caller receives for each outcome of the semantics.
pub open spec fn outcome_result(o: Outcome) -> Result<u64, EngineError> {
    match o {
        Outcome::Val(y) => Ok(y),
        Outcome::Cycle => Err(EngineError::Cycle),
        Outcome::Failed => Err(EngineError::Computation),
    }
}

/// An invocation count after one more run.
pub open spec fn bump(c: u64) -> u64 {
    if c == u64::MAX {
        c
    } else {
        (c + 1) as u64
    }
}

/// The committed state of key `k` allows serving a request at version `v`
/// without re-running `k`: the newest entry was verified no later than `v`,
/// `k` was not marked changed since, and every recorded dependency still
/// denotes its recorded value at `v`.
pub open spec fn cutoff_ready(defs: Seq<KeyDef>, s: Store, k: int, v: u64) -> bool {
    &&& s.entries@[k]@.len() >= 1
    &&& {
        let e = s.entries@[k]@.last();
        let w0 = e.versions@.last();
        &&& w0 <= v
        &&& s.changed@[k] <= w0
        &&& forall|i: int|
            0 <= i < e.deps@.len() ==> den_key(
                world_of(defs, s),
                v,
                #[trigger] e.deps@[i].0 as int,
                all_false(defs.len()),
            ) == Outcome::Val(e.deps@[i].1)
    }
}

/// How one engine step at version `v`, under in-progress marks `vis`, may
/// change the store: the ground data is framed; the cache only grows;
/// counts only grow; a key already covered at `v` is untouched; a key whose
/// committed state allows cutoff at `v` is not re-run; a key whose entries
/// changed is now covered at `v`; and a key on the current chain is not run.
pub open spec fn store_step(defs: Seq<KeyDef>, pre: Store, post: Store, v: u64, vis: Seq<bool>)
    -> bool {
    &&& post.hists == pre.hists
    &&& post.changed == pre.changed
    &&& post.version == pre.version
    &&& post.guards == pre.guards
    &&& post.entries@.len() == pre.entries@.len()
    &&& post.counts@.len() == pre.counts@.len()
    &&& forall|j: int, w: u64, y: u64|
        0 <= j < defs.len() && covered_val(pre.entries@[j]@, w, y) ==> covered_val(
            post.entries@[j]@,
            w,
            y,
        )
    &&& forall|j: int| 0 <= j < defs.len() ==> pre.counts@[j] <= #[trigger] post.counts@[j]
    &&& forall|j: int|
        0 <= j < defs.len() && is_covered(pre.entries@[j]@, v) ==> post.counts@[j]
            == pre.counts@[j] && post.entries@[j] == pre.entries@[j]
    &&& forall|j: int|
        0 <= j < defs.len() && !is_covered(pre.entries@[j]@, v) && cutoff_ready(defs, pre, j, v)
            ==> post.counts@[j] == pre.counts@[j]
    &&& forall|j: int|
        0 <= j < defs.len() && post.entries@[j] != pre.entries@[j] ==> is_covered(
            post.entries@[j]@,
            v,
        )
    &&& forall|j: int|
        0 <= j < vis.len() && vis[j] ==> post.counts@[j] == pre.counts@[j] && post.entries@[j]
            == pre.entries@[j]
}

/// Termination measure of evaluating one key, under a fixed chain length.
pub open spec fn key_measure(defs: Seq<KeyDef>, k: int) -> nat {
    if 0 <= k < defs.len() {
        match defs[k] {
            KeyDef::Computation(e) => esize(e) + 2,
            _ => 2,
        }
    } else {
        2
    }
}

/// Store steps compose.
pub proof fn lemma_store_step_trans(
    defs: Seq<KeyDef>,
    s1: Store,
    s2: Store,
    s3: Store,
    v: u64,
    vis: Seq<bool>,
)
    requires
        store_step(defs, s1, s2, v, vis),
        store_step(defs, s2, s3, v, vis),
    ensures
        store_step(defs, s1, s3, v, vis),
{
    assert forall|j: int|
        0 <= j < defs.len() && is_covered(s1.entries@[j]@, v) implies s3.counts@[j]
        == s1.counts@[j] && s3.entries@[j] == s1.entries@[j] by {
        assert(s2.entries@[j] == s1.entries@[j]);
        assert(is_covered(s2.entries@[j]@, v));
    }
    assert forall|j: int|
        0 <= j < defs.len() && !is_covered(s1.entries@[j]@, v) && cutoff_ready(defs, s1, j, v)
        implies s3.counts@[j] == s1.counts@[j] by {
        if s2.entries@[j] == s1.entries@[j] {
            assert(world_of(defs, s2) == world_of(defs, s1));
            assert(cutoff_ready(defs, s2, j, v));
            assert(!is_covered(s2.entries@[j]@, v));
        } else {
            assert(is_covered(s2.entries@[j]@, v));
        }
    }
    assert forall|j: int|
        0 <= j < defs.len() && s3.entries@[j] != s1.entries@[j] implies is_covered(
        s3.entries@[j]@,
        v,
    ) by {
        if s3.entries@[j] == s2.entries@[j] {
            assert(s2.entries@[j] != s1.entries@[j]);
            assert(is_covered(s2.entries@[j]@, v));
        }
    }
}

impl Engine {
    /// The engine invariant: the store is well formed for the definitions.
    pub open spec fn wf(self) -> bool {
        store_wf(self.defs@, self.store)
    }

    /// The ground data of this engine.
    pub open spec fn world(self) -> World {
        world_of(self.defs@, self.store)
    }

    /// What key `k` denotes at version `v` in this engine.
    pub open spec fn outcome_at(self, k: int, v: u64) -> Outcome {
        den_key(self.world(), v, k, all_false(self.defs@.len()))
    }

    /// The guard slot is still held.
    pub open spec fn guard_active(self, g: int) -> bool {
        0 <= g < self.store.guards@.len() && self.store.guards@[g].active
    }

    /// A fresh engine with no keys, no guards, and version one.
    pub fn new() -> (r: Engine)
        ensures
            r.wf(),
            r.defs@.len() == 0,
            r.store.version == 1,
            r.store.guards@.len() == 0,
    {
        Engine {
            defs: Vec::new(),
            store: Store {
                hists: Vec::new(),
                changed: Vec::new(),
                version: 1,
                entries: Vec::new(),
                guards: Vec::new(),
                counts: Vec::new(),
            },
        }
    }

    /// The number of registered keys.
    pub fn key_count(&self) -> (r: usize)
        ensures
            r == self.defs@.len(),
    {
        self.defs.len()
    }

    /// The current version.
    pub fn current_version(&self) -> (r: u64)
        ensures
            r == self.store.version,
    {
        self.store.version
    }

    /// How often key `k`'s computation has been run.
    pub fn invocation_count(&self, k: usize) -> (r: u64)
        requires
            self.wf(),
            k < self.defs@.len(),
        ensures
            r == self.store.counts@[k as int],
    {
        self.counts_at(k)
    }

    /// How many committed entries key `k` currently has.
    pub fn entry_count(&self, k: usize) -> (r: usize)
        requires
            self.wf(),
            k < self.defs@.len(),
        ensures
            r == self.store.entries@[k as int]@.len(),
    {
        self.store.entries[k].len()
    }

    fn counts_at(&self, k: usize) -> (r: u64)
        requires
            self.wf(),
            k < self.defs@.len(),
        ensures
            r == self.store.counts@[k as int],
    {
        self.store.counts[k]
    }

    /// Register a key shared by every registration kind.
    fn register(&mut self, def: KeyDef, hist: Vec<(u64, u64)>, changed: u64) -> (id: usize)
        requires
            old(self).wf(),
            old(self).defs@.len() < usize::MAX,
            match def {
                KeyDef::Leaf => hist@.len() == 1 && hist@[0].0 == old(self).store.version
                    && changed == old(self).store.version,
                _ => hist@.len() == 0 && changed == 0,
            },
        ensures
            final(self).wf(),
            id == old(self).defs@.len(),
            final(self).defs@ == old(self).defs@.push(def),
            final(self).store.version == old(self).store.version,
            final(self).store.guards == old(self).store.guards,
            final(self).store.counts@ == old(self).store.counts@.push(0u64),
            final(self).store.entries@[id as int]@.len() == 0,
            final(self).store.hists@ == old(self).store.hists@.push(hist),
            forall|k2: int, v: u64|
                old(self).outcome_at(k2, v) is Val ==> final(self).outcome_at(k2, v) == old(
                    self,
                ).outcome_at(k2, v),
    {
        let ghost pre = *old(self);
        let id = self.defs.len();
        self.defs.push(def);
        self.store.hists.push(hist);
        self.store.changed.push(changed);
        self.store.entries.push(Vec::new());
        self.store.counts.push(0);
        proof {
            let w1 = world_of(pre.defs@, pre.store);
            let w2 = world_of(self.defs@, self.store);
            let n = pre.defs@.len() as int;
            assert(w2.defs.len() == w1.defs.len() + 1);
            assert forall|i: int| 0 <= i < n implies w2.hists[i] == w1.hists[i] by {
                assert(self.store.hists@[i] == pre.store.hists@[i]);
            }
            assert forall|k2: int, v: u64| den_key(w1, v, k2, all_false(n as nat)) is Val
                implies den_key(w2, v, k2, all_false(self.defs@.len())) == den_key(
                w1,
                v,
                k2,
                all_false(n as nat),
            ) by {
                lemma_den_extend_key(w1, w2, v, k2, all_false(n as nat));
                assert(all_false(n as nat).push(false) =~= all_false(self.defs@.len()));
            }
            assert forall|k2: int, i: int|
                0 <= k2 < self.defs@.len() && 0 <= i < self.store.entries@[k2]@.len()
                implies entry_wf(
                self.defs@,
                w2,
                k2,
                #[trigger] self.store.entries@[k2]@[i],
                self.store.version,
            ) by {
                assert(k2 < n);
                let e = self.store.entries@[k2]@[i];
                assert(e == pre.store.entries@[k2]@[i]);
                assert(entry_wf(pre.defs@, w1, k2, e, pre.store.version));
                assert(reqs_key(self.defs@, k2) == reqs_key(pre.defs@, k2));
            }
            assert(self.wf());
        }
        id
    }

    /// Register a raw input key with an initial value at the current version.
    pub fn register_leaf(&mut self, initial: u64) -> (id: usize)
        requires
            old(self).wf(),
            old(self).defs@.len() < usize::MAX,
        ensures
            final(self).wf(),
            id == old(self).defs@.len(),
            final(self).defs@ == old(self).defs@.push(KeyDef::Leaf),
            final(self).store.version == old(self).store.version,
            final(self).store.guards == old(self).store.guards,
            forall|k2: int, v: u64|
                old(self).outcome_at(k2, v) is Val ==> final(self).outcome_at(k2, v) == old(
                    self,
                ).outcome_at(k2, v),
            forall|v: u64|
                v >= old(self).store.version ==> final(self).outcome_at(id as int, v)
                    == Outcome::Val(initial),
    {
        let ghost pre = *old(self);
        let mut hist: Vec<(u64, u64)> = Vec::new();
        let ver = self.store.version;
        hist.push((ver, initial));
        let id = self.register(KeyDef::Leaf, hist, ver);
        proof {
            assert forall|v: u64| v >= pre.store.version implies self.outcome_at(id as int, v)
                == Outcome::Val(initial) by {
                assert(self.world().hists[id as int] =~= seq![(ver, initial)]);
                assert(input_at(self.world().hists[id as int], v) == initial);
            }
        }
        id
    }

    /// Register a computation key.
    pub fn register_computation(&mut self, e: Expr) -> (id: usize)
        requires
            old(self).wf(),
            old(self).defs@.len() < usize::MAX,
        ensures
            final(self).wf(),
            id == old(self).defs@.len(),
            final(self).defs@ == old(self).defs@.push(KeyDef::Computation(e)),
            final(self).store.version == old(self).store.version,
            final(self).store.guards == old(self).store.guards,
            forall|k2: int, v: u64|
                old(self).outcome_at(k2, v) is Val ==> final(self).outcome_at(k2, v) == old(
                    self,
                ).outcome_at(k2, v),
    {
        self.register(KeyDef::Computation(e), Vec::new(), 0)
    }

    /// Register a projection over `base` with a pure transform.
    pub fn register_projection(&mut self, base: usize, transform: Transform) -> (id: usize)
        requires
            old(self).wf(),
            old(self).defs@.len() < usize::MAX,
        ensures
            final(self).wf(),
            id == old(self).defs@.len(),
            final(self).defs@ == old(self).defs@.push(
                KeyDef::Projection { base: base, transform: transform },
            ),
            final(self).store.version == old(self).store.version,
            final(self).store.guards == old(self).store.guards,
            forall|k2: int, v: u64|
                old(self).outcome_at(k2, v) is Val ==> final(self).outcome_at(k2, v) == old(
                    self,
                ).outcome_at(k2, v),
    {
        self.register(KeyDef::Projection { base: base, transform: transform }, Vec::new(), 0)
    }

    /// Mark a raw input changed: advance the version counter and record the
    /// new value at the new version.  Nothing is recomputed eagerly, and
    /// what any key denotes at the existing versions is unchanged.
    pub fn set_changed(&mut self, k: usize, value: u64) -> (nv: u64)
        requires
            old(self).wf(),
            k < old(self).defs@.len(),
            old(self).defs@[k as int] is Leaf,
            old(self).store.version < u64::MAX,
        ensures
            final(self).wf(),
            final(self).defs == old(self).defs,
            nv == old(self).store.version + 1,
            final(self).store.version == nv,
            final(self).store.entries == old(self).store.entries,
            final(self).store.counts == old(self).store.counts,
            final(self).store.guards == old(self).store.guards,
            final(self).store.changed@ == old(self).store.changed@.update(k as int, nv),
            forall|k2: int, v: u64|
                v <= old(self).store.version ==> final(self).outcome_at(k2, v) == old(
                    self,
                ).outcome_at(k2, v),
            final(self).outcome_at(k as int, nv) == Outcome::Val(value),
    {
        let ghost pre = *old(self);
        let nv = self.store.version + 1;
        self.store.version = nv;
        self.store.hists[k].push((nv, value));
        self.store.changed[k] = nv;
        proof {
            let w1 = world_of(pre.defs@, pre.store);
            let w2 = world_of(self.defs@, self.store);
            let n = self.defs@.len() as int;
            assert(w2.hists[k as int] == w1.hists[k as int].push((nv, value)));
            assert forall|i: int| 0 <= i < n && i != k implies w2.hists[i] == w1.hists[i] by {}
            assert forall|k2: int, v: u64| v <= pre.store.version implies #[trigger] den_key(
                w2,
                v,
                k2,
                all_false(n as nat),
            ) == den_key(w1, v, k2, all_false(n as nat)) by {
                lemma_den_hist_append_key(w1, w2, v, k as int, (nv, value), k2, all_false(
                    n as nat,
                ));
            }
            assert forall|k2: int, i: int|
                0 <= k2 < n && 0 <= i < self.store.entries@[k2]@.len() implies entry_wf(
                self.defs@,
                w2,
                k2,
                #[trigger] self.store.entries@[k2]@[i],
                self.store.version,
            ) by {
                let e = self.store.entries@[k2]@[i];
                assert(entry_wf(pre.defs@, w1, k2, e, pre.store.version));
                assert forall|j: int| 0 <= j < e.versions@.len() implies den_key(
                    w2,
                    e.versions@[j],
                    k2,
                    all_false(n as nat),
                ) == Outcome::Val(e.value) by {
                    lemma_den_hist_append_key(w1, w2, e.versions@[j], k as int, (nv, value), k2,
                        all_false(n as nat));
                }
                assert forall|i2: int, j: int|
                    0 <= i2 < e.deps@.len() && 0 <= j < e.versions@.len() implies den_key(
                    w2,
                    e.versions@[j],
                    e.deps@[i2].0 as int,
                    all_false(n as nat),
                ) == Outcome::Val(e.deps@[i2].1) by {
                    lemma_den_hist_append_key(w1, w2, e.versions@[j], k as int, (nv, value),
                        e.deps@[i2].0 as int, all_false(n as nat));
                }
            }
            assert(hist_wf(self.store.hists@[k as int]@, nv, nv));
            assert(self.wf());
            assert(input_at(w2.hists[k as int], nv) == value);
        }
        nv
    }

    /// Open a transaction: acquire a guard pinning the current version.
    pub fn start_transaction(&mut self) -> (h: TransactionHandle)
        requires
            old(self).wf(),
            old(self).store.guards@.len() < usize::MAX,
        ensures
            final(self).wf(),
            final(self).defs == old(self).defs,
            final(self).store.version == old(self).store.version,
            final(self).store.entries == old(self).store.entries,
            final(self).store.counts == old(self).store.counts,
            final(self).store.hists == old(self).store.hists,
            final(self).store.changed == old(self).store.changed,
            h.version == old(self).store.version,
            h.guard == old(self).store.guards@.len(),
            final(self).store.guards@ == old(self).store.guards@.push(
                GuardSlot { version: h.version, active: true },
            ),
            final(self).guard_active(h.guard as int),
    {
        let h = TransactionHandle { guard: self.store.guards.len(), version: self.store.version };
        self.store.guards.push(GuardSlot { version: h.version, active: true });
        h
    }

    /// Release a transaction's guard.  Committed entries are unaffected;
    /// only eligibility for collection changes.
    pub fn release(&mut self, h: TransactionHandle)
        requires
            old(self).wf(),
            h.guard < old(self).store.guards@.len(),
        ensures
            final(self).wf(),
            final(self).defs == old(self).defs,
            final(self).store.version == old(self).store.version,
            final(self).store.entries == old(self).store.entries,
            final(self).store.counts == old(self).store.counts,
            final(self).store.hists == old(self).store.hists,
            final(self).store.changed == old(self).store.changed,
            final(self).store.guards@ == old(self).store.guards@.update(
                h.guard as int,
                GuardSlot { version: old(self).store.guards@[h.guard as int].version, active: false },
            ),
    {
        let ver = self.store.guards[h.guard].version;
        self.store.guards[h.guard] = GuardSlot { version: ver, active: false };
    }
}

/// Version `w` is alive: it is the current version or a held guard pins it.
pub open spec fn live_version(gs: Seq<GuardSlot>, current: u64, w: u64) -> bool {
    w == current || exists|g: int| 0 <= g < gs.len() && gs[g].active && gs[g].version == w
}

/// Some verified version of the entry is still alive: the entry is shared
/// with a live version and must be retained.
pub open spec fn entry_live(e: Entry, gs: Seq<GuardSlot>, current: u64) -> bool {
    exists|i: int| 0 <= i < e.versions@.len() && live_version(gs, current, e.versions@[i])
}

/// Whether version `w` is pinned by a held guard or is the current version.
fn version_is_live(guards: &Vec<GuardSlot>, current: u64, w: u64) -> (r: bool)
    ensures
        r == live_version(guards@, current, w),
{
    if w == current {
        return true;
    }
    let mut g: usize = 0;
    while g < guards.len()
        invariant
            g <= guards@.len(),
            forall|i: int| 0 <= i < g ==> !(#[trigger] guards@[i].active && guards@[i].version == w),
            w != current,
        decreases guards@.len() - g,
    {
        if guards[g].active && guards[g].version == w {
            assert(guards@[g as int].active && guards@[g as int].version == w);
            return true;
        }
        g += 1;
    }
    false
}

/// Whether an entry must be retained by the collector.
fn entry_is_live(e: &Entry, guards: &Vec<GuardSlot>, current: u64) -> (r: bool)
    ensures
        r == entry_live(*e, guards@, current),
{
    let mut i: usize = 0;
    while i < e.versions.len()
        invariant
            i <= e.versions@.len(),
            forall|j: int| 0 <= j < i ==> !live_version(guards@, current, #[trigger] e.versions@[j]),
        decreases e.versions@.len() - i,
    {
        if version_is_live(guards, current, e.versions[i]) {
            return true;
        }
        i += 1;
    }
    false
}

/// Whether `v` occurs among the verified versions.
fn contains_version(vs: &Vec<u64>, v: u64) -> (r: bool)
    ensures
        r == vs@.contains(v),
{
    let mut j: usize = 0;
    while j < vs.len()
        invariant
            j <= vs@.len(),
            forall|i: int| 0 <= i < j ==> vs@[i] != v,
        decreases vs@.len() - j,
    {
        if vs[j] == v {
            assert(vs@[j as int] == v);
            return true;
        }
        j += 1;
    }
    false
}

/// Whether key `d` is already recorded in a dependency list.
fn contains_dep(ds: &Vec<(usize, u64)>, d: usize) -> (r: bool)
    ensures
        r == dep_keys(ds@).contains(d as int),
{
    let mut j: usize = 0;
    while j < ds.len()
        invariant
            j <= ds@.len(),
            forall|i: int| 0 <= i < j ==> ds@[i].0 != d,
        decreases ds@.len() - j,
    {
        if ds[j].0 == d {
            assert(ds@[j as int].0 as int == d as int);
            return true;
        }
        j += 1;
    }
    false
}

/// Look for a committed entry verified at `v` and return its value.
fn find_covering(es: &Vec<Entry>, v: u64) -> (r: Option<u64>)
    ensures
        match r {
            Some(y) => covered_val(es@, v, y),
            None => !is_covered(es@, v),
        },
{
    let mut i: usize = 0;
    while i < es.len()
        invariant
            i <= es@.len(),
            forall|j: int| 0 <= j < i ==> !entry_covers(#[trigger] es@[j], v),
        decreases es@.len() - i,
    {
        if contains_version(&es[i].versions, v) {
            return Some(es[i].value);
        }
        i += 1;
    }
    None
}

/// Read a raw input's value at version `v` from its history.
fn lookup_input(h: &Vec<(u64, u64)>, v: u64) -> (r: u64)
    ensures
        r == input_at(h@, v),
{
    let mut i: usize = h.len();
    proof {
        assert(h@.take(h@.len() as int) =~= h@);
    }
    while i > 0
        invariant
            i <= h@.len(),
            input_at(h@, v) == input_at(h@.take(i as int), v),
        decreases i,
    {
        let j = i - 1;
        proof {
            assert(h@.take(i as int).last() == h@[j as int]);
            assert(h@.take(i as int).drop_last() =~= h@.take(j as int));
        }
        if h[j].0 <= v {
            return h[j].1;
        }
        i = j;
    }
    proof {
        assert(h@.take(0).len() == 0);
    }
    0
}

/// The versioned store's cache-or-compute path for one key request at one
/// pinned version: serve a covered entry, detect a cycle on the current
/// chain, and otherwise re-validate or run the key's computation.
fn get_or_compute(
    defs: &Vec<KeyDef>,
    store: &mut Store,
    ev: AsyncEvaluator,
    k: usize,
    visited: &mut Vec<bool>,
) -> (r: Result<u64, EngineError>)
    requires
        store_wf(defs@, *old(store)),
        old(visited)@.len() == defs@.len(),
        ev.version <= old(store).version,
        chain_ok(defs@, old(visited)@, k as int),
    ensures
        store_wf(defs@, *final(store)),
        final(visited)@ == old(visited)@,
        store_step(defs@, *old(store), *final(store), ev.version, old(visited)@),
        r == outcome_result(
            den_key(world_of(defs@, *old(store)), ev.version, k as int, old(visited)@),
        ),
        r matches Ok(y) ==> covered_val(final(store).entries@[k as int]@, ev.version, y),
        k < defs@.len() && !old(visited)@[k as int] && !is_covered(
            old(store).entries@[k as int]@,
            ev.version,
        ) && !cutoff_ready(defs@, *old(store), k as int, ev.version)
            ==> final(store).counts@[k as int] == bump(old(store).counts@[k as int]),
    decreases count_false(visited@), 0nat,
{
    let ghost w = world_of(defs@, *old(store));
    let v = ev.version;
    if k >= defs.len() {
        return Err(EngineError::Computation);
    }
    if visited[k] {
        return Err(EngineError::Cycle);
    }
    let cached = find_covering(&store.entries[k], v);
    if let Some(y) = cached {
        proof {
            let es = store.entries@[k as int]@;
            let i = choose|i: int|
                0 <= i < es.len() && entry_covers(es[i], v) && es[i].value == y;
            let e = es[i];
            assert(entry_wf(defs@, w, k as int, e, store.version));
            let j = choose|j: int| 0 <= j < e.versions@.len() && e.versions@[j] == v;
            assert(den_key(w, v, k as int, all_false(defs@.len())) == Outcome::Val(y));
            lemma_key_available(w, v, k as int, visited@);
        }
        return Ok(y);
    }
    proof {
        lemma_count_false_update(visited@, k as int);
        assert(reaches_n(defs@, k as int, k as int, 0));
        assert(reaches(defs@, k as int, k as int));
    }
    visited[k] = true;
    let r = revalidate_or_run(defs, store, ev, k, visited);
    visited[k] = false;
    proof {
        assert(visited@ =~= old(visited)@);
        assert(old(visited)@.update(k as int, true).update(k as int, false) =~= old(visited)@);
    }
    r
}

/// Resolve a projection's base key through the normal cache-or-compute
/// path.  The base is tracked with its own full dependency set internally,
/// but the caller records only the base key itself as a dependency: a
/// projection's validity is coupled solely to its base.
fn compute_opaque(
    defs: &Vec<KeyDef>,
    store: &mut Store,
    ev: AsyncEvaluator,
    base: usize,
    visited: &mut Vec<bool>,
) -> (r: Result<u64, EngineError>)
    requires
        store_wf(defs@, *old(store)),
        old(visited)@.len() == defs@.len(),
        ev.version <= old(store).version,
        chain_ok(defs@, old(visited)@, base as int),
    ensures
        store_wf(defs@, *final(store)),
        final(visited)@ == old(visited)@,
        store_step(defs@, *old(store), *final(store), ev.version, old(visited)@),
        r == outcome_result(
            den_key(world_of(defs@, *old(store)), ev.version, base as int, old(visited)@),
        ),
    decreases count_false(visited@), 1nat,
{
    get_or_compute(defs, store, ev, base, visited)
}

/// Re-validate the newest committed entry for `k` at the pinned version; on
/// success extend the entry's verified versions (early cutoff, no re-run),
/// otherwise run the evaluator and commit the result.
#[verifier::loop_isolation(false)]
fn revalidate_or_run(
    defs: &Vec<KeyDef>,
    store: &mut Store,
    ev: AsyncEvaluator,
    k: usize,
    visited: &mut Vec<bool>,
) -> (r: Result<u64, EngineError>)
    requires
        store_wf(defs@, *old(store)),
        old(visited)@.len() == defs@.len(),
        ev.version <= old(store).version,
        k < defs@.len(),
        old(visited)@[k as int],
        chain_ok(defs@, old(visited)@, k as int),
        !is_covered(old(store).entries@[k as int]@, ev.version),
    ensures
        store_wf(defs@, *final(store)),
        final(visited)@ == old(visited)@,
        store_step(
            defs@,
            *old(store),
            *final(store),
            ev.version,
            old(visited)@.update(k as int, false),
        ),
        r == outcome_result(
            den_key(
                world_of(defs@, *old(store)),
                ev.version,
                k as int,
                old(visited)@.update(k as int, false),
            ),
        ),
        r matches Ok(y) ==> covered_val(final(store).entries@[k as int]@, ev.version, y),
        !cutoff_ready(defs@, *old(store), k as int, ev.version)
            ==> final(store).counts@[k as int] == bump(old(store).counts@[k as int]),
    decreases count_false(visited@), key_measure(defs@, k as int) + 1,
{
    let ghost w = world_of(defs@, *old(store));
    let ghost vis = old(visited)@;
    let ghost vis0 = old(visited)@.update(k as int, false);
    let v = ev.version;
    proof {
        assert(subvis(vis0, vis));
        assert(subvis(all_false(defs@.len()), vis0));
    }
    let ne = store.entries[k].len();
    if ne > 0 {
        let ghost e0 = old(store).entries@[k as int]@[ne - 1];
        proof {
            assert(entry_wf(defs@, w, k as int, e0, old(store).version));
        }
        let nv = store.entries[k][ne - 1].versions.len();
        let w0 = store.entries[k][ne - 1].versions[nv - 1];
        let ch = store.changed[k];
        if w0 <= v && ch <= w0 {
            proof {
                if w0 == v {
                    assert(e0.versions@.contains(v));
                    assert(is_covered(old(store).entries@[k as int]@, v));
                }
                assert(den_key(w, w0, k as int, all_false(defs@.len())) == Outcome::Val(
                    e0.value,
                ));
            }
            let nd = store.entries[k][ne - 1].deps.len();
            let mut di: usize = 0;
            let mut matched = true;
            while di < nd && matched
                invariant
                    store_wf(defs@, *store),
                    visited@ == vis,
                    store_step(defs@, *old(store), *store, v, vis),
                    world_of(defs@, *store) == w,
                    di <= nd,
                    v == ev.version,
                    ev.version <= store.version,
                    k < defs@.len(),
                    vis.len() == defs@.len(),
                    vis[k as int],
                    chain_ok(defs@, vis, k as int),
                    store.entries@[k as int] == old(store).entries@[k as int],
                    1 <= ne == store.entries@[k as int]@.len(),
                    e0 == store.entries@[k as int]@[ne - 1],
                    nd == e0.deps@.len(),
                    w0 == e0.versions@.last(),
                    den_key(w, w0, k as int, all_false(defs@.len())) == Outcome::Val(e0.value),
                    matched ==> forall|i: int|
                        0 <= i < di ==> den_key(
                            w,
                            v,
                            #[trigger] e0.deps@[i].0 as int,
                            all_false(defs@.len()),
                        ) == Outcome::Val(e0.deps@[i].1),
                    !matched ==> !cutoff_ready(defs@, *old(store), k as int, v),
                decreases nd - di,
            {
                let dp = store.entries[k][ne - 1].deps[di];
                let d = dp.0;
                let ghost y = dp.1;
                proof {
                    assert(dep_keys(e0.deps@).contains(d as int));
                    assert(reqs_key(defs@, k as int).contains(d as int));
                    lemma_dep_available(w, v, w0, k as int, d as int, vis);
                    assert forall|x: int| 0 <= x < vis.len() && vis[x] implies #[trigger] reaches(
                        defs@,
                        x,
                        d as int,
                    ) by {
                        assert(reaches(defs@, x, k as int));
                        let n1 = choose|n1: nat| reaches_n(defs@, x, k as int, n1);
                        lemma_reaches_step(defs@, x, k as int, d as int, n1);
                        assert(reaches_n(defs@, x, d as int, (n1 + 1) as nat));
                    }
                }
                let ghost mid = *store;
                let rd = get_or_compute(defs, store, ev, d, visited);
                proof {
                    lemma_store_step_trans(defs@, *old(store), mid, *store, v, vis);
                }
                match rd {
                    Ok(yd) => {
                        if yd != dp.1 {
                            proof {
                                assert(den_key(w, v, d as int, all_false(defs@.len()))
                                    == Outcome::Val(yd));
                            }
                            matched = false;
                        }
                    }
                    Err(_) => {
                        proof {
                            assert(false);
                        }
                        matched = false;
                    }
                }
                di += 1;
            }
            if matched {
                proof {
                    assert(cutoff_ready(defs@, *old(store), k as int, v));
                    // the key still denotes the committed value at `v`
                    if defs@[k as int] is Leaf {
                        let h = w.hists[k as int];
                        assert(hist_wf(h, old(store).changed@[k as int], old(store).version));
                        assert(input_at(h, v) == h.last().1);
                        assert(input_at(h, w0) == h.last().1);
                    } else {
                        assert forall|d: int| #[trigger] reqs_key(defs@, k as int).contains(d)
                            implies den_key(w, v, d, all_false(defs@.len())) == den_key(
                            w,
                            w0,
                            d,
                            all_false(defs@.len()),
                        ) by {
                            assert(dep_keys(e0.deps@).contains(d));
                            let i = choose|i: int|
                                0 <= i < e0.deps@.len() && e0.deps@[i].0 as int == d;
                            assert(den_key(w, v, d, all_false(defs@.len())) == Outcome::Val(
                                e0.deps@[i].1,
                            ));
                            assert(den_key(w, w0, d, all_false(defs@.len())) == Outcome::Val(
                                e0.deps@[i].1,
                            ));
                        }
                        lemma_cutoff_key(w, w0, v, k as int);
                    }
                    assert(den_key(w, v, k as int, all_false(defs@.len())) == Outcome::Val(
                        e0.value,
                    ));
                    lemma_key_available(w, v, k as int, vis0);
                }
                let ghost mid = *store;
                store.entries[k][ne - 1].versions.push(v);
                let val = store.entries[k][ne - 1].value;
                proof {
                    let enew = store.entries@[k as int]@[ne - 1];
                    assert(enew.versions@ == e0.versions@.push(v));
                    assert(enew.versions@.last() == v);
                    assert(enew.versions@[enew.versions@.len() - 1] == v);
                    assert(enew.versions@.contains(v));
                    assert(entry_covers(enew, v));
                    assert(is_covered(store.entries@[k as int]@, v));
                    assert(covered_val(store.entries@[k as int]@, v, e0.value));
                    // the extended entry is coherent
                    assert forall|i: int| 0 <= i < enew.versions@.len() implies den_key(
                        w,
                        enew.versions@[i],
                        k as int,
                        all_false(defs@.len()),
                    ) == Outcome::Val(enew.value) by {
                        if i < e0.versions@.len() {
                            assert(enew.versions@[i] == e0.versions@[i]);
                        }
                    }
                    assert forall|i: int, j: int|
                        0 <= i < enew.deps@.len() && 0 <= j < enew.versions@.len() implies den_key(
                        w,
                        enew.versions@[j],
                        enew.deps@[i].0 as int,
                        all_false(defs@.len()),
                    ) == Outcome::Val(enew.deps@[i].1) by {
                        if j < e0.versions@.len() {
                            assert(enew.versions@[j] == e0.versions@[j]);
                        }
                    }
                    assert(entry_wf(defs@, w, k as int, enew, store.version));
                    assert forall|k2: int, i: int|
                        0 <= k2 < defs@.len() && 0 <= i < store.entries@[k2]@.len()
                        implies entry_wf(
                        defs@,
                        world_of(defs@, *store),
                        k2,
                        #[trigger] store.entries@[k2]@[i],
                        store.version,
                    ) by {
                        if k2 != k as int || i != ne - 1 {
                            assert(store.entries@[k2]@[i] == mid.entries@[k2]@[i]);
                            assert(entry_wf(defs@, w, k2, store.entries@[k2]@[i], store.version));
                        }
                    }
                    assert(store_wf(defs@, *store));
                    // the extension is a store step from `mid`
                    assert forall|j: int, wv: u64, yv: u64|
                        0 <= j < defs@.len() && covered_val(mid.entries@[j]@, wv, yv)
                        implies covered_val(store.entries@[j]@, wv, yv) by {
                        let i = choose|i: int|
                            0 <= i < mid.entries@[j]@.len() && entry_covers(
                                mid.entries@[j]@[i],
                                wv,
                            ) && mid.entries@[j]@[i].value == yv;
                        if j == k as int && i == ne - 1 {
                            let jj = choose|jj: int|
                                0 <= jj < e0.versions@.len() && e0.versions@[jj] == wv;
                            assert(enew.versions@[jj] == wv);
                            assert(enew.versions@.contains(wv));
                            assert(entry_covers(store.entries@[j]@[i], wv));
                        } else {
                            assert(store.entries@[j]@[i] == mid.entries@[j]@[i]);
                        }
                    }
                    assert(store_step(defs@, mid, *store, v, vis0));
                    assert(store_step(defs@, *old(store), mid, v, vis0));
                    lemma_store_step_trans(defs@, *old(store), mid, *store, v, vis0);
                }
                return Ok(val);
            }
        } else {
            proof {
                assert(!cutoff_ready(defs@, *old(store), k as int, v)) by {
                    assert(e0 == old(store).entries@[k as int]@.last());
                    assert(e0.versions@.last() == w0);
                }
            }
        }
    }
    proof {
        assert(!cutoff_ready(defs@, *old(store), k as int, v));
    }
    // run the computation: bump the invocation count, evaluate, commit
    let ghost mid0 = *store;
    let c = store.counts[k];
    if c < u64::MAX {
        store.counts[k] = c + 1;
    }
    proof {
        assert(store.counts@[k as int] == bump(mid0.counts@[k as int]));
        assert(store_step(defs@, mid0, *store, v, vis0));
        lemma_store_step_trans(defs@, *old(store), mid0, *store, v, vis0);
        assert(store_wf(defs@, *store));
    }
    let ghost mid1 = *store;
    let rr = ev.evaluate(defs, store, k, visited);
    proof {
        assert(store_step(defs@, mid1, *store, v, vis0));
        lemma_store_step_trans(defs@, *old(store), mid1, *store, v, vis0);
    }
    match rr {
        Ok(pair) => {
            let (val, ds) = pair;
            let ghost mid2 = *store;
            let mut vv: Vec<u64> = Vec::new();
            vv.push(v);
            store.entries[k].push(Entry { value: val, deps: ds, versions: vv });
            proof {
                lemma_den_shrink_key(w, v, k as int, vis0, all_false(defs@.len()));
                let enew = store.entries@[k as int]@.last();
                assert(enew.versions@ =~= seq![v]);
                assert(enew.versions@[0] == v);
                assert(enew.versions@.contains(v));
                assert(entry_covers(enew, v));
                assert(covered_val(store.entries@[k as int]@, v, val));
                assert(entry_wf(defs@, w, k as int, enew, store.version));
                assert forall|k2: int, i: int|
                    0 <= k2 < defs@.len() && 0 <= i < store.entries@[k2]@.len() implies entry_wf(
                    defs@,
                    world_of(defs@, *store),
                    k2,
                    #[trigger] store.entries@[k2]@[i],
                    store.version,
                ) by {
                    if k2 != k as int || i != store.entries@[k2]@.len() - 1 {
                        assert(store.entries@[k2]@[i] == mid2.entries@[k2]@[i]);
                        assert(entry_wf(defs@, w, k2, store.entries@[k2]@[i], store.version));
                    }
                }
                assert(store_wf(defs@, *store));
                assert forall|j: int, wv: u64, yv: u64|
                    0 <= j < defs@.len() && covered_val(mid2.entries@[j]@, wv, yv)
                    implies covered_val(store.entries@[j]@, wv, yv) by {
                    let i = choose|i: int|
                        0 <= i < mid2.entries@[j]@.len() && entry_covers(mid2.entries@[j]@[i], wv)
                            && mid2.entries@[j]@[i].value == yv;
                    assert(store.entries@[j]@[i] == mid2.entries@[j]@[i]);
                }
                assert(store_step(defs@, mid2, *store, v, vis0));
                lemma_store_step_trans(defs@, *old(store), mid2, *store, v, vis0);
            }
            Ok(val)
        }
        Err(e2) => Err(e2),
    }
}

impl AsyncEvaluator {
    /// An evaluator bound to one pinned version and the guard holding it.
    pub fn new(version: u64, guard: usize) -> (r: AsyncEvaluator)
        ensures
            r.version == version,
            r.guard == guard,
    {
        AsyncEvaluator { version: version, guard: guard }
    }

    /// Produce the value and the dependency set of one key, at this
    /// evaluator's version: run a computation inside a fresh
    /// dependency-recording context, read a leaf's input, or resolve a
    /// projection's base through the store and apply the pure transform
    /// (its dependency set is exactly the base key).
    fn evaluate(
        &self,
        defs: &Vec<KeyDef>,
        store: &mut Store,
        k: usize,
        visited: &mut Vec<bool>,
    ) -> (r: Result<(u64, Vec<(usize, u64)>), EngineError>)
        requires
            store_wf(defs@, *old(store)),
            old(visited)@.len() == defs@.len(),
            self.version <= old(store).version,
            k < defs@.len(),
            old(visited)@[k as int],
            chain_ok(defs@, old(visited)@, k as int),
        ensures
            store_wf(defs@, *final(store)),
            final(visited)@ == old(visited)@,
            store_step(defs@, *old(store), *final(store), self.version, old(visited)@),
            ({
                let o = den_key(
                    world_of(defs@, *old(store)),
                    self.version,
                    k as int,
                    old(visited)@.update(k as int, false),
                );
                match r {
                    Ok(p) => {
                        &&& o == Outcome::Val(p.0)
                        &&& deps_nodup(p.1@)
                        &&& dep_keys(p.1@) == reqs_key(defs@, k as int)
                        &&& forall|i: int|
                            0 <= i < p.1@.len() ==> den_key(
                                world_of(defs@, *old(store)),
                                self.version,
                                #[trigger] p.1@[i].0 as int,
                                all_false(defs@.len()),
                            ) == Outcome::Val(p.1@[i].1)
                    },
                    Err(e) => outcome_result(o) == Err::<u64, EngineError>(e),
                }
            }),
        decreases count_false(visited@), key_measure(defs@, k as int),
    {
        let ghost w = world_of(defs@, *old(store));
        let ghost vis = old(visited)@;
        let ghost vis0 = vis.update(k as int, false);
        let v = self.version;
        proof {
            assert(vis0.update(k as int, true) =~= vis);
        }
        match &defs[k] {
            KeyDef::Leaf => {
                let val = lookup_input(&store.hists[k], v);
                proof {
                    assert(w.hists[k as int] == store.hists@[k as int]@);
                    assert(dep_keys(Seq::<(usize, u64)>::empty()) =~= reqs_key(defs@, k as int));
                }
                Ok((val, Vec::new()))
            }
            KeyDef::Computation(e) => {
                proof {
                    assert(defs@[k as int] == KeyDef::Computation(*e));
                    assert forall|x: int, d: int|
                        0 <= x < vis.len() && vis[x] && reqs_expr(*e).contains(d)
                        implies #[trigger] reaches(defs@, x, d) by {
                        assert(reqs_key(defs@, k as int).contains(d));
                        assert(reaches(defs@, x, k as int));
                        let n1 = choose|n1: nat| reaches_n(defs@, x, k as int, n1);
                        lemma_reaches_step(defs@, x, k as int, d, n1);
                        assert(reaches_n(defs@, x, d, (n1 + 1) as nat));
                    }
                }
                let mut ctx = ComputeContext { deps: Vec::new() };
                let rr = eval_expr(defs, store, e, *self, visited, &mut ctx);
                match rr {
                    Ok(val) => {
                        proof {
                            assert(dep_keys(ctx.deps@) =~= reqs_key(defs@, k as int)) by {
                                assert(dep_keys(ctx.deps@) == dep_keys(
                                    Seq::<(usize, u64)>::empty(),
                                ).union(reqs_expr(*e)));
                                assert(dep_keys(Seq::<(usize, u64)>::empty()).union(
                                    reqs_expr(*e),
                                ) =~= reqs_expr(*e));
                            }
                        }
                        let ds = ctx.finalize_deps();
                        Ok((val, ds))
                    }
                    Err(e2) => Err(e2),
                }
            }
            KeyDef::Projection { base, transform } => {
                proof {
                    assert(defs@[k as int] == KeyDef::Projection {
                        base: *base,
                        transform: *transform,
                    });
                    assert(reqs_key(defs@, k as int).contains(*base as int));
                    assert forall|x: int| 0 <= x < vis.len() && vis[x]
                        implies #[trigger] reaches(defs@, x, *base as int) by {
                        assert(reaches(defs@, x, k as int));
                        let n1 = choose|n1: nat| reaches_n(defs@, x, k as int, n1);
                        lemma_reaches_step(defs@, x, k as int, *base as int, n1);
                        assert(reaches_n(defs@, x, *base as int, (n1 + 1) as nat));
                    }
                }
                let rb = compute_opaque(defs, store, *self, *base, visited);
                match rb {
                    Ok(b) => {
                        let val = run_transform(transform, b);
                        let mut ds: Vec<(usize, u64)> = Vec::new();
                        ds.push((*base, b));
                        proof {
                            lemma_den_shrink_key(w, v, *base as int, vis, all_false(defs@.len()));
                            assert(dep_keys(ds@) =~= reqs_key(defs@, k as int)) by {
                                assert(ds@[0].0 as int == *base as int);
                            }
                        }
                        Ok((val, ds))
                    }
                    Err(e2) => Err(e2),
                }
            }
        }
    }
}

impl ComputeContext {
    /// Request a dependency's value through the store, then record the
    /// dependency (once) in this context's accumulator.
    fn request(
        &mut self,
        defs: &Vec<KeyDef>,
        store: &mut Store,
        ev: AsyncEvaluator,
        d: usize,
        visited: &mut Vec<bool>,
    ) -> (r: Result<u64, EngineError>)
        requires
            store_wf(defs@, *old(store)),
            old(visited)@.len() == defs@.len(),
            ev.version <= old(store).version,
            chain_ok(defs@, old(visited)@, d as int),
            deps_nodup(old(self).deps@),
            forall|i: int|
                0 <= i < old(self).deps@.len() ==> den_key(
                    world_of(defs@, *old(store)),
                    ev.version,
                    #[trigger] old(self).deps@[i].0 as int,
                    all_false(defs@.len()),
                ) == Outcome::Val(old(self).deps@[i].1),
        ensures
            store_wf(defs@, *final(store)),
            final(visited)@ == old(visited)@,
            store_step(defs@, *old(store), *final(store), ev.version, old(visited)@),
            r == outcome_result(
                den_key(world_of(defs@, *old(store)), ev.version, d as int, old(visited)@),
            ),
            deps_nodup(final(self).deps@),
            forall|i: int|
                0 <= i < final(self).deps@.len() ==> den_key(
                    world_of(defs@, *old(store)),
                    ev.version,
                    #[trigger] final(self).deps@[i].0 as int,
                    all_false(defs@.len()),
                ) == Outcome::Val(final(self).deps@[i].1),
            r is Ok ==> dep_keys(final(self).deps@) == dep_keys(old(self).deps@).insert(d as int),
            r is Err ==> final(self).deps == old(self).deps,
        decreases count_false(visited@), 1nat,
    {
        let ghost w = world_of(defs@, *old(store));
        match get_or_compute(defs, store, ev, d, visited) {
            Ok(y) => {
                proof {
                    assert(subvis(all_false(defs@.len()), old(visited)@));
                    lemma_den_shrink_key(w, ev.version, d as int, old(visited)@, all_false(
                        defs@.len(),
                    ));
                }
                if !contains_dep(&self.deps, d) {
                    let ghost ds0 = self.deps@;
                    self.deps.push((d, y));
                    proof {
                        assert(dep_keys(self.deps@) =~= dep_keys(ds0).insert(d as int)) by {
                            assert forall|x: int| dep_keys(self.deps@).contains(x) implies
                                dep_keys(ds0).insert(d as int).contains(x) by {
                                let i = choose|i: int|
                                    0 <= i < self.deps@.len() && self.deps@[i].0 as int == x;
                                if i < ds0.len() {
                                    assert(dep_keys(ds0).contains(x));
                                }
                            }
                            assert forall|x: int| dep_keys(ds0).insert(d as int).contains(x)
                                implies dep_keys(self.deps@).contains(x) by {
                                if x == d as int {
                                    assert(self.deps@[ds0.len() as int].0 as int == x);
                                } else {
                                    let i = choose|i: int|
                                        0 <= i < ds0.len() && ds0[i].0 as int == x;
                                    assert(self.deps@[i].0 as int == x);
                                }
                            }
                        }
                    }
                } else {
                    proof {
                        assert(dep_keys(self.deps@) =~= dep_keys(self.deps@).insert(d as int));
                    }
                }
                Ok(y)
            }
            Err(e) => Err(e),
        }
    }

    /// Drain the accumulator into the immutable dependency list.
    fn finalize_deps(self) -> (r: Vec<(usize, u64)>)
        ensures
            r == self.deps,
    {
        self.deps
    }
}

impl Engine {
    /// The sole read entrypoint: resolve key `k` at the version pinned by
    /// the transaction's guard.  Fails with a guard error on a released
    /// guard; otherwise the result is exactly what the key denotes at the
    /// pinned version, a covered key is served without any re-run, a key
    /// whose committed state allows cutoff is not re-run, and a key that is
    /// neither covered nor cut off runs exactly once.
    pub fn compute(&mut self, h: TransactionHandle, k: usize) -> (r: Result<u64, EngineError>)
        requires
            old(self).wf(),
            k < old(self).defs@.len(),
            h.guard < old(self).store.guards@.len(),
            old(self).store.guards@[h.guard as int].version == h.version,
        ensures
            final(self).wf(),
            final(self).defs == old(self).defs,
            final(self).store.version == old(self).store.version,
            final(self).store.guards == old(self).store.guards,
            !old(self).guard_active(h.guard as int) ==> r == Err::<u64, EngineError>(
                EngineError::GuardExpired,
            ) && *final(self) == *old(self),
            old(self).guard_active(h.guard as int) ==> {
                &&& store_step(
                    old(self).defs@,
                    old(self).store,
                    final(self).store,
                    h.version,
                    all_false(old(self).defs@.len()),
                )
                &&& r == outcome_result(old(self).outcome_at(k as int, h.version))
                &&& (r matches Ok(y) ==> covered_val(
                    final(self).store.entries@[k as int]@,
                    h.version,
                    y,
                ))
                &&& (!is_covered(old(self).store.entries@[k as int]@, h.version)
                    && !cutoff_ready(old(self).defs@, old(self).store, k as int, h.version)
                    ==> final(self).store.counts@[k as int] == bump(
                    old(self).store.counts@[k as int],
                ))
            },
    {
        if !self.store.guards[h.guard].active {
            return Err(EngineError::GuardExpired);
        }
        let n = self.defs.len();
        let mut visited: Vec<bool> = Vec::new();
        let mut i: usize = 0;
        while i < n
            invariant
                i <= n,
                visited@.len() == i,
                forall|j: int| 0 <= j < i ==> visited@[j] == false,
            decreases n - i,
        {
            visited.push(false);
            i += 1;
        }
        proof {
            assert(visited@ =~= all_false(self.defs@.len()));
        }
        let ev = AsyncEvaluator::new(h.version, h.guard);
        get_or_compute(&self.defs, &mut self.store, ev, k, &mut visited)
    }

    /// Collect entries no live version can still observe: an entry is
    /// retained exactly when one of its verified versions is the current
    /// version or is pinned by a held guard.  Collection never invents
    /// entries and never drops a retained one.
    pub fn collect(&mut self)
        requires
            old(self).wf(),
        ensures
            final(self).wf(),
            final(self).defs == old(self).defs,
            final(self).store.version == old(self).store.version,
            final(self).store.hists == old(self).store.hists,
            final(self).store.changed == old(self).store.changed,
            final(self).store.guards == old(self).store.guards,
            final(self).store.counts == old(self).store.counts,
            forall|k: int, i: int|
                0 <= k < old(self).defs@.len() && 0 <= i < final(self).store.entries@[k]@.len()
                    ==> old(self).store.entries@[k]@.contains(
                    #[trigger] final(self).store.entries@[k]@[i],
                ) && entry_live(
                    final(self).store.entries@[k]@[i],
                    old(self).store.guards@,
                    old(self).store.version,
                ),
            forall|k: int, i: int|
                0 <= k < old(self).defs@.len() && 0 <= i < old(self).store.entries@[k]@.len()
                    && entry_live(
                    #[trigger] old(self).store.entries@[k]@[i],
                    old(self).store.guards@,
                    old(self).store.version,
                ) ==> final(self).store.entries@[k]@.contains(old(self).store.entries@[k]@[i]),
    {
        let n = self.defs.len();
        let ver = self.store.version;
        let ghost gs = self.store.guards@;
        let mut k: usize = 0;
        while k < n
            invariant
                n == self.defs@.len(),
                k <= n,
                ver == old(self).store.version,
                gs == old(self).store.guards@,
                self.defs == old(self).defs,
                self.store.version == old(self).store.version,
                self.store.hists == old(self).store.hists,
                self.store.changed == old(self).store.changed,
                self.store.guards == old(self).store.guards,
                self.store.counts == old(self).store.counts,
                self.store.entries@.len() == n,
                self.wf(),
                forall|k2: int|
                    k <= k2 < n ==> self.store.entries@[k2] == old(self).store.entries@[k2],
                forall|k2: int, i: int|
                    0 <= k2 < k && 0 <= i < self.store.entries@[k2]@.len() ==> old(
                        self,
                    ).store.entries@[k2]@.contains(#[trigger] self.store.entries@[k2]@[i])
                        && entry_live(self.store.entries@[k2]@[i], gs, ver),
                forall|k2: int, i: int|
                    0 <= k2 < k && 0 <= i < old(self).store.entries@[k2]@.len() && entry_live(
                        #[trigger] old(self).store.entries@[k2]@[i],
                        gs,
                        ver,
                    ) ==> self.store.entries@[k2]@.contains(old(self).store.entries@[k2]@[i]),
            decreases n - k,
        {
            let mut work: Vec<Entry> = Vec::new();
            core::mem::swap(&mut work, &mut self.store.entries[k]);
            let ghost orig = work@;
            let ghost mid = *self;
            let mut kept: Vec<Entry> = Vec::new();
            while work.len() > 0
                invariant
                    *self == mid,
                    ver == mid.store.version,
                    gs == mid.store.guards@,
                    forall|e: Entry|
                        kept@.contains(e) ==> orig.contains(e) && entry_live(e, gs, ver),
                    forall|e: Entry|
                        orig.contains(e) && entry_live(e, gs, ver) ==> kept@.contains(e)
                            || work@.contains(e),
                    forall|e: Entry| work@.contains(e) ==> orig.contains(e),
                decreases work@.len(),
            {
                let ghost prev = work@;
                let eo = work.pop();
                let e = eo.unwrap();
                proof {
                    assert(e == prev.last());
                    assert(prev[prev.len() - 1] == e);
                    assert(prev.contains(e));
                    assert forall|e2: Entry| work@.contains(e2) implies prev.contains(e2) by {
                        let i = choose|i: int| 0 <= i < work@.len() && work@[i] == e2;
                        assert(prev[i] == e2);
                    }
                }
                let live = entry_is_live(&e, &self.store.guards, ver);
                let ghost kept0 = kept@;
                if live {
                    kept.push(e);
                }
                proof {
                    assert forall|e2: Entry|
                        orig.contains(e2) && entry_live(e2, gs, ver) implies kept@.contains(e2)
                        || work@.contains(e2) by {
                        if kept0.contains(e2) {
                            let i = choose|i: int| 0 <= i < kept0.len() && kept0[i] == e2;
                            assert(kept@[i] == e2);
                        } else if prev.contains(e2) {
                            let i = choose|i: int| 0 <= i < prev.len() && prev[i] == e2;
                            if i < prev.len() - 1 {
                                assert(work@[i] == e2);
                            } else {
                                assert(e2 == e);
                                assert(kept@[kept@.len() - 1] == e2);
                            }
                        }
                    }
                    assert forall|e2: Entry| kept@.contains(e2) implies orig.contains(e2)
                        && entry_live(e2, gs, ver) by {
                        let i = choose|i: int| 0 <= i < kept@.len() && kept@[i] == e2;
                        if i < kept0.len() {
                            assert(kept0[i] == e2);
                        } else {
                            assert(e2 == e);
                        }
                    }
                }
            }
            let ghost pre_entries = self.store.entries@;
            let ghost keptv = kept@;
            proof {
                assert(orig == old(self).store.entries@[k as int]@);
                assert forall|i: int|
                    0 <= i < old(self).store.entries@[k as int]@.len() && entry_live(
                        old(self).store.entries@[k as int]@[i],
                        gs,
                        ver,
                    ) implies keptv.contains(old(self).store.entries@[k as int]@[i]) by {
                    let e2 = old(self).store.entries@[k as int]@[i];
                    assert(orig[i] == e2);
                    assert(orig.contains(e2));
                    assert(work@.len() == 0);
                    assert(!work@.contains(e2));
                }
            }
            self.store.entries[k] = kept;
            proof {
                assert forall|k2: int, i: int|
                    0 <= k2 < n && 0 <= i < self.store.entries@[k2]@.len() implies entry_wf(
                    self.defs@,
                    world_of(self.defs@, self.store),
                    k2,
                    #[trigger] self.store.entries@[k2]@[i],
                    self.store.version,
                ) by {
                    if k2 == k as int {
                        let e2 = self.store.entries@[k2]@[i];
                        assert(orig.contains(e2));
                        let j = choose|j: int| 0 <= j < orig.len() && orig[j] == e2;
                        assert(entry_wf(
                            mid.defs@,
                            world_of(mid.defs@, mid.store),
                            k2,
                            old(self).store.entries@[k2]@[j],
                            mid.store.version,
                        ));
                    } else {
                        assert(self.store.entries@[k2] == pre_entries[k2]);
                    }
                }
                assert(self.wf());
            }
            k += 1;
        }
    }

    /// The value committed for `(k, v)`, if any entry is verified at `v`.
    pub fn cached_value(&self, k: usize, v: u64) -> (r: Option<u64>)
        requires
            self.wf(),
            k < self.defs@.len(),
        ensures
            match r {
                Some(y) => covered_val(self.store.entries@[k as int]@, v, y),
                None => !is_covered(self.store.entries@[k as int]@, v),
            },
    {
        find_covering(&self.store.entries[k], v)
    }

    /// The dependency keys recorded by the newest committed entry of `k`.
    pub fn recorded_deps(&self, k: usize) -> (r: Option<Vec<usize>>)
        requires
            self.wf(),
            k < self.defs@.len(),
        ensures
            match r {
                Some(ds) => {
                    let es = self.store.entries@[k as int]@;
                    &&& es.len() >= 1
                    &&& ds@.len() == es.last().deps@.len()
                    &&& forall|i: int| 0 <= i < ds@.len() ==> ds@[i] == es.last().deps@[i].0
                },
                None => self.store.entries@[k as int]@.len() == 0,
            },
    {
        let ne = self.store.entries[k].len();
        if ne == 0 {
            return None;
        }
        let nd = self.store.entries[k][ne - 1].deps.len();
        let mut ds: Vec<usize> = Vec::new();
        let mut i: usize = 0;
        while i < nd
            invariant
                i <= nd,
                ds@.len() == i,
                1 <= ne == self.store.entries@[k as int]@.len(),
                nd == self.store.entries@[k as int]@.last().deps@.len(),
                k < self.defs@.len(),
                self.wf(),
                forall|j: int|
                    0 <= j < i ==> ds@[j] == self.store.entries@[k as int]@.last().deps@[j].0,
            decreases nd - i,
        {
            ds.push(self.store.entries[k][ne - 1].deps[i].0);
            i += 1;
        }
        Some(ds)
    }
}

/// Evaluate one expression of a key's computation, requesting nested keys
/// through the per-compute context.
fn eval_expr(
    defs: &Vec<KeyDef>,
    store: &mut Store,
    e: &Expr,
    ev: AsyncEvaluator,
    visited: &mut Vec<bool>,
    ctx: &mut ComputeContext,
) -> (r: Result<u64, EngineError>)
    requires
        store_wf(defs@, *old(store)),
        old(visited)@.len() == defs@.len(),
        ev.version <= old(store).version,
        forall|x: int, d: int|
            0 <= x < old(visited)@.len() && old(visited)@[x] && reqs_expr(*e).contains(d)
                ==> reaches(defs@, x, d),
        deps_nodup(old(ctx).deps@),
        forall|i: int|
            0 <= i < old(ctx).deps@.len() ==> den_key(
                world_of(defs@, *old(store)),
                ev.version,
                #[trigger] old(ctx).deps@[i].0 as int,
                all_false(defs@.len()),
            ) == Outcome::Val(old(ctx).deps@[i].1),
    ensures
        store_wf(defs@, *final(store)),
        final(visited)@ == old(visited)@,
        store_step(defs@, *old(store), *final(store), ev.version, old(visited)@),
        r == outcome_result(
            den_expr(world_of(defs@, *old(store)), ev.version, *e, old(visited)@),
        ),
        deps_nodup(final(ctx).deps@),
        forall|i: int|
            0 <= i < final(ctx).deps@.len() ==> den_key(
                world_of(defs@, *old(store)),
                ev.version,
                #[trigger] final(ctx).deps@[i].0 as int,
                all_false(defs@.len()),
            ) == Outcome::Val(final(ctx).deps@[i].1),
        r is Ok ==> dep_keys(final(ctx).deps@) == dep_keys(old(ctx).deps@).union(reqs_expr(*e)),
    decreases count_false(visited@), esize(*e),
{
    let ghost w = world_of(defs@, *old(store));
    let ghost vis = old(visited)@;
    let v = ev.version;
    match e {
        Expr::Lit(c) => {
            proof {
                assert(dep_keys(ctx.deps@).union(reqs_expr(*e)) =~= dep_keys(ctx.deps@));
            }
            Ok(*c)
        }
        Expr::Fail => Err(EngineError::Computation),
        Expr::Req(d) => {
            proof {
                assert(reqs_expr(*e).contains(*d as int));
                assert(chain_ok(defs@, vis, *d as int));
            }
            let r = ctx.request(defs, store, ev, *d, visited);
            proof {
                if r is Ok {
                    assert(dep_keys(ctx.deps@) =~= dep_keys(old(ctx).deps@).union(
                        reqs_expr(*e),
                    )) by {
                        assert(reqs_expr(*e) =~= Set::empty().insert(*d as int));
                    }
                }
            }
            r
        }
        Expr::Add(a, b) => {
            proof {
                assert forall|x: int, d: int|
                    0 <= x < vis.len() && vis[x] && reqs_expr(**a).contains(d) implies reaches(
                    defs@,
                    x,
                    d,
                ) by {
                    assert(reqs_expr(*e).contains(d));
                }
            }
            let ghost s0 = *store;
            let ra = eval_expr(defs, store, a, ev, visited, ctx);
            match ra {
                Err(e2) => Err(e2),
                Ok(x) => {
                    proof {
                        assert forall|x2: int, d: int|
                            0 <= x2 < vis.len() && vis[x2] && reqs_expr(**b).contains(d)
                            implies reaches(defs@, x2, d) by {
                            assert(reqs_expr(*e).contains(d));
                        }
                    }
                    let ghost s1 = *store;
                    let ghost ctx1 = *ctx;
                    let rb = eval_expr(defs, store, b, ev, visited, ctx);
                    proof {
                        lemma_store_step_trans(defs@, s0, s1, *store, v, vis);
                    }
                    match rb {
                        Err(e2) => Err(e2),
                        Ok(y) => {
                            proof {
                                assert(dep_keys(ctx.deps@) =~= dep_keys(old(ctx).deps@).union(
                                    reqs_expr(*e),
                                )) by {
                                    assert(dep_keys(ctx.deps@) == dep_keys(ctx1.deps@).union(
                                        reqs_expr(**b),
                                    ));
                                    assert(dep_keys(ctx1.deps@) == dep_keys(
                                        old(ctx).deps@,
                                    ).union(reqs_expr(**a)));
                                }
                            }
                            Ok(x.wrapping_add(y))
                        }
                    }
                }
            }
        }
        Expr::Rem(a, m) => {
            proof {
                assert forall|x: int, d: int|
                    0 <= x < vis.len() && vis[x] && reqs_expr(**a).contains(d) implies reaches(
                    defs@,
                    x,
                    d,
                ) by {
                    assert(reqs_expr(*e).contains(d));
                }
            }
            let ra = eval_expr(defs, store, a, ev, visited, ctx);
            match ra {
                Err(e2) => Err(e2),
                Ok(x) => {
                    if *m == 0 {
                        Err(EngineError::Computation)
                    } else {
                        proof {
                            assert(dep_keys(ctx.deps@) == dep_keys(old(ctx).deps@).union(
                                reqs_expr(*e),
                            ));
                        }
                        Ok(x % *m)
                    }
                }
            }
        }
    }
}

} // verus!
