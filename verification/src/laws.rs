//! Engine-level laws, proved from the semantics and the store invariant.

use vstd::prelude::*;
use crate::keys::{KeyDef, Expr, reqs_key};
use crate::semantics::{Outcome, den_key, den_expr, input_at, all_false};
use crate::cutoff::{lemma_cutoff_key, lemma_den_inputs_agree_key};
use crate::engine::{Engine, entry_wf, covered_val, dep_keys, cutoff_ready, hist_wf};

verus! {

/// All requesters of one key at one version share a single committed
/// result: two values both committed for `(k, v)` are the same value.
pub proof fn lemma_shared_result(eng: Engine, k: usize, v: u64, y1: u64, y2: u64)
    requires
        eng.wf(),
        (k as int) < eng.defs@.len(),
        covered_val(eng.store.entries@[k as int]@, v, y1),
        covered_val(eng.store.entries@[k as int]@, v, y2),
    ensures
        y1 == y2,
{
    lemma_covered_result(eng, k, v, y1);
    lemma_covered_result(eng, k, v, y2);
}

/// A committed value for `(k, v)` is exactly what `k` denotes at `v`, so a
/// repeated request at the same version is served from the cache with the
/// identical value and, by the contract of `compute`, without any re-run.
pub proof fn lemma_covered_result(eng: Engine, k: usize, v: u64, y: u64)
    requires
        eng.wf(),
        (k as int) < eng.defs@.len(),
        covered_val(eng.store.entries@[k as int]@, v, y),
    ensures
        eng.outcome_at(k as int, v) == Outcome::Val(y),
{
    let es = eng.store.entries@[k as int]@;
    let i = choose|i: int|
        0 <= i < es.len() && es[i].versions@.contains(v) && es[i].value == y;
    assert(entry_wf(eng.defs@, eng.world(), k as int, es[i], eng.store.version));
    let j = choose|j: int| 0 <= j < es[i].versions@.len() && es[i].versions@[j] == v;
    assert(den_key(eng.world(), v, k as int, all_false(eng.defs@.len())) == Outcome::Val(y));
}

/// Soundness of early cutoff, at the engine level: if every direct
/// dependency of a non-leaf key denotes the same outcome at `v2` as at
/// `v1`, and the key denoted a value at `v1`, then the key denotes that
/// same value at `v2` — so its consumers need not be re-run either.
pub proof fn lemma_cutoff(eng: Engine, k: usize, v1: u64, v2: u64)
    requires
        eng.wf(),
        (k as int) < eng.defs@.len(),
        !(eng.defs@[k as int] is Leaf),
        eng.outcome_at(k as int, v1) is Val,
        forall|d: int| #[trigger] reqs_key(eng.defs@, k as int).contains(d)
            ==> eng.outcome_at(d, v2) == eng.outcome_at(d, v1),
    ensures
        eng.outcome_at(k as int, v2) == eng.outcome_at(k as int, v1),
{
    lemma_cutoff_key(eng.world(), v1, v2, k as int);
}

/// A key whose committed state is ready for cutoff at `v` still denotes its
/// committed value at `v`: serving the newest entry instead of re-running
/// the computation is sound, and `compute` promises not to re-run it.
pub proof fn lemma_cutoff_serves_cached(eng: Engine, k: usize, v: u64)
    requires
        eng.wf(),
        (k as int) < eng.defs@.len(),
        cutoff_ready(eng.defs@, eng.store, k as int, v),
    ensures
        eng.outcome_at(k as int, v) == Outcome::Val(
            eng.store.entries@[k as int]@.last().value,
        ),
{
    let w = eng.world();
    let n = eng.defs@.len();
    let es = eng.store.entries@[k as int]@;
    let e0 = es.last();
    let w0 = e0.versions@.last();
    assert(es[es.len() - 1] == e0);
    assert(entry_wf(eng.defs@, w, k as int, e0, eng.store.version));
    assert(e0.versions@[e0.versions@.len() - 1] == w0);
    assert(den_key(w, w0, k as int, all_false(n)) == Outcome::Val(e0.value));
    if eng.defs@[k as int] is Leaf {
        let h = w.hists[k as int];
        assert(hist_wf(h, eng.store.changed@[k as int], eng.store.version));
        assert(input_at(h, v) == h.last().1);
        assert(input_at(h, w0) == h.last().1);
    } else {
        assert forall|d: int| #[trigger] reqs_key(eng.defs@, k as int).contains(d)
            implies den_key(w, v, d, all_false(n)) == den_key(w, w0, d, all_false(n)) by {
            assert(dep_keys(e0.deps@).contains(d));
            let i = choose|i: int| 0 <= i < e0.deps@.len() && e0.deps@[i].0 as int == d;
            assert(den_key(w, v, d, all_false(n)) == Outcome::Val(e0.deps@[i].1));
            assert(den_key(w, w0, d, all_false(n)) == Outcome::Val(e0.deps@[i].1));
        }
        lemma_cutoff_key(w, w0, v, k as int);
    }
}

/// The global form of cutoff: if every raw input denotes the same value at
/// `v2` as at `v1`, then every key does.  In particular, a write that
/// re-records an input's existing value advances the version but changes no
/// key's outcome, so nothing is recomputed on demand.
pub proof fn lemma_unchanged_inputs_preserve_outcomes(eng: Engine, k: usize, v1: u64, v2: u64)
    requires
        eng.wf(),
        (k as int) < eng.defs@.len(),
        forall|j: int|
            0 <= j < eng.defs@.len() && eng.defs@[j] is Leaf ==> eng.outcome_at(j, v2)
                == eng.outcome_at(j, v1),
    ensures
        eng.outcome_at(k as int, v2) == eng.outcome_at(k as int, v1),
{
    let w = eng.world();
    let n = eng.defs@.len();
    assert forall|j: int| 0 <= j < n && eng.defs@[j] is Leaf implies input_at(
        #[trigger] w.hists[j],
        v2,
    ) == input_at(w.hists[j], v1) by {
        assert(!all_false(n)[j]);
        assert(eng.outcome_at(j, v2) == Outcome::Val(input_at(w.hists[j], v2)));
        assert(eng.outcome_at(j, v1) == Outcome::Val(input_at(w.hists[j], v1)));
    }
    lemma_den_inputs_agree_key(w, v1, v2, k as int, all_false(n));
}

/// A computation that requests itself denotes a cycle, so `compute` returns
/// the cycle error (and, being a verified total function, cannot hang).
pub proof fn lemma_direct_cycle(eng: Engine, k: usize, v: u64)
    requires
        eng.wf(),
        (k as int) < eng.defs@.len(),
        eng.defs@[k as int] == KeyDef::Computation(Expr::Req(k)),
    ensures
        eng.outcome_at(k as int, v) == Outcome::Cycle,
{
    let n = eng.defs@.len();
    let af = all_false(n);
    let visk = af.update(k as int, true);
    assert(!af[k as int]);
    assert(visk.len() == n);
    assert(visk[k as int]);
    assert(den_key(eng.world(), v, k as int, visk) == Outcome::Cycle);
    assert(den_expr(eng.world(), v, Expr::Req(k), visk) == Outcome::Cycle);
}

/// Two computations that request each other denote a cycle from either
/// side, however the request chain is entered.
pub proof fn lemma_mutual_cycle(eng: Engine, a: usize, b: usize, v: u64)
    requires
        eng.wf(),
        (a as int) < eng.defs@.len(),
        (b as int) < eng.defs@.len(),
        a != b,
        eng.defs@[a as int] == KeyDef::Computation(Expr::Req(b)),
        eng.defs@[b as int] == KeyDef::Computation(Expr::Req(a)),
    ensures
        eng.outcome_at(a as int, v) == Outcome::Cycle,
        eng.outcome_at(b as int, v) == Outcome::Cycle,
{
    let w = eng.world();
    let n = eng.defs@.len();
    let af = all_false(n);
    let visa = af.update(a as int, true);
    let visab = visa.update(b as int, true);
    assert(visab[a as int]);
    assert(den_key(w, v, a as int, visab) == Outcome::Cycle);
    assert(den_expr(w, v, Expr::Req(a), visab) == Outcome::Cycle);
    assert(den_key(w, v, b as int, visa) == Outcome::Cycle);
    assert(den_expr(w, v, Expr::Req(b), visa) == Outcome::Cycle);
    let visb = af.update(b as int, true);
    let visba = visb.update(a as int, true);
    assert(visba[b as int]);
    assert(den_key(w, v, b as int, visba) == Outcome::Cycle);
    assert(den_expr(w, v, Expr::Req(b), visba) == Outcome::Cycle);
    assert(den_key(w, v, a as int, visb) == Outcome::Cycle);
    assert(den_expr(w, v, Expr::Req(a), visb) == Outcome::Cycle);
}

/// Projection isolation: every committed entry of a projection records as
/// its dependency set exactly the base key, whatever its transform reads.
pub proof fn lemma_projection_deps(eng: Engine, k: usize, base: usize, i: int)
    requires
        eng.wf(),
        (k as int) < eng.defs@.len(),
        eng.defs@[k as int] matches KeyDef::Projection { base: b2, transform: _ } && b2 == base,
        0 <= i < eng.store.entries@[k as int]@.len(),
    ensures
        dep_keys(eng.store.entries@[k as int]@[i].deps@) == Set::empty().insert(base as int),
{
    let e = eng.store.entries@[k as int]@[i];
    assert(entry_wf(eng.defs@, eng.world(), k as int, e, eng.store.version));
    assert(reqs_key(eng.defs@, k as int) == Set::empty().insert(base as int));
}

} // verus!
