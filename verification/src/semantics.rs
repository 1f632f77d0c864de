//! The mathematical meaning of a key at a version.
//!
//! `den_key` gives the value a key's computation denotes at a version, over
//! the registered definitions and the full history of raw-input values.  An
//! explicit in-progress marker sequence mirrors the engine's cycle
//! detection: re-entering a marked key denotes a cycle outcome.  Every
//! contract of the engine is stated against this semantics.

use vstd::prelude::*;
use crate::keys::{KeyDef, Expr, esize, apply_transform};

verus! {

/// The outcome of evaluating one key at one version.
pub enum Outcome {
    /// The computation produces this value.
    Val(u64),
    /// The computation requests a key already being evaluated on its chain.
    Cycle,
    /// The computation fails (a failing step, a zero modulus, or a request
    /// for an unregistered key).
    Failed,
}

/// The immutable ground data of an engine: the key definitions and, for each
/// key, the history of `(version, value)` pairs its raw input went through.
pub struct World {
    pub defs: Seq<KeyDef>,
    pub hists: Seq<Seq<(u64, u64)>>,
}

/// Number of unmarked positions; the termination measure of evaluation.
pub open spec fn count_false(s: Seq<bool>) -> nat
    decreases s.len(),
{
    if s.len() == 0 {
        0
    } else {
        count_false(s.drop_last()) + if s.last() {
            0nat
        } else {
            1nat
        }
    }
}

/// Marker sequence with nothing in progress.
pub open spec fn all_false(n: nat) -> Seq<bool> {
    Seq::new(n, |i: int| false)
}

/// `a` marks a subset of what `b` marks.
pub open spec fn subvis(a: Seq<bool>, b: Seq<bool>) -> bool {
    &&& a.len() == b.len()
    &&& forall|i: int| 0 <= i < a.len() && a[i] ==> b[i]
}

/// The raw-input value recorded for version `v`: the value of the last
/// history pair whose version is at most `v`, or zero before any was set.
pub open spec fn input_at(h: Seq<(u64, u64)>, v: u64) -> u64
    decreases h.len(),
{
    if h.len() == 0 {
        0
    } else if h.last().0 <= v {
        h.last().1
    } else {
        input_at(h.drop_last(), v)
    }
}

/// Marking one unmarked position lowers `count_false` by exactly one.
pub proof fn lemma_count_false_update(s: Seq<bool>, k: int)
    requires
        0 <= k < s.len(),
        !s[k],
    ensures
        count_false(s.update(k, true)) + 1 == count_false(s),
    decreases s.len(),
{
    let t = s.update(k, true);
    if k == s.len() - 1 {
        assert(t.drop_last() =~= s.drop_last());
    } else {
        assert(t.drop_last() =~= s.drop_last().update(k, true));
        lemma_count_false_update(s.drop_last(), k);
    }
}

/// What key `k` denotes at version `v`, with `vis` marking the keys already
/// in progress on the current evaluation chain.
pub open spec fn den_key(w: World, v: u64, k: int, vis: Seq<bool>) -> Outcome
    decreases count_false(vis), 0nat, 0nat
        via check_den_key
{
    if vis.len() != w.defs.len() || !(0 <= k < w.defs.len()) {
        Outcome::Failed
    } else if vis[k] {
        Outcome::Cycle
    } else {
        match w.defs[k] {
            KeyDef::Leaf => Outcome::Val(input_at(w.hists[k], v)),
            KeyDef::Computation(e) => den_expr(w, v, e, vis.update(k, true)),
            KeyDef::Projection { base, transform } => match den_key(
                w,
                v,
                base as int,
                vis.update(k, true),
            ) {
                Outcome::Val(b) => Outcome::Val(apply_transform(transform, b)),
                o => o,
            },
        }
    }
}

#[via_fn]
proof fn check_den_key(w: World, v: u64, k: int, vis: Seq<bool>) {
    if vis.len() == w.defs.len() && 0 <= k < w.defs.len() && !vis[k] {
        lemma_count_false_update(vis, k);
    }
}

/// What an expression denotes at version `v` under in-progress markers `vis`.
pub open spec fn den_expr(w: World, v: u64, e: Expr, vis: Seq<bool>) -> Outcome
    decreases count_false(vis), 1nat, esize(e),
{
    match e {
        Expr::Lit(c) => Outcome::Val(c),
        Expr::Req(d) => den_key(w, v, d as int, vis),
        Expr::Add(a, b) => match den_expr(w, v, *a, vis) {
            Outcome::Val(x) => match den_expr(w, v, *b, vis) {
                Outcome::Val(y) => Outcome::Val(vstd::wrapping::u64_specs::wrapping_add(x, y)),
                o => o,
            },
            o => o,
        },
        Expr::Rem(a, m) => match den_expr(w, v, *a, vis) {
            Outcome::Val(x) => if m == 0 {
                Outcome::Failed
            } else {
                Outcome::Val((x % m) as u64)
            },
            o => o,
        },
        Expr::Fail => Outcome::Failed,
    }
}

} // verus!
