//! Theory of the semantics.
//!
//! The engine serves cached values and extends their validity instead of
//! re-running computations.  The lemmas here justify that: committed values
//! are insensitive to growing the definitions or appending newer input
//! history; a value, once denotable, stays denotable at every version; the
//! in-progress markers can shrink, or grow by keys the computation cannot
//! reach, without changing a value outcome; a successful evaluation explores
//! every reachable key, so no reachable cycle exists; and if every direct
//! dependency denotes the same value at two versions, the consumer does too
//! (soundness of early cutoff).

use vstd::prelude::*;
use crate::keys::{KeyDef, Expr, reqs_expr, reqs_key, esize};
use crate::semantics::{World, den_key, den_expr, input_at, count_false, all_false, subvis,
    lemma_count_false_update};

verus! {

/// There is a dependency path of exactly `n` request edges from `a` to `b`.
pub open spec fn reaches_n(defs: Seq<KeyDef>, a: int, b: int, n: nat) -> bool
    decreases n,
{
    if n == 0 {
        a == b
    } else {
        exists|m: int|
            reqs_key(defs, a).contains(m) && reaches_n(defs, m, b, (n - 1) as nat)
    }
}

/// There is a dependency path from `a` to `b` (possibly empty).
pub open spec fn reaches(defs: Seq<KeyDef>, a: int, b: int) -> bool {
    exists|n: nat| reaches_n(defs, a, b, n)
}

/// Paths concatenate.
pub proof fn lemma_reaches_trans(defs: Seq<KeyDef>, a: int, b: int, c: int, n1: nat, n2: nat)
    requires
        reaches_n(defs, a, b, n1),
        reaches_n(defs, b, c, n2),
    ensures
        reaches_n(defs, a, c, (n1 + n2) as nat),
    decreases n1,
{
    if n1 == 0 {
    } else {
        let m = choose|m: int|
            reqs_key(defs, a).contains(m) && reaches_n(defs, m, b, (n1 - 1) as nat);
        lemma_reaches_trans(defs, m, b, c, (n1 - 1) as nat, n2);
        assert(reqs_key(defs, a).contains(m) && reaches_n(defs, m, c, (n1 - 1 + n2) as nat));
    }
}

/// A path can be extended by one request edge at its end.
pub proof fn lemma_reaches_step(defs: Seq<KeyDef>, x: int, k: int, d: int, n: nat)
    requires
        reaches_n(defs, x, k, n),
        reqs_key(defs, k).contains(d),
    ensures
        reaches_n(defs, x, d, (n + 1) as nat),
{
    assert(reaches_n(defs, k, d, 1)) by {
        assert(reqs_key(defs, k).contains(d) && reaches_n(defs, d, d, 0));
    }
    lemma_reaches_trans(defs, x, k, d, n, 1);
}

/// Appending a history pair with a version above `v` does not change what the
/// input was at `v`.
pub proof fn lemma_input_append(h: Seq<(u64, u64)>, p: (u64, u64), v: u64)
    requires
        p.0 > v,
    ensures
        input_at(h.push(p), v) == input_at(h, v),
{
    assert(h.push(p).last() == p);
    assert(h.push(p).drop_last() =~= h);
}

/// A value outcome survives registering one more key: the new definition is
/// unreachable from what an existing value explored.
pub proof fn lemma_den_extend_key(w1: World, w2: World, v: u64, k: int, vis: Seq<bool>)
    requires
        w2.defs.len() == w1.defs.len() + 1,
        forall|i: int| 0 <= i < w1.defs.len() ==> w2.defs[i] == w1.defs[i],
        w1.hists.len() == w1.defs.len(),
        w2.hists.len() == w2.defs.len(),
        forall|i: int| 0 <= i < w1.hists.len() ==> w2.hists[i] == w1.hists[i],
        vis.len() == w1.defs.len(),
        den_key(w1, v, k, vis) is Val,
    ensures
        den_key(w2, v, k, vis.push(false)) == den_key(w1, v, k, vis),
    decreases count_false(vis), 0nat, 0nat,
{
    lemma_count_false_update(vis, k);
    let visk = vis.update(k, true);
    assert(visk.push(false) =~= vis.push(false).update(k, true));
    match w1.defs[k] {
        KeyDef::Leaf => {}
        KeyDef::Computation(e) => {
            lemma_den_extend_expr(w1, w2, v, e, visk);
        }
        KeyDef::Projection { base, transform } => {
            lemma_den_extend_key(w1, w2, v, base as int, visk);
        }
    }
}

/// Expression form of `lemma_den_extend_key`.
pub proof fn lemma_den_extend_expr(w1: World, w2: World, v: u64, e: Expr, vis: Seq<bool>)
    requires
        w2.defs.len() == w1.defs.len() + 1,
        forall|i: int| 0 <= i < w1.defs.len() ==> w2.defs[i] == w1.defs[i],
        w1.hists.len() == w1.defs.len(),
        w2.hists.len() == w2.defs.len(),
        forall|i: int| 0 <= i < w1.hists.len() ==> w2.hists[i] == w1.hists[i],
        vis.len() == w1.defs.len(),
        den_expr(w1, v, e, vis) is Val,
    ensures
        den_expr(w2, v, e, vis.push(false)) == den_expr(w1, v, e, vis),
    decreases count_false(vis), 1nat, esize(e),
{
    match e {
        Expr::Lit(_) => {}
        Expr::Req(d) => {
            lemma_den_extend_key(w1, w2, v, d as int, vis);
        }
        Expr::Add(a, b) => {
            lemma_den_extend_expr(w1, w2, v, *a, vis);
            lemma_den_extend_expr(w1, w2, v, *b, vis);
        }
        Expr::Rem(a, _) => {
            lemma_den_extend_expr(w1, w2, v, *a, vis);
        }
        Expr::Fail => {}
    }
}

/// Any outcome at version `v` is unchanged by appending, to one key's input
/// history, a pair whose version is above `v`.
pub proof fn lemma_den_hist_append_key(
    w1: World,
    w2: World,
    v: u64,
    j: int,
    p: (u64, u64),
    k: int,
    vis: Seq<bool>,
)
    requires
        w2.defs == w1.defs,
        w1.hists.len() == w1.defs.len(),
        w2.hists.len() == w1.hists.len(),
        0 <= j < w1.hists.len(),
        w2.hists[j] == w1.hists[j].push(p),
        forall|i: int| 0 <= i < w1.hists.len() && i != j ==> w2.hists[i] == w1.hists[i],
        p.0 > v,
    ensures
        den_key(w2, v, k, vis) == den_key(w1, v, k, vis),
    decreases count_false(vis), 0nat, 0nat,
{
    if vis.len() == w1.defs.len() && 0 <= k < w1.defs.len() && !vis[k] {
        lemma_count_false_update(vis, k);
        let visk = vis.update(k, true);
        match w1.defs[k] {
            KeyDef::Leaf => {
                if k == j {
                    lemma_input_append(w1.hists[j], p, v);
                }
            }
            KeyDef::Computation(e) => {
                lemma_den_hist_append_expr(w1, w2, v, j, p, e, visk);
            }
            KeyDef::Projection { base, transform } => {
                lemma_den_hist_append_key(w1, w2, v, j, p, base as int, visk);
            }
        }
    }
}

/// Expression form of `lemma_den_hist_append_key`.
pub proof fn lemma_den_hist_append_expr(
    w1: World,
    w2: World,
    v: u64,
    j: int,
    p: (u64, u64),
    e: Expr,
    vis: Seq<bool>,
)
    requires
        w2.defs == w1.defs,
        w1.hists.len() == w1.defs.len(),
        w2.hists.len() == w1.hists.len(),
        0 <= j < w1.hists.len(),
        w2.hists[j] == w1.hists[j].push(p),
        forall|i: int| 0 <= i < w1.hists.len() && i != j ==> w2.hists[i] == w1.hists[i],
        p.0 > v,
    ensures
        den_expr(w2, v, e, vis) == den_expr(w1, v, e, vis),
    decreases count_false(vis), 1nat, esize(e),
{
    match e {
        Expr::Lit(_) => {}
        Expr::Req(d) => {
            lemma_den_hist_append_key(w1, w2, v, j, p, d as int, vis);
        }
        Expr::Add(a, b) => {
            lemma_den_hist_append_expr(w1, w2, v, j, p, *a, vis);
            lemma_den_hist_append_expr(w1, w2, v, j, p, *b, vis);
        }
        Expr::Rem(a, _) => {
            lemma_den_hist_append_expr(w1, w2, v, j, p, *a, vis);
        }
        Expr::Fail => {}
    }
}

/// If every raw input has the same value at `v2` as at `v1`, every key
/// denotes the same outcome at the two versions: nothing downstream of an
/// unchanged set of inputs ever needs recomputation.
pub proof fn lemma_den_inputs_agree_key(w: World, v1: u64, v2: u64, k: int, vis: Seq<bool>)
    requires
        forall|j: int|
            0 <= j < w.defs.len() && w.defs[j] is Leaf ==> input_at(#[trigger] w.hists[j], v2)
                == input_at(w.hists[j], v1),
    ensures
        den_key(w, v2, k, vis) == den_key(w, v1, k, vis),
    decreases count_false(vis), 0nat, 0nat,
{
    if vis.len() == w.defs.len() && 0 <= k < w.defs.len() && !vis[k] {
        lemma_count_false_update(vis, k);
        let visk = vis.update(k, true);
        match w.defs[k] {
            KeyDef::Leaf => {}
            KeyDef::Computation(e) => {
                lemma_den_inputs_agree_expr(w, v1, v2, e, visk);
            }
            KeyDef::Projection { base, transform } => {
                lemma_den_inputs_agree_key(w, v1, v2, base as int, visk);
            }
        }
    }
}

/// Expression form of `lemma_den_inputs_agree_key`.
pub proof fn lemma_den_inputs_agree_expr(w: World, v1: u64, v2: u64, e: Expr, vis: Seq<bool>)
    requires
        forall|j: int|
            0 <= j < w.defs.len() && w.defs[j] is Leaf ==> input_at(#[trigger] w.hists[j], v2)
                == input_at(w.hists[j], v1),
    ensures
        den_expr(w, v2, e, vis) == den_expr(w, v1, e, vis),
    decreases count_false(vis), 1nat, esize(e),
{
    match e {
        Expr::Lit(_) => {}
        Expr::Req(d) => {
            lemma_den_inputs_agree_key(w, v1, v2, d as int, vis);
        }
        Expr::Add(a, b) => {
            lemma_den_inputs_agree_expr(w, v1, v2, *a, vis);
            lemma_den_inputs_agree_expr(w, v1, v2, *b, vis);
        }
        Expr::Rem(a, _) => {
            lemma_den_inputs_agree_expr(w, v1, v2, *a, vis);
        }
        Expr::Fail => {}
    }
}

/// Whether a key denotes a value does not depend on the version: cycles,
/// failing steps and unregistered requests are structural.
pub proof fn lemma_den_stable_key(w: World, v1: u64, v2: u64, k: int, vis: Seq<bool>)
    requires
        den_key(w, v1, k, vis) is Val,
    ensures
        den_key(w, v2, k, vis) is Val,
    decreases count_false(vis), 0nat, 0nat,
{
    lemma_count_false_update(vis, k);
    let visk = vis.update(k, true);
    match w.defs[k] {
        KeyDef::Leaf => {}
        KeyDef::Computation(e) => {
            lemma_den_stable_expr(w, v1, v2, e, visk);
        }
        KeyDef::Projection { base, transform } => {
            lemma_den_stable_key(w, v1, v2, base as int, visk);
        }
    }
}

/// Expression form of `lemma_den_stable_key`.
pub proof fn lemma_den_stable_expr(w: World, v1: u64, v2: u64, e: Expr, vis: Seq<bool>)
    requires
        den_expr(w, v1, e, vis) is Val,
    ensures
        den_expr(w, v2, e, vis) is Val,
    decreases count_false(vis), 1nat, esize(e),
{
    match e {
        Expr::Lit(_) => {}
        Expr::Req(d) => {
            lemma_den_stable_key(w, v1, v2, d as int, vis);
        }
        Expr::Add(a, b) => {
            lemma_den_stable_expr(w, v1, v2, *a, vis);
            lemma_den_stable_expr(w, v1, v2, *b, vis);
        }
        Expr::Rem(a, _) => {
            lemma_den_stable_expr(w, v1, v2, *a, vis);
        }
        Expr::Fail => {}
    }
}

/// A value outcome is preserved when the in-progress markers shrink.
pub proof fn lemma_den_shrink_key(w: World, v: u64, k: int, vis_a: Seq<bool>, vis_b: Seq<bool>)
    requires
        subvis(vis_b, vis_a),
        den_key(w, v, k, vis_a) is Val,
    ensures
        den_key(w, v, k, vis_b) == den_key(w, v, k, vis_a),
    decreases count_false(vis_a), 0nat, 0nat,
{
    lemma_count_false_update(vis_a, k);
    let vis_a2 = vis_a.update(k, true);
    let vis_b2 = vis_b.update(k, true);
    assert(subvis(vis_b2, vis_a2));
    match w.defs[k] {
        KeyDef::Leaf => {}
        KeyDef::Computation(e) => {
            lemma_den_shrink_expr(w, v, e, vis_a2, vis_b2);
        }
        KeyDef::Projection { base, transform } => {
            lemma_den_shrink_key(w, v, base as int, vis_a2, vis_b2);
        }
    }
}

/// Expression form of `lemma_den_shrink_key`.
pub proof fn lemma_den_shrink_expr(w: World, v: u64, e: Expr, vis_a: Seq<bool>, vis_b: Seq<bool>)
    requires
        subvis(vis_b, vis_a),
        den_expr(w, v, e, vis_a) is Val,
    ensures
        den_expr(w, v, e, vis_b) == den_expr(w, v, e, vis_a),
    decreases count_false(vis_a), 1nat, esize(e),
{
    match e {
        Expr::Lit(_) => {}
        Expr::Req(d) => {
            lemma_den_shrink_key(w, v, d as int, vis_a, vis_b);
        }
        Expr::Add(a, b) => {
            lemma_den_shrink_expr(w, v, *a, vis_a, vis_b);
            lemma_den_shrink_expr(w, v, *b, vis_a, vis_b);
        }
        Expr::Rem(a, _) => {
            lemma_den_shrink_expr(w, v, *a, vis_a, vis_b);
        }
        Expr::Fail => {}
    }
}

/// A successful evaluation evaluates every key its expression may request.
pub proof fn lemma_val_explores_expr(w: World, v: u64, e: Expr, vis: Seq<bool>, d: int)
    requires
        den_expr(w, v, e, vis) is Val,
        reqs_expr(e).contains(d),
    ensures
        den_key(w, v, d, vis) is Val,
    decreases esize(e),
{
    match e {
        Expr::Lit(_) => {}
        Expr::Req(d2) => {}
        Expr::Add(a, b) => {
            if reqs_expr(*a).contains(d) {
                lemma_val_explores_expr(w, v, *a, vis, d);
            } else {
                lemma_val_explores_expr(w, v, *b, vis, d);
            }
        }
        Expr::Rem(a, _) => {
            lemma_val_explores_expr(w, v, *a, vis, d);
        }
        Expr::Fail => {}
    }
}

/// A key that denotes a value evaluates each of its direct dependencies.
pub proof fn lemma_val_explores_key(w: World, v: u64, k: int, vis: Seq<bool>, d: int)
    requires
        den_key(w, v, k, vis) is Val,
        reqs_key(w.defs, k).contains(d),
    ensures
        den_key(w, v, d, vis.update(k, true)) is Val,
{
    match w.defs[k] {
        KeyDef::Leaf => {}
        KeyDef::Computation(e) => {
            lemma_val_explores_expr(w, v, e, vis.update(k, true), d);
        }
        KeyDef::Projection { base, transform } => {}
    }
}

/// Along any dependency path out of a key that denotes a value, no key on
/// the current chain is reached, and no non-empty path returns to the start:
/// the evaluation explored everything reachable without hitting a cycle.
pub proof fn lemma_val_no_cycle(w: World, v: u64, k: int, vis: Seq<bool>, x: int, n: nat)
    requires
        den_key(w, v, k, vis) is Val,
        reaches_n(w.defs, k, x, n),
    ensures
        0 <= x < vis.len() ==> !vis[x],
        n >= 1 ==> x != k,
    decreases n,
{
    if n == 0 {
    } else {
        let m = choose|m: int|
            reqs_key(w.defs, k).contains(m) && reaches_n(w.defs, m, x, (n - 1) as nat);
        lemma_val_explores_key(w, v, k, vis, m);
        let visk = vis.update(k, true);
        lemma_val_no_cycle(w, v, m, visk, x, (n - 1) as nat);
        if 0 <= x < vis.len() {
            assert(!visk[x]);
        }
    }
}

/// A value outcome is preserved when the markers grow by keys that the
/// evaluation cannot reach.
pub proof fn lemma_den_noreach_key(w: World, v: u64, k: int, vis_a: Seq<bool>, vis_b: Seq<bool>)
    requires
        subvis(vis_b, vis_a),
        den_key(w, v, k, vis_b) is Val,
        forall|x: int, n: nat|
            0 <= x < vis_a.len() && vis_a[x] && !vis_b[x] ==> !reaches_n(w.defs, k, x, n),
    ensures
        den_key(w, v, k, vis_a) == den_key(w, v, k, vis_b),
    decreases count_false(vis_b), 0nat, 0nat,
{
    if vis_a[k] {
        assert(reaches_n(w.defs, k, k, 0));
        assert(false);
    }
    lemma_count_false_update(vis_b, k);
    let vis_a2 = vis_a.update(k, true);
    let vis_b2 = vis_b.update(k, true);
    assert(subvis(vis_b2, vis_a2));
    assert forall|x: int, n: nat, d: int|
        0 <= x < vis_a2.len() && vis_a2[x] && !vis_b2[x] && reqs_key(w.defs, k).contains(d)
            implies !reaches_n(w.defs, d, x, n) by {
        if reaches_n(w.defs, d, x, n) {
            assert(reaches_n(w.defs, k, x, (n + 1) as nat)) by {
                assert(reqs_key(w.defs, k).contains(d) && reaches_n(w.defs, d, x, n));
            }
        }
    }
    match w.defs[k] {
        KeyDef::Leaf => {}
        KeyDef::Computation(e) => {
            lemma_den_noreach_expr(w, v, e, vis_a2, vis_b2);
        }
        KeyDef::Projection { base, transform } => {
            lemma_den_noreach_key(w, v, base as int, vis_a2, vis_b2);
        }
    }
}

/// Expression form of `lemma_den_noreach_key`.
pub proof fn lemma_den_noreach_expr(w: World, v: u64, e: Expr, vis_a: Seq<bool>, vis_b: Seq<bool>)
    requires
        subvis(vis_b, vis_a),
        den_expr(w, v, e, vis_b) is Val,
        forall|x: int, n: nat, d: int|
            0 <= x < vis_a.len() && vis_a[x] && !vis_b[x] && reqs_expr(e).contains(d)
                ==> !reaches_n(w.defs, d, x, n),
    ensures
        den_expr(w, v, e, vis_a) == den_expr(w, v, e, vis_b),
    decreases count_false(vis_b), 1nat, esize(e),
{
    match e {
        Expr::Lit(_) => {}
        Expr::Req(d) => {
            lemma_den_noreach_key(w, v, d as int, vis_a, vis_b);
        }
        Expr::Add(a, b) => {
            lemma_den_noreach_expr(w, v, *a, vis_a, vis_b);
            lemma_den_noreach_expr(w, v, *b, vis_a, vis_b);
        }
        Expr::Rem(a, _) => {
            lemma_den_noreach_expr(w, v, *a, vis_a, vis_b);
        }
        Expr::Fail => {}
    }
}

/// Soundness of early cutoff at the expression level; `s` is any superset of
/// the keys the expression may request.
pub proof fn lemma_cutoff_expr(w: World, v1: u64, v2: u64, e: Expr, vis: Seq<bool>, s: Set<int>)
    requires
        den_expr(w, v1, e, vis) is Val,
        vis.len() == w.defs.len(),
        reqs_expr(e).subset_of(s),
        forall|d: int| #[trigger] s.contains(d)
            ==> den_key(w, v2, d, all_false(w.defs.len())) == den_key(
                w,
                v1,
                d,
                all_false(w.defs.len()),
            ),
        forall|x: int, n: nat, d: int|
            0 <= x < vis.len() && vis[x] && s.contains(d) ==> !reaches_n(w.defs, d, x, n),
    ensures
        den_expr(w, v2, e, vis) == den_expr(w, v1, e, vis),
    decreases esize(e),
{
    let af = all_false(w.defs.len());
    match e {
        Expr::Lit(_) => {}
        Expr::Req(d) => {
            assert(reqs_expr(e).contains(d as int));
            assert(s.contains(d as int));
            lemma_den_shrink_key(w, v1, d as int, vis, af);
            lemma_den_noreach_key(w, v2, d as int, vis, af);
        }
        Expr::Add(a, b) => {
            assert(reqs_expr(*a).subset_of(s) && reqs_expr(*b).subset_of(s));
            lemma_cutoff_expr(w, v1, v2, *a, vis, s);
            lemma_cutoff_expr(w, v1, v2, *b, vis, s);
        }
        Expr::Rem(a, _) => {
            assert(reqs_expr(*a).subset_of(s));
            lemma_cutoff_expr(w, v1, v2, *a, vis, s);
        }
        Expr::Fail => {}
    }
}

/// Soundness of early cutoff: if every direct dependency of a non-leaf key
/// denotes at `v2` the same outcome as at `v1`, the key itself does.
pub proof fn lemma_cutoff_key(w: World, v1: u64, v2: u64, k: int)
    requires
        0 <= k < w.defs.len(),
        !(w.defs[k] is Leaf),
        den_key(w, v1, k, all_false(w.defs.len())) is Val,
        forall|d: int| #[trigger] reqs_key(w.defs, k).contains(d)
            ==> den_key(w, v2, d, all_false(w.defs.len())) == den_key(
                w,
                v1,
                d,
                all_false(w.defs.len()),
            ),
    ensures
        den_key(w, v2, k, all_false(w.defs.len())) == den_key(w, v1, k, all_false(w.defs.len())),
{
    let af = all_false(w.defs.len());
    let visk = af.update(k, true);
    assert forall|x: int, n: nat, d: int|
        0 <= x < visk.len() && visk[x] && reqs_key(w.defs, k).contains(d)
            implies !reaches_n(w.defs, d, x, n) by {
        if reaches_n(w.defs, d, x, n) {
            assert(x == k);
            assert(reaches_n(w.defs, k, d, 1)) by {
                assert(reqs_key(w.defs, k).contains(d) && reaches_n(w.defs, d, d, 0));
            }
            lemma_reaches_trans(w.defs, k, d, k, 1, n);
            lemma_val_no_cycle(w, v1, k, af, k, (1 + n) as nat);
        }
    }
    match w.defs[k] {
        KeyDef::Leaf => {}
        KeyDef::Computation(e) => {
            assert(reqs_expr(e).subset_of(reqs_key(w.defs, k)));
            lemma_cutoff_expr(w, v1, v2, e, visk, reqs_key(w.defs, k));
        }
        KeyDef::Projection { base, transform } => {
            assert(reqs_key(w.defs, k).contains(base as int));
            lemma_den_shrink_key(w, v1, base as int, visk, af);
            lemma_den_noreach_key(w, v2, base as int, visk, af);
        }
    }
}

/// A key with a committed value can be served from the cache under any
/// in-progress chain that leads to it: the chain cannot be reached back.
pub proof fn lemma_key_available(w: World, v: u64, k: int, vis: Seq<bool>)
    requires
        vis.len() == w.defs.len(),
        0 <= k < w.defs.len(),
        !vis[k],
        den_key(w, v, k, all_false(w.defs.len())) is Val,
        forall|x: int| 0 <= x < vis.len() && vis[x] ==> #[trigger] reaches(w.defs, x, k),
    ensures
        den_key(w, v, k, vis) == den_key(w, v, k, all_false(w.defs.len())),
{
    let af = all_false(w.defs.len());
    assert forall|x: int, n: nat|
        0 <= x < vis.len() && vis[x] && !af[x] implies !reaches_n(w.defs, k, x, n) by {
        if reaches_n(w.defs, k, x, n) {
            assert(reaches(w.defs, x, k));
            let n1 = choose|n1: nat| reaches_n(w.defs, x, k, n1);
            if n1 == 0 {
                assert(x == k);
                assert(false);
            }
            lemma_reaches_trans(w.defs, k, x, k, n, n1);
            lemma_val_no_cycle(w, v, k, af, k, (n + n1) as nat);
        }
    }
    lemma_den_noreach_key(w, v, k, vis, af);
}

/// During re-validation of a committed entry for key `k`, each direct
/// dependency can itself be computed under the current chain: it denotes a
/// value at every version, and the chain does not disturb it.
pub proof fn lemma_dep_available(w: World, v: u64, v0: u64, k: int, d: int, vis: Seq<bool>)
    requires
        vis.len() == w.defs.len(),
        0 <= k < w.defs.len(),
        vis[k],
        den_key(w, v0, k, all_false(w.defs.len())) is Val,
        reqs_key(w.defs, k).contains(d),
        forall|x: int| 0 <= x < vis.len() && vis[x] ==> #[trigger] reaches(w.defs, x, k),
    ensures
        den_key(w, v, d, all_false(w.defs.len())) is Val,
        den_key(w, v, d, vis) == den_key(w, v, d, all_false(w.defs.len())),
{
    let af = all_false(w.defs.len());
    lemma_val_explores_key(w, v0, k, af, d);
    lemma_den_shrink_key(w, v0, d, af.update(k, true), af);
    lemma_den_stable_key(w, v0, v, d, af);
    assert(0 <= d < w.defs.len());
    if vis[d] {
        assert(reaches(w.defs, d, k));
        let n1 = choose|n1: nat| reaches_n(w.defs, d, k, n1);
        lemma_reaches_step(w.defs, d, k, d, n1);
        lemma_val_no_cycle(w, v, d, af, d, (n1 + 1) as nat);
        assert(false);
    }
    assert forall|x: int| 0 <= x < vis.len() && vis[x] implies #[trigger] reaches(
        w.defs,
        x,
        d,
    ) by {
        assert(reaches(w.defs, x, k));
        let n1 = choose|n1: nat| reaches_n(w.defs, x, k, n1);
        lemma_reaches_step(w.defs, x, k, d, n1);
        assert(reaches_n(w.defs, x, d, (n1 + 1) as nat));
    }
    lemma_key_available(w, v, d, vis);
}

} // verus!
