//! Key identity: the kinds of computation a key can stand for, and the
//! statically recorded set of keys a computation may request.

use vstd::prelude::*;

verus! {

/// A user computation, written as an expression over other keys' values.
///
/// `Req(d)` requests the value of key `d` through the per-compute context,
/// so `d` becomes a recorded dependency of the key being computed.
pub enum Expr {
    /// A constant.
    Lit(u64),
    /// Request another key's value.
    Req(usize),
    /// Wrapping sum of two subcomputations.
    Add(Box<Expr>, Box<Expr>),
    /// Remainder of a subcomputation by a constant; a zero modulus fails.
    Rem(Box<Expr>, u64),
    /// A computation that fails with a computation error.
    Fail,
}

/// The pure transform of a projection, applied to the base key's value.
pub enum Transform {
    /// Return the base value itself.
    Identity,
    /// Wrapping addition of a constant.
    Offset(u64),
}

/// What a registered key stands for.
pub enum KeyDef {
    /// A raw input; its value is set through `set_changed`.
    Leaf,
    /// A full computation with its own dependency-recording context.
    Computation(Expr),
    /// A cheap pure view over exactly one base key.
    Projection { base: usize, transform: Transform },
}

/// Structural size of an expression; drives termination measures.
pub open spec fn esize(e: Expr) -> nat
    decreases e,
{
    match e {
        Expr::Lit(_) => 1,
        Expr::Req(_) => 2,
        Expr::Add(a, b) => 1 + esize(*a) + esize(*b),
        Expr::Rem(a, _) => 1 + esize(*a),
        Expr::Fail => 1,
    }
}

/// The keys an expression may request: the static direct dependency set.
pub open spec fn reqs_expr(e: Expr) -> Set<int>
    decreases e,
{
    match e {
        Expr::Lit(_) => Set::empty(),
        Expr::Req(d) => Set::empty().insert(d as int),
        Expr::Add(a, b) => reqs_expr(*a).union(reqs_expr(*b)),
        Expr::Rem(a, _) => reqs_expr(*a),
        Expr::Fail => Set::empty(),
    }
}

/// The direct dependency set of a key: what its computation may request.
/// A projection depends on exactly its base key.
pub open spec fn reqs_key(defs: Seq<KeyDef>, k: int) -> Set<int> {
    if 0 <= k < defs.len() {
        match defs[k] {
            KeyDef::Leaf => Set::empty(),
            KeyDef::Computation(e) => reqs_expr(e),
            KeyDef::Projection { base, transform: _ } => Set::empty().insert(base as int),
        }
    } else {
        Set::empty()
    }
}

/// Value of a transform on a base value.
pub open spec fn apply_transform(t: Transform, b: u64) -> u64 {
    match t {
        Transform::Identity => b,
        Transform::Offset(c) => vstd::wrapping::u64_specs::wrapping_add(b, c),
    }
}

/// Executable transform application, equal to its specification.
pub fn run_transform(t: &Transform, b: u64) -> (r: u64)
    ensures
        r == apply_transform(*t, b),
{
    match t {
        Transform::Identity => b,
        Transform::Offset(c) => b.wrapping_add(*c),
    }
}

} // verus!
