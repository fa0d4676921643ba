//! Finite-path connectivity over an arbitrary step relation.
//!
//! Crosses are the connected components of the "intersects" relation on
//! snakes; the flip rules need reflexivity, symmetry and transitivity of
//! that connectivity, proved here once for any step relation.

use vstd::prelude::*;

verus! {

/// Every two consecutive entries of `p` are related by `step`.
pub open spec fn is_path<T>(step: spec_fn(T, T) -> bool, p: Seq<T>) -> bool {
    forall|i: int| 0 <= i && i + 1 < p.len() ==> #[trigger] step(p[i], p[i + 1])
}

/// `a` and `b` are joined by finitely many steps of `step`.
pub open spec fn joined<T>(step: spec_fn(T, T) -> bool, a: T, b: T) -> bool {
    exists|p: Seq<T>|
        p.len() >= 1 && p[0] == a && p[p.len() - 1] == b && #[trigger] is_path(step, p)
}

/// Everything is joined to itself.
pub proof fn lemma_joined_refl<T>(step: spec_fn(T, T) -> bool, a: T)
    ensures
        joined(step, a, a),
{
    let p: Seq<T> = seq![a];
    assert(is_path(step, p));
}

/// One step joins its two ends.
pub proof fn lemma_joined_step<T>(step: spec_fn(T, T) -> bool, a: T, b: T)
    requires
        step(a, b),
    ensures
        joined(step, a, b),
{
    let p: Seq<T> = seq![a, b];
    assert(p[0] == a && p[p.len() - 1] == b);
    assert(is_path(step, p));
}

/// Being joined is transitive.
pub proof fn lemma_joined_trans<T>(step: spec_fn(T, T) -> bool, a: T, b: T, c: T)
    requires
        joined(step, a, b),
        joined(step, b, c),
    ensures
        joined(step, a, c),
{
    let p1 = choose|p: Seq<T>|
        p.len() >= 1 && p[0] == a && p[p.len() - 1] == b && #[trigger] is_path(step, p);
    let p2 = choose|p: Seq<T>|
        p.len() >= 1 && p[0] == b && p[p.len() - 1] == c && #[trigger] is_path(step, p);
    if p2.len() == 1 {
        assert(p1[0] == a && p1[p1.len() - 1] == c && is_path(step, p1));
    } else {
        let q = p1 + p2.subrange(1, p2.len() as int);
        assert(q.len() == p1.len() + p2.len() - 1);
        assert(q[0] == a);
        assert(q[q.len() - 1] == p2[p2.len() - 1]);
        assert forall|i: int| 0 <= i && i + 1 < q.len() implies #[trigger] step(q[i], q[i + 1]) by {
            if i + 1 < p1.len() {
                assert(q[i] == p1[i] && q[i + 1] == p1[i + 1]);
                assert(step(p1[i], p1[i + 1]));
            } else if i + 1 == p1.len() {
                assert(q[i] == p1[p1.len() - 1]);
                assert(q[i + 1] == p2[1]);
                assert(step(p2[0], p2[1]));
            } else {
                let j = i - p1.len();
                assert(q[i] == p2[j + 1] && q[i + 1] == p2[j + 2]);
                assert(step(p2[j + 1], p2[j + 2]));
            }
        }
        assert(is_path(step, q));
    }
}

/// Being joined by a symmetric step relation is symmetric.
pub proof fn lemma_joined_sym<T>(step: spec_fn(T, T) -> bool, a: T, b: T)
    requires
        joined(step, a, b),
        forall|x: T, y: T| #[trigger] step(x, y) ==> step(y, x),
    ensures
        joined(step, b, a),
{
    let p = choose|p: Seq<T>|
        p.len() >= 1 && p[0] == a && p[p.len() - 1] == b && #[trigger] is_path(step, p);
    let q = Seq::new(p.len(), |i: int| p[p.len() - 1 - i]);
    assert(q[0] == b && q[q.len() - 1] == a);
    assert forall|i: int| 0 <= i && i + 1 < q.len() implies #[trigger] step(q[i], q[i + 1]) by {
        let j = p.len() - 2 - i;
        assert(q[i] == p[j + 1] && q[i + 1] == p[j]);
        assert(step(p[j], p[j + 1]));
    }
    assert(is_path(step, q));
}

} // verus!
