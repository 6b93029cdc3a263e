//! Graph-wide guarantees stated and proved over the scope graph's model:
//! that walking `Inherits` edges terminates without revisiting a scope, and
//! that lookup resolves to the nearest ancestor binding the variable.

use vstd::prelude::*;

use crate::expr::assoc_view;
use crate::graph::ScopeTree;

verus! {

/// The number of `Inherits` edges between a scope and the end of its chain.
pub open spec fn depth(t: ScopeTree, i: int) -> int
    decreases i,
{
    if 0 <= i < t.scopes@.len() {
        match t.scopes@[i].parent {
            Some(p) => if 0 <= p < i {
                1 + depth(t, p as int)
            } else {
                0
            },
            None => 0,
        }
    } else {
        0
    }
}

/// The scopes that repeated `parentOf` visits, starting at `i`.
pub open spec fn ancestor_chain(t: ScopeTree, i: int) -> Seq<int>
    decreases i,
{
    if 0 <= i < t.scopes@.len() {
        match t.scopes@[i].parent {
            Some(p) => if 0 <= p < i {
                seq![i] + ancestor_chain(t, p as int)
            } else {
                seq![i]
            },
            None => seq![i],
        }
    } else {
        seq![i]
    }
}

/// Walking `parentOf` from any scope terminates at a parentless scope in
/// exactly `depth` steps, along strictly descending scope indices, so no
/// scope is ever visited twice.
pub proof fn lemma_inheritance_terminates(t: ScopeTree, i: int)
    requires
        t.wf(),
        0 <= i < t.scopes@.len(),
    ensures
        ancestor_chain(t, i).len() == depth(t, i) + 1,
        ancestor_chain(t, i)[0] == i,
        forall|k: int|
            0 <= k < ancestor_chain(t, i).len() ==> 0 <= #[trigger] ancestor_chain(t, i)[k]
                < t.scopes@.len(),
        forall|k: int|
            0 <= k < ancestor_chain(t, i).len() - 1 ==> t.scopes@[ancestor_chain(t, i)[k]].parent
                == Some(ancestor_chain(t, i)[k + 1] as usize),
        t.scopes@[ancestor_chain(t, i).last()].parent is None,
        forall|k: int|
            0 <= k < ancestor_chain(t, i).len() - 1 ==> #[trigger] ancestor_chain(t, i)[k + 1]
                < ancestor_chain(t, i)[k],
        forall|a: int, b: int|
            0 <= a < b < ancestor_chain(t, i).len() ==> #[trigger] ancestor_chain(t, i)[b]
                < #[trigger] ancestor_chain(t, i)[a],
    decreases i,
{
    let c = ancestor_chain(t, i);
    assert(t.scope_wf(i));
    match t.scopes@[i].parent {
        Some(p) => {
            lemma_inheritance_terminates(t, p as int);
            let cp = ancestor_chain(t, p as int);
            assert(c == seq![i] + cp);
            assert(c[0] == i);
            assert(forall|k: int| 0 <= k < cp.len() ==> c[k + 1] == #[trigger] cp[k]);
            assert forall|a: int, b: int|
                0 <= a < b < c.len() implies #[trigger] c[b] < #[trigger] c[a] by {
                if a == 0 {
                    if b == 1 {
                        assert(c[b] == cp[0] == p as int);
                    } else {
                        assert(cp[b - 1] < cp[0]);
                    }
                } else {
                    assert(cp[b - 1] < cp[a - 1]);
                }
            }
        },
        None => {},
    }
}

/// `lookup` returns the binding of the nearest ancestor (the scope itself
/// included) that binds the variable locally, and returns nothing exactly
/// when no scope on the chain up to the root binds it: the resolved value is
/// `Some` if and only if some visited scope binds the variable, and the
/// defining scope is the first visited scope that does.
pub proof fn lemma_lookup_nearest_ancestor(t: ScopeTree, i: int, v: Seq<char>)
    requires
        t.wf(),
        0 <= i < t.scopes@.len(),
    ensures
        (t.resolved(i, v) is Some) <==> (exists|k: int|
            0 <= k < ancestor_chain(t, i).len() && assoc_view(
                t.scopes@[#[trigger] ancestor_chain(t, i)[k]].bindings@,
            ).contains_key(v)),
        t.defining_scope(i, v) matches Some(d) ==> exists|k: int|
            0 <= k < ancestor_chain(t, i).len() && #[trigger] ancestor_chain(t, i)[k] == d
                && assoc_view(t.scopes@[d].bindings@).contains_key(v) && (forall|m: int|
                0 <= m < k ==> !assoc_view(
                    t.scopes@[#[trigger] ancestor_chain(t, i)[m]].bindings@,
                ).contains_key(v)),
        t.defining_scope(i, v) matches Some(d) ==> t.resolved(i, v) == Some(
            assoc_view(t.scopes@[d].bindings@)[v],
        ),
    decreases i,
{
    let c = ancestor_chain(t, i);
    assert(t.scope_wf(i));
    if assoc_view(t.scopes@[i].bindings@).contains_key(v) {
        assert(c[0] == i);
    } else {
        match t.scopes@[i].parent {
            Some(p) => {
                lemma_lookup_nearest_ancestor(t, p as int, v);
                let cp = ancestor_chain(t, p as int);
                assert(c == seq![i] + cp);
                assert(forall|k: int| 0 <= k < cp.len() ==> c[k + 1] == #[trigger] cp[k]);
                if t.resolved(i, v) is Some {
                    let k = choose|k: int|
                        0 <= k < cp.len() && assoc_view(
                            t.scopes@[#[trigger] cp[k]].bindings@,
                        ).contains_key(v);
                    assert(c[k + 1] == cp[k]);
                }
                if exists|k: int|
                    0 <= k < c.len() && assoc_view(
                        t.scopes@[#[trigger] c[k]].bindings@,
                    ).contains_key(v) {
                    let k = choose|k: int|
                        0 <= k < c.len() && assoc_view(
                            t.scopes@[#[trigger] c[k]].bindings@,
                        ).contains_key(v);
                    assert(k > 0);
                    assert(cp[k - 1] == c[k]);
                    assert(t.resolved(p as int, v) is Some);
                }
                if let Some(d) = t.defining_scope(i, v) {
                    assert(t.defining_scope(p as int, v) == Some(d));
                    let k = choose|k: int|
                        0 <= k < cp.len() && #[trigger] cp[k] == d && assoc_view(
                            t.scopes@[d].bindings@,
                        ).contains_key(v) && (forall|m: int|
                            0 <= m < k ==> !assoc_view(
                                t.scopes@[#[trigger] cp[m]].bindings@,
                            ).contains_key(v));
                    assert(c[k + 1] == d);
                    assert forall|m: int|
                        0 <= m < k + 1 implies !assoc_view(
                        t.scopes@[#[trigger] c[m]].bindings@,
                    ).contains_key(v) by {
                        if m > 0 {
                            assert(c[m] == cp[m - 1]);
                        }
                    }
                }
            },
            None => {},
        }
    }
}

} // verus!
