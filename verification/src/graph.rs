//! The scope graph: an arena of scopes joined by `Inherits` and
//! `ProvidesAttribute` edges, with upward variable resolution, atomic scope
//! construction, listener registration and change propagation.
//!
//! Scopes are addressed by their index in the arena. A scope's single
//! `Inherits` edge is its `parent` field, and it always points to an earlier
//! index, so inheritance can form no cycle. `ProvidesAttribute` and
//! dependency edges are stored on their source scope and always point to a
//! later index, because a derived scope and a listening scope are both
//! created after the scopes they draw from.

use vstd::prelude::*;

use crate::expr::{
    assoc_view, lemma_assoc_dom, lemma_assoc_first_match, lemma_assoc_no_match,
    lemma_assoc_update, lemma_eval_agree, lemma_missing_ref_not_val, Env, EvalError, Expression,
    Outcome, expr_refs, eval_outcome,
};
use crate::names::{AttrName, Value, VarName};

verus! {

/// An opaque handle for a registered listener. The graph hands it back in
/// invocations; the host maps it to the callback's side effect.
#[derive(Debug, PartialEq, Eq, Clone, Copy, Hash, Structural)]
pub struct ListenerId(pub usize);

/// A reactive callback's registration data: the variables whose resolved
/// values it needs. The callback itself stays with the host.
#[derive(Debug)]
pub struct Listener {
    pub needed_variables: Vec<VarName>,
}

/// A listener as stored on its owning scope, under its handle.
#[derive(Debug)]
pub struct ListenerEntry {
    pub id: ListenerId,
    pub needed: Vec<VarName>,
}

/// A `ProvidesAttribute` edge from the calling scope to a derived scope: the
/// derived scope's binding of `attr_name` is computed by `expression` over
/// the calling scope's visible variables.
#[derive(Debug)]
pub struct ProvidesAttributeEdge {
    pub target: usize,
    pub attr_name: AttrName,
    pub expression: Expression,
}

/// A dependency edge from a defining scope to a scope whose listeners need
/// one of its variables.
#[derive(Debug)]
pub struct DependencyEdge {
    pub target: usize,
    pub var: VarName,
}

/// One pending listener invocation: the handle and the snapshot of the
/// listener's needed variables to hand it.
pub struct Invocation {
    pub listener: ListenerId,
    pub env: Env,
}

/// A node of the graph: local bindings, a listener registry, and the typed
/// edges that leave it.
pub struct Scope {
    pub bindings: Vec<(VarName, Value)>,
    pub listeners: Vec<ListenerEntry>,
    pub provides: Vec<ProvidesAttributeEdge>,
    pub depends: Vec<DependencyEdge>,
    pub parent: Option<usize>,
}

impl Scope {
    /// The value locally bound to a name in this scope, if any.
    pub fn get_binding(&self, name: &VarName) -> (r: Option<&Value>)
        ensures
            match r {
                Some(v) => assoc_view(self.bindings@).contains_key(name@) && v@ == assoc_view(
                    self.bindings@,
                )[name@],
                None => !assoc_view(self.bindings@).contains_key(name@),
            },
    {
        let n = self.bindings.len();
        let mut i: usize = 0;
        while i < n
            invariant
                n == self.bindings@.len(),
                i <= n,
                forall|j: int| 0 <= j < i ==> (#[trigger] self.bindings@[j]).0@ != name@,
            decreases n - i,
        {
            if self.bindings[i].0.same_name(name) {
                proof {
                    lemma_assoc_first_match(self.bindings@, name@, i as int);
                }
                return Some(&self.bindings[i].1);
            }
            i += 1;
        }
        proof {
            lemma_assoc_no_match(self.bindings@, name@);
        }
        None
    }

    /// True exactly when this scope binds the name locally.
    pub fn has_binding(&self, name: &VarName) -> (r: bool)
        ensures
            r == assoc_view(self.bindings@).contains_key(name@),
    {
        self.get_binding(name).is_some()
    }

    /// Overwrites the local binding of a name that this scope already binds.
    /// The set of bound names is untouched, entry for entry.
    #[verifier::loop_isolation(false)]
    pub fn set_binding(&mut self, name: &VarName, value: Value)
        requires
            assoc_view(old(self).bindings@).contains_key(name@),
        ensures
            final(self).bindings@.len() == old(self).bindings@.len(),
            forall|k: int|
                0 <= k < old(self).bindings@.len() ==> (#[trigger] final(self).bindings@[k]).0
                    == old(self).bindings@[k].0,
            assoc_view(final(self).bindings@) == assoc_view(old(self).bindings@).insert(
                name@,
                value@,
            ),
            final(self).listeners@ == old(self).listeners@,
            final(self).provides@ == old(self).provides@,
            final(self).depends@ == old(self).depends@,
            final(self).parent == old(self).parent,
    {
        let n = self.bindings.len();
        let mut i: usize = 0;
        proof {
            lemma_assoc_dom(self.bindings@, name@);
        }
        while i < n
            invariant
                n == self.bindings@.len(),
                i <= n,
                self.bindings@ == old(self).bindings@,
                self.listeners@ == old(self).listeners@,
                self.provides@ == old(self).provides@,
                self.depends@ == old(self).depends@,
                self.parent == old(self).parent,
                forall|j: int| 0 <= j < i ==> (#[trigger] self.bindings@[j]).0@ != name@,
                exists|j: int| 0 <= j < n && (#[trigger] self.bindings@[j]).0@ == name@,
            decreases n - i,
        {
            if self.bindings[i].0.same_name(name) {
                let nm = self.bindings[i].0.clone();
                let ghost before = self.bindings@;
                self.bindings[i] = (nm, value);
                proof {
                    assert(self.bindings@ == before.update(i as int, self.bindings@[i as int]));
                    lemma_assoc_update(before, i as int, self.bindings@[i as int], name@);
                    assert forall|k: int| 0 <= k < before.len() implies (
                    #[trigger] self.bindings@[k]).0 == before[k].0 by {
                        if k != i {
                            assert(self.bindings@[k] == before[k]);
                        }
                    }
                }
                return ;
            }
            i += 1;
        }
        proof {
            // The name is bound here, so the scan cannot run off the end.
            assert(false);
        }
    }
}

/// The scope graph. Index 0 is the root scope, created from the global
/// variables; every other scope is added by `register_new_scope`.
pub struct ScopeTree {
    pub scopes: Vec<Scope>,
    pub root_index: usize,
    pub next_listener_id: usize,
}

impl ScopeTree {
    /// Structural soundness of one scope: its `Inherits` edge points to an
    /// earlier scope, its outgoing edges point to later scopes inside the
    /// arena, and its locally bound names are distinct.
    pub open spec fn scope_wf(&self, i: int) -> bool {
        let s = self.scopes@[i];
        &&& match s.parent {
            Some(p) => 0 <= p < i,
            None => true,
        }
        &&& forall|k: int|
            0 <= k < s.provides@.len() ==> i < (#[trigger] s.provides@[k]).target
                < self.scopes@.len()
        &&& forall|k: int|
            0 <= k < s.depends@.len() ==> i < (#[trigger] s.depends@[k]).target
                < self.scopes@.len()
        &&& forall|a: int, b: int|
            0 <= a < b < s.bindings@.len() ==> (#[trigger] s.bindings@[a]).0@ != (
            #[trigger] s.bindings@[b]).0@
    }

    /// Structural soundness of the graph: a root with no parent at index 0,
    /// and every scope well formed. Because parents strictly decrease and
    /// outgoing edges strictly increase, inheritance is a forest and
    /// propagation can revisit no scope/variable pair.
    pub open spec fn wf(&self) -> bool {
        &&& 1 <= self.scopes@.len()
        &&& self.root_index == 0
        &&& self.scopes@[0].parent is None
        &&& forall|i: int| 0 <= i < self.scopes@.len() ==> self.scope_wf(i)
    }

    /// The nearest ancestor of scope `i` (including `i`) that binds `v`
    /// locally, walking the `Inherits` chain.
    pub open spec fn defining_scope(&self, i: int, v: Seq<char>) -> Option<int>
        decreases i,
    {
        if 0 <= i < self.scopes@.len() {
            if assoc_view(self.scopes@[i].bindings@).contains_key(v) {
                Some(i)
            } else {
                match self.scopes@[i].parent {
                    Some(p) => if 0 <= p < i {
                        self.defining_scope(p as int, v)
                    } else {
                        None
                    },
                    None => None,
                }
            }
        } else {
            None
        }
    }

    /// The value `v` resolves to from scope `i`: its binding in the nearest
    /// ancestor that binds it, if any ancestor does.
    pub open spec fn resolved(&self, i: int, v: Seq<char>) -> Option<Seq<char>> {
        match self.defining_scope(i, v) {
            Some(d) => Some(assoc_view(self.scopes@[d].bindings@)[v]),
            None => None,
        }
    }

    /// The variables visible from scope `i`, each with its resolved value.
    pub open spec fn visible_env(&self, i: int) -> Map<Seq<char>, Seq<char>> {
        Map::new(|n: Seq<char>| self.resolved(i, n) is Some, |n: Seq<char>| self.resolved(i, n)->0)
    }

    /// An attribute expression is acceptable from scope `i`: it evaluates to
    /// a value against the variables visible there.
    pub open spec fn attr_ok(&self, i: int, e: Expression) -> bool {
        eval_outcome(e, self.visible_env(i)) is Val
    }

    /// A graph holding only the root scope, with the given global variables
    /// as its bindings.
    pub fn from_global_vars(vars: Vec<(VarName, Value)>) -> (r: ScopeTree)
        requires
            forall|a: int, b: int|
                0 <= a < b < vars@.len() ==> (#[trigger] vars@[a]).0@ != (#[trigger] vars@[b]).0@,
        ensures
            r.wf(),
            r.scopes@.len() == 1,
            r.root_index == 0,
            r.scopes@[0].bindings@ == vars@,
            r.scopes@[0].listeners@.len() == 0,
            r.scopes@[0].provides@.len() == 0,
            r.scopes@[0].depends@.len() == 0,
            r.next_listener_id == 0,
    {
        let root = Scope {
            bindings: vars,
            listeners: Vec::new(),
            provides: Vec::new(),
            depends: Vec::new(),
            parent: None,
        };
        let mut scopes: Vec<Scope> = Vec::new();
        scopes.push(root);
        ScopeTree { scopes, root_index: 0, next_listener_id: 0 }
    }

    /// The value an acceptable attribute expression evaluates to from scope
    /// `i`.
    pub open spec fn attr_value(&self, i: int, e: Expression) -> Seq<char> {
        match eval_outcome(e, self.visible_env(i)) {
            Outcome::Val(v) => v,
            _ => Seq::empty(),
        }
    }

    /// The error of a failed registration is the first failing attribute's:
    /// every earlier attribute is acceptable, this one is not, and the error
    /// value names what went wrong there — an unresolvable referenced
    /// variable, the non-numeric operand, or an overflowing result.
    pub open spec fn failing_attr(
        &self,
        calling: int,
        attrs: Seq<(AttrName, Expression)>,
        k: int,
        e: EvalError,
    ) -> bool {
        &&& 0 <= k < attrs.len()
        &&& (forall|m: int| 0 <= m < k ==> self.attr_ok(calling, (#[trigger] attrs[m]).1))
        &&& !self.attr_ok(calling, attrs[k].1)
        &&& match e {
            EvalError::UnresolvedVariable(n) => expr_refs(attrs[k].1).contains(n@)
                && self.resolved(calling, n@) is None,
            EvalError::NotANumber(v) => eval_outcome(attrs[k].1, self.visible_env(calling))
                == Outcome::NotNumeric(v@),
            EvalError::Overflow => eval_outcome(attrs[k].1, self.visible_env(calling))
                == Outcome::TooLarge,
        }
    }

    /// The `ProvidesAttribute` edge that records one attribute of a newly
    /// derived scope.
    pub open spec fn provides_edge_of(idx: usize, p: (AttrName, Expression)) -> ProvidesAttributeEdge {
        ProvidesAttributeEdge { target: idx, attr_name: p.0, expression: p.1 }
    }

    /// Validates and atomically commits a new scope. Every variable that any
    /// attribute expression references is resolved from the calling scope
    /// and the expression evaluated; only when all of them succeed is the
    /// scope added, with its `Inherits` edge to the parent (when one is
    /// given), one `ProvidesAttribute` edge from the calling scope per
    /// attribute, and each attribute's value bound under the attribute's
    /// name. On failure the graph is byte for byte what it was.
    #[verifier::loop_isolation(false)]
    pub fn register_new_scope(
        &mut self,
        parent_scope: Option<usize>,
        calling_scope: usize,
        attributes: Vec<(AttrName, Expression)>,
    ) -> (r: Result<usize, EvalError>)
        requires
            old(self).wf(),
            calling_scope < old(self).scopes@.len(),
            match parent_scope {
                Some(p) => p < old(self).scopes@.len(),
                None => true,
            },
            forall|a: int, b: int|
                0 <= a < b < attributes@.len() ==> (#[trigger] attributes@[a]).0@ != (
                #[trigger] attributes@[b]).0@,
        ensures
            final(self).wf(),
            (r is Ok) <==> (forall|k: int|
                0 <= k < attributes@.len() ==> old(self).attr_ok(
                    calling_scope as int,
                    (#[trigger] attributes@[k]).1,
                )),
            r is Err ==> *final(self) == *old(self),
            r matches Err(EvalError::UnresolvedVariable(n)) ==> old(self).resolved(
                calling_scope as int,
                n@,
            ) is None,
            r matches Err(e) ==> exists|k: int| #[trigger] old(self).failing_attr(
                calling_scope as int,
                attributes@,
                k,
                e,
            ),
            r matches Ok(idx) ==> {
                let s = final(self).scopes@[idx as int];
                &&& idx == old(self).scopes@.len()
                &&& final(self).scopes@.len() == old(self).scopes@.len() + 1
                &&& s.parent == parent_scope
                &&& s.bindings@.len() == attributes@.len()
                &&& forall|k: int|
                    0 <= k < attributes@.len() ==> (#[trigger] s.bindings@[k]).0@
                        == attributes@[k].0@ && s.bindings@[k].1@ == old(self).attr_value(
                        calling_scope as int,
                        attributes@[k].1,
                    )
                &&& s.listeners@.len() == 0
                &&& s.provides@.len() == 0
                &&& s.depends@.len() == 0
                &&& final(self).scopes@[calling_scope as int].provides@ == old(self).scopes@[calling_scope as int].provides@ + attributes@.map_values(
                    |p: (AttrName, Expression)| Self::provides_edge_of(idx, p),
                )
                &&& forall|j: int|
                    0 <= j < old(self).scopes@.len() && j != calling_scope ==> final(self).scopes@[j] == old(self).scopes@[j]
                &&& final(self).scopes@[calling_scope as int].bindings@ == old(self).scopes@[calling_scope as int].bindings@
                &&& final(self).scopes@[calling_scope as int].listeners@ == old(self).scopes@[calling_scope as int].listeners@
                &&& final(self).scopes@[calling_scope as int].depends@ == old(self).scopes@[calling_scope as int].depends@
                &&& final(self).scopes@[calling_scope as int].parent == old(self).scopes@[calling_scope as int].parent
                &&& final(self).root_index == old(self).root_index
                &&& final(self).next_listener_id == old(self).next_listener_id
            },
    {
        let n = attributes.len();
        let mut values: Vec<Value> = Vec::new();
        let mut k: usize = 0;
        while k < n
            invariant
                *self == *old(self),
                k <= n,
                values@.len() == k,
                forall|m: int|
                    0 <= m < k ==> self.attr_ok(calling_scope as int, (#[trigger] attributes@[m]).1),
                forall|m: int|
                    0 <= m < k ==> (#[trigger] values@[m])@ == self.attr_value(
                        calling_scope as int,
                        attributes@[m].1,
                    ),
            decreases n - k,
        {
            let refs = attributes[k].1.var_refs();
            let mut env = Env::empty();
            let mut j: usize = 0;
            while j < refs.len()
                invariant
                    *self == *old(self),
                    k < n,
                    j <= refs@.len(),
                    forall|m: int|
                        0 <= m < j ==> env@.contains_key((#[trigger] refs@[m])@),
                    forall|nm: Seq<char>| #[trigger]
                        env@.contains_key(nm) ==> self.resolved(calling_scope as int, nm) == Some(
                            env@[nm],
                        ),
                decreases refs@.len() - j,
            {
                match self.lookup_variable_in_scope(calling_scope, &refs[j]) {
                    Some(v) => {
                        let vv = v.clone();
                        env.bind(refs[j].clone(), vv);
                    },
                    None => {
                        proof {
                            assert(expr_refs(attributes@[k as int].1).contains(refs@[j as int]@));
                            assert(!self.visible_env(calling_scope as int).contains_key(
                                refs@[j as int]@,
                            ));
                            lemma_missing_ref_not_val(
                                attributes@[k as int].1,
                                self.visible_env(calling_scope as int),
                                refs@[j as int]@,
                            );
                            assert(!self.attr_ok(calling_scope as int, attributes@[k as int].1));
                        }
                        let failed = EvalError::UnresolvedVariable(refs[j].clone());
                        proof {
                            assert(old(self).failing_attr(
                                calling_scope as int,
                                attributes@,
                                k as int,
                                failed,
                            ));
                        }
                        return Err(failed);
                    },
                }
                j += 1;
            }
            proof {
                let e = attributes@[k as int].1;
                let visible = self.visible_env(calling_scope as int);
                assert forall|nm: Seq<char>| #[trigger]
                    expr_refs(e).contains(nm) implies (env@.contains_key(nm)
                    <==> visible.contains_key(nm)) && (env@.contains_key(nm) ==> env@[nm]
                    == visible[nm]) by {
                    let m = choose|m: int| 0 <= m < refs@.len() && refs@[m]@ == nm;
                    assert(env@.contains_key(nm));
                }
                lemma_eval_agree(e, env@, visible);
            }
            match attributes[k].1.eval(&env) {
                Ok(v) => {
                    values.push(v);
                },
                Err(e) => {
                    proof {
                        assert(!self.attr_ok(calling_scope as int, attributes@[k as int].1));
                        crate::expr::lemma_missing_outcome(
                            attributes@[k as int].1,
                            self.visible_env(calling_scope as int),
                        );
                        assert(old(self).failing_attr(
                            calling_scope as int,
                            attributes@,
                            k as int,
                            e,
                        ));
                    }
                    return Err(e);
                },
            }
            k += 1;
        }
        // Validation done: every attribute is acceptable. Commit.
        let mut bindings: Vec<(VarName, Value)> = Vec::new();
        let mut b: usize = 0;
        while b < n
            invariant
                *self == *old(self),
                b <= n,
                values@.len() == n,
                bindings@.len() == b,
                forall|m: int|
                    0 <= m < b ==> (#[trigger] bindings@[m]).0@ == attributes@[m].0@
                        && bindings@[m].1 == values@[m],
            decreases n - b,
        {
            bindings.push((attributes[b].0.as_var_name(), values[b].clone()));
            b += 1;
        }
        proof {
            assert(forall|m: int|
                0 <= m < attributes@.len() ==> old(self).attr_ok(
                    calling_scope as int,
                    (#[trigger] attributes@[m]).1,
                ));
            assert(forall|m: int|
                0 <= m < attributes@.len() ==> (#[trigger] values@[m])@ == old(self).attr_value(
                    calling_scope as int,
                    attributes@[m].1,
                ));
        }
        let new_index = self.scopes.len();
        let new_scope = Scope {
            bindings,
            listeners: Vec::new(),
            provides: Vec::new(),
            depends: Vec::new(),
            parent: parent_scope,
        };
        let ghost snap = new_scope;
        self.scopes.push(new_scope);
        proof {
            assert(self.scopes@ == old(self).scopes@.push(snap));
            assert forall|j: int| 0 <= j < old(self).scopes@.len() implies self.scopes@[j] == old(self).scopes@[j] by {
                assert(old(self).scopes@.push(snap)[j] == old(self).scopes@[j]);
            }
            assert(self.scopes@[new_index as int] == snap);
        }
        let ghost attrs0 = attributes@;
        let ghost mid = *self;
        let mut rest = attributes;
        let mut moved: usize = 0;
        while rest.len() > 0
            invariant
                moved + rest@.len() == n,
                rest@ == attrs0.skip(moved as int),
                self.scopes@.len() == mid.scopes@.len(),
                self.root_index == mid.root_index,
                self.next_listener_id == mid.next_listener_id,
                forall|j: int|
                    0 <= j < self.scopes@.len() && j != calling_scope ==> self.scopes@[j]
                        == mid.scopes@[j],
                self.scopes@[calling_scope as int].provides@ == mid.scopes@[calling_scope as int].provides@
                    + attrs0.subrange(0, moved as int).map_values(
                    |p: (AttrName, Expression)| Self::provides_edge_of(new_index, p),
                ),
                self.scopes@[calling_scope as int].bindings@ == mid.scopes@[calling_scope as int].bindings@,
                self.scopes@[calling_scope as int].listeners@ == mid.scopes@[calling_scope as int].listeners@,
                self.scopes@[calling_scope as int].depends@ == mid.scopes@[calling_scope as int].depends@,
                self.scopes@[calling_scope as int].parent == mid.scopes@[calling_scope as int].parent,
            decreases rest@.len(),
        {
            let ghost provides_before = self.scopes@[calling_scope as int].provides@;
            let (a, ex) = rest.remove(0);
            self.scopes[calling_scope].provides.push(
                ProvidesAttributeEdge { target: new_index, attr_name: a, expression: ex },
            );
            moved += 1;
            proof {
                assert(rest@ =~= attrs0.skip(moved as int));
                assert(self.scopes@[calling_scope as int].provides@ =~= mid.scopes@[calling_scope as int].provides@
                    + attrs0.subrange(0, moved as int).map_values(
                    |p: (AttrName, Expression)| Self::provides_edge_of(new_index, p),
                ));
            }
        }
        proof {
            assert(mid.scopes@.len() == old(self).scopes@.len() + 1);
            assert forall|j: int| 0 <= j < old(self).scopes@.len() implies mid.scopes@[j] == old(self).scopes@[j] by {}
            assert(self.scopes@[calling_scope as int].provides@ =~= mid.scopes@[calling_scope as int].provides@
                + attrs0.map_values(
                |p: (AttrName, Expression)| Self::provides_edge_of(new_index, p),
            )) by {
                assert(attrs0.subrange(0, n as int) =~= attrs0);
            }
            assert forall|i: int| 0 <= i < self.scopes@.len() implies self.scope_wf(i) by {
                if i < old(self).scopes@.len() {
                    assert(old(self).scope_wf(i));
                    if i != calling_scope {
                        assert(self.scopes@[i] == old(self).scopes@[i]);
                    } else {
                        let s = self.scopes@[i];
                        let extra = attrs0.map_values(
                            |p: (AttrName, Expression)| Self::provides_edge_of(new_index, p),
                        );
                        assert forall|e: int|
                            0 <= e < s.provides@.len() implies i < (#[trigger] s.provides@[e]).target
                            < self.scopes@.len() by {
                            if e < old(self).scopes@[i].provides@.len() {
                                assert(s.provides@[e] == old(self).scopes@[i].provides@[e]);
                            } else {
                                assert(s.provides@[e] == extra[e - old(self).scopes@[i].provides@.len()]);
                            }
                        }
                    }
                } else {
                    assert(i == new_index);
                }
            }
        }
        Ok(new_index)
    }

    /// Two scopes of the same shape: equal everywhere except that the values
    /// of local bindings may differ. Change propagation rewrites binding
    /// values and nothing else.
    pub open spec fn scope_same_shape(a: Scope, b: Scope) -> bool {
        &&& b.parent == a.parent
        &&& b.provides@ == a.provides@
        &&& b.depends@ == a.depends@
        &&& b.listeners@ == a.listeners@
        &&& b.bindings@.len() == a.bindings@.len()
        &&& forall|k: int|
            0 <= k < a.bindings@.len() ==> (#[trigger] b.bindings@[k]).0 == a.bindings@[k].0
    }

    /// Two graphs of the same shape: the same scopes, edges, listeners and
    /// bound names, with only binding values possibly differing.
    pub open spec fn same_shape(a: ScopeTree, b: ScopeTree) -> bool {
        &&& b.scopes@.len() == a.scopes@.len()
        &&& b.root_index == a.root_index
        &&& b.next_listener_id == a.next_listener_id
        &&& forall|j: int|
            0 <= j < a.scopes@.len() ==> Self::scope_same_shape(
                a.scopes@[j],
                #[trigger] b.scopes@[j],
            )
    }

    /// Shape carries well-formedness: none of its clauses reads a binding's
    /// value.
    pub proof fn lemma_same_shape_wf(a: ScopeTree, b: ScopeTree)
        requires
            a.wf(),
            Self::same_shape(a, b),
        ensures
            b.wf(),
    {
        assert forall|i: int| 0 <= i < b.scopes@.len() implies b.scope_wf(i) by {
            assert(a.scope_wf(i));
            assert(Self::scope_same_shape(a.scopes@[i], b.scopes@[i]));
        }
    }

    /// Shape determines which scope defines a variable: resolution walks
    /// parents and looks only at bound names.
    pub proof fn lemma_same_shape_defining(a: ScopeTree, b: ScopeTree, i: int, v: Seq<char>)
        requires
            Self::same_shape(a, b),
        ensures
            a.defining_scope(i, v) == b.defining_scope(i, v),
        decreases i,
    {
        if 0 <= i < a.scopes@.len() {
            lemma_assoc_dom(a.scopes@[i].bindings@, v);
            lemma_assoc_dom(b.scopes@[i].bindings@, v);
            assert(Self::scope_same_shape(a.scopes@[i], b.scopes@[i]));
            assert(assoc_view(a.scopes@[i].bindings@).contains_key(v) <==> assoc_view(
                b.scopes@[i].bindings@,
            ).contains_key(v)) by {
                if exists|j: int|
                    0 <= j < a.scopes@[i].bindings@.len() && (#[trigger] a.scopes@[i].bindings@[j]).0@
                        == v {
                    let j = choose|j: int|
                        0 <= j < a.scopes@[i].bindings@.len() && (
                        #[trigger] a.scopes@[i].bindings@[j]).0@ == v;
                    assert(b.scopes@[i].bindings@[j].0@ == v);
                }
                if exists|j: int|
                    0 <= j < b.scopes@[i].bindings@.len() && (#[trigger] b.scopes@[i].bindings@[j]).0@
                        == v {
                    let j = choose|j: int|
                        0 <= j < b.scopes@[i].bindings@.len() && (
                        #[trigger] b.scopes@[i].bindings@[j]).0@ == v;
                    assert(a.scopes@[i].bindings@[j].0@ == v);
                }
            }
            match a.scopes@[i].parent {
                Some(p) => {
                    if 0 <= p < i {
                        Self::lemma_same_shape_defining(a, b, p as int, v);
                    }
                },
                None => {},
            }
        }
    }

    /// Resolution reads only bindings and parents: two graphs that agree on
    /// them agree on every defining scope.
    pub proof fn lemma_defining_same_bindings(a: ScopeTree, b: ScopeTree, i: int, v: Seq<char>)
        requires
            b.scopes@.len() == a.scopes@.len(),
            forall|j: int|
                0 <= j < a.scopes@.len() ==> (#[trigger] b.scopes@[j]).bindings@
                    == a.scopes@[j].bindings@ && b.scopes@[j].parent == a.scopes@[j].parent,
        ensures
            a.defining_scope(i, v) == b.defining_scope(i, v),
        decreases i,
    {
        if 0 <= i < a.scopes@.len() {
            match a.scopes@[i].parent {
                Some(p) => {
                    if 0 <= p < i {
                        Self::lemma_defining_same_bindings(a, b, p as int, v);
                    }
                },
                None => {},
            }
        }
    }

    /// The defining scope lies on the ancestor chain: at or below the start,
    /// it binds the variable, and it is strictly nearer the root when the
    /// start does not bind it.
    pub proof fn lemma_defining_in_range(&self, i: int, v: Seq<char>)
        requires
            self.wf(),
            0 <= i < self.scopes@.len(),
        ensures
            match self.defining_scope(i, v) {
                Some(d) => 0 <= d <= i && assoc_view(self.scopes@[d].bindings@).contains_key(v) && (
                !assoc_view(self.scopes@[i].bindings@).contains_key(v) ==> d < i),
                None => !assoc_view(self.scopes@[i].bindings@).contains_key(v),
            },
        decreases i,
    {
        if !assoc_view(self.scopes@[i].bindings@).contains_key(v) {
            match self.scopes@[i].parent {
                Some(p) => {
                    assert(self.scope_wf(i));
                    self.lemma_defining_in_range(p as int, v);
                },
                None => {},
            }
        }
    }

    /// The outgoing edges of one scope, as scope/variable pairs that
    /// propagation from that scope can enqueue.
    pub open spec fn scope_pairs(s: Scope) -> Seq<(int, Seq<char>)> {
        Seq::new(s.provides@.len(), |k: int| (s.provides@[k].target as int, s.provides@[k].attr_name@))
            + Seq::new(s.depends@.len(), |k: int| (s.depends@[k].target as int, s.depends@[k].var@))
    }

    /// The outgoing edges of the first `j` scopes, as scope/variable pairs.
    pub open spec fn tree_pairs(t: ScopeTree, j: int) -> Seq<(int, Seq<char>)>
        decreases j,
    {
        if j <= 0 {
            Seq::empty()
        } else {
            Self::tree_pairs(t, j - 1) + Self::scope_pairs(t.scopes@[j - 1])
        }
    }

    /// Every edge pair of a scope below `j` appears among the first `j`
    /// scopes' pairs.
    pub proof fn lemma_tree_pairs_contain(t: ScopeTree, j: int, s: int, p: (int, Seq<char>))
        requires
            0 <= s < j,
            Self::scope_pairs(t.scopes@[s]).contains(p),
        ensures
            Self::tree_pairs(t, j).contains(p),
        decreases j,
    {
        if s == j - 1 {
            let i = choose|i: int|
                0 <= i < Self::scope_pairs(t.scopes@[s]).len() && (#[trigger] Self::scope_pairs(
                    t.scopes@[s],
                )[i]) == p;
            assert(Self::tree_pairs(t, j)[Self::tree_pairs(t, j - 1).len() + i] == p);
        } else {
            Self::lemma_tree_pairs_contain(t, j - 1, s, p);
            let i = choose|i: int|
                0 <= i < Self::tree_pairs(t, j - 1).len() && (#[trigger] Self::tree_pairs(t, j - 1)[i])
                    == p;
            assert(Self::tree_pairs(t, j)[i] == p);
        }
    }

    /// The scope/variable pairs a list of visited pairs denotes.
    pub open spec fn vpairs(s: Seq<(usize, VarName)>) -> Seq<(int, Seq<char>)> {
        s.map_values(|p: (usize, VarName)| (p.0 as int, p.1@))
    }

    /// A duplicate-free list of pairs drawn from a universe is no longer
    /// than the universe.
    pub proof fn lemma_visited_bound(vp: Seq<(int, Seq<char>)>, univ: Seq<(int, Seq<char>)>)
        requires
            vp.no_duplicates(),
            forall|q: int| 0 <= q < vp.len() ==> univ.contains(#[trigger] vp[q]),
        ensures
            vp.len() <= univ.len(),
    {
        broadcast use vstd::seq_lib::seq_to_set_is_finite;

        vp.unique_seq_to_set();
        univ.lemma_cardinality_of_set();
        assert(vp.to_set().subset_of(univ.to_set())) by {
            assert forall|x: (int, Seq<char>)| vp.to_set().contains(x) implies univ.to_set().contains(
                x,
            ) by {
                assert(vp.contains(x));
                assert(univ.contains(x));
            }
        }
        vstd::set_lib::lemma_len_subset(vp.to_set(), univ.to_set());
    }

    /// The environment a listener is invoked with: exactly its needed
    /// variables, no others.
    pub open spec fn needed_env_ok(env: Env, needed: Seq<VarName>) -> bool {
        &&& forall|m: int| 0 <= m < needed.len() ==> env@.contains_key((#[trigger] needed[m])@)
        &&& forall|n: Seq<char>| #[trigger]
            env@.contains_key(n) ==> exists|m: int| 0 <= m < needed.len() && needed[m]@ == n
    }

    /// The invocation belongs to a listener registered somewhere in the
    /// graph, and its environment holds exactly that listener's needed
    /// variables.
    pub open spec fn invocation_registered(t: ScopeTree, inv: Invocation) -> bool {
        exists|s: int, k: int|
            0 <= s < t.scopes@.len() && 0 <= k < t.scopes@[s].listeners@.len() && (
            #[trigger] t.scopes@[s].listeners@[k]).id == inv.listener && Self::needed_env_ok(
                inv.env,
                t.scopes@[s].listeners@[k].needed@,
            )
    }

    /// No other `ProvidesAttribute` edge in the graph shares this edge's
    /// target and attribute name. Graphs built through `register_new_scope`
    /// always satisfy this: all edges into a scope are created with it, from
    /// one calling scope, under distinct attribute names.
    pub open spec fn sole_edge_for(t: ScopeTree, src: int, pi: int) -> bool {
        forall|s2: int, k2: int|
            0 <= s2 < t.scopes@.len() && 0 <= k2 < t.scopes@[s2].provides@.len() && !(s2 == src
                && k2 == pi) ==> !((#[trigger] t.scopes@[s2].provides@[k2]).target
                == t.scopes@[src].provides@[pi].target && t.scopes@[s2].provides@[k2].attr_name@
                == t.scopes@[src].provides@[pi].attr_name@)
    }

    /// A listener keyed on the changed variable is served: if its needed
    /// list holds the variable and every needed variable resolves from its
    /// scope, its handle appears among the invocations.
    pub open spec fn listener_served(
        t: ScopeTree,
        scope: int,
        entry: ListenerEntry,
        v: Seq<char>,
        invs: Seq<Invocation>,
    ) -> bool {
        ((exists|m: int| 0 <= m < entry.needed@.len() && (#[trigger] entry.needed@[m])@ == v) && (
        forall|q: int|
            0 <= q < entry.needed@.len() ==> t.resolved(scope, (#[trigger] entry.needed@[q])@)
                is Some)) ==> exists|x: int|
            0 <= x < invs.len() && (#[trigger] invs[x]).listener == entry.id
    }

    /// One step of re-derivation: if the edge's expression references the
    /// changed variable, no other edge shares its target and attribute, the
    /// target binds the attribute, and the expression evaluates to a value
    /// against the given environment, then in `t2` the target's binding of
    /// the attribute holds exactly that value.
    pub open spec fn edge_rederived_env(
        t: ScopeTree,
        src: int,
        pi: int,
        v: Seq<char>,
        env: Map<Seq<char>, Seq<char>>,
        t2: ScopeTree,
    ) -> bool {
        let e = t.scopes@[src].provides@[pi];
        (expr_refs(e.expression).contains(v) && Self::sole_edge_for(t, src, pi) && assoc_view(
            t.scopes@[e.target as int].bindings@,
        ).contains_key(e.attr_name@)) ==> match eval_outcome(e.expression, env) {
            Outcome::Val(val) => assoc_view(t2.scopes@[e.target as int].bindings@)[e.attr_name@]
                == val,
            _ => true,
        }
    }

    /// Resolution reads only the scopes at or below the starting index, so
    /// two graphs equal up to there resolve alike from it.
    pub proof fn lemma_resolution_prefix(a: ScopeTree, b: ScopeTree, i: int, v: Seq<char>)
        requires
            b.scopes@.len() == a.scopes@.len(),
            i < a.scopes@.len(),
            forall|j: int| 0 <= j <= i ==> (#[trigger] b.scopes@[j]) == a.scopes@[j],
        ensures
            a.defining_scope(i, v) == b.defining_scope(i, v),
            a.resolved(i, v) == b.resolved(i, v),
        decreases i,
    {
        if 0 <= i {
            assert(b.scopes@[i] == a.scopes@[i]);
            if !assoc_view(a.scopes@[i].bindings@).contains_key(v) {
                match a.scopes@[i].parent {
                    Some(p) => {
                        if 0 <= p < i {
                            Self::lemma_resolution_prefix(a, b, p as int, v);
                        }
                    },
                    None => {},
                }
            }
        }
    }

    /// Two binding lists with the same names bind the same name set.
    pub proof fn lemma_same_names_contains(
        a: Seq<(VarName, Value)>,
        b: Seq<(VarName, Value)>,
        v: Seq<char>,
    )
        requires
            a.len() == b.len(),
            forall|k: int| 0 <= k < a.len() ==> (#[trigger] b[k]).0 == a[k].0,
        ensures
            assoc_view(a).contains_key(v) <==> assoc_view(b).contains_key(v),
    {
        lemma_assoc_dom(a, v);
        lemma_assoc_dom(b, v);
        if exists|j: int| 0 <= j < a.len() && (#[trigger] a[j]).0@ == v {
            let j = choose|j: int| 0 <= j < a.len() && (#[trigger] a[j]).0@ == v;
            assert(b[j].0@ == v);
        }
        if exists|j: int| 0 <= j < b.len() && (#[trigger] b[j]).0@ == v {
            let j = choose|j: int| 0 <= j < b.len() && (#[trigger] b[j]).0@ == v;
            assert(a[j].0@ == v);
        }
    }

    /// A sequence is a prefix of itself extended by one element.
    pub proof fn lemma_push_prefix<T>(a: Seq<T>, x: T)
        ensures
            a.is_prefix_of(a.push(x)),
    {
        assert(a =~= a.push(x).subrange(0, a.len() as int));
    }

    /// Being a prefix is transitive.
    pub proof fn lemma_prefix_trans<T>(a: Seq<T>, b: Seq<T>, c: Seq<T>)
        requires
            a.is_prefix_of(b),
            b.is_prefix_of(c),
        ensures
            a.is_prefix_of(c),
    {
        assert(a =~= c.subrange(0, a.len() as int)) by {
            assert forall|i: int| 0 <= i < a.len() implies a[i] == c.subrange(
                0,
                a.len() as int,
            )[i] by {
                assert(a[i] == b.subrange(0, a.len() as int)[i]);
                assert(b[i] == c.subrange(0, b.len() as int)[i]);
            }
        }
    }

    /// Resolution as it stands once `val` has been written for `wv` in its
    /// defining scope `d`: the write is visible wherever resolution reaches
    /// `d`, and nothing else changes.
    pub open spec fn resolved_after(
        t: ScopeTree,
        d: int,
        wv: Seq<char>,
        val: Seq<char>,
        i: int,
        n: Seq<char>,
    ) -> Option<Seq<char>> {
        if n == wv && t.defining_scope(i, n) == Some(d) {
            Some(val)
        } else {
            t.resolved(i, n)
        }
    }

    /// The variables visible from scope `i` once `val` has been written for
    /// `wv` in its defining scope `d`.
    pub open spec fn visible_env_after(
        t: ScopeTree,
        d: int,
        wv: Seq<char>,
        val: Seq<char>,
        i: int,
    ) -> Map<Seq<char>, Seq<char>> {
        Map::new(
            |n: Seq<char>| Self::resolved_after(t, d, wv, val, i, n) is Some,
            |n: Seq<char>| Self::resolved_after(t, d, wv, val, i, n)->0,
        )
    }

    /// A listener keyed on the changed variable is served, its needed
    /// variables resolved as they stand after the write.
    pub open spec fn listener_served_after(
        t: ScopeTree,
        d: int,
        wv: Seq<char>,
        val: Seq<char>,
        scope: int,
        entry: ListenerEntry,
        v: Seq<char>,
        invs: Seq<Invocation>,
    ) -> bool {
        ((exists|m: int| 0 <= m < entry.needed@.len() && (#[trigger] entry.needed@[m])@ == v) && (
        forall|q: int|
            0 <= q < entry.needed@.len() ==> Self::resolved_after(
                t,
                d,
                wv,
                val,
                scope,
                (#[trigger] entry.needed@[q])@,
            ) is Some)) ==> exists|x: int|
            0 <= x < invs.len() && (#[trigger] invs[x]).listener == entry.id
    }

    /// Overwriting one binding's value moves resolution from the old graph
    /// to `resolved_after` of it, everywhere.
    pub proof fn lemma_resolved_after_write(
        t0: ScopeTree,
        t1: ScopeTree,
        d: int,
        wv: Seq<char>,
        val: Seq<char>,
        i: int,
        n: Seq<char>,
    )
        requires
            t1.scopes@.len() == t0.scopes@.len(),
            0 <= d < t0.scopes@.len(),
            i < t0.scopes@.len(),
            forall|j: int|
                0 <= j < t0.scopes@.len() && j != d ==> (#[trigger] t1.scopes@[j])
                    == t0.scopes@[j],
            t1.scopes@[d].parent == t0.scopes@[d].parent,
            t1.scopes@[d].bindings@.len() == t0.scopes@[d].bindings@.len(),
            forall|k: int|
                0 <= k < t0.scopes@[d].bindings@.len() ==> (
                #[trigger] t1.scopes@[d].bindings@[k]).0 == t0.scopes@[d].bindings@[k].0,
            assoc_view(t1.scopes@[d].bindings@) == assoc_view(t0.scopes@[d].bindings@).insert(
                wv,
                val,
            ),
        ensures
            t1.defining_scope(i, n) == t0.defining_scope(i, n),
            t1.resolved(i, n) == Self::resolved_after(t0, d, wv, val, i, n),
        decreases i,
    {
        if 0 <= i {
            if i != d {
                assert(t1.scopes@[i] == t0.scopes@[i]);
            }
            Self::lemma_same_names_contains(t0.scopes@[i].bindings@, t1.scopes@[i].bindings@, n);
            if !assoc_view(t0.scopes@[i].bindings@).contains_key(n) {
                match t0.scopes@[i].parent {
                    Some(p) => {
                        if 0 <= p < i {
                            Self::lemma_resolved_after_write(t0, t1, d, wv, val, p as int, n);
                        }
                    },
                    None => {},
                }
            }
        }
    }

    /// No listener handle appears twice: each listener fires at most once
    /// per propagation pass.
    pub open spec fn distinct_listener_ids(invs: Seq<Invocation>) -> bool {
        forall|a: int, b: int|
            0 <= a < b < invs.len() ==> (#[trigger] invs[a]).listener != (#[trigger] invs[b]).listener
    }

    /// The scope stored at an index, while the index is in the arena.
    pub fn value_at(&self, index: usize) -> (r: Option<&Scope>)
        ensures
            match r {
                Some(s) => index < self.scopes@.len() && *s == self.scopes@[index as int],
                None => index >= self.scopes@.len(),
            },
    {
        if index < self.scopes.len() {
            Some(&self.scopes[index])
        } else {
            None
        }
    }

    /// The scope a scope directly inherits from, if it has a parent.
    pub fn parent_scope_of(&self, index: usize) -> (r: Option<usize>)
        requires
            index < self.scopes@.len(),
        ensures
            r == self.scopes@[index as int].parent,
    {
        self.scopes[index].parent
    }

    /// The nearest available scope (this one or an ancestor) that binds the
    /// variable locally.
    pub fn find_scope_with_variable(&self, index: usize, var_name: &VarName) -> (r: Option<usize>)
        requires
            self.wf(),
            index < self.scopes@.len(),
        ensures
            match r {
                Some(j) => j < self.scopes@.len() && self.defining_scope(index as int, var_name@)
                    == Some(j as int) && assoc_view(self.scopes@[j as int].bindings@).contains_key(
                    var_name@,
                ),
                None => self.defining_scope(index as int, var_name@) is None,
            },
    {
        let mut cur = index;
        loop
            invariant
                self.wf(),
                cur < self.scopes@.len(),
                self.defining_scope(index as int, var_name@) == self.defining_scope(
                    cur as int,
                    var_name@,
                ),
            decreases cur,
        {
            if self.scopes[cur].has_binding(var_name) {
                return Some(cur);
            }
            proof {
                assert(self.scope_wf(cur as int));
            }
            match self.scopes[cur].parent {
                Some(p) => {
                    cur = p;
                },
                None => {
                    return None;
                },
            }
        }
    }

    /// Scope `j` lies on the `Inherits` chain that starts at scope `i`.
    pub open spec fn upward_reach(&self, i: int, j: int) -> bool
        decreases i,
    {
        if 0 <= i < self.scopes@.len() {
            i == j || (match self.scopes@[i].parent {
                Some(p) => if 0 <= p < i {
                    self.upward_reach(p as int, j)
                } else {
                    false
                },
                None => false,
            })
        } else {
            false
        }
    }

    /// Following one `Inherits` edge stays on the chain.
    pub proof fn lemma_upward_reach_step(&self, i: int, j: int, p: usize)
        requires
            self.upward_reach(i, j),
            0 <= j < self.scopes@.len(),
            self.scopes@[j].parent == Some(p),
            p < j,
        ensures
            self.upward_reach(i, p as int),
        decreases i,
    {
        if i == j {
            assert(self.upward_reach(p as int, p as int));
        } else {
            match self.scopes@[i].parent {
                Some(q) => {
                    self.lemma_upward_reach_step(q as int, j, p);
                },
                None => {},
            }
        }
    }

    /// Searches upward from a scope for the nearest available scope — the
    /// scope itself or an ancestor — that the predicate accepts. When one is
    /// found the predicate accepted it and had refused every nearer scope on
    /// the chain; when none is, it refused the whole chain.
    #[verifier::loop_isolation(false)]
    pub fn find_available_scope_where<F: Fn(&Scope) -> bool>(
        &self,
        scope_index: usize,
        f: F,
    ) -> (r: Option<usize>)
        requires
            self.wf(),
            scope_index < self.scopes@.len(),
            forall|s: &Scope| #[trigger] call_requires(f, (s,)),
        ensures
            match r {
                Some(j) => {
                    &&& j < self.scopes@.len()
                    &&& self.upward_reach(scope_index as int, j as int)
                    &&& call_ensures(f, (&self.scopes@[j as int],), true)
                    &&& forall|m: int|
                        self.upward_reach(scope_index as int, m) && !self.upward_reach(
                            j as int,
                            m,
                        ) ==> call_ensures(f, (&self.scopes@[m],), false)
                },
                None => forall|m: int|
                    self.upward_reach(scope_index as int, m) ==> call_ensures(
                        f,
                        (&self.scopes@[m],),
                        false,
                    ),
            },
    {
        let mut cur = scope_index;
        loop
            invariant
                cur < self.scopes@.len(),
                self.upward_reach(scope_index as int, cur as int),
                forall|m: int|
                    self.upward_reach(scope_index as int, m) && !self.upward_reach(cur as int, m)
                        ==> call_ensures(f, (&self.scopes@[m],), false),
            decreases cur,
        {
            if f(&self.scopes[cur]) {
                return Some(cur);
            }
            proof {
                assert(self.scope_wf(cur as int));
            }
            match self.scopes[cur].parent {
                Some(p) => {
                    proof {
                        self.lemma_upward_reach_step(scope_index as int, cur as int, p);
                        assert forall|m: int|
                            self.upward_reach(scope_index as int, m) && !self.upward_reach(
                                p as int,
                                m,
                            ) implies call_ensures(f, (&self.scopes@[m],), false) by {
                            if self.upward_reach(cur as int, m) {
                                assert(m == cur as int);
                            }
                        }
                    }
                    cur = p;
                },
                None => {
                    proof {
                        assert forall|m: int|
                            self.upward_reach(scope_index as int, m) implies call_ensures(
                            f,
                            (&self.scopes@[m],),
                            false,
                        ) by {
                            if self.upward_reach(cur as int, m) {
                                assert(m == cur as int);
                            }
                        }
                    }
                    return None;
                },
            }
        }
    }

    /// True exactly when the list holds the scope/variable pair.
    fn pair_in(list: &Vec<(usize, VarName)>, s: usize, name: &VarName) -> (r: bool)
        ensures
            r == exists|q: int|
                0 <= q < list@.len() && (#[trigger] list@[q]).0 == s && list@[q].1@ == name@,
    {
        let n = list.len();
        let mut i: usize = 0;
        while i < n
            invariant
                n == list@.len(),
                i <= n,
                forall|q: int|
                    0 <= q < i ==> !((#[trigger] list@[q]).0 == s && list@[q].1@ == name@),
            decreases n - i,
        {
            if list[i].0 == s && list[i].1.same_name(name) {
                return true;
            }
            i += 1;
        }
        false
    }

    /// True exactly when the list holds the handle.
    fn id_in(list: &Vec<ListenerId>, id: ListenerId) -> (r: bool)
        ensures
            r == list@.contains(id),
    {
        let n = list.len();
        let mut i: usize = 0;
        while i < n
            invariant
                n == list@.len(),
                i <= n,
                forall|q: int| 0 <= q < i ==> (#[trigger] list@[q]) != id,
            decreases n - i,
        {
            if list[i] == id {
                proof {
                    assert(list@[i as int] == id);
                }
                return true;
            }
            i += 1;
        }
        false
    }

    /// True exactly when the list holds the name.
    fn name_in(list: &Vec<VarName>, name: &VarName) -> (r: bool)
        ensures
            r == exists|m: int| 0 <= m < list@.len() && (#[trigger] list@[m])@ == name@,
    {
        let n = list.len();
        let mut i: usize = 0;
        while i < n
            invariant
                n == list@.len(),
                i <= n,
                forall|m: int| 0 <= m < i ==> (#[trigger] list@[m])@ != name@,
            decreases n - i,
        {
            if list[i].same_name(name) {
                return true;
            }
            i += 1;
        }
        false
    }

    /// Scope `a` carries a dependency edge to `target` for the variable.
    pub open spec fn dependency_link_exists(&self, a: int, target: usize, v: Seq<char>) -> bool {
        exists|k: int|
            0 <= k < self.scopes@[a].depends@.len() && (#[trigger] self.scopes@[a].depends@[k]).target
                == target && self.scopes@[a].depends@[k].var@ == v
    }

    /// A listener's needed variable is linked: either the listening scope
    /// binds it itself, or the graph carries a dependency edge from its
    /// defining ancestor (as resolution ran in `t0`) back to the listening
    /// scope, or no ancestor defines it at all.
    pub open spec fn listener_linked(&self, t0: ScopeTree, index: usize, v: Seq<char>) -> bool {
        match t0.defining_scope(index as int, v) {
            Some(a) => a == index || self.dependency_link_exists(a, index, v),
            None => true,
        }
    }

    /// Dependency links survive any step that only appends dependency
    /// edges.
    pub proof fn lemma_link_preserved(a: ScopeTree, b: ScopeTree, t0: ScopeTree, index: usize, v: Seq<char>)
        requires
            a.listener_linked(t0, index, v),
            t0.wf(),
            index < t0.scopes@.len(),
            t0.scopes@.len() == a.scopes@.len(),
            b.scopes@.len() == a.scopes@.len(),
            forall|j: int|
                0 <= j < a.scopes@.len() ==> a.scopes@[j].depends@.is_prefix_of(
                    (#[trigger] b.scopes@[j]).depends@,
                ),
        ensures
            b.listener_linked(t0, index, v),
    {
        match t0.defining_scope(index as int, v) {
            Some(d) => {
                t0.lemma_defining_in_range(index as int, v);
                if d != index {
                    let k = choose|k: int|
                        0 <= k < a.scopes@[d].depends@.len() && (
                        #[trigger] a.scopes@[d].depends@[k]).target == index
                            && a.scopes@[d].depends@[k].var@ == v;
                    assert(a.scopes@[d].depends@ =~= b.scopes@[d].depends@.subrange(
                        0,
                        a.scopes@[d].depends@.len() as int,
                    ));
                    assert(b.scopes@[d].depends@[k].target == index && b.scopes@[d].depends@[k].var@
                        == v);
                }
            },
            None => {},
        }
    }

    /// True when the scope already carries a dependency edge to the target
    /// for the variable.
    fn has_dependency_edge(&self, source: usize, target: usize, var: &VarName) -> (r: bool)
        requires
            source < self.scopes@.len(),
        ensures
            r == self.dependency_link_exists(source as int, target, var@),
    {
        let n = self.scopes[source].depends.len();
        let mut i: usize = 0;
        while i < n
            invariant
                source < self.scopes@.len(),
                n == self.scopes@[source as int].depends@.len(),
                i <= n,
                forall|k: int|
                    0 <= k < i ==> !((#[trigger] self.scopes@[source as int].depends@[k]).target
                        == target && self.scopes@[source as int].depends@[k].var@ == var@),
            decreases n - i,
        {
            if self.scopes[source].depends[i].target == target && self.scopes[source].depends[i].var.same_name(var) {
                return true;
            }
            i += 1;
        }
        false
    }

    /// Registers a listener on a scope: for each needed variable the scope
    /// does not bind locally, a dependency link is ensured from the defining
    /// ancestor (when one exists) back to this scope, and the listener is
    /// stored under a fresh handle. Every added dependency edge targets this
    /// scope and carries one of the listener's needed variables.
    #[verifier::loop_isolation(false)]
    pub fn register_listener(&mut self, index: usize, listener: Listener) -> (r: ListenerId)
        requires
            old(self).wf(),
            index < old(self).scopes@.len(),
            old(self).next_listener_id < usize::MAX,
        ensures
            final(self).wf(),
            r == (ListenerId(old(self).next_listener_id)),
            final(self).next_listener_id == old(self).next_listener_id + 1,
            final(self).scopes@.len() == old(self).scopes@.len(),
            final(self).root_index == old(self).root_index,
            forall|j: int|
                0 <= j < old(self).scopes@.len() ==> (#[trigger] final(self).scopes@[j]).bindings@
                    == old(self).scopes@[j].bindings@ && final(self).scopes@[j].provides@ == old(
                    self,
                ).scopes@[j].provides@ && final(self).scopes@[j].parent == old(
                    self,
                ).scopes@[j].parent,
            forall|j: int|
                0 <= j < old(self).scopes@.len() && j != index ==> (
                #[trigger] final(self).scopes@[j]).listeners@ == old(self).scopes@[j].listeners@,
            final(self).scopes@[index as int].listeners@.len() == old(
                self,
            ).scopes@[index as int].listeners@.len() + 1,
            old(self).scopes@[index as int].listeners@.is_prefix_of(
                final(self).scopes@[index as int].listeners@,
            ),
            final(self).scopes@[index as int].listeners@.last().id == r,
            final(self).scopes@[index as int].listeners@.last().needed@
                == listener.needed_variables@,
            forall|j: int|
                0 <= j < old(self).scopes@.len() ==> old(self).scopes@[j].depends@.is_prefix_of(
                    (#[trigger] final(self).scopes@[j]).depends@,
                ),
            forall|j: int, k: int|
                0 <= j < old(self).scopes@.len() && old(self).scopes@[j].depends@.len() <= k
                    < final(self).scopes@[j].depends@.len() ==> (
                #[trigger] final(self).scopes@[j].depends@[k]).target == index && old(
                    self,
                ).defining_scope(index as int, final(self).scopes@[j].depends@[k].var@) == Some(j)
                    && (exists|m: int|
                    0 <= m < listener.needed_variables@.len()
                        && final(self).scopes@[j].depends@[k].var@
                        == (#[trigger] listener.needed_variables@[m])@),
            forall|m: int|
                0 <= m < listener.needed_variables@.len() ==> final(self).listener_linked(
                    *old(self),
                    index,
                    (#[trigger] listener.needed_variables@[m])@,
                ),
    {
        let id = ListenerId(self.next_listener_id);
        self.next_listener_id = self.next_listener_id + 1;
        proof {
            assert forall|i: int| 0 <= i < self.scopes@.len() implies self.scope_wf(i) by {
                assert(old(self).scope_wf(i));
            }
        }
        let n = listener.needed_variables.len();
        let mut w: usize = 0;
        while w < n
            invariant
                self.wf(),
                w <= n,
                n == listener.needed_variables@.len(),
                self.scopes@.len() == old(self).scopes@.len(),
                self.root_index == old(self).root_index,
                self.next_listener_id == old(self).next_listener_id + 1,
                index < self.scopes@.len(),
                forall|j: int|
                    0 <= j < old(self).scopes@.len() ==> (#[trigger] self.scopes@[j]).bindings@
                        == old(self).scopes@[j].bindings@ && self.scopes@[j].provides@ == old(
                        self,
                    ).scopes@[j].provides@ && self.scopes@[j].parent == old(
                        self,
                    ).scopes@[j].parent && self.scopes@[j].listeners@ == old(
                        self,
                    ).scopes@[j].listeners@,
                forall|j: int|
                    0 <= j < old(self).scopes@.len() ==> old(self).scopes@[j].depends@.is_prefix_of(
                        (#[trigger] self.scopes@[j]).depends@,
                    ),
                forall|j: int, k: int|
                    0 <= j < old(self).scopes@.len() && old(self).scopes@[j].depends@.len() <= k
                        < self.scopes@[j].depends@.len() ==> (
                    #[trigger] self.scopes@[j].depends@[k]).target == index && old(
                        self,
                    ).defining_scope(index as int, self.scopes@[j].depends@[k].var@) == Some(j) && (
                    exists|m: int|
                        0 <= m < listener.needed_variables@.len()
                            && self.scopes@[j].depends@[k].var@
                            == (#[trigger] listener.needed_variables@[m])@),
                forall|m: int|
                    0 <= m < w ==> self.listener_linked(
                        *old(self),
                        index,
                        (#[trigger] listener.needed_variables@[m])@,
                    ),
            decreases n - w,
        {
            let ghost vw = listener.needed_variables@[w as int]@;
            proof {
                Self::lemma_defining_same_bindings(*old(self), *self, index as int, vw);
            }
            let locally = self.scopes[index].has_binding(&listener.needed_variables[w]);
            if locally {
                proof {
                    assert(self.defining_scope(index as int, vw) == Some(index as int));
                }
            } else {
                match self.find_scope_with_variable(index, &listener.needed_variables[w]) {
                    Some(anc) => {
                        proof {
                            self.lemma_defining_in_range(index as int, vw);
                        }
                        let present = self.has_dependency_edge(anc, index, &listener.needed_variables[w]);
                        if !present {
                            let ghost before = *self;
                            self.scopes[anc].depends.push(
                                DependencyEdge {
                                    target: index,
                                    var: listener.needed_variables[w].clone(),
                                },
                            );
                            proof {
                                assert forall|j: int|
                                    0 <= j < self.scopes@.len() implies self.scope_wf(j) by {
                                    assert(before.scope_wf(j));
                                    if j != anc {
                                        assert(self.scopes@[j] == before.scopes@[j]);
                                    }
                                }
                                let last = self.scopes@[anc as int].depends@.len() - 1;
                                assert(self.scopes@[anc as int].depends@[last].target == index
                                    && self.scopes@[anc as int].depends@[last].var@ == vw);
                                assert(self.dependency_link_exists(anc as int, index, vw));
                                assert forall|j: int|
                                    0 <= j < before.scopes@.len() implies (
                                #[trigger] before.scopes@[j]).depends@.is_prefix_of(
                                    self.scopes@[j].depends@,
                                ) by {
                                    if j == anc {
                                        assert(before.scopes@[j].depends@ =~= self.scopes@[j].depends@.subrange(
                                            0,
                                            before.scopes@[j].depends@.len() as int,
                                        ));
                                    } else {
                                        assert(before.scopes@[j].depends@ =~= self.scopes@[j].depends@.subrange(
                                            0,
                                            before.scopes@[j].depends@.len() as int,
                                        ));
                                    }
                                }
                                assert forall|m: int|
                                    0 <= m < w implies self.listener_linked(
                                    *old(self),
                                    index,
                                    (#[trigger] listener.needed_variables@[m])@,
                                ) by {
                                    Self::lemma_link_preserved(
                                        before,
                                        *self,
                                        *old(self),
                                        index,
                                        listener.needed_variables@[m]@,
                                    );
                                }
                            }
                        }
                    },
                    None => {},
                }
            }
            w += 1;
        }
        let ghost before_entry = *self;
        self.scopes[index].listeners.push(ListenerEntry { id, needed: listener.needed_variables });
        proof {
            assert forall|j: int| 0 <= j < self.scopes@.len() implies self.scope_wf(j) by {
                assert(before_entry.scope_wf(j));
                if j != index {
                    assert(self.scopes@[j] == before_entry.scopes@[j]);
                }
            }
            assert forall|j: int|
                0 <= j < before_entry.scopes@.len() implies (
            #[trigger] before_entry.scopes@[j]).depends@.is_prefix_of(
                self.scopes@[j].depends@,
            ) by {
                assert(before_entry.scopes@[j].depends@ =~= self.scopes@[j].depends@.subrange(
                    0,
                    before_entry.scopes@[j].depends@.len() as int,
                ));
            }
            assert forall|m: int|
                0 <= m < listener.needed_variables@.len() implies self.listener_linked(
                *old(self),
                index,
                (#[trigger] listener.needed_variables@[m])@,
            ) by {
                Self::lemma_link_preserved(
                    before_entry,
                    *self,
                    *old(self),
                    index,
                    listener.needed_variables@[m]@,
                );
            }
        }
        id
    }

    /// The snapshot a listener is invoked with: each of its needed
    /// variables, resolved from its scope by the ordinary upward rule. None
    /// when a needed variable is not visible there.
    fn assemble_env(&self, index: usize, li: usize) -> (r: Option<Env>)
        requires
            self.wf(),
            index < self.scopes@.len(),
            li < self.scopes@[index as int].listeners@.len(),
        ensures
            r matches Some(env) ==> Self::needed_env_ok(
                env,
                self.scopes@[index as int].listeners@[li as int].needed@,
            ) && (forall|nm: Seq<char>| #[trigger]
                env@.contains_key(nm) ==> self.resolved(index as int, nm) == Some(env@[nm])),
            r is None ==> exists|q: int|
                0 <= q < self.scopes@[index as int].listeners@[li as int].needed@.len()
                    && self.resolved(
                    index as int,
                    (#[trigger] self.scopes@[index as int].listeners@[li as int].needed@[q])@,
                ) is None,
    {
        let mut env = Env::empty();
        let n = self.scopes[index].listeners[li].needed.len();
        let mut m: usize = 0;
        while m < n
            invariant
                self.wf(),
                index < self.scopes@.len(),
                li < self.scopes@[index as int].listeners@.len(),
                m <= n,
                n == self.scopes@[index as int].listeners@[li as int].needed@.len(),
                forall|q: int|
                    0 <= q < m ==> env@.contains_key(
                        (#[trigger] self.scopes@[index as int].listeners@[li as int].needed@[q])@,
                    ),
                forall|nm: Seq<char>| #[trigger]
                    env@.contains_key(nm) ==> exists|q: int|
                        0 <= q < m && self.scopes@[index as int].listeners@[li as int].needed@[q]@
                            == nm,
                forall|nm: Seq<char>| #[trigger]
                    env@.contains_key(nm) ==> self.resolved(index as int, nm) == Some(env@[nm]),
            decreases n - m,
        {
            match self.lookup_variable_in_scope(index, &self.scopes[index].listeners[li].needed[m]) {
                Some(val) => {
                    let vv = val.clone();
                    let nm = self.scopes[index].listeners[li].needed[m].clone();
                    env.bind(nm, vv);
                },
                None => {
                    return None;
                },
            }
            m += 1;
        }
        Some(env)
    }

    /// A graph equals another at one scope changed with its shape kept, so
    /// the two graphs share their shape.
    pub proof fn lemma_shape_update_one(a: ScopeTree, b: ScopeTree, t: int)
        requires
            b.scopes@.len() == a.scopes@.len(),
            b.root_index == a.root_index,
            b.next_listener_id == a.next_listener_id,
            0 <= t < a.scopes@.len(),
            forall|j: int|
                0 <= j < a.scopes@.len() && j != t ==> (#[trigger] b.scopes@[j]) == a.scopes@[j],
            Self::scope_same_shape(a.scopes@[t], b.scopes@[t]),
        ensures
            Self::same_shape(a, b),
    {
        assert forall|j: int|
            0 <= j < a.scopes@.len() implies Self::scope_same_shape(
            a.scopes@[j],
            #[trigger] b.scopes@[j],
        ) by {
            if j != t {
                assert(b.scopes@[j] == a.scopes@[j]);
            }
        }
    }

    /// Sharing a shape is transitive.
    pub proof fn lemma_same_shape_trans(a: ScopeTree, b: ScopeTree, c: ScopeTree)
        requires
            Self::same_shape(a, b),
            Self::same_shape(b, c),
        ensures
            Self::same_shape(a, c),
    {
        assert forall|j: int|
            0 <= j < a.scopes@.len() implies Self::scope_same_shape(
            a.scopes@[j],
            #[trigger] c.scopes@[j],
        ) by {
            assert(Self::scope_same_shape(a.scopes@[j], b.scopes@[j]));
            assert(Self::scope_same_shape(b.scopes@[j], c.scopes@[j]));
        }
    }

    /// Fans one variable change out from a scope: invokes the listeners
    /// registered there for that variable, re-derives every
    /// `ProvidesAttribute` edge whose expression references it, follows
    /// dependency edges, and repeats on the affected scopes, breadth first
    /// over an explicit work queue. Each scope/variable pair is handled
    /// once, and each listener fires at most once per pass. The pass only
    /// rewrites binding values of scopes farther from the root than the
    /// starting scope; everything else — and every scope up to and
    /// including the starting one — is untouched. Every listener on the
    /// starting scope that needs the variable and whose needed variables all
    /// resolve is among the invocations, and every edge leaving the starting
    /// scope whose expression references the variable and evaluates there
    /// has its target's attribute binding rewritten to the new value (stated
    /// for edges that alone feed their target attribute, which registration
    /// guarantees).
    #[verifier::loop_isolation(false)]
    #[verifier::rlimit(100)]
    pub fn notify_changed(&mut self, index: usize, var_name: &VarName) -> (invs: Vec<Invocation>)
        requires
            old(self).wf(),
            index < old(self).scopes@.len(),
        ensures
            final(self).wf(),
            Self::same_shape(*old(self), *final(self)),
            forall|j: int| 0 <= j <= index ==> final(self).scopes@[j] == old(self).scopes@[j],
            Self::distinct_listener_ids(invs@),
            forall|k: int|
                0 <= k < invs@.len() ==> Self::invocation_registered(
                    *old(self),
                    #[trigger] invs@[k],
                ),
            forall|li: int|
                0 <= li < old(self).scopes@[index as int].listeners@.len()
                    ==> Self::listener_served(
                    *old(self),
                    index as int,
                    #[trigger] old(self).scopes@[index as int].listeners@[li],
                    var_name@,
                    invs@,
                ),
            forall|pi: int|
                0 <= pi < old(self).scopes@[index as int].provides@.len() ==> #[trigger]
                Self::edge_rederived_env(
                    *old(self),
                    index as int,
                    pi,
                    var_name@,
                    old(self).visible_env(index as int),
                    *final(self),
                ),
    {
        let mut invs: Vec<Invocation> = Vec::new();
        let mut fired: Vec<ListenerId> = Vec::new();
        let mut visited: Vec<(usize, VarName)> = Vec::new();
        let mut queue: Vec<(usize, VarName)> = Vec::new();
        queue.push((index, var_name.clone()));
        let ghost univ = Self::tree_pairs(*old(self), old(self).scopes@.len() as int).push(
            (index as int, var_name@),
        );
        proof {
            assert(univ.contains((index as int, var_name@))) by {
                assert(univ[univ.len() - 1] == (index as int, var_name@));
            }
        }
        let ghost mut start_done: bool = false;
        let ghost mut invs_first: Seq<Invocation> = Seq::empty();
        let ghost dn = old(self).scopes@[index as int].provides@.len();
        while queue.len() > 0
            invariant
                self.wf(),
                Self::same_shape(*old(self), *self),
                forall|j: int| 0 <= j <= index ==> self.scopes@[j] == old(self).scopes@[j],
                index < self.scopes@.len(),
                forall|q: int|
                    0 <= q < queue@.len() ==> univ.contains(
                        (((#[trigger] queue@[q]).0) as int, queue@[q].1@),
                    ),
                forall|q: int|
                    0 <= q < queue@.len() ==> index <= (#[trigger] queue@[q]).0
                        < self.scopes@.len(),
                Self::vpairs(visited@).no_duplicates(),
                forall|q: int|
                    0 <= q < visited@.len() ==> univ.contains(
                        (((#[trigger] visited@[q]).0) as int, visited@[q].1@),
                    ),
                visited@.len() <= univ.len(),
                fired@.len() == invs@.len(),
                forall|k: int| 0 <= k < invs@.len() ==> (#[trigger] invs@[k]).listener == fired@[k],
                forall|a: int, b: int|
                    0 <= a < b < fired@.len() ==> (#[trigger] fired@[a]) != (#[trigger] fired@[b]),
                forall|k: int|
                    0 <= k < invs@.len() ==> Self::invocation_registered(
                        *old(self),
                        #[trigger] invs@[k],
                    ),
                !start_done ==> *self == *old(self) && visited@.len() == 0 && invs@.len() == 0
                    && fired@.len() == 0 && queue@.len() == 1 && queue@[0].0 == index
                    && queue@[0].1@ == var_name@,
                start_done ==> forall|q: int|
                    0 <= q < queue@.len() ==> index < (#[trigger] queue@[q]).0,
                start_done ==> invs_first.is_prefix_of(invs@),
                start_done ==> forall|li: int|
                    0 <= li < old(self).scopes@[index as int].listeners@.len()
                        ==> Self::listener_served(
                        *old(self),
                        index as int,
                        #[trigger] old(self).scopes@[index as int].listeners@[li],
                        var_name@,
                        invs_first,
                    ),
                start_done ==> forall|pi: int|
                    0 <= pi < dn ==> #[trigger] Self::edge_rederived_env(
                        *old(self),
                        index as int,
                        pi,
                        var_name@,
                        old(self).visible_env(index as int),
                        *self,
                    ),
            decreases univ.len() - visited@.len(), queue@.len(),
        {
            let ghost first_pair = !start_done;
            let ghost queue_before = queue@;
            let (s, v) = queue.remove(0);
            proof {
                assert(forall|q: int| 0 <= q < queue@.len() ==> #[trigger] queue@[q] == queue_before[q + 1]);
                if first_pair {
                    assert(s == index && v@ == var_name@);
                } else {
                    assert(index < s);
                    assert forall|q: int| 0 <= q < queue@.len() implies index < (#[trigger] queue@[q]).0 by {
                        assert(queue@[q] == queue_before[q + 1]);
                    }
                }
            }
            if Self::pair_in(&visited, s, &v) {
                continue ;
            }
            let ghost visited_before = visited@;
            visited.push((s, v.clone()));
            proof {
                assert(Self::vpairs(visited@) =~= Self::vpairs(visited_before).push(
                    (s as int, v@),
                ));
                assert forall|q: int|
                    0 <= q < visited_before.len() implies (#[trigger] Self::vpairs(
                    visited_before,
                )[q]) != (s as int, v@) by {
                    assert(!(visited_before[q].0 == s && visited_before[q].1@ == v@));
                }
                Self::lemma_visited_bound(Self::vpairs(visited@), univ);
            }
            // Invoke the listeners registered here for this variable.
            let nl = self.scopes[s].listeners.len();
            let mut li: usize = 0;
            while li < nl
                invariant
                    s < self.scopes@.len(),
                    li <= nl,
                    nl == self.scopes@[s as int].listeners@.len(),
                    fired@.len() == invs@.len(),
                    forall|k: int|
                        0 <= k < invs@.len() ==> (#[trigger] invs@[k]).listener == fired@[k],
                    forall|a: int, b: int|
                        0 <= a < b < fired@.len() ==> (#[trigger] fired@[a]) != (
                        #[trigger] fired@[b]),
                    forall|k: int|
                        0 <= k < invs@.len() ==> Self::invocation_registered(
                            *old(self),
                            #[trigger] invs@[k],
                        ),
                    first_pair ==> forall|li2: int|
                        0 <= li2 < li ==> Self::listener_served(
                            *old(self),
                            index as int,
                            #[trigger] old(self).scopes@[index as int].listeners@[li2],
                            var_name@,
                            invs@,
                        ),
                    start_done ==> invs_first.is_prefix_of(invs@),
                decreases nl - li,
            {
                let ghost invs_iter0 = invs@;
                let ghost entry = old(self).scopes@[index as int].listeners@[li as int];
                let wants = Self::name_in(&self.scopes[s].listeners[li].needed, &v);
                let ghost mut pushed_here: bool = false;
                if wants {
                    let id = self.scopes[s].listeners[li].id;
                    let already = Self::id_in(&fired, id);
                    if already {
                        proof {
                            if first_pair {
                                assert(fired@.contains(id));
                                let y = choose|y: int| 0 <= y < fired@.len() && fired@[y] == id;
                                assert(invs@[y].listener == id);
                                assert(id == entry.id);
                                assert(Self::listener_served(
                                    *old(self),
                                    index as int,
                                    entry,
                                    var_name@,
                                    invs@,
                                ));
                            }
                        }
                    } else {
                        match self.assemble_env(s, li) {
                            Some(env) => {
                                proof {
                                    assert(Self::scope_same_shape(
                                        old(self).scopes@[s as int],
                                        self.scopes@[s as int],
                                    ));
                                    assert(old(self).scopes@[s as int].listeners@[li as int]
                                        == self.scopes@[s as int].listeners@[li as int]);
                                }
                                let inv = Invocation { listener: id, env };
                                proof {
                                    assert(Self::invocation_registered(*old(self), inv));
                                }
                                fired.push(id);
                                invs.push(inv);
                                proof {
                                    pushed_here = true;
                                    assert(invs@ == invs_iter0.push(invs@.last()));
                                    assert(invs@.last().listener == id);
                                    if first_pair {
                                        assert(invs@[invs@.len() - 1].listener == entry.id);
                                        assert(Self::listener_served(
                                            *old(self),
                                            index as int,
                                            entry,
                                            var_name@,
                                            invs@,
                                        ));
                                    }
                                }
                            },
                            None => {
                                proof {
                                    if first_pair {
                                        let q = choose|q: int|
                                            0 <= q
                                                < self.scopes@[s as int].listeners@[li as int].needed@.len()
                                                && self.resolved(
                                                s as int,
                                                (
                                                #[trigger] self.scopes@[s as int].listeners@[li as int].needed@[q])@,
                                            ) is None;
                                        assert(old(self).resolved(
                                            index as int,
                                            entry.needed@[q]@,
                                        ) is None);
                                        assert(Self::listener_served(
                                            *old(self),
                                            index as int,
                                            entry,
                                            var_name@,
                                            invs@,
                                        ));
                                    }
                                }
                            },
                        }
                    }
                } else {
                    proof {
                        if first_pair {
                            assert(self.scopes@[s as int].listeners@[li as int] == entry);
                            assert(!(exists|m: int|
                                0 <= m < entry.needed@.len() && (#[trigger] entry.needed@[m])@
                                    == var_name@));
                            assert(Self::listener_served(
                                *old(self),
                                index as int,
                                entry,
                                var_name@,
                                invs@,
                            ));
                        }
                    }
                }
                proof {
                    if pushed_here {
                        Self::lemma_push_prefix(invs_iter0, invs@.last());
                    } else {
                        assert(invs@ == invs_iter0);
                        assert(invs_iter0 =~= invs@.subrange(0, invs_iter0.len() as int));
                    }
                    assert(invs_iter0.is_prefix_of(invs@));
                    if first_pair {
                        assert forall|li2: int|
                            0 <= li2 < li + 1 implies Self::listener_served(
                            *old(self),
                            index as int,
                            #[trigger] old(self).scopes@[index as int].listeners@[li2],
                            var_name@,
                            invs@,
                        ) by {
                            let e2 = old(self).scopes@[index as int].listeners@[li2];
                            if li2 < li {
                                if (exists|m: int|
                                    0 <= m < e2.needed@.len() && (#[trigger] e2.needed@[m])@
                                        == var_name@) && (forall|q: int|
                                    0 <= q < e2.needed@.len() ==> old(self).resolved(
                                        index as int,
                                        (#[trigger] e2.needed@[q])@,
                                    ) is Some) {
                                    let x = choose|x: int|
                                        0 <= x < invs_iter0.len() && (#[trigger] invs_iter0[x]).listener
                                            == e2.id;
                                    assert(invs@[x] == invs_iter0[x]);
                                }
                            }
                        }
                    }
                    if start_done {
                        Self::lemma_prefix_trans(invs_first, invs_iter0, invs@);
                    }
                }
                li += 1;
            }
            // Re-derive the attributes this scope provides through
            // expressions that reference the changed variable.
            let np = self.scopes[s].provides.len();
            proof {
                if first_pair {
                    assert(self.scopes@[s as int].provides@ == old(self).scopes@[s as int].provides@);
                    assert(np == dn);
                }
            }
            let mut pi: usize = 0;
            while pi < np
                invariant
                    self.wf(),
                    Self::same_shape(*old(self), *self),
                    forall|j: int| 0 <= j <= index ==> self.scopes@[j] == old(self).scopes@[j],
                    index <= s < self.scopes@.len(),
                    pi <= np,
                    np == self.scopes@[s as int].provides@.len(),
                    forall|q: int|
                        0 <= q < queue@.len() ==> univ.contains(
                            (((#[trigger] queue@[q]).0) as int, queue@[q].1@),
                        ),
                    forall|q: int|
                        0 <= q < queue@.len() ==> index <= (#[trigger] queue@[q]).0
                            < self.scopes@.len(),
                    first_pair ==> s == index && v@ == var_name@ && np == dn,
                    !first_pair ==> index < s,
                    first_pair ==> forall|q: int|
                        0 <= q < queue@.len() ==> index < (#[trigger] queue@[q]).0,
                    start_done ==> forall|q: int|
                        0 <= q < queue@.len() ==> index < (#[trigger] queue@[q]).0,
                    first_pair ==> forall|pi2: int|
                        0 <= pi2 < pi ==> #[trigger] Self::edge_rederived_env(
                            *old(self),
                            index as int,
                            pi2,
                            var_name@,
                            old(self).visible_env(index as int),
                            *self,
                        ),
                    start_done ==> forall|pi2: int|
                        0 <= pi2 < dn ==> #[trigger] Self::edge_rederived_env(
                            *old(self),
                            index as int,
                            pi2,
                            var_name@,
                            old(self).visible_env(index as int),
                            *self,
                        ),
                decreases np - pi,
            {
                let ghost self_iter0 = *self;
                let ghost cur_edge = old(self).scopes@[s as int].provides@[pi as int];
                proof {
                    assert(self.scopes@[s as int].provides@ == old(self).scopes@[s as int].provides@);
                    assert(self.scopes@[s as int].provides@[pi as int] == cur_edge);
                }
                let hits = self.scopes[s].provides[pi].expression.references(&v);
                if hits {
                    let target = self.scopes[s].provides[pi].target;
                    let attr = self.scopes[s].provides[pi].attr_name.clone();
                    let expr = self.scopes[s].provides[pi].expression.clone();
                    proof {
                        assert(self.scope_wf(s as int));
                        assert(target == cur_edge.target && attr == cur_edge.attr_name && expr
                            == cur_edge.expression);
                        assert(Self::scope_pairs(self.scopes@[s as int]).contains(
                            (target as int, attr@),
                        )) by {
                            assert(Self::scope_pairs(self.scopes@[s as int])[pi as int] == (
                                target as int,
                                attr@,
                            ));
                        }
                        assert(Self::scope_pairs(old(self).scopes@[s as int])
                            =~= Self::scope_pairs(self.scopes@[s as int])) by {
                            assert(Self::scope_same_shape(
                                old(self).scopes@[s as int],
                                self.scopes@[s as int],
                            ));
                        }
                        Self::lemma_tree_pairs_contain(
                            *old(self),
                            old(self).scopes@.len() as int,
                            s as int,
                            (target as int, attr@),
                        );
                        assert(univ.contains((target as int, attr@))) by {
                            let ghost tp = Self::tree_pairs(
                                *old(self),
                                old(self).scopes@.len() as int,
                            );
                            let i = choose|i: int|
                                0 <= i < tp.len() && (#[trigger] tp[i]) == (target as int, attr@);
                            assert(univ[i] == (target as int, attr@));
                        }
                    }
                    // Rebuild the edge's environment from this scope and
                    // re-evaluate; a reference or evaluation failure leaves
                    // the dependent binding as it is.
                    let refs = expr.var_refs();
                    let mut env = Env::empty();
                    let mut complete = true;
                    let mut rj: usize = 0;
                    while complete && rj < refs.len()
                        invariant
                            rj <= refs@.len(),
                            s < self.scopes@.len(),
                            self.wf(),
                            complete ==> forall|m2: int|
                                0 <= m2 < rj ==> env@.contains_key((#[trigger] refs@[m2])@),
                            forall|nm: Seq<char>| #[trigger]
                                env@.contains_key(nm) ==> self.resolved(s as int, nm) == Some(
                                    env@[nm],
                                ),
                            !complete ==> exists|m2: int|
                                0 <= m2 < refs@.len() && self.resolved(
                                    s as int,
                                    (#[trigger] refs@[m2])@,
                                ) is None,
                        decreases refs@.len() - rj,
                    {
                        match self.lookup_variable_in_scope(s, &refs[rj]) {
                            Some(val) => {
                                let vv = val.clone();
                                env.bind(refs[rj].clone(), vv);
                            },
                            None => {
                                complete = false;
                            },
                        }
                        rj += 1;
                    }
                    proof {
                        if first_pair {
                            assert forall|nm: Seq<char>| true implies #[trigger] self.resolved(
                                index as int,
                                nm,
                            ) == old(self).resolved(index as int, nm) by {
                                Self::lemma_resolution_prefix(*self, *old(self), index as int, nm);
                            }
                        }
                    }
                    if complete {
                        match expr.eval(&env) {
                            Ok(newval) => {
                                let vn = attr.as_var_name();
                                proof {
                                    if first_pair {
                                        assert forall|nm: Seq<char>| #[trigger] expr_refs(
                                            cur_edge.expression,
                                        ).contains(nm) implies (env@.contains_key(nm) <==> old(
                                            self,
                                        ).visible_env(index as int).contains_key(nm)) && (
                                        env@.contains_key(nm) ==> env@[nm] == old(
                                            self,
                                        ).visible_env(index as int)[nm]) by {
                                            let m2 = choose|m2: int|
                                                0 <= m2 < refs@.len() && (#[trigger] refs@[m2])@
                                                    == nm;
                                            assert(env@.contains_key(nm));
                                        }
                                        lemma_eval_agree(
                                            cur_edge.expression,
                                            env@,
                                            old(self).visible_env(index as int),
                                        );
                                        assert(eval_outcome(
                                            cur_edge.expression,
                                            old(self).visible_env(index as int),
                                        ) == Outcome::Val(newval@));
                                    }
                                }
                                let present = self.scopes[target].has_binding(&vn);
                                if present {
                                    let ghost before_write = *self;
                                    self.scopes[target].set_binding(&vn, newval);
                                    proof {
                                        Self::lemma_shape_update_one(
                                            before_write,
                                            *self,
                                            target as int,
                                        );
                                        Self::lemma_same_shape_trans(
                                            *old(self),
                                            before_write,
                                            *self,
                                        );
                                        Self::lemma_same_shape_wf(*old(self), *self);
                                        assert forall|j: int|
                                            0 <= j <= index implies self.scopes@[j] == old(
                                            self,
                                        ).scopes@[j] by {
                                            assert(j != target);
                                            assert(self.scopes@[j] == before_write.scopes@[j]);
                                        }
                                        assert(assoc_view(self.scopes@[target as int].bindings@)
                                            == assoc_view(
                                            before_write.scopes@[target as int].bindings@,
                                        ).insert(vn@, newval@));
                                        if first_pair {
                                            assert(assoc_view(
                                                self.scopes@[target as int].bindings@,
                                            )[vn@] == newval@);
                                            assert(Self::edge_rederived_env(
                                                *old(self),
                                                index as int,
                                                pi as int,
                                                var_name@,
                                                old(self).visible_env(index as int),
                                                *self,
                                            ));
                                        }
                                        let ghost bound = if first_pair {
                                            pi as int
                                        } else {
                                            dn as int
                                        };
                                        assert forall|pi2: int|
                                            0 <= pi2 < bound implies #[trigger] Self::edge_rederived_env(
                                            *old(self),
                                            index as int,
                                            pi2,
                                            var_name@,
                                            old(self).visible_env(index as int),
                                            *self,
                                        ) by {
                                            let e2 = old(self).scopes@[index as int].provides@[pi2];
                                            assert(old(self).scope_wf(index as int));
                                            assert(index < e2.target < old(self).scopes@.len());
                                            if expr_refs(e2.expression).contains(var_name@)
                                                && Self::sole_edge_for(
                                                *old(self),
                                                index as int,
                                                pi2,
                                            ) && assoc_view(
                                                old(self).scopes@[e2.target as int].bindings@,
                                            ).contains_key(e2.attr_name@) {
                                                assert(Self::edge_rederived_env(
                                                    *old(self),
                                                    index as int,
                                                    pi2,
                                                    var_name@,
                                                    old(self).visible_env(index as int),
                                                    before_write,
                                                ));
                                                assert(old(self).scopes@[s as int].provides@[pi as int]
                                                    == cur_edge);
                                                if e2.target == target && e2.attr_name@ == vn@ {
                                                    assert(!(s == index && pi2 == pi as int));
                                                    assert(cur_edge.target == e2.target
                                                        && cur_edge.attr_name@ == e2.attr_name@);
                                                    assert(false);
                                                } else if e2.target == target {
                                                    assert(assoc_view(
                                                        self.scopes@[e2.target as int].bindings@,
                                                    )[e2.attr_name@] == assoc_view(
                                                        before_write.scopes@[e2.target as int].bindings@,
                                                    )[e2.attr_name@]);
                                                } else {
                                                    assert(self.scopes@[e2.target as int]
                                                        == before_write.scopes@[e2.target as int]);
                                                }
                                            }
                                        }
                                    }
                                    queue.push((target, vn));
                                } else {
                                    proof {
                                        if first_pair {
                                            Self::lemma_same_names_contains(
                                                old(self).scopes@[target as int].bindings@,
                                                self.scopes@[target as int].bindings@,
                                                vn@,
                                            );
                                            assert(Self::edge_rederived_env(
                                                *old(self),
                                                index as int,
                                                pi as int,
                                                var_name@,
                                                old(self).visible_env(index as int),
                                                *self,
                                            ));
                                        }
                                    }
                                }
                            },
                            Err(_) => {
                                proof {
                                    if first_pair {
                                        assert forall|nm: Seq<char>| #[trigger] expr_refs(
                                            cur_edge.expression,
                                        ).contains(nm) implies (env@.contains_key(nm) <==> old(
                                            self,
                                        ).visible_env(index as int).contains_key(nm)) && (
                                        env@.contains_key(nm) ==> env@[nm] == old(
                                            self,
                                        ).visible_env(index as int)[nm]) by {
                                            let m2 = choose|m2: int|
                                                0 <= m2 < refs@.len() && (#[trigger] refs@[m2])@
                                                    == nm;
                                            assert(env@.contains_key(nm));
                                        }
                                        lemma_eval_agree(
                                            cur_edge.expression,
                                            env@,
                                            old(self).visible_env(index as int),
                                        );
                                        assert(!(eval_outcome(
                                            cur_edge.expression,
                                            old(self).visible_env(index as int),
                                        ) is Val));
                                        assert(Self::edge_rederived_env(
                                            *old(self),
                                            index as int,
                                            pi as int,
                                            var_name@,
                                            old(self).visible_env(index as int),
                                            *self,
                                        ));
                                    }
                                }
                            },
                        }
                    } else {
                        proof {
                            if first_pair {
                                let m2 = choose|m2: int|
                                    0 <= m2 < refs@.len() && self.resolved(
                                        s as int,
                                        (#[trigger] refs@[m2])@,
                                    ) is None;
                                assert(old(self).resolved(index as int, refs@[m2]@) is None);
                                assert(expr_refs(cur_edge.expression).contains(refs@[m2]@));
                                lemma_missing_ref_not_val(
                                    cur_edge.expression,
                                    old(self).visible_env(index as int),
                                    refs@[m2]@,
                                );
                                assert(Self::edge_rederived_env(
                                    *old(self),
                                    index as int,
                                    pi as int,
                                    var_name@,
                                    old(self).visible_env(index as int),
                                    *self,
                                ));
                            }
                        }
                    }
                } else {
                    proof {
                        if first_pair {
                            assert(!expr_refs(cur_edge.expression).contains(var_name@));
                            assert(Self::edge_rederived_env(
                                *old(self),
                                index as int,
                                pi as int,
                                var_name@,
                                old(self).visible_env(index as int),
                                *self,
                            ));
                        }
                    }
                }
                pi += 1;
            }
            // Follow the dependency links for this variable to the scopes
            // whose listeners need it.
            let nd = self.scopes[s].depends.len();
            let mut di: usize = 0;
            while di < nd
                invariant
                    self.wf(),
                    index <= s < self.scopes@.len(),
                    di <= nd,
                    nd == self.scopes@[s as int].depends@.len(),
                    Self::same_shape(*old(self), *self),
                    forall|q: int|
                        0 <= q < queue@.len() ==> univ.contains(
                            (((#[trigger] queue@[q]).0) as int, queue@[q].1@),
                        ),
                    forall|q: int|
                        0 <= q < queue@.len() ==> index <= (#[trigger] queue@[q]).0
                            < self.scopes@.len(),
                    first_pair ==> s == index,
                    !first_pair ==> index < s,
                    first_pair ==> forall|q: int|
                        0 <= q < queue@.len() ==> index < (#[trigger] queue@[q]).0,
                    start_done ==> forall|q: int|
                        0 <= q < queue@.len() ==> index < (#[trigger] queue@[q]).0,
                decreases nd - di,
            {
                if self.scopes[s].depends[di].var.same_name(&v) {
                    let target = self.scopes[s].depends[di].target;
                    let vn = self.scopes[s].depends[di].var.clone();
                    proof {
                        assert(self.scope_wf(s as int));
                        assert(Self::scope_pairs(self.scopes@[s as int]).contains(
                            (target as int, vn@),
                        )) by {
                            assert(Self::scope_pairs(self.scopes@[s as int])[self.scopes@[s as int].provides@.len()
                                + di as int] == (target as int, vn@));
                        }
                        assert(Self::scope_pairs(old(self).scopes@[s as int])
                            =~= Self::scope_pairs(self.scopes@[s as int])) by {
                            assert(Self::scope_same_shape(
                                old(self).scopes@[s as int],
                                self.scopes@[s as int],
                            ));
                        }
                        Self::lemma_tree_pairs_contain(
                            *old(self),
                            old(self).scopes@.len() as int,
                            s as int,
                            (target as int, vn@),
                        );
                        assert(univ.contains((target as int, vn@))) by {
                            let ghost tp = Self::tree_pairs(
                                *old(self),
                                old(self).scopes@.len() as int,
                            );
                            let i = choose|i: int|
                                0 <= i < tp.len() && (#[trigger] tp[i]) == (target as int, vn@);
                            assert(univ[i] == (target as int, vn@));
                        }
                    }
                    queue.push((target, vn));
                }
                di += 1;
            }
            proof {
                if first_pair {
                    invs_first = invs@;
                    start_done = true;
                    assert(invs_first =~= invs@.subrange(0, invs_first.len() as int));
                    assert(invs_first.is_prefix_of(invs@));
                }
            }
        }
        proof {
            assert(start_done);
            assert forall|li: int|
                0 <= li < old(self).scopes@[index as int].listeners@.len()
                    implies Self::listener_served(
                *old(self),
                index as int,
                #[trigger] old(self).scopes@[index as int].listeners@[li],
                var_name@,
                invs@,
            ) by {
                let e2 = old(self).scopes@[index as int].listeners@[li];
                if (exists|m: int|
                    0 <= m < e2.needed@.len() && (#[trigger] e2.needed@[m])@ == var_name@) && (
                forall|q: int|
                    0 <= q < e2.needed@.len() ==> old(self).resolved(
                        index as int,
                        (#[trigger] e2.needed@[q])@,
                    ) is Some) {
                    let x = choose|x: int|
                        0 <= x < invs_first.len() && (#[trigger] invs_first[x]).listener == e2.id;
                    assert(invs_first[x] == invs@.subrange(0, invs_first.len() as int)[x]);
                    assert(invs@[x].listener == e2.id);
                }
            }
        }
        invs
    }

    /// Writes a new value for a variable visible from a scope: the binding
    /// changes in the scope that defines it, so the write is seen by every
    /// scope that resolves the variable to that defining scope, and the
    /// change is then fanned out from there. Succeeds exactly when the
    /// variable is visible, and afterwards the variable resolves to the new
    /// value from the given scope. The returned invocations carry each
    /// affected listener at most once, with exactly its needed variables.
    pub fn update_value(&mut self, index: usize, var_name: &VarName, value: Value) -> (r: Result<
        Vec<Invocation>,
        EvalError,
    >)
        requires
            old(self).wf(),
            index < old(self).scopes@.len(),
        ensures
            final(self).wf(),
            (r is Ok) <==> old(self).resolved(index as int, var_name@) is Some,
            r is Err ==> *final(self) == *old(self),
            r matches Err(e) ==> (e matches EvalError::UnresolvedVariable(n) && n@ == var_name@),
            r matches Ok(invs) ==> {
                &&& Self::same_shape(*old(self), *final(self))
                &&& final(self).resolved(index as int, var_name@) == Some(value@)
                &&& Self::distinct_listener_ids(invs@)
                &&& forall|k: int|
                    0 <= k < invs@.len() ==> Self::invocation_registered(
                        *old(self),
                        #[trigger] invs@[k],
                    )
                &&& match old(self).defining_scope(index as int, var_name@) {
                    Some(d) => (forall|li: int|
                        0 <= li < old(self).scopes@[d].listeners@.len()
                            ==> Self::listener_served_after(
                            *old(self),
                            d,
                            var_name@,
                            value@,
                            d,
                            #[trigger] old(self).scopes@[d].listeners@[li],
                            var_name@,
                            invs@,
                        )) && (forall|pi: int|
                        0 <= pi < old(self).scopes@[d].provides@.len() ==> #[trigger]
                        Self::edge_rederived_env(
                            *old(self),
                            d,
                            pi,
                            var_name@,
                            Self::visible_env_after(*old(self), d, var_name@, value@, d),
                            *final(self),
                        )),
                    None => true,
                }
            },
    {
        match self.find_scope_with_variable(index, var_name) {
            None => Err(EvalError::UnresolvedVariable(var_name.clone())),
            Some(d) => {
                proof {
                    self.lemma_defining_in_range(index as int, var_name@);
                }
                self.scopes[d].set_binding(var_name, value);
                let ghost mid = *self;
                proof {
                    Self::lemma_shape_update_one(*old(self), mid, d as int);
                    Self::lemma_same_shape_wf(*old(self), mid);
                    Self::lemma_same_shape_defining(*old(self), mid, index as int, var_name@);
                    assert(mid.resolved(index as int, var_name@) == Some(value@));
                }
                let invs = self.notify_changed(d, var_name);
                proof {
                    assert forall|n: Seq<char>| true implies #[trigger] mid.resolved(d as int, n)
                        == Self::resolved_after(*old(self), d as int, var_name@, value@, d as int, n) by {
                        Self::lemma_resolved_after_write(
                            *old(self),
                            mid,
                            d as int,
                            var_name@,
                            value@,
                            d as int,
                            n,
                        );
                    }
                    assert(mid.visible_env(d as int) =~= Self::visible_env_after(
                        *old(self),
                        d as int,
                        var_name@,
                        value@,
                        d as int,
                    ));
                    assert forall|li: int|
                        0 <= li < old(self).scopes@[d as int].listeners@.len()
                            implies Self::listener_served_after(
                        *old(self),
                        d as int,
                        var_name@,
                        value@,
                        d as int,
                        #[trigger] old(self).scopes@[d as int].listeners@[li],
                        var_name@,
                        invs@,
                    ) by {
                        let e2 = old(self).scopes@[d as int].listeners@[li];
                        assert(mid.scopes@[d as int].listeners@[li] == e2);
                        assert(Self::listener_served(mid, d as int, e2, var_name@, invs@));
                    }
                    assert forall|pi: int|
                        0 <= pi < old(self).scopes@[d as int].provides@.len() implies #[trigger]
                    Self::edge_rederived_env(
                        *old(self),
                        d as int,
                        pi,
                        var_name@,
                        Self::visible_env_after(*old(self), d as int, var_name@, value@, d as int),
                        *self,
                    ) by {
                        let e2 = old(self).scopes@[d as int].provides@[pi];
                        assert(mid.scopes@[d as int].provides@ == old(self).scopes@[d as int].provides@);
                        assert(mid.scopes@[d as int].provides@[pi] == e2);
                        assert(Self::edge_rederived_env(
                            mid,
                            d as int,
                            pi,
                            var_name@,
                            mid.visible_env(d as int),
                            *self,
                        ));
                        assert(old(self).scope_wf(d as int));
                        if expr_refs(e2.expression).contains(var_name@) && Self::sole_edge_for(
                            *old(self),
                            d as int,
                            pi,
                        ) && assoc_view(old(self).scopes@[e2.target as int].bindings@).contains_key(
                            e2.attr_name@,
                        ) {
                            assert(Self::sole_edge_for(mid, d as int, pi)) by {
                                assert forall|s2: int, k2: int|
                                    0 <= s2 < mid.scopes@.len() && 0 <= k2
                                        < mid.scopes@[s2].provides@.len() && !(s2 == d as int && k2
                                        == pi) implies !((#[trigger] mid.scopes@[s2].provides@[k2]).target
                                    == mid.scopes@[d as int].provides@[pi].target
                                    && mid.scopes@[s2].provides@[k2].attr_name@
                                    == mid.scopes@[d as int].provides@[pi].attr_name@) by {
                                    assert(mid.scopes@[s2].provides@ == old(self).scopes@[s2].provides@);
                                }
                            }
                            assert(assoc_view(mid.scopes@[e2.target as int].bindings@).contains_key(
                                e2.attr_name@,
                            )) by {
                                if e2.target as int != d as int {
                                    assert(mid.scopes@[e2.target as int] == old(self).scopes@[e2.target as int]);
                                } else {
                                    Self::lemma_same_names_contains(
                                        old(self).scopes@[e2.target as int].bindings@,
                                        mid.scopes@[e2.target as int].bindings@,
                                        e2.attr_name@,
                                    );
                                }
                            }
                        }
                    }
                    Self::lemma_same_shape_trans(*old(self), mid, *self);
                    Self::lemma_same_shape_defining(mid, *self, index as int, var_name@);
                    assert(self.scopes@[d as int] == mid.scopes@[d as int]);
                    assert(self.resolved(index as int, var_name@) == Some(value@));
                    assert forall|k: int|
                        0 <= k < invs@.len() implies Self::invocation_registered(
                        *old(self),
                        #[trigger] invs@[k],
                    ) by {
                        assert(Self::invocation_registered(mid, invs@[k]));
                        let (si, ki): (int, int) = choose|si: int, ki: int|
                            0 <= si < mid.scopes@.len() && 0 <= ki
                                < mid.scopes@[si].listeners@.len() && (
                            #[trigger] mid.scopes@[si].listeners@[ki]).id == invs@[k].listener
                                && Self::needed_env_ok(
                                invs@[k].env,
                                mid.scopes@[si].listeners@[ki].needed@,
                            );
                        assert(Self::scope_same_shape(old(self).scopes@[si], mid.scopes@[si]));
                        assert(old(self).scopes@[si].listeners@[ki]
                            == mid.scopes@[si].listeners@[ki]);
                    }
                }
                Ok(invs)
            },
        }
    }

    /// The value of a variable in the nearest available scope binding it:
    /// the upward-resolution rule every lookup uses.
    pub fn lookup_variable_in_scope(&self, index: usize, var_name: &VarName) -> (r: Option<&Value>)
        requires
            self.wf(),
            index < self.scopes@.len(),
        ensures
            match r {
                Some(v) => self.resolved(index as int, var_name@) == Some(v@),
                None => self.resolved(index as int, var_name@) is None,
            },
    {
        match self.find_scope_with_variable(index, var_name) {
            Some(j) => self.scopes[j].get_binding(var_name),
            None => None,
        }
    }
}

} // verus!
