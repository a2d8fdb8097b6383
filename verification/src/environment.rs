//! Environments: scopes of bindings, each with an optional outer scope.
//!
//! The scopes live in one arena; a scope refers to its outer scope by its
//! position there, and a function value refers to the scope it was made in,
//! so that bindings added to that scope later are visible when it runs.
use vstd::prelude::*;

use crate::object::{assoc_index, assoc_lookup, assoc_set, clone_object, lemma_assoc_index, object_view, Object, ObjectV};

verus! {

/// A scope: its own bindings, and the position of the scope around it.
#[derive(Debug)]
pub struct Scope {
    store: Vec<(String, Object)>,
    outer: Option<usize>,
}

/// All the scopes made so far, and the position of the current one.
#[derive(Debug)]
pub struct Environment {
    scopes: Vec<Scope>,
    current: usize,
}

/// The model of a scope.
pub struct ScopeV {
    pub store: Seq<(Seq<char>, ObjectV)>,
    pub outer: Option<nat>,
}

/// The model of an environment.
pub struct EnvV {
    pub scopes: Seq<ScopeV>,
    pub current: nat,
}

/// The models of the bindings of a store, in order.
pub open spec fn store_view(s: Seq<(String, Object)>) -> Seq<(Seq<char>, ObjectV)> {
    Seq::new(s.len(), |i: int| (s[i].0@, object_view(s[i].1)))
}

pub closed spec fn scope_view(s: Scope) -> ScopeV {
    ScopeV {
        store: store_view(s.store@),
        outer: match s.outer {
            Some(o) => Some(o as nat),
            None => None,
        },
    }
}

pub closed spec fn scopes_view(v: Seq<Scope>) -> Seq<ScopeV> {
    Seq::new(v.len(), |i: int| scope_view(v[i]))
}

impl View for Environment {
    type V = EnvV;

    closed spec fn view(&self) -> EnvV {
        EnvV { scopes: scopes_view(self.scopes@), current: self.current as nat }
    }
}

/// The current scope is one of the scopes made.
pub open spec fn env_wf(e: EnvV) -> bool {
    e.current < e.scopes.len()
}

/// One empty scope, the current one.
pub open spec fn empty_env() -> EnvV {
    EnvV { scopes: seq![ScopeV { store: Seq::empty(), outer: None }], current: 0 }
}

/// A new empty scope inside the scope at `outer`, made current.
pub open spec fn enter_scope(e: EnvV, outer: nat) -> EnvV {
    EnvV {
        scopes: e.scopes.push(ScopeV { store: Seq::empty(), outer: Some(outer) }),
        current: e.scopes.len(),
    }
}

/// The scope at `current` made current again; every scope stays as it is.
pub open spec fn leave_scope(e: EnvV, current: nat) -> EnvV {
    EnvV { scopes: e.scopes, current }
}

/// What `name` is bound to in the scope at `idx`, else in the scopes around
/// it. An outer scope always stands before the scopes inside it.
pub open spec fn scope_get(scopes: Seq<ScopeV>, idx: int, name: Seq<char>) -> Option<ObjectV>
    decreases idx,
{
    if 0 <= idx < scopes.len() {
        match assoc_lookup(scopes[idx].store, name) {
            Some(o) => Some(o),
            None => match scopes[idx].outer {
                Some(o) => if o < idx {
                    scope_get(scopes, o as int, name)
                } else {
                    None
                },
                None => None,
            },
        }
    } else {
        None
    }
}

/// What `name` is bound to, seen from the current scope.
pub open spec fn env_get(e: EnvV, name: Seq<char>) -> Option<ObjectV> {
    scope_get(e.scopes, e.current as int, name)
}

/// Binds `name` to `v` in the current scope.
pub open spec fn env_set(e: EnvV, name: Seq<char>, v: ObjectV) -> EnvV {
    if e.current < e.scopes.len() {
        let s = e.scopes[e.current as int];
        EnvV {
            scopes: e.scopes.update(
                e.current as int,
                ScopeV { store: assoc_set(s.store, name, v), outer: s.outer },
            ),
            current: e.current,
        }
    } else {
        e
    }
}

/// The model of a value that may be absent.
pub open spec fn opt_view(o: Option<Object>) -> Option<ObjectV> {
    match o {
        Some(x) => Some(x@),
        None => None,
    }
}

/// The position of the last binding of `name` in a store.
fn store_index(store: &Vec<(String, Object)>, name: &String) -> (r: Option<usize>)
    ensures
        match r {
            Some(i) => assoc_index(store_view(store@), name@) == Some(i as int),
            None => assoc_index(store_view(store@), name@) is None,
        },
{
    let ghost sv = store_view(store@);
    let mut i: usize = store.len();
    assert(sv.subrange(0, i as int) =~= sv);
    while i > 0
        invariant
            i <= store.len(),
            sv.len() == store.len(),
            sv == store_view(store@),
            assoc_index(sv, name@) == assoc_index(sv.subrange(0, i as int), name@),
        decreases i,
    {
        assert(sv.subrange(0, i as int).drop_last() =~= sv.subrange(0, i - 1));
        if store[i - 1].0 == *name {
            return Some(i - 1);
        }
        i = i - 1;
    }
    None
}

impl Environment {
    /// An environment of one empty scope.
    pub fn new() -> (e: Environment)
        ensures
            e@ == empty_env(),
    {
        let mut scopes: Vec<Scope> = Vec::new();
        scopes.push(Scope { store: Vec::new(), outer: None });
        let e = Environment { scopes, current: 0 };
        assert(store_view(e.scopes@[0].store@) =~= Seq::<(Seq<char>, ObjectV)>::empty());
        assert(e@.scopes =~= empty_env().scopes);
        e
    }

    /// The position of the current scope.
    pub fn current_scope(&self) -> (r: usize)
        ensures
            r == self@.current,
    {
        self.current
    }

    /// Makes a new empty scope inside the scope at `outer` current, and gives
    /// the position of the scope that was current.
    pub fn enter(&mut self, outer: usize) -> (r: usize)
        requires
            old(self)@.scopes.len() < usize::MAX,
        ensures
            r == old(self)@.current,
            final(self)@ == enter_scope(old(self)@, outer as nat),
    {
        let r = self.current;
        let n = self.scopes.len();
        self.scopes.push(Scope { store: Vec::new(), outer: Some(outer) });
        self.current = n;
        assert(store_view(self.scopes@[n as int].store@) =~= Seq::<(Seq<char>, ObjectV)>::empty());
        assert(self@.scopes =~= enter_scope(old(self)@, outer as nat).scopes);
        r
    }

    /// Makes the scope at `current` current again.
    pub fn leave(&mut self, current: usize)
        ensures
            final(self)@ == leave_scope(old(self)@, current as nat),
    {
        self.current = current;
    }

    /// The number of scopes made so far.
    pub fn scope_count(&self) -> (r: usize)
        ensures
            r == self@.scopes.len(),
    {
        self.scopes.len()
    }

    /// What `name` is bound to, seen from the current scope, copied.
    pub fn get(&self, name: &String) -> (r: Option<Object>)
        ensures
            opt_view(r) == env_get(self@, name@),
    {
        let ghost sv = self@.scopes;
        let mut idx: usize = self.current;
        loop
            invariant
                sv == self@.scopes,
                sv.len() == self.scopes@.len(),
                scope_get(sv, idx as int, name@) == env_get(self@, name@),
            decreases idx,
        {
            if idx >= self.scopes.len() {
                return None;
            }
            let scope = &self.scopes[idx];
            assert(sv[idx as int] == scope_view(*scope));
            proof {
                lemma_assoc_index(store_view(scope.store@), name@);
            }
            match store_index(&scope.store, name) {
                Some(i) => {
                    let r = clone_object(&scope.store[i].1);
                    assert(store_view(scope.store@)[i as int].1 == scope.store@[i as int].1@);
                    return Some(r);
                },
                None => {
                    match scope.outer {
                        Some(o) => {
                            if o < idx {
                                idx = o;
                            } else {
                                return None;
                            }
                        },
                        None => {
                            return None;
                        },
                    }
                },
            }
        }
    }

    /// Binds `name` to a copy of `val` in the current scope.
    pub fn set(&mut self, name: &String, val: &Object)
        ensures
            final(self)@ == env_set(old(self)@, name@, val@),
    {
        let cur = self.current;
        if cur >= self.scopes.len() {
            return;
        }
        let v = clone_object(val);
        let ghost old_scopes = self.scopes@;
        self.scopes.push(Scope { store: Vec::new(), outer: None });
        let mut scope = self.scopes.swap_remove(cur);
        assert(scope == old_scopes[cur as int]);
        assert(self.scopes@.len() == old_scopes.len());
        proof {
            lemma_assoc_index(store_view(scope.store@), name@);
        }
        let ghost old_store = scope.store@;
        match store_index(&scope.store, name) {
            Some(i) => {
                scope.store.set(i, (name.clone(), v));
            },
            None => {
                scope.store.push((name.clone(), v));
            },
        }
        assert(store_view(scope.store@) =~= assoc_set(store_view(old_store), name@, val@));
        self.scopes.set(cur, scope);
        assert(self@.scopes =~= env_set(old(self)@, name@, val@).scopes);
    }
}

} // verus!
