//! Properties of the evaluator's semantics that hold across operations.
use vstd::prelude::*;

use crate::ast::{ExprV, Infix, LiteralV, Prefix, StmtV};
use crate::environment::{enter_scope, env_get, env_set, env_wf, leave_scope, scope_get, EnvV, ScopeV};
use crate::object::{
    assoc_index, assoc_keys_distinct, assoc_lookup, assoc_set, covers, covers_back, has_match,
    has_match_back, lemma_assoc_index, obj_eq, returned, ObjectV,
};
use crate::semantics::{
    add_result, bind_params, ident_value, index_result, infix_result, prefix_result, sem_array, sem_block, sem_call, sem_expr, sem_exprs, sem_fn_call,
    sem_hash, sem_if, sem_index, sem_infix, sem_pair, sem_pairs, sem_prefix, sem_program,
    sem_stmt, spec_otb, spec_otf, unfold_sem_array, unfold_sem_block, unfold_sem_call,
    unfold_sem_expr, unfold_sem_exprs, unfold_sem_fn_call, unfold_sem_hash, unfold_sem_if,
    unfold_sem_index, unfold_sem_infix, unfold_sem_pair, unfold_sem_pairs, unfold_sem_prefix,
    unfold_sem_program, unfold_sem_stmt,
};

verus! {

/// A name bound in the current scope reads back as the value it was bound to.
pub proof fn law_env_get_after_set(e: EnvV, name: Seq<char>, v: ObjectV)
    requires
        env_wf(e),
    ensures
        env_get(env_set(e, name, v), name) == Some(v),
{
    law_assoc_lookup_after_set(e.scopes[e.current as int].store, name, v);
}

/// Binding a name leaves what every other name reads as unchanged.
pub proof fn law_env_get_other_after_set(e: EnvV, name: Seq<char>, other: Seq<char>, v: ObjectV)
    requires
        name != other,
    ensures
        env_get(env_set(e, name, v), other) == env_get(e, other),
{
    if env_wf(e) {
        let c = e.current as int;
        let e2 = env_set(e, name, v);
        law_assoc_set_other(e.scopes[c].store, name, other, v);
        match e.scopes[c].outer {
            Some(o) => {
                if o < c {
                    lemma_scope_get_frame(e.scopes, e2.scopes, o as int, other);
                }
            },
            None => {},
        }
    }
}

/// What a name reads as from a scope depends only on that scope and the
/// scopes before it.
pub proof fn lemma_scope_get_frame(s1: Seq<ScopeV>, s2: Seq<ScopeV>, idx: int, name: Seq<char>)
    requires
        0 <= idx < s1.len() <= s2.len(),
        forall|i: int| 0 <= i <= idx ==> #[trigger] s1[i] == s2[i],
    ensures
        scope_get(s1, idx, name) == scope_get(s2, idx, name),
    decreases idx,
{
    {
        assert(s1[idx] == s2[idx]);
        match s1[idx].outer {
            Some(o) => {
                if o < idx {
                    lemma_scope_get_frame(s1, s2, o as int, name);
                }
            },
            None => {},
        }
    }
}

/// After `k` is set to `v`, `k` looks up as `v`.
pub proof fn law_assoc_lookup_after_set<K, V>(s: Seq<(K, V)>, k: K, v: V)
    ensures
        assoc_lookup(assoc_set(s, k, v), k) == Some(v),
{
    let t = assoc_set(s, k, v);
    lemma_assoc_index(s, k);
    lemma_assoc_index(t, k);
    match assoc_index(s, k) {
        Some(i) => {
            assert(t[i] == (k, v));
            assert forall|j: int| i < j < t.len() implies t[j].0 != k by {
                assert(t[j] == s[j]);
            }
        },
        None => {
            assert(t[s.len() as int] == (k, v));
        },
    }
}

/// Setting `k` leaves the lookup of every other key unchanged.
pub proof fn law_assoc_set_other<K, V>(s: Seq<(K, V)>, k: K, other: K, v: V)
    requires
        k != other,
    ensures
        assoc_lookup(assoc_set(s, k, v), other) == assoc_lookup(s, other),
{
    let t = assoc_set(s, k, v);
    lemma_assoc_index(s, k);
    lemma_assoc_index(s, other);
    lemma_assoc_index(t, other);
    assert forall|j: int| 0 <= j < s.len() implies #[trigger] t[j].0 == s[j].0 || t[j].0 == k by {}
    match assoc_index(s, other) {
        Some(i) => {
            assert(t[i] == s[i]);
        },
        None => {},
    }
    match assoc_index(t, other) {
        Some(i) => {
            assert(i < s.len());
            assert(t[i] == s[i]);
        },
        None => {},
    }
}

/// Setting a key keeps the keys of an association list distinct.
pub proof fn law_assoc_set_keeps_keys_distinct<K, V>(s: Seq<(K, V)>, k: K, v: V)
    requires
        assoc_keys_distinct(s),
    ensures
        assoc_keys_distinct(assoc_set(s, k, v)),
{
    lemma_assoc_index(s, k);
}

/// A hash literal gives a hash in which no key occurs twice.
pub proof fn law_hash_keys_distinct(n: nat, env: EnvV, ps: Seq<(LiteralV, ExprV)>)
    requires
        sem_hash(n, env, ps) is Some,
    ensures
        match sem_hash(n, env, ps) {
            Some((_, ObjectV::Hash(entries))) => assoc_keys_distinct(entries),
            _ => false,
        },
{
    unfold_sem_hash(n, env, ps);
    lemma_pairs_keys_distinct(n, env, ps);
}

proof fn lemma_pairs_keys_distinct(n: nat, env: EnvV, ps: Seq<(LiteralV, ExprV)>)
    requires
        sem_pairs(n, env, ps) is Some,
    ensures
        assoc_keys_distinct((sem_pairs(n, env, ps)->0).1),
    decreases ps.len(),
{
    unfold_sem_pairs(n, env, ps);
    if ps.len() > 0 {
        let prefix = ps.subrange(0, ps.len() - 1);
        lemma_pairs_keys_distinct(n, env, prefix);
        let entries = (sem_pairs(n, env, prefix)->0).1;
        match sem_pairs(n, env, ps) {
            Some((_, r)) => {
                if r != entries {
                    assert(exists|key, v| r == assoc_set(entries, key, v));
                    let (key, v) = choose|key, v| r == assoc_set(entries, key, v);
                    law_assoc_set_keeps_keys_distinct(entries, key, v);
                }
            },
            None => {},
        }
    }
}

/// `let x = e; x` gives the value of `e`, and binds `x` to it.
pub proof fn law_let_then_read(n: nat, env: EnvV, name: Seq<char>, e: ExprV, env1: EnvV, v: ObjectV)
    requires
        env_wf(env),
        sem_expr(n, env, e) == Some((env1, v)),
    ensures
        sem_block(n, env, seq![StmtV::Let(name, e), StmtV::Expr(ExprV::Ident(name))]) == Some(
            (env_set(env1, name, v), v),
        ),
{
    let b = seq![StmtV::Let(name, e), StmtV::Expr(ExprV::Ident(name))];
    let env2 = env_set(env1, name, v);
    unfold_sem_block(n, env, b);
    unfold_sem_stmt(n, env, b[0]);
    let rest = b.subrange(1, 2);
    assert(rest =~= seq![StmtV::Expr(ExprV::Ident(name))]);
    unfold_sem_block(n, env2, rest);
    unfold_sem_stmt(n, env2, rest[0]);
    unfold_sem_expr(n, env2, ExprV::Ident(name));
    lemma_frame_expr(n, env, e, name);
    law_env_get_after_set(env1, name, v);
}

/// `x + y` is what `object_add` gives: integer addition (where it does not
/// overflow), string concatenation, or an error.
pub proof fn law_plus_is_object_add(x: ObjectV, y: ObjectV)
    ensures
        infix_result(Infix::Plus, x, y) == add_result(x, y),
{
}

/// `x != y` is the negation of `x == y`.
pub proof fn law_not_equal_negates_equal(x: ObjectV, y: ObjectV)
    ensures
        infix_result(Infix::Equal, x, y) == Some(ObjectV::Boolean(obj_eq(x, y))),
        infix_result(Infix::NotEqual, x, y) == Some(ObjectV::Boolean(!obj_eq(x, y))),
{
}

/// `==` on values is reflexive: every value equals itself.
pub proof fn law_equal_reflexive(a: ObjectV)
    ensures
        obj_eq(a, a),
    decreases a, 0int,
{
    match a {
        ObjectV::Array(x) => {
            assert forall|i: int| 0 <= i < x.len() implies obj_eq(x[i], #[trigger] x[i]) by {
                law_equal_reflexive(x[i]);
            }
        },
        ObjectV::Hash(x) => {
            assert forall|i: int| 0 <= i < x.len() implies has_match(x, #[trigger] x[i].0, x[i].1) by {
                law_equal_reflexive(x[i].1);
            }
            assert forall|i: int| 0 <= i < x.len() implies has_match_back(x, #[trigger] x[i].0, x[i].1) by {
                law_equal_reflexive(x[i].1);
            }
            assert(covers(x, x) && covers_back(x, x));
        },
        ObjectV::ReturnValue(x) => {
            law_equal_reflexive(*x);
        },
        _ => {},
    }
}

/// `==` on values is symmetric.
pub proof fn law_equal_symmetric(a: ObjectV, b: ObjectV)
    requires
        obj_eq(a, b),
    ensures
        obj_eq(b, a),
    decreases a, 0int,
{
    match (a, b) {
        (ObjectV::Array(x), ObjectV::Array(y)) => {
            assert forall|i: int| 0 <= i < y.len() implies obj_eq(y[i], #[trigger] x[i]) by {
                assert(obj_eq(x[i], y[i]));
                law_equal_symmetric(x[i], y[i]);
            }
        },
        (ObjectV::Hash(x), ObjectV::Hash(y)) => {
            assert(covers(y, x)) by {
                assert(covers_back(x, y));
                lemma_covers_back_flip(x, y);
            }
            assert(covers_back(y, x)) by {
                assert(covers(x, y));
                lemma_covers_flip(x, y);
            }
        },
        (ObjectV::ReturnValue(x), ObjectV::ReturnValue(y)) => {
            law_equal_symmetric(*x, *y);
        },
        _ => {},
    }
}

/// Each entry of `y` that has an equal entry in `x` is equal to that entry.
proof fn lemma_covers_back_flip<K>(x: Seq<(K, ObjectV)>, y: Seq<(K, ObjectV)>)
    requires
        covers_back(x, y),
    ensures
        covers(y, x),
    decreases x, 2int,
{
    assert forall|j: int| 0 <= j < y.len() implies has_match(x, #[trigger] y[j].0, y[j].1) by {
        assert(has_match_back(x, y[j].0, y[j].1));
        lemma_match_back_flip(x, y[j].0, y[j].1);
    }
}

/// Each entry of `x` that has an equal entry in `y` has that entry equal to it.
proof fn lemma_covers_flip<K>(x: Seq<(K, ObjectV)>, y: Seq<(K, ObjectV)>)
    requires
        covers(x, y),
    ensures
        covers_back(y, x),
    decreases x, 2int,
{
    assert forall|i: int| 0 <= i < x.len() implies has_match_back(y, #[trigger] x[i].0, x[i].1) by {
        assert(has_match(y, x[i].0, x[i].1));
        assert(decreases_to!(x => x[i]));
        lemma_match_flip(y, x[i].0, x[i].1);
    }
}

/// An entry of `y` with key `k` and a value equal to `v` has `v` equal to it.
proof fn lemma_match_flip<K>(y: Seq<(K, ObjectV)>, k: K, v: ObjectV)
    requires
        has_match(y, k, v),
    ensures
        has_match_back(y, k, v),
    decreases v, 1int,
{
    let l = choose|l: int| #![trigger y[l]] 0 <= l < y.len() && y[l].0 == k && obj_eq(v, y[l].1);
    law_equal_symmetric(v, y[l].1);
}

/// An entry of `x` with key `k` and a value equal to `w` is equal to `w`.
proof fn lemma_match_back_flip<K>(x: Seq<(K, ObjectV)>, k: K, w: ObjectV)
    requires
        has_match_back(x, k, w),
    ensures
        has_match(x, k, w),
    decreases x, 1int,
{
    let l = choose|l: int| #![trigger x[l]] 0 <= l < x.len() && x[l].0 == k && obj_eq(x[l].1, w);
    assert(decreases_to!(x => x[l]));
    law_equal_symmetric(x[l].1, w);
}

/// `==` on values is transitive.
pub proof fn law_equal_transitive(a: ObjectV, b: ObjectV, c: ObjectV)
    requires
        obj_eq(a, b),
        obj_eq(b, c),
    ensures
        obj_eq(a, c),
    decreases a, 0int,
{
    match (a, b, c) {
        (ObjectV::Array(x), ObjectV::Array(y), ObjectV::Array(z)) => {
            assert forall|i: int| 0 <= i < x.len() implies obj_eq(x[i], #[trigger] z[i]) by {
                assert(obj_eq(x[i], y[i]));
                assert(obj_eq(y[i], z[i]));
                law_equal_transitive(x[i], y[i], z[i]);
            }
        },
        (ObjectV::Hash(x), ObjectV::Hash(y), ObjectV::Hash(z)) => {
            assert(covers(x, z)) by {
                assert(covers(x, y) && covers(y, z));
                lemma_covers_trans(x, y, z);
            }
            assert(covers_back(x, z)) by {
                assert(covers_back(x, y) && covers_back(y, z));
                lemma_covers_back_trans(x, y, z);
            }
        },
        (ObjectV::ReturnValue(x), ObjectV::ReturnValue(y), ObjectV::ReturnValue(z)) => {
            law_equal_transitive(*x, *y, *z);
        },
        _ => {},
    }
}

/// Covering composes.
proof fn lemma_covers_trans<K>(x: Seq<(K, ObjectV)>, y: Seq<(K, ObjectV)>, z: Seq<(K, ObjectV)>)
    requires
        covers(x, y),
        covers(y, z),
    ensures
        covers(x, z),
    decreases x, 2int,
{
    assert forall|i: int| 0 <= i < x.len() implies has_match(z, #[trigger] x[i].0, x[i].1) by {
        assert(has_match(y, x[i].0, x[i].1));
        assert(decreases_to!(x => x[i]));
        lemma_match_trans(y, z, x[i].0, x[i].1);
    }
}

/// Covering back composes.
proof fn lemma_covers_back_trans<K>(x: Seq<(K, ObjectV)>, y: Seq<(K, ObjectV)>, z: Seq<(K, ObjectV)>)
    requires
        covers_back(x, y),
        covers_back(y, z),
    ensures
        covers_back(x, z),
    decreases x, 2int,
{
    assert forall|j: int| 0 <= j < z.len() implies has_match_back(x, #[trigger] z[j].0, z[j].1) by {
        assert(has_match_back(y, z[j].0, z[j].1));
        lemma_match_back_trans(x, y, z[j].0, z[j].1);
    }
}

/// A match of `v` in `y` carries over to `z` when `y` is covered by `z`.
proof fn lemma_match_trans<K>(y: Seq<(K, ObjectV)>, z: Seq<(K, ObjectV)>, k: K, v: ObjectV)
    requires
        has_match(y, k, v),
        covers(y, z),
    ensures
        has_match(z, k, v),
    decreases v, 1int,
{
    let l = choose|l: int| #![trigger y[l]] 0 <= l < y.len() && y[l].0 == k && obj_eq(v, y[l].1);
    assert(has_match(z, y[l].0, y[l].1));
    let m = choose|m: int| #![trigger z[m]] 0 <= m < z.len() && z[m].0 == y[l].0 && obj_eq(y[l].1, z[m].1);
    law_equal_transitive(v, y[l].1, z[m].1);
    assert(z[m].0 == k && obj_eq(v, z[m].1));
}

/// A match of `w` in `y` carries back to `x` when `y` is covered back by `x`.
proof fn lemma_match_back_trans<K>(x: Seq<(K, ObjectV)>, y: Seq<(K, ObjectV)>, k: K, w: ObjectV)
    requires
        has_match_back(y, k, w),
        covers_back(x, y),
    ensures
        has_match_back(x, k, w),
    decreases x, 1int,
{
    let l = choose|l: int| #![trigger y[l]] 0 <= l < y.len() && y[l].0 == k && obj_eq(y[l].1, w);
    assert(has_match_back(x, y[l].0, y[l].1));
    let m = choose|m: int| #![trigger x[m]] 0 <= m < x.len() && x[m].0 == y[l].0 && obj_eq(x[m].1, y[l].1);
    assert(decreases_to!(x => x[m]));
    law_equal_transitive(x[m].1, y[l].1, w);
    assert(x[m].0 == k && obj_eq(x[m].1, w));
}

// ---------------------------------------------------------------------------
// Evaluation does not depend on the bound on nested calls, once it is enough.

/// A program that finishes within a bound on nested calls finishes with the
/// same environment and value within any larger bound.
pub proof fn law_more_fuel_same_program(n: nat, m: nat, env: EnvV, p: Seq<StmtV>)
    requires
        sem_program(n, env, p) is Some,
        n <= m,
    ensures
        sem_program(m, env, p) == sem_program(n, env, p),
{
    unfold_sem_program(n, env, p);
    unfold_sem_program(m, env, p);
    law_more_fuel_same_block(n, m, env, p);
}

/// A block that finishes within a bound finishes alike within any larger one.
pub proof fn law_more_fuel_same_block(n: nat, m: nat, env: EnvV, b: Seq<StmtV>)
    requires
        sem_block(n, env, b) is Some,
        n <= m,
    ensures
        sem_block(m, env, b) == sem_block(n, env, b),
    decreases n, crate::ast::block_size(b),
{
    unfold_sem_block(n, env, b);
    unfold_sem_block(m, env, b);
    if b.len() == 1 {
        lemma_more_fuel_stmt(n, m, env, b[0]);
    } else if b.len() > 1 {
        lemma_more_fuel_stmt(n, m, env, b[0]);
        match sem_stmt(n, env, b[0]) {
            Some((env1, o)) => {
                if !returned(o) {
                    law_more_fuel_same_block(n, m, env1, b.subrange(1, b.len() as int));
                }
            },
            None => {},
        }
    }
}

proof fn lemma_more_fuel_stmt(n: nat, m: nat, env: EnvV, s: StmtV)
    requires
        sem_stmt(n, env, s) is Some,
        n <= m,
    ensures
        sem_stmt(m, env, s) == sem_stmt(n, env, s),
    decreases n, crate::ast::stmt_size(s),
{
    unfold_sem_stmt(n, env, s);
    unfold_sem_stmt(m, env, s);
    match s {
        StmtV::Expr(e) => law_more_fuel_same_expr(n, m, env, e),
        StmtV::Return(e) => law_more_fuel_same_expr(n, m, env, e),
        StmtV::Let(_, e) => law_more_fuel_same_expr(n, m, env, e),
    }
}

/// An expression that finishes within a bound finishes alike within any
/// larger one.
pub proof fn law_more_fuel_same_expr(n: nat, m: nat, env: EnvV, e: ExprV)
    requires
        sem_expr(n, env, e) is Some,
        n <= m,
    ensures
        sem_expr(m, env, e) == sem_expr(n, env, e),
    decreases n, crate::ast::expr_size(e),
{
    unfold_sem_expr(n, env, e);
    unfold_sem_expr(m, env, e);
    match e {
        ExprV::Prefix(p, x) => lemma_more_fuel_prefix(n, m, env, p, *x),
        ExprV::Infix(op, a, b) => lemma_more_fuel_infix(n, m, env, op, *a, *b),
        ExprV::If(c, t, alt) => lemma_more_fuel_if(n, m, env, *c, t, alt),
        ExprV::Call(f, args) => lemma_more_fuel_call(n, m, env, *f, args),
        ExprV::Array(es) => lemma_more_fuel_array(n, m, env, es),
        ExprV::Hash(ps) => lemma_more_fuel_hash(n, m, env, ps),
        ExprV::Index(a, i) => lemma_more_fuel_index(n, m, env, *a, *i),
        _ => {},
    }
}

proof fn lemma_more_fuel_prefix(n: nat, m: nat, env: EnvV, p: Prefix, x: ExprV)
    requires
        sem_prefix(n, env, p, x) is Some,
        n <= m,
    ensures
        sem_prefix(m, env, p, x) == sem_prefix(n, env, p, x),
    decreases n, crate::ast::expr_size(x) + 1,
{
    unfold_sem_prefix(n, env, p, x);
    unfold_sem_prefix(m, env, p, x);
    law_more_fuel_same_expr(n, m, env, x);
}

proof fn lemma_more_fuel_infix(n: nat, m: nat, env: EnvV, op: Infix, a: ExprV, b: ExprV)
    requires
        sem_infix(n, env, op, a, b) is Some,
        n <= m,
    ensures
        sem_infix(m, env, op, a, b) == sem_infix(n, env, op, a, b),
    decreases n, crate::ast::expr_size(a) + crate::ast::expr_size(b) + 1,
{
    unfold_sem_infix(n, env, op, a, b);
    unfold_sem_infix(m, env, op, a, b);
    law_more_fuel_same_expr(n, m, env, a);
    let env1 = (sem_expr(n, env, a)->0).0;
    law_more_fuel_same_expr(n, m, env1, b);
}

proof fn lemma_more_fuel_if(
    n: nat,
    m: nat,
    env: EnvV,
    c: ExprV,
    t: Seq<StmtV>,
    alt: Option<Seq<StmtV>>,
)
    requires
        sem_if(n, env, c, t, alt) is Some,
        n <= m,
    ensures
        sem_if(m, env, c, t, alt) == sem_if(n, env, c, t, alt),
    decreases n, crate::ast::expr_size(c) + crate::ast::block_size(t)
        + crate::semantics::opt_block_size(alt) + 1,
{
    unfold_sem_if(n, env, c, t, alt);
    unfold_sem_if(m, env, c, t, alt);
    law_more_fuel_same_expr(n, m, env, c);
    let (env1, o) = sem_expr(n, env, c)->0;
    match spec_otb(o) {
        Ok(b) => {
            if b {
                law_more_fuel_same_block(n, m, env1, t);
            } else {
                match alt {
                    Some(a) => law_more_fuel_same_block(n, m, env1, a),
                    None => {},
                }
            }
        },
        Err(_) => {},
    }
}

proof fn lemma_more_fuel_call(n: nat, m: nat, env: EnvV, f: ExprV, args: Seq<ExprV>)
    requires
        sem_call(n, env, f, args) is Some,
        n <= m,
    ensures
        sem_call(m, env, f, args) == sem_call(n, env, f, args),
    decreases n, crate::ast::expr_size(f) + crate::ast::exprs_size(args) + 1,
{
    unfold_sem_call(n, env, f, args);
    unfold_sem_call(m, env, f, args);
    law_more_fuel_same_expr(n, m, env, f);
    let (env1, fo) = sem_expr(n, env, f)->0;
    match spec_otf(fo) {
        ObjectV::Function(params, body, fscope) => {
            lemma_more_fuel_fn_call(n, m, env1, args, params, body, fscope);
        },
        _ => {},
    }
}

proof fn lemma_more_fuel_fn_call(
    n: nat,
    m: nat,
    env: EnvV,
    args: Seq<ExprV>,
    params: Seq<Seq<char>>,
    body: Seq<StmtV>,
    fscope: nat,
)
    requires
        sem_fn_call(n, env, args, params, body, fscope) is Some,
        n <= m,
    ensures
        sem_fn_call(m, env, args, params, body, fscope) == sem_fn_call(n, env, args, params, body, fscope),
    decreases n, crate::ast::exprs_size(args) + 1,
{
    unfold_sem_fn_call(n, env, args, params, body, fscope);
    unfold_sem_fn_call(m, env, args, params, body, fscope);
    if args.len() == params.len() {
        lemma_more_fuel_exprs(n, m, env, args);
        let (env1, vals) = sem_exprs(n, env, args)->0;
        if n > 0 && env1.scopes.len() < usize::MAX {
            law_more_fuel_same_block(
                (n - 1) as nat,
                (m - 1) as nat,
                bind_params(enter_scope(env1, fscope), params, vals),
                body,
            );
        }
    }
}

proof fn lemma_more_fuel_exprs(n: nat, m: nat, env: EnvV, s: Seq<ExprV>)
    requires
        sem_exprs(n, env, s) is Some,
        n <= m,
    ensures
        sem_exprs(m, env, s) == sem_exprs(n, env, s),
    decreases n, crate::ast::exprs_size(s),
{
    unfold_sem_exprs(n, env, s);
    unfold_sem_exprs(m, env, s);
    if s.len() > 0 {
        let prefix = s.subrange(0, s.len() - 1);
        lemma_more_fuel_exprs(n, m, env, prefix);
        let env1 = (sem_exprs(n, env, prefix)->0).0;
        law_more_fuel_same_expr(n, m, env1, s[s.len() - 1]);
    }
}

proof fn lemma_more_fuel_array(n: nat, m: nat, env: EnvV, es: Seq<ExprV>)
    requires
        sem_array(n, env, es) is Some,
        n <= m,
    ensures
        sem_array(m, env, es) == sem_array(n, env, es),
    decreases n, crate::ast::exprs_size(es) + 1,
{
    unfold_sem_array(n, env, es);
    unfold_sem_array(m, env, es);
    lemma_more_fuel_exprs(n, m, env, es);
}

proof fn lemma_more_fuel_pair(n: nat, m: nat, env: EnvV, p: (LiteralV, ExprV))
    requires
        sem_pair(n, env, p) is Some,
        n <= m,
    ensures
        sem_pair(m, env, p) == sem_pair(n, env, p),
    decreases n, crate::ast::expr_size(p.1) + 1,
{
    unfold_sem_pair(n, env, p);
    unfold_sem_pair(m, env, p);
    law_more_fuel_same_expr(n, m, env, p.1);
}

proof fn lemma_more_fuel_pairs(n: nat, m: nat, env: EnvV, ps: Seq<(LiteralV, ExprV)>)
    requires
        sem_pairs(n, env, ps) is Some,
        n <= m,
    ensures
        sem_pairs(m, env, ps) == sem_pairs(n, env, ps),
    decreases n, crate::ast::pairs_size(ps),
{
    unfold_sem_pairs(n, env, ps);
    unfold_sem_pairs(m, env, ps);
    if ps.len() > 0 {
        let prefix = ps.subrange(0, ps.len() - 1);
        lemma_more_fuel_pairs(n, m, env, prefix);
        let env1 = (sem_pairs(n, env, prefix)->0).0;
        lemma_more_fuel_pair(n, m, env1, ps[ps.len() - 1]);
    }
}

proof fn lemma_more_fuel_hash(n: nat, m: nat, env: EnvV, ps: Seq<(LiteralV, ExprV)>)
    requires
        sem_hash(n, env, ps) is Some,
        n <= m,
    ensures
        sem_hash(m, env, ps) == sem_hash(n, env, ps),
    decreases n, crate::ast::pairs_size(ps) + 1,
{
    unfold_sem_hash(n, env, ps);
    unfold_sem_hash(m, env, ps);
    lemma_more_fuel_pairs(n, m, env, ps);
}

proof fn lemma_more_fuel_index(n: nat, m: nat, env: EnvV, a: ExprV, i: ExprV)
    requires
        sem_index(n, env, a, i) is Some,
        n <= m,
    ensures
        sem_index(m, env, a, i) == sem_index(n, env, a, i),
    decreases n, crate::ast::expr_size(a) + crate::ast::expr_size(i) + 1,
{
    unfold_sem_index(n, env, a, i);
    unfold_sem_index(m, env, a, i);
    law_more_fuel_same_expr(n, m, env, a);
    let env1 = (sem_expr(n, env, a)->0).0;
    law_more_fuel_same_expr(n, m, env1, i);
}

// ---------------------------------------------------------------------------
// What an evaluation may change: only the bindings of the current scope, and
// only by a `let` that runs in it; scopes it makes are added at the end.

/// `e2` is `e1` after an evaluation: the same scope is current, no scope was
/// taken away, and every scope but the current one is as it was, as is the
/// outer scope of the current one.
pub open spec fn frame(e1: EnvV, e2: EnvV) -> bool {
    &&& e2.current == e1.current
    &&& e1.scopes.len() <= e2.scopes.len()
    &&& forall|i: int|
        0 <= i < e1.scopes.len() && i != e1.current ==> #[trigger] e2.scopes[i] == e1.scopes[i]
    &&& e1.current < e1.scopes.len() ==> e2.scopes[e1.current as int].outer
        == e1.scopes[e1.current as int].outer
}

/// `name` is bound in the current scope of `e2` as in that of `e1`.
pub open spec fn keeps(e1: EnvV, e2: EnvV, name: Seq<char>) -> bool {
    e1.current < e1.scopes.len() ==> assoc_lookup(e2.scopes[e1.current as int].store, name)
        == assoc_lookup(e1.scopes[e1.current as int].store, name)
}

/// Whether evaluating `e` can run a `let` of `name` in the current scope:
/// through the branches of an `if` that is not inside a function body.
pub open spec fn expr_binds(e: ExprV, name: Seq<char>) -> bool
    decreases e,
{
    match e {
        ExprV::Prefix(_, x) => expr_binds(*x, name),
        ExprV::Infix(_, a, b) => expr_binds(*a, name) || expr_binds(*b, name),
        ExprV::If(c, t, alt) => expr_binds(*c, name) || block_binds(t, name) || match alt {
            Some(a) => block_binds(a, name),
            None => false,
        },
        ExprV::Call(f, args) => expr_binds(*f, name) || exprs_binds(args, name),
        ExprV::Array(es) => exprs_binds(es, name),
        ExprV::Hash(ps) => pairs_binds(ps, name),
        ExprV::Index(a, i) => expr_binds(*a, name) || expr_binds(*i, name),
        _ => false,
    }
}

pub open spec fn stmt_binds(s: StmtV, name: Seq<char>) -> bool
    decreases s,
{
    match s {
        StmtV::Let(x, e) => x == name || expr_binds(e, name),
        StmtV::Return(e) => expr_binds(e, name),
        StmtV::Expr(e) => expr_binds(e, name),
    }
}

pub open spec fn block_binds(b: Seq<StmtV>, name: Seq<char>) -> bool
    decreases b,
{
    if b.len() == 0 {
        false
    } else {
        stmt_binds(b[0], name) || block_binds(b.subrange(1, b.len() as int), name)
    }
}

pub open spec fn exprs_binds(s: Seq<ExprV>, name: Seq<char>) -> bool
    decreases s,
{
    if s.len() == 0 {
        false
    } else {
        exprs_binds(s.subrange(0, s.len() - 1), name) || expr_binds(s[s.len() - 1], name)
    }
}

pub open spec fn pairs_binds(s: Seq<(LiteralV, ExprV)>, name: Seq<char>) -> bool
    decreases s,
{
    if s.len() == 0 {
        false
    } else {
        pairs_binds(s.subrange(0, s.len() - 1), name) || expr_binds(s[s.len() - 1].1, name)
    }
}

/// Whether `e` has an `if` outside the bodies of the functions it makes.
pub open spec fn expr_has_if(e: ExprV) -> bool
    decreases e,
{
    match e {
        ExprV::Prefix(_, x) => expr_has_if(*x),
        ExprV::Infix(_, a, b) => expr_has_if(*a) || expr_has_if(*b),
        ExprV::If(_, _, _) => true,
        ExprV::Call(f, args) => expr_has_if(*f) || exists|i: int| 0 <= i < args.len() && expr_has_if(#[trigger] args[i]),
        ExprV::Array(es) => exists|i: int| 0 <= i < es.len() && expr_has_if(#[trigger] es[i]),
        ExprV::Hash(ps) => exists|i: int| 0 <= i < ps.len() && expr_has_if(#[trigger] ps[i].1),
        ExprV::Index(a, i) => expr_has_if(*a) || expr_has_if(*i),
        _ => false,
    }
}

proof fn lemma_frame_refl(e: EnvV, name: Seq<char>)
    ensures
        frame(e, e),
        keeps(e, e, name),
{
}

proof fn lemma_frame_trans(a: EnvV, b: EnvV, c: EnvV, name: Seq<char>)
    requires
        frame(a, b),
        frame(b, c),
    ensures
        frame(a, c),
        keeps(a, b, name) && keeps(b, c, name) ==> keeps(a, c, name),
{
    assert forall|i: int| 0 <= i < a.scopes.len() && i != a.current implies #[trigger] c.scopes[i]
        == a.scopes[i] by {
        assert(b.scopes[i] == a.scopes[i]);
    }
}

proof fn lemma_frame_set(e: EnvV, x: Seq<char>, v: ObjectV, name: Seq<char>)
    ensures
        frame(e, env_set(e, x, v)),
        x != name ==> keeps(e, env_set(e, x, v), name),
{
    if x != name && e.current < e.scopes.len() {
        law_assoc_set_other(e.scopes[e.current as int].store, x, name, v);
    }
}

pub proof fn lemma_frame_bind(e: EnvV, params: Seq<Seq<char>>, vals: Seq<ObjectV>)
    ensures
        frame(e, bind_params(e, params, vals)),
    decreases params.len(),
{
    if params.len() > 0 && vals.len() > 0 {
        let mid = bind_params(e, params.drop_last(), vals.drop_last());
        lemma_frame_bind(e, params.drop_last(), vals.drop_last());
        lemma_frame_set(mid, params.last(), vals.last(), params.last());
        lemma_frame_trans(e, mid, bind_params(e, params, vals), params.last());
    }
}

/// Reading a name from the current scope gives the same in two environments
/// where the current scope binds it alike and every scope before it is the
/// same.
proof fn lemma_env_get_kept(e1: EnvV, e2: EnvV, name: Seq<char>)
    requires
        env_wf(e1),
        frame(e1, e2),
        keeps(e1, e2, name),
    ensures
        env_get(e2, name) == env_get(e1, name),
{
    let c = e1.current as int;
    match e1.scopes[c].outer {
        Some(o) => {
            if o < c {
                assert forall|i: int| 0 <= i <= o implies #[trigger] e1.scopes[i] == e2.scopes[i] by {
                    assert(e2.scopes[i] == e1.scopes[i]);
                }
                lemma_scope_get_frame(e1.scopes, e2.scopes, o as int, name);
            }
        },
        None => {},
    }
}

pub proof fn lemma_frame_block(n: nat, env: EnvV, b: Seq<StmtV>, name: Seq<char>)
    requires
        sem_block(n, env, b) is Some,
    ensures
        frame(env, (sem_block(n, env, b)->0).0),
        !block_binds(b, name) ==> keeps(env, (sem_block(n, env, b)->0).0, name),
    decreases n, crate::ast::block_size(b),
{
    unfold_sem_block(n, env, b);
    if b.len() == 0 {
        lemma_frame_refl(env, name);
    } else if b.len() == 1 {
        lemma_frame_stmt(n, env, b[0], name);
    } else {
        lemma_frame_stmt(n, env, b[0], name);
        let (env1, o) = sem_stmt(n, env, b[0])->0;
        if !returned(o) {
            let rest = b.subrange(1, b.len() as int);
            lemma_frame_block(n, env1, rest, name);
            lemma_frame_trans(env, env1, (sem_block(n, env1, rest)->0).0, name);
        }
    }
}

proof fn lemma_frame_stmt(n: nat, env: EnvV, s: StmtV, name: Seq<char>)
    requires
        sem_stmt(n, env, s) is Some,
    ensures
        frame(env, (sem_stmt(n, env, s)->0).0),
        !stmt_binds(s, name) ==> keeps(env, (sem_stmt(n, env, s)->0).0, name),
    decreases n, crate::ast::stmt_size(s),
{
    unfold_sem_stmt(n, env, s);
    match s {
        StmtV::Expr(e) => lemma_frame_expr(n, env, e, name),
        StmtV::Return(e) => lemma_frame_expr(n, env, e, name),
        StmtV::Let(x, e) => {
            lemma_frame_expr(n, env, e, name);
            let (env1, o) = sem_expr(n, env, e)->0;
            lemma_frame_set(env1, x, o, name);
            lemma_frame_trans(env, env1, env_set(env1, x, o), name);
        },
    }
}

proof fn lemma_frame_expr(n: nat, env: EnvV, e: ExprV, name: Seq<char>)
    requires
        sem_expr(n, env, e) is Some,
    ensures
        frame(env, (sem_expr(n, env, e)->0).0),
        !expr_binds(e, name) ==> keeps(env, (sem_expr(n, env, e)->0).0, name),
    decreases n, crate::ast::expr_size(e),
{
    unfold_sem_expr(n, env, e);
    match e {
        ExprV::Prefix(p, x) => {
            unfold_sem_prefix(n, env, p, *x);
            lemma_frame_expr(n, env, *x, name);
        },
        ExprV::Infix(op, a, b) => {
            unfold_sem_infix(n, env, op, *a, *b);
            lemma_frame_expr(n, env, *a, name);
            let env1 = (sem_expr(n, env, *a)->0).0;
            lemma_frame_expr(n, env1, *b, name);
            lemma_frame_trans(env, env1, (sem_expr(n, env1, *b)->0).0, name);
        },
        ExprV::If(c, t, alt) => lemma_frame_if(n, env, *c, t, alt, name),
        ExprV::Call(f, args) => lemma_frame_call(n, env, *f, args, name),
        ExprV::Array(es) => {
            unfold_sem_array(n, env, es);
            lemma_frame_exprs(n, env, es, name);
        },
        ExprV::Hash(ps) => {
            unfold_sem_hash(n, env, ps);
            lemma_frame_pairs(n, env, ps, name);
        },
        ExprV::Index(a, i) => {
            unfold_sem_index(n, env, *a, *i);
            lemma_frame_expr(n, env, *a, name);
            let env1 = (sem_expr(n, env, *a)->0).0;
            lemma_frame_expr(n, env1, *i, name);
            lemma_frame_trans(env, env1, (sem_expr(n, env1, *i)->0).0, name);
        },
        _ => lemma_frame_refl(env, name),
    }
}

proof fn lemma_frame_if(
    n: nat,
    env: EnvV,
    c: ExprV,
    t: Seq<StmtV>,
    alt: Option<Seq<StmtV>>,
    name: Seq<char>,
)
    requires
        sem_if(n, env, c, t, alt) is Some,
    ensures
        frame(env, (sem_if(n, env, c, t, alt)->0).0),
        !expr_binds(ExprV::If(Box::new(c), t, alt), name) ==> keeps(
            env,
            (sem_if(n, env, c, t, alt)->0).0,
            name,
        ),
    decreases n, crate::ast::expr_size(c) + crate::ast::block_size(t)
        + crate::semantics::opt_block_size(alt) + 1,
{
    unfold_sem_if(n, env, c, t, alt);
    lemma_frame_expr(n, env, c, name);
    let (env1, o) = sem_expr(n, env, c)->0;
    match spec_otb(o) {
        Ok(b) => {
            if b {
                lemma_frame_block(n, env1, t, name);
                lemma_frame_trans(env, env1, (sem_block(n, env1, t)->0).0, name);
            } else {
                match alt {
                    Some(a) => {
                        lemma_frame_block(n, env1, a, name);
                        lemma_frame_trans(env, env1, (sem_block(n, env1, a)->0).0, name);
                    },
                    None => {},
                }
            }
        },
        Err(_) => {},
    }
}

proof fn lemma_frame_call(n: nat, env: EnvV, f: ExprV, args: Seq<ExprV>, name: Seq<char>)
    requires
        sem_call(n, env, f, args) is Some,
    ensures
        frame(env, (sem_call(n, env, f, args)->0).0),
        !expr_binds(f, name) && !exprs_binds(args, name) ==> keeps(
            env,
            (sem_call(n, env, f, args)->0).0,
            name,
        ),
    decreases n, crate::ast::expr_size(f) + crate::ast::exprs_size(args) + 1,
{
    unfold_sem_call(n, env, f, args);
    lemma_frame_expr(n, env, f, name);
    let (env1, fo) = sem_expr(n, env, f)->0;
    match spec_otf(fo) {
        ObjectV::Function(params, body, fscope) => {
            lemma_frame_fn_call(n, env1, args, params, body, fscope, name);
            lemma_frame_trans(
                env,
                env1,
                (sem_fn_call(n, env1, args, params, body, fscope)->0).0,
                name,
            );
        },
        _ => {},
    }
}

proof fn lemma_frame_fn_call(
    n: nat,
    env: EnvV,
    args: Seq<ExprV>,
    params: Seq<Seq<char>>,
    body: Seq<StmtV>,
    fscope: nat,
    name: Seq<char>,
)
    requires
        sem_fn_call(n, env, args, params, body, fscope) is Some,
    ensures
        frame(env, (sem_fn_call(n, env, args, params, body, fscope)->0).0),
        !exprs_binds(args, name) ==> keeps(
            env,
            (sem_fn_call(n, env, args, params, body, fscope)->0).0,
            name,
        ),
    decreases n, crate::ast::exprs_size(args) + 1,
{
    unfold_sem_fn_call(n, env, args, params, body, fscope);
    if args.len() != params.len() {
        lemma_frame_refl(env, name);
    } else {
        lemma_frame_exprs(n, env, args, name);
        let (env1, vals) = sem_exprs(n, env, args)->0;
        lemma_call_keeps_scopes(n, env1, params, vals, body, fscope);
        let fin = (sem_fn_call(n, env, args, params, body, fscope)->0).0;
        lemma_frame_trans(env, env1, fin, name);
        lemma_frame_refl(env1, name);
    }
}

/// Running a function body leaves every scope that stood before the call as
/// it was, and makes the caller's scope current again.
proof fn lemma_call_keeps_scopes(
    n: nat,
    env1: EnvV,
    params: Seq<Seq<char>>,
    vals: Seq<ObjectV>,
    body: Seq<StmtV>,
    fscope: nat,
)
    requires
        n > 0,
        env1.scopes.len() < usize::MAX,
        sem_block((n - 1) as nat, bind_params(enter_scope(env1, fscope), params, vals), body) is Some,
    ensures
        ({
            let env2 = (sem_block((n - 1) as nat, bind_params(enter_scope(env1, fscope), params, vals), body)->0).0;
            let fin = leave_scope(env2, env1.current);
            &&& frame(env1, fin)
            &&& env1.scopes.len() <= fin.scopes.len()
            &&& forall|i: int| 0 <= i < env1.scopes.len() ==> #[trigger] fin.scopes[i] == env1.scopes[i]
        }),
    decreases n, 0int,
{
    let entered = enter_scope(env1, fscope);
    let bound = bind_params(entered, params, vals);
    lemma_frame_bind(entered, params, vals);
    lemma_frame_block((n - 1) as nat, bound, body, Seq::empty());
    let env2 = (sem_block((n - 1) as nat, bound, body)->0).0;
    let fin = leave_scope(env2, env1.current);
    assert forall|i: int| 0 <= i < env1.scopes.len() implies #[trigger] fin.scopes[i] == env1.scopes[i] by {
        assert(entered.scopes[i] == env1.scopes[i]);
        assert(bound.scopes[i] == entered.scopes[i]);
        assert(env2.scopes[i] == bound.scopes[i]);
    }
}

proof fn lemma_frame_exprs(n: nat, env: EnvV, s: Seq<ExprV>, name: Seq<char>)
    requires
        sem_exprs(n, env, s) is Some,
    ensures
        frame(env, (sem_exprs(n, env, s)->0).0),
        !exprs_binds(s, name) ==> keeps(env, (sem_exprs(n, env, s)->0).0, name),
    decreases n, crate::ast::exprs_size(s),
{
    unfold_sem_exprs(n, env, s);
    if s.len() == 0 {
        lemma_frame_refl(env, name);
    } else {
        let prefix = s.subrange(0, s.len() - 1);
        lemma_frame_exprs(n, env, prefix, name);
        let env1 = (sem_exprs(n, env, prefix)->0).0;
        lemma_frame_expr(n, env1, s[s.len() - 1], name);
        lemma_frame_trans(env, env1, (sem_expr(n, env1, s[s.len() - 1])->0).0, name);
    }
}

proof fn lemma_frame_pairs(n: nat, env: EnvV, ps: Seq<(LiteralV, ExprV)>, name: Seq<char>)
    requires
        sem_pairs(n, env, ps) is Some,
    ensures
        frame(env, (sem_pairs(n, env, ps)->0).0),
        !pairs_binds(ps, name) ==> keeps(env, (sem_pairs(n, env, ps)->0).0, name),
    decreases n, crate::ast::pairs_size(ps),
{
    unfold_sem_pairs(n, env, ps);
    if ps.len() == 0 {
        lemma_frame_refl(env, name);
    } else {
        let prefix = ps.subrange(0, ps.len() - 1);
        lemma_frame_pairs(n, env, prefix, name);
        let env1 = (sem_pairs(n, env, prefix)->0).0;
        let p = ps[ps.len() - 1];
        unfold_sem_pair(n, env1, p);
        lemma_frame_expr(n, env1, p.1, name);
        lemma_frame_trans(env, env1, (sem_expr(n, env1, p.1)->0).0, name);
    }
}

/// A name that a statement does not bind keeps what it reads as: a binding
/// made earlier survives the evaluation of statements that bind other names,
/// whatever functions they call.
pub proof fn law_binding_survives_stmt(n: nat, env: EnvV, s: StmtV, name: Seq<char>)
    requires
        env_wf(env),
        sem_stmt(n, env, s) is Some,
        !stmt_binds(s, name),
    ensures
        env_get((sem_stmt(n, env, s)->0).0, name) == env_get(env, name),
{
    lemma_frame_stmt(n, env, s, name);
    lemma_env_get_kept(env, (sem_stmt(n, env, s)->0).0, name);
}

/// The same for a sequence of statements.
pub proof fn law_binding_survives_block(n: nat, env: EnvV, b: Seq<StmtV>, name: Seq<char>)
    requires
        env_wf(env),
        sem_block(n, env, b) is Some,
        !block_binds(b, name),
    ensures
        env_get((sem_block(n, env, b)->0).0, name) == env_get(env, name),
{
    lemma_frame_block(n, env, b, name);
    lemma_env_get_kept(env, (sem_block(n, env, b)->0).0, name);
}

/// Evaluating an expression that has no `if` outside the bodies of the
/// functions it makes leaves every binding as it was.
pub proof fn law_expr_without_if_keeps_bindings(n: nat, env: EnvV, e: ExprV, name: Seq<char>)
    requires
        env_wf(env),
        sem_expr(n, env, e) is Some,
        !expr_has_if(e),
    ensures
        env_get((sem_expr(n, env, e)->0).0, name) == env_get(env, name),
{
    lemma_no_if_binds_nothing(e, name);
    lemma_frame_expr(n, env, e, name);
    lemma_env_get_kept(env, (sem_expr(n, env, e)->0).0, name);
}

proof fn lemma_no_if_binds_nothing(e: ExprV, name: Seq<char>)
    requires
        !expr_has_if(e),
    ensures
        !expr_binds(e, name),
    decreases e,
{
    match e {
        ExprV::Prefix(_, x) => lemma_no_if_binds_nothing(*x, name),
        ExprV::Infix(_, a, b) => {
            lemma_no_if_binds_nothing(*a, name);
            lemma_no_if_binds_nothing(*b, name);
        },
        ExprV::Call(f, args) => {
            lemma_no_if_binds_nothing(*f, name);
            lemma_exprs_no_if(e, args, name);
        },
        ExprV::Array(es) => lemma_exprs_no_if(e, es, name),
        ExprV::Hash(ps) => lemma_pairs_no_if(e, ps, name),
        ExprV::Index(a, i) => {
            lemma_no_if_binds_nothing(*a, name);
            lemma_no_if_binds_nothing(*i, name);
        },
        _ => {},
    }
}

proof fn lemma_exprs_no_if(e: ExprV, s: Seq<ExprV>, name: Seq<char>)
    requires
        forall|i: int| 0 <= i < s.len() ==> !expr_has_if(#[trigger] s[i]),
        forall|i: int| 0 <= i < s.len() ==> decreases_to!(e => s[i]),
    ensures
        !exprs_binds(s, name),
    decreases e, s.len(),
{
    if s.len() > 0 {
        let prefix = s.subrange(0, s.len() - 1);
        assert forall|i: int| 0 <= i < prefix.len() implies decreases_to!(e => prefix[i]) by {
            assert(prefix[i] == s[i]);
        }
        assert forall|i: int| 0 <= i < prefix.len() implies !expr_has_if(#[trigger] prefix[i]) by {
            assert(prefix[i] == s[i]);
        }
        lemma_exprs_no_if(e, prefix, name);
        lemma_no_if_binds_nothing(s[s.len() - 1], name);
    }
}

proof fn lemma_pairs_no_if(e: ExprV, s: Seq<(LiteralV, ExprV)>, name: Seq<char>)
    requires
        forall|i: int| 0 <= i < s.len() ==> !expr_has_if(#[trigger] s[i].1),
        forall|i: int| 0 <= i < s.len() ==> decreases_to!(e => s[i].1),
    ensures
        !pairs_binds(s, name),
    decreases e, s.len(),
{
    if s.len() > 0 {
        let prefix = s.subrange(0, s.len() - 1);
        assert forall|i: int| 0 <= i < prefix.len() implies decreases_to!(e => prefix[i].1) by {
            assert(prefix[i] == s[i]);
        }
        assert forall|i: int| 0 <= i < prefix.len() implies !expr_has_if(#[trigger] prefix[i].1) by {
            assert(prefix[i] == s[i]);
        }
        lemma_pairs_no_if(e, prefix, name);
        lemma_no_if_binds_nothing(s[s.len() - 1].1, name);
    }
}

/// After a call of a function value, the caller's scope is current again and
/// every name reads as it did once the arguments were evaluated: neither the
/// parameters nor any `let` in the body is seen by the caller.
pub proof fn law_call_restores_caller_bindings(
    n: nat,
    env: EnvV,
    args: Seq<ExprV>,
    params: Seq<Seq<char>>,
    body: Seq<StmtV>,
    fscope: nat,
    name: Seq<char>,
)
    requires
        env_wf(env),
        args.len() == params.len(),
        sem_fn_call(n, env, args, params, body, fscope) is Some,
    ensures
        sem_exprs(n, env, args) is Some,
        ({
            let env1 = (sem_exprs(n, env, args)->0).0;
            let fin = (sem_fn_call(n, env, args, params, body, fscope)->0).0;
            &&& fin.current == env1.current
            &&& env_get(fin, name) == env_get(env1, name)
        }),
{
    unfold_sem_fn_call(n, env, args, params, body, fscope);
    lemma_frame_exprs(n, env, args, name);
    let (env1, vals) = sem_exprs(n, env, args)->0;
    lemma_call_keeps_scopes(n, env1, params, vals, body, fscope);
    let fin = (sem_fn_call(n, env, args, params, body, fscope)->0).0;
    lemma_env_get_kept(env1, fin, name);
}

/// A name bound (as `register_ident` or `let` does) reads back as its value
/// after any statements that do not bind it again, whatever functions they
/// call.
pub proof fn law_read_after_bind(n: nat, env: EnvV, name: Seq<char>, o: ObjectV, b: Seq<StmtV>)
    requires
        env_wf(env),
        sem_block(n, env_set(env, name, o), b) is Some,
        !block_binds(b, name),
    ensures
        env_get((sem_block(n, env_set(env, name, o), b)->0).0, name) == Some(o),
{
    law_env_get_after_set(env, name, o);
    law_binding_survives_block(n, env_set(env, name, o), b, name);
}

/// Evaluation keeps an environment well formed: the scope current after a
/// block is the one current before it, and no scope is taken away.
pub proof fn law_block_keeps_env_wf(n: nat, env: EnvV, b: Seq<StmtV>)
    requires
        env_wf(env),
        sem_block(n, env, b) is Some,
    ensures
        env_wf((sem_block(n, env, b)->0).0),
{
    lemma_frame_block(n, env, b, Seq::empty());
}

/// The same for a statement.
pub proof fn law_stmt_keeps_env_wf(n: nat, env: EnvV, s: StmtV)
    requires
        env_wf(env),
        sem_stmt(n, env, s) is Some,
    ensures
        env_wf((sem_stmt(n, env, s)->0).0),
{
    lemma_frame_stmt(n, env, s, Seq::empty());
}

/// The same for an expression.
pub proof fn law_expr_keeps_env_wf(n: nat, env: EnvV, e: ExprV)
    requires
        env_wf(env),
        sem_expr(n, env, e) is Some,
    ensures
        env_wf((sem_expr(n, env, e)->0).0),
{
    lemma_frame_expr(n, env, e, Seq::empty());
}

/// The same for a program.
pub proof fn law_program_keeps_env_wf(n: nat, env: EnvV, p: Seq<StmtV>)
    requires
        env_wf(env),
        sem_program(n, env, p) is Some,
    ensures
        env_wf((sem_program(n, env, p)->0).0),
{
    unfold_sem_program(n, env, p);
    lemma_frame_block(n, env, p, Seq::empty());
}

// ---------------------------------------------------------------------------
// What the operators compute, in terms of the integers, booleans and strings
// they are given.

/// Comparisons of integers answer as the order of the integers; `==` and
/// `!=` answer as their equality.
pub proof fn law_integer_comparisons(a: i64, b: i64)
    ensures
        infix_result(Infix::LessThan, ObjectV::Integer(a), ObjectV::Integer(b)) == Some(
            ObjectV::Boolean(a < b),
        ),
        infix_result(Infix::LessThanEqual, ObjectV::Integer(a), ObjectV::Integer(b)) == Some(
            ObjectV::Boolean(a <= b),
        ),
        infix_result(Infix::GreaterThan, ObjectV::Integer(a), ObjectV::Integer(b)) == Some(
            ObjectV::Boolean(a > b),
        ),
        infix_result(Infix::GreaterThanEqual, ObjectV::Integer(a), ObjectV::Integer(b)) == Some(
            ObjectV::Boolean(a >= b),
        ),
        infix_result(Infix::Equal, ObjectV::Integer(a), ObjectV::Integer(b)) == Some(
            ObjectV::Boolean(a == b),
        ),
        infix_result(Infix::NotEqual, ObjectV::Integer(a), ObjectV::Integer(b)) == Some(
            ObjectV::Boolean(a != b),
        ),
{
}

/// `+`, `-` and `*` on integers give the mathematical sum, difference and
/// product where it fits in 64 bits; where it does not, evaluation stops (the
/// evaluator would overflow).
pub proof fn law_integer_arithmetic(a: i64, b: i64)
    ensures
        i64::MIN <= a + b <= i64::MAX ==> infix_result(
            Infix::Plus,
            ObjectV::Integer(a),
            ObjectV::Integer(b),
        ) == Some(ObjectV::Integer((a + b) as i64)),
        !(i64::MIN <= a + b <= i64::MAX) ==> infix_result(
            Infix::Plus,
            ObjectV::Integer(a),
            ObjectV::Integer(b),
        ) is None,
        i64::MIN <= a - b <= i64::MAX ==> infix_result(
            Infix::Minus,
            ObjectV::Integer(a),
            ObjectV::Integer(b),
        ) == Some(ObjectV::Integer((a - b) as i64)),
        !(i64::MIN <= a - b <= i64::MAX) ==> infix_result(
            Infix::Minus,
            ObjectV::Integer(a),
            ObjectV::Integer(b),
        ) is None,
        i64::MIN <= a * b <= i64::MAX ==> infix_result(
            Infix::Multiply,
            ObjectV::Integer(a),
            ObjectV::Integer(b),
        ) == Some(ObjectV::Integer((a * b) as i64)),
        !(i64::MIN <= a * b <= i64::MAX) ==> infix_result(
            Infix::Multiply,
            ObjectV::Integer(a),
            ObjectV::Integer(b),
        ) is None,
        b == 0 ==> infix_result(Infix::Divide, ObjectV::Integer(a), ObjectV::Integer(b)) is None,
{
}

/// `/` on integers rounds toward zero: the quotient `q` leaves a remainder
/// `a - q * b` smaller than `b` in size, and of the sign of `a` when it is not
/// zero.
pub proof fn law_integer_division(a: i64, b: i64)
    requires
        b != 0,
        !(a == i64::MIN && b == -1),
    ensures
        infix_result(Infix::Divide, ObjectV::Integer(a), ObjectV::Integer(b)) matches Some(
            ObjectV::Integer(q),
        ) && ({
            let r = a - q * b;
            &&& (if r < 0 { -r } else { r }) < (if b < 0 { -(b as int) } else { b as int })
            &&& (r == 0 || (r > 0) == (a > 0))
        }),
{
    let x = a as int;
    let d = b as int;
    let v = infix_result(Infix::Divide, ObjectV::Integer(a), ObjectV::Integer(b));
    if x == 0 {
        assert(v == Some(ObjectV::Integer(0)));
    } else if x > 0 && d > 0 {
        lemma_div_parts(x, d);
        let q = x / d;
        assert(a.checked_div(b) == Some(q as i64));
        assert(v == Some(ObjectV::Integer(q as i64)));
        assert(0 <= a - q * b < b);
    } else if x < 0 && d < 0 {
        lemma_div_parts(-x, -d);
        let q = (-x) / (-d);
        assert(q * d == -(q * (-d))) by (nonlinear_arith);
        assert(q <= i64::MAX) by {
            if -d == 1 {
                assert(x != i64::MIN);
            }
        }
        assert(a.checked_div(b) == Some(q as i64));
        assert(v == Some(ObjectV::Integer(q as i64)));
        assert(d < a - q * b <= 0);
    } else if x < 0 && d > 0 {
        lemma_div_parts(-x, d);
        let q = (-x) / d;
        assert((q * -1) * d == -(q * d)) by (nonlinear_arith);
        assert(a.checked_div(b) == Some((q * -1) as i64));
        assert(v == Some(ObjectV::Integer((q * -1) as i64)));
        assert(-d < a - (q * -1) * b <= 0);
    } else {
        lemma_div_parts(x, -d);
        let q = x / (-d);
        assert((q * -1) * d == q * (-d)) by (nonlinear_arith);
        assert(a.checked_div(b) == Some((q * -1) as i64));
        assert(v == Some(ObjectV::Integer((q * -1) as i64)));
        assert(0 <= a - (q * -1) * b < -d);
    }
}

proof fn lemma_div_parts(x: int, d: int)
    requires
        x > 0,
        d > 0,
    ensures
        0 <= x / d <= x,
        0 <= x - (x / d) * d < d,
        d >= 2 ==> x / d < x,
{
    assert(0 <= x / d <= x && 0 <= x - (x / d) * d < d && (d >= 2 ==> x / d < x)) by (nonlinear_arith)
        requires
            x > 0,
            d > 0,
    ;
}

/// `+` on strings concatenates them.
pub proof fn law_string_concatenation(s: Seq<char>, t: Seq<char>)
    ensures
        infix_result(Infix::Plus, ObjectV::Str(s), ObjectV::Str(t)) == Some(ObjectV::Str(s + t)),
{
}

/// `!` negates a boolean, prefix `+` keeps an integer, and prefix `-` gives
/// the integer that adds up with it to zero (evaluation stops on the one
/// integer whose negation does not fit).
pub proof fn law_prefix_operators(i: i64, b: bool)
    ensures
        prefix_result(Prefix::Not, ObjectV::Boolean(b)) == Some(ObjectV::Boolean(!b)),
        prefix_result(Prefix::PrefixPlus, ObjectV::Integer(i)) == Some(ObjectV::Integer(i)),
        i != i64::MIN ==> (prefix_result(Prefix::PrefixMinus, ObjectV::Integer(i)) matches Some(
            ObjectV::Integer(j),
        ) && j + i == 0),
        i == i64::MIN ==> prefix_result(Prefix::PrefixMinus, ObjectV::Integer(i)) is None,
{
}

/// Negating twice gives the integer back.
pub proof fn law_negation_involution(i: i64)
    requires
        i != i64::MIN,
    ensures
        prefix_result(Prefix::PrefixMinus, ObjectV::Integer(i)) matches Some(ObjectV::Integer(j))
            && prefix_result(Prefix::PrefixMinus, ObjectV::Integer(j)) == Some(
            ObjectV::Integer(i),
        ),
{
    law_prefix_operators(i, true);
    let j = (-i) as i64;
    law_prefix_operators(j, true);
}

// ---------------------------------------------------------------------------
// Equality of values, element by element.

/// Integers, booleans and strings are equal exactly when they are the same;
/// values of different kinds are never equal.
pub proof fn law_equal_plain_values(a: i64, b: i64, p: bool, q: bool, s: Seq<char>, t: Seq<char>)
    ensures
        obj_eq(ObjectV::Integer(a), ObjectV::Integer(b)) <==> a == b,
        obj_eq(ObjectV::Boolean(p), ObjectV::Boolean(q)) <==> p == q,
        obj_eq(ObjectV::Str(s), ObjectV::Str(t)) <==> s == t,
        obj_eq(ObjectV::Null, ObjectV::Null),
        !obj_eq(ObjectV::Integer(a), ObjectV::Boolean(p)),
        !obj_eq(ObjectV::Integer(a), ObjectV::Str(s)),
        !obj_eq(ObjectV::Boolean(p), ObjectV::Str(s)),
        !obj_eq(ObjectV::Integer(a), ObjectV::Null),
{
}

/// Arrays are equal exactly when they have the same length and are equal
/// element by element.
pub proof fn law_equal_arrays(x: Seq<ObjectV>, y: Seq<ObjectV>)
    ensures
        obj_eq(ObjectV::Array(x), ObjectV::Array(y)) <==> (x.len() == y.len() && forall|i: int|
            0 <= i < x.len() ==> obj_eq(#[trigger] x[i], y[i])),
{
    if x.len() == y.len() && forall|i: int| 0 <= i < x.len() ==> obj_eq(#[trigger] x[i], y[i]) {
        assert forall|i: int| 0 <= i < x.len() implies obj_eq(x[i], #[trigger] y[i]) by {
            assert(obj_eq(x[i], y[i]));
        }
    }
}

/// Two arrays of one integer each are equal exactly when the integers are.
pub proof fn law_equal_singleton_arrays(a: i64, b: i64)
    ensures
        obj_eq(
            ObjectV::Array(seq![ObjectV::Integer(a)]),
            ObjectV::Array(seq![ObjectV::Integer(b)]),
        ) <==> a == b,
{
    let x = seq![ObjectV::Integer(a)];
    let y = seq![ObjectV::Integer(b)];
    law_equal_arrays(x, y);
    law_equal_plain_values(a, b, true, true, Seq::empty(), Seq::empty());
    assert(x[0] == ObjectV::Integer(a) && y[0] == ObjectV::Integer(b));
    if a == b {
        assert forall|i: int| 0 <= i < x.len() implies obj_eq(#[trigger] x[i], y[i]) by {
            assert(i == 0);
        }
    }
}

// ---------------------------------------------------------------------------
// Reading names through the chain of enclosing scopes, and binding
// parameters.

/// A name a scope does not bind reads as it does in the scope around it.
pub proof fn law_lookup_falls_to_outer(scopes: Seq<ScopeV>, idx: int, o: nat, name: Seq<char>)
    requires
        0 <= idx < scopes.len(),
        assoc_lookup(scopes[idx].store, name) is None,
        scopes[idx].outer == Some(o),
        o < idx,
    ensures
        scope_get(scopes, idx, name) == scope_get(scopes, o as int, name),
{
}

/// Following a chain of scopes, each the outer scope of the one before, a
/// name that none of the first binds and the last binds to `v` reads as `v`
/// from the first, however long the chain.
pub proof fn law_lookup_through_outer_scopes(
    scopes: Seq<ScopeV>,
    chain: Seq<nat>,
    name: Seq<char>,
    v: ObjectV,
)
    requires
        chain.len() > 0,
        forall|k: int| 0 <= k < chain.len() ==> #[trigger] chain[k] < scopes.len(),
        forall|k: int|
            0 <= k < chain.len() - 1 ==> scopes[#[trigger] chain[k] as int].outer == Some(
                chain[k + 1],
            ) && chain[k + 1] < chain[k],
        forall|k: int|
            0 <= k < chain.len() - 1 ==> assoc_lookup(scopes[#[trigger] chain[k] as int].store, name)
                is None,
        assoc_lookup(scopes[chain[chain.len() - 1] as int].store, name) == Some(v),
    ensures
        scope_get(scopes, chain[0] as int, name) == Some(v),
    decreases chain.len(),
{
    if chain.len() > 1 {
        let rest = chain.drop_first();
        assert(chain[0] < scopes.len());
        assert(scopes[chain[0] as int].outer == Some(chain[1]) && chain[1] < chain[0]);
        assert(assoc_lookup(scopes[chain[0] as int].store, name) is None);
        assert forall|k: int| 0 <= k < rest.len() implies #[trigger] rest[k] < scopes.len() by {
            assert(rest[k] == chain[k + 1]);
        }
        assert forall|k: int| 0 <= k < rest.len() - 1 implies scopes[#[trigger] rest[k] as int].outer
            == Some(rest[k + 1]) && rest[k + 1] < rest[k] by {
            assert(rest[k] == chain[k + 1]);
            assert(rest[k + 1] == chain[k + 2]);
        }
        assert forall|k: int| 0 <= k < rest.len() - 1 implies assoc_lookup(
            scopes[#[trigger] rest[k] as int].store,
            name,
        ) is None by {
            assert(rest[k] == chain[k + 1]);
        }
        law_lookup_through_outer_scopes(scopes, rest, name, v);
        law_lookup_falls_to_outer(scopes, chain[0] as int, chain[1], name);
    } else {
        assert(chain[0] < scopes.len());
    }
}

/// Binding parameters to arguments: each parameter (the names being
/// distinct) reads back as the argument in its position.
pub proof fn law_bind_params_reads_back(e: EnvV, params: Seq<Seq<char>>, vals: Seq<ObjectV>)
    requires
        env_wf(e),
        params.len() == vals.len(),
        forall|i: int, j: int| 0 <= i < j < params.len() ==> params[i] != params[j],
    ensures
        forall|i: int|
            0 <= i < params.len() ==> env_get(bind_params(e, params, vals), #[trigger] params[i])
                == Some(vals[i]),
    decreases params.len(),
{
    if params.len() > 0 {
        let p = params.drop_last();
        let v = vals.drop_last();
        let last = params.len() - 1;
        let inner = bind_params(e, p, v);
        law_bind_params_reads_back(e, p, v);
        lemma_frame_bind(e, p, v);
        assert forall|i: int| 0 <= i < params.len() implies env_get(
            bind_params(e, params, vals),
            #[trigger] params[i],
        ) == Some(vals[i]) by {
            if i == last {
                law_env_get_after_set(inner, params[last], vals[last]);
            } else {
                assert(p[i] == params[i]);
                assert(v[i] == vals[i]);
                assert(params[i] != params[last]);
                law_env_get_other_after_set(inner, params[last], params[i], vals[last]);
            }
        }
    }
}

// ---------------------------------------------------------------------------
// Indexing, names and errors.

/// An array indexed by an integer gives the element at that position, and
/// `null` at any position outside it, negative ones included.
pub proof fn law_index_array(x: Seq<ObjectV>, k: i64)
    ensures
        0 <= k < x.len() ==> index_result(ObjectV::Array(x), ObjectV::Integer(k)) == x[k as int],
        !(0 <= k < x.len()) ==> index_result(ObjectV::Array(x), ObjectV::Integer(k))
            == ObjectV::Null,
{
}

/// A hash indexed by an integer key gives the value of its last entry with
/// that key, and `null` when it has none.
pub proof fn law_index_hash_by_integer(h: Seq<(crate::object::HashKeyV, ObjectV)>, k: i64)
    ensures
        ({
            let key = crate::object::HashKeyV::Integer(k);
            let r = index_result(ObjectV::Hash(h), ObjectV::Integer(k));
            &&& (exists|i: int| 0 <= i < h.len() && h[i].0 == key) ==> exists|i: int|
                #![trigger h[i]]
                0 <= i < h.len() && h[i].0 == key && r == h[i].1 && forall|j: int|
                    i < j < h.len() ==> h[j].0 != key
            &&& (forall|i: int| 0 <= i < h.len() ==> h[i].0 != key) ==> r == ObjectV::Null
        }),
{
    let key = crate::object::HashKeyV::Integer(k);
    lemma_assoc_index(h, key);
}

/// A bound name reads as its value.
pub proof fn law_ident_reads_binding(env: EnvV, name: Seq<char>, v: ObjectV)
    requires
        env_get(env, name) == Some(v),
    ensures
        ident_value(env, name) == v,
{
}

/// An error on either side of an arithmetic operator or a comparison is the
/// answer, unchanged.
pub proof fn law_errors_pass_through(op: Infix, m: Seq<char>, y: ObjectV)
    requires
        op != Infix::Equal,
        op != Infix::NotEqual,
    ensures
        infix_result(op, ObjectV::Error(m), y) == Some(ObjectV::Error(m)),
        infix_result(op, ObjectV::Integer(0), ObjectV::Error(m)) == Some(ObjectV::Error(m)),
{
}

// ---------------------------------------------------------------------------
// Control: conditionals and `return`.

/// A true condition runs the consequence, a false one the alternative (or
/// gives `null` without one), in the environment the condition left.
pub proof fn law_if_chooses_branch(
    n: nat,
    env: EnvV,
    c: ExprV,
    t: Seq<StmtV>,
    alt: Option<Seq<StmtV>>,
    env1: EnvV,
    b: bool,
)
    requires
        sem_expr(n, env, c) == Some((env1, ObjectV::Boolean(b))),
    ensures
        b ==> sem_if(n, env, c, t, alt) == sem_block(n, env1, t),
        !b && alt is None ==> sem_if(n, env, c, t, alt) == Some((env1, ObjectV::Null)),
        !b && alt is Some ==> sem_if(n, env, c, t, alt) == sem_block(n, env1, alt->0),
{
    unfold_sem_if(n, env, c, t, alt);
}

/// `return e` ends a block with the value of `e`, marked as returned,
/// whatever statements follow it; a program then gives the value itself.
pub proof fn law_return_ends_block(n: nat, env: EnvV, e: ExprV, rest: Seq<StmtV>, env1: EnvV, v: ObjectV)
    requires
        sem_expr(n, env, e) == Some((env1, v)),
    ensures
        sem_block(n, env, seq![StmtV::Return(e)] + rest) == Some(
            (env1, ObjectV::ReturnValue(Box::new(v))),
        ),
        sem_program(n, env, seq![StmtV::Return(e)] + rest) == Some((env1, v)),
{
    let b = seq![StmtV::Return(e)] + rest;
    assert(b[0] == StmtV::Return(e));
    unfold_sem_block(n, env, b);
    unfold_sem_stmt(n, env, StmtV::Return(e));
    unfold_sem_program(n, env, b);
}

} // verus!
