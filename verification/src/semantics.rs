//! The meaning of Monkey programs, as mathematical functions on the models.
//!
//! Each function takes a fuel `n`: a bound on the depth of nested function
//! calls. `None` stands for an evaluation that does not finish within that
//! bound, or that stops on an arithmetic fault (overflow, division by zero),
//! where the evaluator panics, or that would make more scopes than memory can
//! count. An evaluation that finishes gives the environment after it and the
//! value it produced.
use vstd::prelude::*;

use crate::ast::{block_size, expr_size, exprs_size, pairs_size, stmt_size, ExprV, Infix, LiteralV, Prefix, StmtV};
use crate::environment::{enter_scope, env_get, env_set, leave_scope, EnvV};
use crate::object::{assoc_lookup, assoc_set, display, key_of, obj_eq, returned, HashKeyV, ObjectV};
use crate::text::digits;

verus! {

// ---------------------------------------------------------------------------
// Messages of the errors that evaluation produces.

pub open spec fn not_found_msg(name: Seq<char>) -> Seq<char> {
    "identifier not found: "@ + name
}

pub open spec fn not_bool_msg(o: ObjectV) -> Seq<char> {
    display(o) + " is not a bool"@
}

pub open spec fn not_int_msg(o: ObjectV) -> Seq<char> {
    display(o) + " is not an integer"@
}

pub open spec fn not_fn_msg(o: ObjectV) -> Seq<char> {
    display(o) + " is not a valid function"@
}

pub open spec fn not_hashable_msg(o: ObjectV) -> Seq<char> {
    display(o) + " is not hashable"@
}

pub open spec fn not_addable_msg(x: ObjectV, y: ObjectV) -> Seq<char> {
    display(x) + " and "@ + display(y) + " are not addable"@
}

pub open spec fn arity_msg(expected: nat, given: nat) -> Seq<char> {
    "wrong number of arguments: "@ + digits(expected) + " expected but "@ + digits(given)
        + " given"@
}

pub open spec fn index_target_msg(o: ObjectV) -> Seq<char> {
    "unexpected index target: "@ + display(o)
}

// ---------------------------------------------------------------------------
// Conversions of values.

/// A value as a boolean, or the error to answer with.
pub open spec fn spec_otb(o: ObjectV) -> Result<bool, ObjectV> {
    match o {
        ObjectV::Boolean(b) => Ok(b),
        ObjectV::Error(s) => Err(ObjectV::Error(s)),
        _ => Err(ObjectV::Error(not_bool_msg(o))),
    }
}

/// A value as an integer, or the error to answer with.
pub open spec fn spec_oti(o: ObjectV) -> Result<i64, ObjectV> {
    match o {
        ObjectV::Integer(i) => Ok(i),
        ObjectV::Error(s) => Err(ObjectV::Error(s)),
        _ => Err(ObjectV::Error(not_int_msg(o))),
    }
}

/// A value that can be called, or the error to answer with.
pub open spec fn spec_otf(o: ObjectV) -> ObjectV {
    match o {
        ObjectV::Function(_, _, _) => o,
        ObjectV::Builtin(_, _) => o,
        ObjectV::Error(s) => ObjectV::Error(s),
        _ => ObjectV::Error(not_fn_msg(o)),
    }
}

/// A value that can be a hash key, or the error to answer with.
pub open spec fn spec_oth(o: ObjectV) -> ObjectV {
    match o {
        ObjectV::Integer(i) => ObjectV::Integer(i),
        ObjectV::Boolean(b) => ObjectV::Boolean(b),
        ObjectV::Str(s) => ObjectV::Str(s),
        ObjectV::Error(s) => ObjectV::Error(s),
        _ => ObjectV::Error(not_hashable_msg(o)),
    }
}

/// The value of a literal.
pub open spec fn literal_object(l: LiteralV) -> ObjectV {
    match l {
        LiteralV::Int(i) => ObjectV::Integer(i),
        LiteralV::Bool(b) => ObjectV::Boolean(b),
        LiteralV::Str(s) => ObjectV::Str(s),
    }
}

/// The value of a literal used as a hash key.
pub open spec fn spec_l2h(l: LiteralV) -> ObjectV {
    spec_oth(literal_object(l))
}

/// The value of a name: what it is bound to, or an error.
pub open spec fn ident_value(env: EnvV, name: Seq<char>) -> ObjectV {
    match env_get(env, name) {
        Some(o) => o,
        None => ObjectV::Error(not_found_msg(name)),
    }
}

/// The value of a program: a returned value is unwrapped.
pub open spec fn unwrap_return(o: ObjectV) -> ObjectV {
    match o {
        ObjectV::ReturnValue(x) => *x,
        _ => o,
    }
}

// ---------------------------------------------------------------------------
// Operators. `None` is an arithmetic fault.

/// `+` on two values: integers add, strings concatenate.
pub open spec fn add_result(x: ObjectV, y: ObjectV) -> Option<ObjectV> {
    match (x, y) {
        (ObjectV::Integer(a), ObjectV::Integer(b)) => match a.checked_add(b) {
            Some(c) => Some(ObjectV::Integer(c)),
            None => None,
        },
        (ObjectV::Str(a), ObjectV::Str(b)) => Some(ObjectV::Str(a + b)),
        (ObjectV::Error(s), _) => Some(ObjectV::Error(s)),
        (_, ObjectV::Error(s)) => Some(ObjectV::Error(s)),
        _ => Some(ObjectV::Error(not_addable_msg(x, y))),
    }
}

/// An operator other than `+`, `==` and `!=` on two integers. Division rounds
/// toward zero.
pub open spec fn int_result(op: Infix, a: i64, b: i64) -> Option<ObjectV> {
    match op {
        Infix::Minus => match a.checked_sub(b) {
            Some(c) => Some(ObjectV::Integer(c)),
            None => None,
        },
        Infix::Multiply => match a.checked_mul(b) {
            Some(c) => Some(ObjectV::Integer(c)),
            None => None,
        },
        Infix::Divide => match a.checked_div(b) {
            Some(c) => Some(ObjectV::Integer(c)),
            None => None,
        },
        Infix::GreaterThanEqual => Some(ObjectV::Boolean(a >= b)),
        Infix::GreaterThan => Some(ObjectV::Boolean(a > b)),
        Infix::LessThanEqual => Some(ObjectV::Boolean(a <= b)),
        Infix::LessThan => Some(ObjectV::Boolean(a < b)),
        _ => None,
    }
}

/// A binary operator on two values.
pub open spec fn infix_result(op: Infix, x: ObjectV, y: ObjectV) -> Option<ObjectV> {
    match op {
        Infix::Plus => add_result(x, y),
        Infix::Equal => Some(ObjectV::Boolean(obj_eq(x, y))),
        Infix::NotEqual => Some(ObjectV::Boolean(!obj_eq(x, y))),
        _ => match spec_oti(x) {
            Ok(a) => match spec_oti(y) {
                Ok(b) => int_result(op, a, b),
                Err(e) => Some(e),
            },
            Err(e) => Some(e),
        },
    }
}

/// A prefix operator on a value.
pub open spec fn prefix_result(p: Prefix, x: ObjectV) -> Option<ObjectV> {
    match p {
        Prefix::Not => match spec_otb(x) {
            Ok(b) => Some(ObjectV::Boolean(!b)),
            Err(e) => Some(e),
        },
        Prefix::PrefixPlus => match spec_oti(x) {
            Ok(i) => Some(ObjectV::Integer(i)),
            Err(e) => Some(e),
        },
        Prefix::PrefixMinus => match spec_oti(x) {
            Ok(i) => if i == i64::MIN {
                None
            } else {
                Some(ObjectV::Integer((-i) as i64))
            },
            Err(e) => Some(e),
        },
    }
}

/// `target[index]`: the element of an array, or `null` outside it; the value
/// of a key in a hash, or `null` for a key that is absent or not hashable.
pub open spec fn index_result(target: ObjectV, index: ObjectV) -> ObjectV {
    match target {
        ObjectV::Array(arr) => match spec_oti(index) {
            Ok(k) => if 0 <= k < arr.len() {
                arr[k as int]
            } else {
                ObjectV::Null
            },
            Err(e) => e,
        },
        ObjectV::Hash(h) => match key_of(spec_oth(index)) {
            Some(key) => match assoc_lookup(h, key) {
                Some(v) => v,
                None => ObjectV::Null,
            },
            None => ObjectV::Null,
        },
        _ => ObjectV::Error(index_target_msg(target)),
    }
}

/// A built-in function with `expected` parameters, called with `given`
/// arguments: the arguments are not evaluated.
pub open spec fn builtin_result(expected: nat, given: nat) -> ObjectV {
    if given != expected {
        ObjectV::Error(arity_msg(expected, given))
    } else {
        ObjectV::Null
    }
}

/// Binds each parameter to its argument, in order.
pub open spec fn bind_params(env: EnvV, params: Seq<Seq<char>>, vals: Seq<ObjectV>) -> EnvV
    decreases params.len(),
{
    if params.len() == 0 || vals.len() == 0 {
        env
    } else {
        env_set(
            bind_params(env, params.drop_last(), vals.drop_last()),
            params.last(),
            vals.last(),
        )
    }
}

// ---------------------------------------------------------------------------
// Evaluation.

/// A block: its statements in order, until one gives a returned value or an
/// error; the value of the last statement, or `null` for an empty block.
pub closed spec fn sem_block(n: nat, env: EnvV, b: Seq<StmtV>) -> Option<(EnvV, ObjectV)>
    decreases n, block_size(b),
{
    if b.len() == 0 {
        Some((env, ObjectV::Null))
    } else if b.len() == 1 {
        sem_stmt(n, env, b[0])
    } else {
        match sem_stmt(n, env, b[0]) {
            Some((env1, o)) => if returned(o) {
                Some((env1, o))
            } else {
                sem_block(n, env1, b.subrange(1, b.len() as int))
            },
            None => None,
        }
    }
}

/// A statement: `let` binds the name in the current scope and gives the value.
pub closed spec fn sem_stmt(n: nat, env: EnvV, s: StmtV) -> Option<(EnvV, ObjectV)>
    decreases n, stmt_size(s),
{
    match s {
        StmtV::Expr(e) => sem_expr(n, env, e),
        StmtV::Return(e) => match sem_expr(n, env, e) {
            Some((env1, o)) => Some((env1, ObjectV::ReturnValue(Box::new(o)))),
            None => None,
        },
        StmtV::Let(name, e) => match sem_expr(n, env, e) {
            Some((env1, o)) => Some((env_set(env1, name, o), o)),
            None => None,
        },
    }
}

/// An expression.
pub closed spec fn sem_expr(n: nat, env: EnvV, e: ExprV) -> Option<(EnvV, ObjectV)>
    decreases n, expr_size(e),
{
    match e {
        ExprV::Ident(name) => Some((env, ident_value(env, name))),
        ExprV::Lit(l) => Some((env, literal_object(l))),
        ExprV::Prefix(p, x) => sem_prefix(n, env, p, *x),
        ExprV::Infix(op, a, b) => sem_infix(n, env, op, *a, *b),
        ExprV::If(c, t, alt) => sem_if(n, env, *c, t, alt),
        ExprV::Func(params, body) => Some((env, ObjectV::Function(params, body, env.current))),
        ExprV::Call(f, args) => sem_call(n, env, *f, args),
        ExprV::Array(es) => sem_array(n, env, es),
        ExprV::Hash(ps) => sem_hash(n, env, ps),
        ExprV::Index(a, i) => sem_index(n, env, *a, *i),
    }
}

pub closed spec fn sem_prefix(n: nat, env: EnvV, p: Prefix, x: ExprV) -> Option<(EnvV, ObjectV)>
    decreases n, expr_size(x) + 1,
{
    match sem_expr(n, env, x) {
        Some((env1, o)) => match prefix_result(p, o) {
            Some(r) => Some((env1, r)),
            None => None,
        },
        None => None,
    }
}

/// Both operands are evaluated, left first; then the operator applies.
pub closed spec fn sem_infix(n: nat, env: EnvV, op: Infix, a: ExprV, b: ExprV) -> Option<
    (EnvV, ObjectV),
>
    decreases n, expr_size(a) + expr_size(b) + 1,
{
    match sem_expr(n, env, a) {
        Some((env1, x)) => match sem_expr(n, env1, b) {
            Some((env2, y)) => match infix_result(op, x, y) {
                Some(r) => Some((env2, r)),
                None => None,
            },
            None => None,
        },
        None => None,
    }
}

pub open spec fn opt_block_size(alt: Option<Seq<StmtV>>) -> nat {
    match alt {
        Some(a) => block_size(a),
        None => 0,
    }
}

/// A conditional: the condition must be a boolean; without an alternative a
/// false condition gives `null`. The branches run in the current scope.
pub closed spec fn sem_if(n: nat, env: EnvV, c: ExprV, t: Seq<StmtV>, alt: Option<Seq<StmtV>>) -> Option<
    (EnvV, ObjectV),
>
    decreases n, expr_size(c) + block_size(t) + opt_block_size(alt) + 1,
{
    match sem_expr(n, env, c) {
        Some((env1, o)) => match spec_otb(o) {
            Ok(b) => if b {
                sem_block(n, env1, t)
            } else {
                match alt {
                    Some(a) => sem_block(n, env1, a),
                    None => Some((env1, ObjectV::Null)),
                }
            },
            Err(e) => Some((env1, e)),
        },
        None => None,
    }
}

/// A call: the callee is evaluated first.
pub closed spec fn sem_call(n: nat, env: EnvV, f: ExprV, args: Seq<ExprV>) -> Option<(EnvV, ObjectV)>
    decreases n, expr_size(f) + exprs_size(args) + 1,
{
    match sem_expr(n, env, f) {
        Some((env1, fo)) => match spec_otf(fo) {
            ObjectV::Function(params, body, fscope) => sem_fn_call(n, env1, args, params, body, fscope),
            ObjectV::Builtin(_, k) => Some((env1, builtin_result(k as nat, args.len()))),
            e => Some((env1, e)),
        },
        None => None,
    }
}

/// A call of a function value: with the right number of arguments, they are
/// evaluated in order, and the body runs in a new scope inside the scope the
/// function was made in (as that scope stands now), with the parameters
/// bound. Then the caller's scope is current again; the new scope stays in
/// the arena, since functions made in it refer to it. No more scopes can be
/// made once there are `usize::MAX` of them: that is a machine limit.
pub closed spec fn sem_fn_call(
    n: nat,
    env: EnvV,
    args: Seq<ExprV>,
    params: Seq<Seq<char>>,
    body: Seq<StmtV>,
    fscope: nat,
) -> Option<(EnvV, ObjectV)>
    decreases n, exprs_size(args) + 1,
{
    if args.len() != params.len() {
        Some((env, ObjectV::Error(arity_msg(params.len(), args.len()))))
    } else {
        match sem_exprs(n, env, args) {
            Some((env1, vals)) => if n == 0 || env1.scopes.len() >= usize::MAX {
                None
            } else {
                match sem_block((n - 1) as nat, bind_params(enter_scope(env1, fscope), params, vals), body) {
                    Some((env2, o)) => Some((leave_scope(env2, env1.current), o)),
                    None => None,
                }
            },
            None => None,
        }
    }
}

/// A list of expressions, evaluated in order.
pub closed spec fn sem_exprs(n: nat, env: EnvV, s: Seq<ExprV>) -> Option<(EnvV, Seq<ObjectV>)>
    decreases n, exprs_size(s),
{
    if s.len() == 0 {
        Some((env, Seq::empty()))
    } else {
        match sem_exprs(n, env, s.subrange(0, s.len() - 1)) {
            Some((env1, vals)) => match sem_expr(n, env1, s[s.len() - 1]) {
                Some((env2, v)) => Some((env2, vals.push(v))),
                None => None,
            },
            None => None,
        }
    }
}

pub closed spec fn sem_array(n: nat, env: EnvV, es: Seq<ExprV>) -> Option<(EnvV, ObjectV)>
    decreases n, exprs_size(es) + 1,
{
    match sem_exprs(n, env, es) {
        Some((env1, vals)) => Some((env1, ObjectV::Array(vals))),
        None => None,
    }
}

/// An entry of a hash literal: its key as a value, and its value.
pub closed spec fn sem_pair(n: nat, env: EnvV, p: (LiteralV, ExprV)) -> Option<
    (EnvV, (ObjectV, ObjectV)),
>
    decreases n, expr_size(p.1) + 1,
{
    match sem_expr(n, env, p.1) {
        Some((env1, o)) => Some((env1, (spec_l2h(p.0), o))),
        None => None,
    }
}

/// The entries of a hash literal, in order; a later entry for a key replaces
/// the value of an earlier one.
pub closed spec fn sem_pairs(n: nat, env: EnvV, ps: Seq<(LiteralV, ExprV)>) -> Option<
    (EnvV, Seq<(HashKeyV, ObjectV)>),
>
    decreases n, pairs_size(ps),
{
    if ps.len() == 0 {
        Some((env, Seq::empty()))
    } else {
        match sem_pairs(n, env, ps.subrange(0, ps.len() - 1)) {
            Some((env1, entries)) => match sem_pair(n, env1, ps[ps.len() - 1]) {
                Some((env2, (k, v))) => match key_of(k) {
                    Some(key) => Some((env2, assoc_set(entries, key, v))),
                    None => Some((env2, entries)),
                },
                None => None,
            },
            None => None,
        }
    }
}

pub closed spec fn sem_hash(n: nat, env: EnvV, ps: Seq<(LiteralV, ExprV)>) -> Option<(EnvV, ObjectV)>
    decreases n, pairs_size(ps) + 1,
{
    match sem_pairs(n, env, ps) {
        Some((env1, entries)) => Some((env1, ObjectV::Hash(entries))),
        None => None,
    }
}

/// An index expression: the target is evaluated first, then the index.
pub closed spec fn sem_index(n: nat, env: EnvV, a: ExprV, i: ExprV) -> Option<(EnvV, ObjectV)>
    decreases n, expr_size(a) + expr_size(i) + 1,
{
    match sem_expr(n, env, a) {
        Some((env1, t)) => match sem_expr(n, env1, i) {
            Some((env2, ix)) => Some((env2, index_result(t, ix))),
            None => None,
        },
        None => None,
    }
}

/// A program: a block whose returned value is unwrapped.
pub closed spec fn sem_program(n: nat, env: EnvV, p: Seq<StmtV>) -> Option<(EnvV, ObjectV)> {
    match sem_block(n, env, p) {
        Some((env1, o)) => Some((env1, unwrap_return(o))),
        None => None,
    }
}

// ---------------------------------------------------------------------------
// Fuel. An evaluation finishes when some fuel is enough for it; the least
// such fuel measures the recursion of the evaluator.

/// The least number that satisfies `p`, where one does.
pub closed spec fn least(p: spec_fn(nat) -> bool) -> nat {
    choose|m: nat| #[trigger] p(m) && forall|k: nat| k < m ==> !#[trigger] p(k)
}

pub proof fn lemma_least(p: spec_fn(nat) -> bool, n: nat)
    requires
        p(n),
    ensures
        p(least(p)),
        least(p) <= n,
    decreases n,
{
    if exists|k: nat| k < n && #[trigger] p(k) {
        let k = choose|k: nat| k < n && #[trigger] p(k);
        lemma_least(p, k);
    } else {
        assert(p(n) && forall|k: nat| k < n ==> !#[trigger] p(k));
    }
}

pub open spec fn block_ok(env: EnvV, b: Seq<StmtV>) -> spec_fn(nat) -> bool {
    |n: nat| sem_block(n, env, b) is Some
}

pub open spec fn block_fuel(env: EnvV, b: Seq<StmtV>) -> nat {
    least(block_ok(env, b))
}

pub open spec fn block_finishes(env: EnvV, b: Seq<StmtV>) -> bool {
    exists|n: nat| sem_block(n, env, b) is Some
}

pub open spec fn stmt_ok(env: EnvV, s: StmtV) -> spec_fn(nat) -> bool {
    |n: nat| sem_stmt(n, env, s) is Some
}

pub open spec fn stmt_fuel(env: EnvV, s: StmtV) -> nat {
    least(stmt_ok(env, s))
}

pub open spec fn stmt_finishes(env: EnvV, s: StmtV) -> bool {
    exists|n: nat| sem_stmt(n, env, s) is Some
}

pub open spec fn expr_ok(env: EnvV, e: ExprV) -> spec_fn(nat) -> bool {
    |n: nat| sem_expr(n, env, e) is Some
}

pub open spec fn expr_fuel(env: EnvV, e: ExprV) -> nat {
    least(expr_ok(env, e))
}

pub open spec fn expr_finishes(env: EnvV, e: ExprV) -> bool {
    exists|n: nat| sem_expr(n, env, e) is Some
}

pub open spec fn prefix_ok(env: EnvV, p: Prefix, x: ExprV) -> spec_fn(nat) -> bool {
    |n: nat| sem_prefix(n, env, p, x) is Some
}

pub open spec fn prefix_fuel(env: EnvV, p: Prefix, x: ExprV) -> nat {
    least(prefix_ok(env, p, x))
}

pub open spec fn prefix_finishes(env: EnvV, p: Prefix, x: ExprV) -> bool {
    exists|n: nat| sem_prefix(n, env, p, x) is Some
}

pub open spec fn infix_ok(env: EnvV, op: Infix, a: ExprV, b: ExprV) -> spec_fn(nat) -> bool {
    |n: nat| sem_infix(n, env, op, a, b) is Some
}

pub open spec fn infix_fuel(env: EnvV, op: Infix, a: ExprV, b: ExprV) -> nat {
    least(infix_ok(env, op, a, b))
}

pub open spec fn infix_finishes(env: EnvV, op: Infix, a: ExprV, b: ExprV) -> bool {
    exists|n: nat| sem_infix(n, env, op, a, b) is Some
}

pub open spec fn if_ok(env: EnvV, c: ExprV, t: Seq<StmtV>, alt: Option<Seq<StmtV>>) -> spec_fn(nat) -> bool {
    |n: nat| sem_if(n, env, c, t, alt) is Some
}

pub open spec fn if_fuel(env: EnvV, c: ExprV, t: Seq<StmtV>, alt: Option<Seq<StmtV>>) -> nat {
    least(if_ok(env, c, t, alt))
}

pub open spec fn if_finishes(env: EnvV, c: ExprV, t: Seq<StmtV>, alt: Option<Seq<StmtV>>) -> bool {
    exists|n: nat| sem_if(n, env, c, t, alt) is Some
}

pub open spec fn call_ok(env: EnvV, f: ExprV, args: Seq<ExprV>) -> spec_fn(nat) -> bool {
    |n: nat| sem_call(n, env, f, args) is Some
}

pub open spec fn call_fuel(env: EnvV, f: ExprV, args: Seq<ExprV>) -> nat {
    least(call_ok(env, f, args))
}

pub open spec fn call_finishes(env: EnvV, f: ExprV, args: Seq<ExprV>) -> bool {
    exists|n: nat| sem_call(n, env, f, args) is Some
}

pub open spec fn fn_call_ok(env: EnvV, args: Seq<ExprV>, params: Seq<Seq<char>>, body: Seq<StmtV>, fscope: nat) -> spec_fn(nat) -> bool {
    |n: nat| sem_fn_call(n, env, args, params, body, fscope) is Some
}

pub open spec fn fn_call_fuel(env: EnvV, args: Seq<ExprV>, params: Seq<Seq<char>>, body: Seq<StmtV>, fscope: nat) -> nat {
    least(fn_call_ok(env, args, params, body, fscope))
}

pub open spec fn fn_call_finishes(env: EnvV, args: Seq<ExprV>, params: Seq<Seq<char>>, body: Seq<StmtV>, fscope: nat) -> bool {
    exists|n: nat| sem_fn_call(n, env, args, params, body, fscope) is Some
}

pub open spec fn exprs_ok(env: EnvV, es: Seq<ExprV>) -> spec_fn(nat) -> bool {
    |n: nat| sem_exprs(n, env, es) is Some
}

pub open spec fn exprs_fuel(env: EnvV, es: Seq<ExprV>) -> nat {
    least(exprs_ok(env, es))
}

pub open spec fn exprs_finishes(env: EnvV, es: Seq<ExprV>) -> bool {
    exists|n: nat| sem_exprs(n, env, es) is Some
}

pub open spec fn array_ok(env: EnvV, es: Seq<ExprV>) -> spec_fn(nat) -> bool {
    |n: nat| sem_array(n, env, es) is Some
}

pub open spec fn array_fuel(env: EnvV, es: Seq<ExprV>) -> nat {
    least(array_ok(env, es))
}

pub open spec fn array_finishes(env: EnvV, es: Seq<ExprV>) -> bool {
    exists|n: nat| sem_array(n, env, es) is Some
}

pub open spec fn hash_ok(env: EnvV, ps: Seq<(LiteralV, ExprV)>) -> spec_fn(nat) -> bool {
    |n: nat| sem_hash(n, env, ps) is Some
}

pub open spec fn hash_fuel(env: EnvV, ps: Seq<(LiteralV, ExprV)>) -> nat {
    least(hash_ok(env, ps))
}

pub open spec fn hash_finishes(env: EnvV, ps: Seq<(LiteralV, ExprV)>) -> bool {
    exists|n: nat| sem_hash(n, env, ps) is Some
}

pub open spec fn pair_ok(env: EnvV, p: (LiteralV, ExprV)) -> spec_fn(nat) -> bool {
    |n: nat| sem_pair(n, env, p) is Some
}

pub open spec fn pair_fuel(env: EnvV, p: (LiteralV, ExprV)) -> nat {
    least(pair_ok(env, p))
}

pub open spec fn pair_finishes(env: EnvV, p: (LiteralV, ExprV)) -> bool {
    exists|n: nat| sem_pair(n, env, p) is Some
}

pub open spec fn index_ok(env: EnvV, a: ExprV, i: ExprV) -> spec_fn(nat) -> bool {
    |n: nat| sem_index(n, env, a, i) is Some
}

pub open spec fn index_fuel(env: EnvV, a: ExprV, i: ExprV) -> nat {
    least(index_ok(env, a, i))
}

pub open spec fn index_finishes(env: EnvV, a: ExprV, i: ExprV) -> bool {
    exists|n: nat| sem_index(n, env, a, i) is Some
}

pub open spec fn program_finishes(env: EnvV, p: Seq<StmtV>) -> bool {
    exists|n: nat| sem_program(n, env, p) is Some
}

// ---------------------------------------------------------------------------
// One step of each evaluation function, as an equation.

pub proof fn unfold_sem_block(n: nat, env: EnvV, b: Seq<StmtV>)
    ensures
        sem_block(n, env, b) == ({
        if b.len() == 0 {
            Some((env, ObjectV::Null))
        } else if b.len() == 1 {
            sem_stmt(n, env, b[0])
        } else {
            match sem_stmt(n, env, b[0]) {
                Some((env1, o)) => if returned(o) {
                    Some((env1, o))
                } else {
                    sem_block(n, env1, b.subrange(1, b.len() as int))
                },
                None => None,
            }
        }
        }),
{
}

pub proof fn unfold_sem_stmt(n: nat, env: EnvV, s: StmtV)
    ensures
        sem_stmt(n, env, s) == ({
        match s {
            StmtV::Expr(e) => sem_expr(n, env, e),
            StmtV::Return(e) => match sem_expr(n, env, e) {
                Some((env1, o)) => Some((env1, ObjectV::ReturnValue(Box::new(o)))),
                None => None,
            },
            StmtV::Let(name, e) => match sem_expr(n, env, e) {
                Some((env1, o)) => Some((env_set(env1, name, o), o)),
                None => None,
            },
        }
        }),
{
}

pub proof fn unfold_sem_expr(n: nat, env: EnvV, e: ExprV)
    ensures
        sem_expr(n, env, e) == ({
        match e {
            ExprV::Ident(name) => Some((env, ident_value(env, name))),
            ExprV::Lit(l) => Some((env, literal_object(l))),
            ExprV::Prefix(p, x) => sem_prefix(n, env, p, *x),
            ExprV::Infix(op, a, b) => sem_infix(n, env, op, *a, *b),
            ExprV::If(c, t, alt) => sem_if(n, env, *c, t, alt),
            ExprV::Func(params, body) => Some((env, ObjectV::Function(params, body, env.current))),
            ExprV::Call(f, args) => sem_call(n, env, *f, args),
            ExprV::Array(es) => sem_array(n, env, es),
            ExprV::Hash(ps) => sem_hash(n, env, ps),
            ExprV::Index(a, i) => sem_index(n, env, *a, *i),
        }
        }),
{
}

pub proof fn unfold_sem_prefix(n: nat, env: EnvV, p: Prefix, x: ExprV)
    ensures
        sem_prefix(n, env, p, x) == ({
        match sem_expr(n, env, x) {
            Some((env1, o)) => match prefix_result(p, o) {
                Some(r) => Some((env1, r)),
                None => None,
            },
            None => None,
        }
        }),
{
}

pub proof fn unfold_sem_infix(n: nat, env: EnvV, op: Infix, a: ExprV, b: ExprV)
    ensures
        sem_infix(n, env, op, a, b) == ({
        match sem_expr(n, env, a) {
            Some((env1, x)) => match sem_expr(n, env1, b) {
                Some((env2, y)) => match infix_result(op, x, y) {
                    Some(r) => Some((env2, r)),
                    None => None,
                },
                None => None,
            },
            None => None,
        }
        }),
{
}

pub proof fn unfold_sem_if(n: nat, env: EnvV, c: ExprV, t: Seq<StmtV>, alt: Option<Seq<StmtV>>)
    ensures
        sem_if(n, env, c, t, alt) == ({
        match sem_expr(n, env, c) {
            Some((env1, o)) => match spec_otb(o) {
                Ok(b) => if b {
                    sem_block(n, env1, t)
                } else {
                    match alt {
                        Some(a) => sem_block(n, env1, a),
                        None => Some((env1, ObjectV::Null)),
                    }
                },
                Err(e) => Some((env1, e)),
            },
            None => None,
        }
        }),
{
}

pub proof fn unfold_sem_call(n: nat, env: EnvV, f: ExprV, args: Seq<ExprV>)
    ensures
        sem_call(n, env, f, args) == ({
        match sem_expr(n, env, f) {
            Some((env1, fo)) => match spec_otf(fo) {
                ObjectV::Function(params, body, fscope) => sem_fn_call(n, env1, args, params, body, fscope),
                ObjectV::Builtin(_, k) => Some((env1, builtin_result(k as nat, args.len()))),
                e => Some((env1, e)),
            },
            None => None,
        }
        }),
{
}

pub proof fn unfold_sem_fn_call(
    n: nat,
    env: EnvV,
    args: Seq<ExprV>,
    params: Seq<Seq<char>>,
    body: Seq<StmtV>,
    fscope: nat,
)
    ensures
        sem_fn_call(n, env, args, params, body, fscope) == ({
        if args.len() != params.len() {
            Some((env, ObjectV::Error(arity_msg(params.len(), args.len()))))
        } else {
            match sem_exprs(n, env, args) {
                Some((env1, vals)) => if n == 0 || env1.scopes.len() >= usize::MAX {
                    None
                } else {
                    match sem_block((n - 1) as nat, bind_params(enter_scope(env1, fscope), params, vals), body) {
                        Some((env2, o)) => Some((leave_scope(env2, env1.current), o)),
                        None => None,
                    }
                },
                None => None,
            }
        }
        }),
{
}

pub proof fn unfold_sem_exprs(n: nat, env: EnvV, s: Seq<ExprV>)
    ensures
        sem_exprs(n, env, s) == ({
        if s.len() == 0 {
            Some((env, Seq::empty()))
        } else {
            match sem_exprs(n, env, s.subrange(0, s.len() - 1)) {
                Some((env1, vals)) => match sem_expr(n, env1, s[s.len() - 1]) {
                    Some((env2, v)) => Some((env2, vals.push(v))),
                    None => None,
                },
                None => None,
            }
        }
        }),
{
}

pub proof fn unfold_sem_array(n: nat, env: EnvV, es: Seq<ExprV>)
    ensures
        sem_array(n, env, es) == ({
        match sem_exprs(n, env, es) {
            Some((env1, vals)) => Some((env1, ObjectV::Array(vals))),
            None => None,
        }
        }),
{
}

pub proof fn unfold_sem_pair(n: nat, env: EnvV, p: (LiteralV, ExprV))
    ensures
        sem_pair(n, env, p) == ({
        match sem_expr(n, env, p.1) {
            Some((env1, o)) => Some((env1, (spec_l2h(p.0), o))),
            None => None,
        }
        }),
{
}

pub proof fn unfold_sem_pairs(n: nat, env: EnvV, ps: Seq<(LiteralV, ExprV)>)
    ensures
        sem_pairs(n, env, ps) == ({
        if ps.len() == 0 {
            Some((env, Seq::empty()))
        } else {
            match sem_pairs(n, env, ps.subrange(0, ps.len() - 1)) {
                Some((env1, entries)) => match sem_pair(n, env1, ps[ps.len() - 1]) {
                    Some((env2, (k, v))) => match key_of(k) {
                        Some(key) => Some((env2, assoc_set(entries, key, v))),
                        None => Some((env2, entries)),
                    },
                    None => None,
                },
                None => None,
            }
        }
        }),
{
}

pub proof fn unfold_sem_hash(n: nat, env: EnvV, ps: Seq<(LiteralV, ExprV)>)
    ensures
        sem_hash(n, env, ps) == ({
        match sem_pairs(n, env, ps) {
            Some((env1, entries)) => Some((env1, ObjectV::Hash(entries))),
            None => None,
        }
        }),
{
}

pub proof fn unfold_sem_index(n: nat, env: EnvV, a: ExprV, i: ExprV)
    ensures
        sem_index(n, env, a, i) == ({
        match sem_expr(n, env, a) {
            Some((env1, t)) => match sem_expr(n, env1, i) {
                Some((env2, ix)) => Some((env2, index_result(t, ix))),
                None => None,
            },
            None => None,
        }
        }),
{
}

pub proof fn unfold_sem_program(n: nat, env: EnvV, p: Seq<StmtV>)
    ensures
        sem_program(n, env, p) == ({
        match sem_block(n, env, p) {
            Some((env1, o)) => Some((env1, unwrap_return(o))),
            None => None,
        }
        }),
{
}

// ---------------------------------------------------------------------------
// Facts about lists of expressions.

/// A list that finishes has prefixes that finish.
pub proof fn lemma_exprs_prefix(n: nat, env: EnvV, s: Seq<ExprV>, i: int)
    requires
        sem_exprs(n, env, s) is Some,
        0 <= i <= s.len(),
    ensures
        sem_exprs(n, env, s.subrange(0, i)) is Some,
    decreases s.len(),
{
    if i == s.len() {
        assert(s.subrange(0, i) =~= s);
    } else {
        let t = s.subrange(0, s.len() - 1);
        assert(sem_exprs(n, env, t) is Some);
        lemma_exprs_prefix(n, env, t, i);
        assert(t.subrange(0, i) =~= s.subrange(0, i));
    }
}

pub proof fn lemma_pairs_prefix(n: nat, env: EnvV, s: Seq<(LiteralV, ExprV)>, i: int)
    requires
        sem_pairs(n, env, s) is Some,
        0 <= i <= s.len(),
    ensures
        sem_pairs(n, env, s.subrange(0, i)) is Some,
    decreases s.len(),
{
    if i == s.len() {
        assert(s.subrange(0, i) =~= s);
    } else {
        let t = s.subrange(0, s.len() - 1);
        assert(sem_pairs(n, env, t) is Some);
        lemma_pairs_prefix(n, env, t, i);
        assert(t.subrange(0, i) =~= s.subrange(0, i));
    }
}

/// One more expression of a list that finishes: it finishes in the
/// environment after the ones before it, and its value is appended.
pub proof fn lemma_exprs_step(n: nat, env: EnvV, s: Seq<ExprV>, i: int, env_i: EnvV, vals: Seq<ObjectV>)
    requires
        sem_exprs(n, env, s) is Some,
        0 <= i < s.len(),
        sem_exprs(n, env, s.subrange(0, i)) == Some((env_i, vals)),
    ensures
        sem_expr(n, env_i, s[i]) is Some,
        sem_exprs(n, env, s.subrange(0, i + 1)) == match sem_expr(n, env_i, s[i]) {
            Some((env2, v)) => Some((env2, vals.push(v))),
            None => None,
        },
{
    lemma_exprs_prefix(n, env, s, i + 1);
    let t = s.subrange(0, i + 1);
    assert(t.subrange(0, i) =~= s.subrange(0, i));
    assert(t[i] == s[i]);
}

/// One more entry of a hash literal that finishes.
pub proof fn lemma_pairs_step(
    n: nat,
    env: EnvV,
    s: Seq<(LiteralV, ExprV)>,
    i: int,
    env_i: EnvV,
    entries: Seq<(HashKeyV, ObjectV)>,
)
    requires
        sem_pairs(n, env, s) is Some,
        0 <= i < s.len(),
        sem_pairs(n, env, s.subrange(0, i)) == Some((env_i, entries)),
    ensures
        sem_pair(n, env_i, s[i]) is Some,
        sem_pairs(n, env, s.subrange(0, i + 1)) == match sem_pair(n, env_i, s[i]) {
            Some((env2, (k, v))) => match key_of(k) {
                Some(key) => Some((env2, assoc_set(entries, key, v))),
                None => Some((env2, entries)),
            },
            None => None,
        },
{
    lemma_pairs_prefix(n, env, s, i + 1);
    let t = s.subrange(0, i + 1);
    assert(t.subrange(0, i) =~= s.subrange(0, i));
    assert(t[i] == s[i]);
}

pub proof fn lemma_exprs_size(s: Seq<ExprV>, i: int)
    requires
        0 <= i < s.len(),
    ensures
        expr_size(s[i]) < exprs_size(s),
    decreases s.len(),
{
    if i < s.len() - 1 {
        let t = s.subrange(0, s.len() - 1);
        lemma_exprs_size(t, i);
        assert(t[i] == s[i]);
    }
}

pub proof fn lemma_pairs_size(s: Seq<(LiteralV, ExprV)>, i: int)
    requires
        0 <= i < s.len(),
    ensures
        expr_size(s[i].1) + 1 < pairs_size(s),
    decreases s.len(),
{
    if i < s.len() - 1 {
        let t = s.subrange(0, s.len() - 1);
        lemma_pairs_size(t, i);
        assert(t[i] == s[i]);
    }
}

} // verus!
