//! The evaluator: it walks the syntax tree and computes values, keeping the
//! current environment.
use vstd::prelude::*;

use crate::ast::{
    block_size, block_view, expr_size, exprs_size, exprs_view, idents_view, opt_block_view,
    pairs_size, pairs_view, stmt_size, BlockStmt, Expr, ExprV, Ident, Infix, Literal, LiteralV,
    Prefix, Program, Stmt, StmtV,
};
use crate::environment::{empty_env, enter_scope, env_set, env_wf, EnvV, Environment};
use crate::object::{
    clone_object, display_string, entries_index, entries_view, hash_insert, hash_key_of, key_of,
    lemma_assoc_index, objects_equal, objects_view, HashKey, HashKeyV, Object, ObjectV,
};
use crate::semantics::{
    add_result, arity_msg, array_finishes, array_fuel, array_ok, exprs_finishes, exprs_fuel,
    exprs_ok, bind_params, block_finishes,
    block_fuel, block_ok, builtin_result, call_finishes, call_fuel, call_ok, expr_finishes,
    expr_fuel, expr_ok, fn_call_finishes, fn_call_fuel, fn_call_ok, hash_finishes, hash_fuel,
    hash_ok, ident_value, if_finishes, if_fuel, if_ok, index_finishes, index_fuel, index_ok,
    infix_finishes, infix_fuel, infix_ok, infix_result, int_result, lemma_exprs_prefix,
    lemma_exprs_size, lemma_exprs_step, lemma_least, lemma_pairs_prefix, lemma_pairs_size,
    lemma_pairs_step, literal_object,
    opt_block_size, pair_finishes, pair_fuel, pair_ok, prefix_finishes, prefix_fuel, prefix_ok,
    prefix_result, program_finishes, sem_array, sem_block, sem_call, sem_expr, sem_exprs,
    sem_fn_call, sem_hash, sem_if, sem_index, sem_infix, sem_pair, sem_pairs, sem_prefix,
    index_result, sem_program, sem_stmt, spec_l2h, spec_otb, spec_otf, spec_oth, spec_oti, stmt_finishes,
    stmt_fuel, stmt_ok,
};
use crate::semantics::{
    unfold_sem_array, unfold_sem_block, unfold_sem_call, unfold_sem_expr, unfold_sem_exprs,
    unfold_sem_fn_call, unfold_sem_hash, unfold_sem_if, unfold_sem_index, unfold_sem_infix,
    unfold_sem_pair, unfold_sem_pairs, unfold_sem_prefix, unfold_sem_program, unfold_sem_stmt,
};
use crate::laws::{lemma_frame_bind, lemma_frame_block};
use crate::text::nat_text;

verus! {

/// Evaluates programs, statements and expressions in an environment that
/// persists between calls.
pub struct Evaluator {
    env: Environment,
}

impl View for Evaluator {
    type V = EnvV;

    /// The model of the current environment.
    closed spec fn view(&self) -> EnvV {
        self.env@
    }
}

impl Evaluator {
    /// The current scope is always one of the scopes made.
    #[verifier::type_invariant]
    spec fn well_formed(self) -> bool {
        env_wf(self.env@)
    }

    /// An evaluator with an empty environment.
    pub fn new() -> (e: Self)
        ensures
            e@ == empty_env(),
            env_wf(e@),
    {
        Evaluator { env: Environment::new() }
    }

    /// Binds a name to a value in the current scope, and gives the value back.
    pub fn register_ident(&mut self, ident: Ident, object: Object) -> (r: Object)
        ensures
            final(self)@ == env_set(old(self)@, ident@, object@),
            env_wf(final(self)@),
            r@ == object@,
    {
        proof {
            use_type_invariant(&*self);
        }
        let Ident(name) = ident;
        let mut env = Environment::new();
        std::mem::swap(&mut env, &mut self.env);
        env.set(&name, &object);
        self.env = env;
        object
    }

    /// The value a name is bound to, or an error when it is unbound.
    pub fn eval_ident(&mut self, ident: Ident) -> (r: Object)
        ensures
            env_wf(final(self)@),
            final(self)@ == old(self)@,
            r@ == ident_value(old(self)@, ident@),
    {
        proof {
            use_type_invariant(&*self);
        }
        let Ident(name) = ident;
        let var = self.env.get(&name);
        match var {
            Some(o) => o,
            None => Object::Error(String::from_str("identifier not found: ").concat(name.as_str())),
        }
    }

    /// The value of a literal.
    pub fn eval_literal(&mut self, literal: Literal) -> (r: Object)
        ensures
            final(self)@ == old(self)@,
            env_wf(final(self)@),
            r@ == literal_object(literal@),
    {
        proof {
            use_type_invariant(&*self);
        }
        match literal {
            Literal::IntLiteral(i) => Object::Integer(i),
            Literal::BoolLiteral(b) => Object::Boolean(b),
            Literal::StringLiteral(s) => Object::String(s),
        }
    }

    /// A function value that refers to the current scope, so that it sees
    /// the bindings that scope holds when it runs.
    pub fn eval_fn(&mut self, params: Vec<Ident>, body: BlockStmt) -> (r: Object)
        ensures
            env_wf(final(self)@),
            final(self)@ == old(self)@,
            r@ == ObjectV::Function(idents_view(params@), block_view(body@), old(self)@.current),
    {
        proof {
            use_type_invariant(&*self);
        }
        Object::Function(params, body, self.env.current_scope())
    }

    /// A value as a boolean, or the error to answer with.
    pub fn otb(&mut self, object: Object) -> (r: Result<bool, Object>)
        ensures
            env_wf(final(self)@),
            final(self)@ == old(self)@,
            match (r, spec_otb(object@)) {
                (Ok(b), Ok(c)) => b == c,
                (Err(e), Err(f)) => e@ == f,
                _ => false,
            },
    {
        proof {
            use_type_invariant(&*self);
        }
        match object {
            Object::Boolean(b) => Ok(b),
            Object::Error(s) => Err(Object::Error(s)),
            b => Err(Object::Error(display_string(&b).concat(" is not a bool"))),
        }
    }

    /// A value as an integer, or the error to answer with.
    pub fn oti(&mut self, object: Object) -> (r: Result<i64, Object>)
        ensures
            env_wf(final(self)@),
            final(self)@ == old(self)@,
            match (r, spec_oti(object@)) {
                (Ok(b), Ok(c)) => b == c,
                (Err(e), Err(f)) => e@ == f,
                _ => false,
            },
    {
        proof {
            use_type_invariant(&*self);
        }
        match object {
            Object::Integer(i) => Ok(i),
            Object::Error(s) => Err(Object::Error(s)),
            i => Err(Object::Error(display_string(&i).concat(" is not an integer"))),
        }
    }

    /// A value that can be called, or the error to answer with.
    pub fn otf(&mut self, object: Object) -> (r: Object)
        ensures
            env_wf(final(self)@),
            final(self)@ == old(self)@,
            r@ == spec_otf(object@),
    {
        proof {
            use_type_invariant(&*self);
        }
        match object {
            Object::Function(_, _, _) => object,
            Object::Builtin(_, _) => object,
            Object::Error(s) => Object::Error(s),
            f => Object::Error(display_string(&f).concat(" is not a valid function")),
        }
    }

    /// A value that can be a hash key, or the error to answer with.
    pub fn oth(&mut self, object: Object) -> (r: Object)
        ensures
            env_wf(final(self)@),
            final(self)@ == old(self)@,
            r@ == spec_oth(object@),
    {
        proof {
            use_type_invariant(&*self);
        }
        match object {
            Object::Integer(i) => Object::Integer(i),
            Object::Boolean(b) => Object::Boolean(b),
            Object::String(s) => Object::String(s),
            Object::Error(s) => Object::Error(s),
            x => Object::Error(display_string(&x).concat(" is not hashable")),
        }
    }

    /// The value of a literal used as a hash key.
    pub fn l2h(&mut self, literal: Literal) -> (r: Object)
        ensures
            env_wf(final(self)@),
            final(self)@ == old(self)@,
            r@ == spec_l2h(literal@),
    {
        proof {
            use_type_invariant(&*self);
        }
        let object = self.eval_literal(literal);
        self.oth(object)
    }

    /// `+` on two values. Integers that overflow are left out.
    pub fn object_add(&mut self, object1: Object, object2: Object) -> (r: Object)
        requires
            add_result(object1@, object2@) is Some,
        ensures
            env_wf(final(self)@),
            final(self)@ == old(self)@,
            Some(r@) == add_result(object1@, object2@),
    {
        proof {
            use_type_invariant(&*self);
        }
        match (object1, object2) {
            (Object::Integer(i1), Object::Integer(i2)) => Object::Integer(i1.checked_add(i2).unwrap()),
            (Object::String(s1), Object::String(s2)) => Object::String(s1.concat(s2.as_str())),
            (Object::Error(s), _) => Object::Error(s),
            (_, Object::Error(s)) => Object::Error(s),
            (x, y) => Object::Error(
                display_string(&x).concat(" and ").concat(display_string(&y).as_str()).concat(
                    " are not addable",
                ),
            ),
        }
    }

    /// Runs a program; a value returned at the top level is unwrapped.
    pub fn eval_program(&mut self, prog: Program) -> (r: Object)
        requires
            program_finishes(old(self)@, block_view(prog@)),
        ensures
            env_wf(final(self)@),
            forall|n: nat|
                #![trigger sem_program(n, old(self)@, block_view(prog@))]
                sem_program(n, old(self)@, block_view(prog@)) is Some ==> sem_program(
                    n,
                    old(self)@,
                    block_view(prog@),
                ) == Some((final(self)@, r@)),
    {
        let ghost env0 = self@;
        let ghost b = block_view(prog@);
        proof {
            let w = choose|n: nat| sem_program(n, env0, b) is Some;
            unfold_sem_program(w, env0, b);
        }
        let return_data = self.eval_blockstmt(prog);
        let r = match return_data {
            Object::ReturnValue(v) => *v,
            o => o,
        };
        proof {
            assert forall|n: nat| sem_program(n, env0, b) is Some implies sem_program(n, env0, b)
                == Some((self@, r@)) by {
                unfold_sem_program(n, env0, b);
            }
        }
        proof {
            use_type_invariant(&*self);
        }
        r
    }

    /// Runs the statements of a block in order, until one gives a returned
    /// value or an error.
    pub fn eval_blockstmt(&mut self, prog: BlockStmt) -> (r: Object)
        requires
            block_finishes(old(self)@, block_view(prog@)),
        ensures
            env_wf(final(self)@),
            forall|n: nat|
                #![trigger sem_block(n, old(self)@, block_view(prog@))]
                sem_block(n, old(self)@, block_view(prog@)) is Some ==> sem_block(
                    n,
                    old(self)@,
                    block_view(prog@),
                ) == Some((final(self)@, r@)),
        decreases block_fuel(old(self)@, block_view(prog@)), block_size(block_view(prog@)),
    {
        let ghost env0 = self@;
        let ghost b = block_view(prog@);
        proof {
            let w = choose|n: nat| sem_block(n, env0, b) is Some;
            lemma_least(block_ok(env0, b), w);
        }
        let ghost fuel = block_fuel(env0, b);
        let mut prog = prog;
        if prog.len() == 0 {
            proof {
                assert forall|n: nat| sem_block(n, env0, b) is Some implies sem_block(n, env0, b)
                    == Some((env0, ObjectV::Null)) by {
                    unfold_sem_block(n, env0, b);
                }
            }
            proof {
                use_type_invariant(&*self);
            }
            return Object::Null;
        }
        let s = prog.remove(0);
        let ghost sv = s@;
        let ghost rest = block_view(prog@);
        proof {
            assert(rest =~= b.subrange(1, b.len() as int));
            assert(sv == b[0]);
            assert(sem_stmt(fuel, env0, sv) is Some) by {
                unfold_sem_block(fuel, env0, b);
            }
            lemma_least(stmt_ok(env0, sv), fuel);
        }
        if prog.len() == 0 {
            let r = self.eval_statement(s);
            proof {
                assert forall|n: nat| sem_block(n, env0, b) is Some implies sem_block(n, env0, b)
                    == Some((self@, r@)) by {
                    unfold_sem_block(n, env0, b);
                }
            }
            proof {
                use_type_invariant(&*self);
            }
            return r;
        }
        let object = self.eval_statement(s);
        if object.is_returned() {
            proof {
                assert forall|n: nat| sem_block(n, env0, b) is Some implies sem_block(n, env0, b)
                    == Some((self@, object@)) by {
                    unfold_sem_block(n, env0, b);
                    assert(sem_stmt(n, env0, sv) is Some);
                }
            }
            proof {
                use_type_invariant(&*self);
            }
            object
        } else {
            let ghost env1 = self@;
            proof {
                assert(sem_block(fuel, env1, rest) is Some) by {
                    unfold_sem_block(fuel, env0, b);
                }
                lemma_least(block_ok(env1, rest), fuel);
            }
            let r = self.eval_blockstmt(prog);
            proof {
                assert forall|n: nat| sem_block(n, env0, b) is Some implies sem_block(n, env0, b)
                    == Some((self@, r@)) by {
                    unfold_sem_block(n, env0, b);
                    assert(sem_stmt(n, env0, sv) is Some);
                    assert(sem_block(n, env1, rest) is Some);
                }
            }
            proof {
                use_type_invariant(&*self);
            }
            r
        }
    }

    /// Runs a statement: `let` binds the name in the current scope.
    pub fn eval_statement(&mut self, stmt: Stmt) -> (r: Object)
        requires
            stmt_finishes(old(self)@, stmt@),
        ensures
            env_wf(final(self)@),
            forall|n: nat|
                #![trigger sem_stmt(n, old(self)@, stmt@)]
                sem_stmt(n, old(self)@, stmt@) is Some ==> sem_stmt(n, old(self)@, stmt@) == Some(
                    (final(self)@, r@),
                ),
        decreases stmt_fuel(old(self)@, stmt@), stmt_size(stmt@),
    {
        let ghost env0 = self@;
        let ghost sv = stmt@;
        proof {
            let w = choose|n: nat| sem_stmt(n, env0, sv) is Some;
            lemma_least(stmt_ok(env0, sv), w);
        }
        let ghost fuel = stmt_fuel(env0, sv);
        match stmt {
            Stmt::ExprStmt(expr) => {
                let ghost ex = expr@;
                proof {
                    assert(sv == StmtV::Expr(ex));
                    assert(sem_expr(fuel, env0, ex) is Some) by {
                        unfold_sem_stmt(fuel, env0, sv);
                    }
                    lemma_least(expr_ok(env0, ex), fuel);
                }
                let r = self.eval_expr(expr);
                proof {
                    assert forall|n: nat| sem_stmt(n, env0, sv) is Some implies sem_stmt(n, env0, sv)
                        == Some((self@, r@)) by {
                        unfold_sem_stmt(n, env0, sv);
                    }
                }
                proof {
                    use_type_invariant(&*self);
                }
                r
            },
            Stmt::ReturnStmt(expr) => {
                let ghost ex = expr@;
                proof {
                    assert(sv == StmtV::Return(ex));
                    assert(sem_expr(fuel, env0, ex) is Some) by {
                        unfold_sem_stmt(fuel, env0, sv);
                    }
                    lemma_least(expr_ok(env0, ex), fuel);
                }
                let o = self.eval_expr(expr);
                let r = Object::ReturnValue(Box::new(o));
                proof {
                    assert forall|n: nat| sem_stmt(n, env0, sv) is Some implies sem_stmt(n, env0, sv)
                        == Some((self@, r@)) by {
                        unfold_sem_stmt(n, env0, sv);
                        assert(sem_expr(n, env0, ex) is Some);
                    }
                }
                proof {
                    use_type_invariant(&*self);
                }
                r
            },
            Stmt::LetStmt(ident, expr) => {
                let ghost ex = expr@;
                let ghost name = ident@;
                proof {
                    assert(sv == StmtV::Let(name, ex));
                    assert(sem_expr(fuel, env0, ex) is Some) by {
                        unfold_sem_stmt(fuel, env0, sv);
                    }
                    lemma_least(expr_ok(env0, ex), fuel);
                }
                let object = self.eval_expr(expr);
                let r = self.register_ident(ident, object);
                proof {
                    assert forall|n: nat| sem_stmt(n, env0, sv) is Some implies sem_stmt(n, env0, sv)
                        == Some((self@, r@)) by {
                        unfold_sem_stmt(n, env0, sv);
                        assert(sem_expr(n, env0, ex) is Some);
                    }
                }
                proof {
                    use_type_invariant(&*self);
                }
                r
            },
        }
    }

    /// Evaluates an expression.
    #[verifier::spinoff_prover]
    #[verifier::rlimit(40)]
    pub fn eval_expr(&mut self, expr: Expr) -> (r: Object)
        requires
            expr_finishes(old(self)@, expr@),
        ensures
            env_wf(final(self)@),
            forall|n: nat|
                #![trigger sem_expr(n, old(self)@, expr@)]
                sem_expr(n, old(self)@, expr@) is Some ==> sem_expr(n, old(self)@, expr@) == Some(
                    (final(self)@, r@),
                ),
        decreases expr_fuel(old(self)@, expr@), expr_size(expr@),
    {
        let ghost env0 = self@;
        let ghost ev = expr@;
        proof {
            let w = choose|n: nat| sem_expr(n, env0, ev) is Some;
            lemma_least(expr_ok(env0, ev), w);
        }
        let ghost fuel = expr_fuel(env0, ev);
        match expr {
            Expr::IdentExpr(i) => {
                let ghost name = i@;
                let r = self.eval_ident(i);
                proof {
                    assert(ev == ExprV::Ident(name));
                    assert forall|n: nat| sem_expr(n, env0, ev) is Some implies sem_expr(n, env0, ev)
                        == Some((self@, r@)) by {
                        unfold_sem_expr(n, env0, ev);
                    }
                }
                proof {
                    use_type_invariant(&*self);
                }
                r
            },
            Expr::LitExpr(l) => {
                let ghost lv = l@;
                let r = self.eval_literal(l);
                proof {
                    assert(ev == ExprV::Lit(lv));
                    assert forall|n: nat| sem_expr(n, env0, ev) is Some implies sem_expr(n, env0, ev)
                        == Some((self@, r@)) by {
                        unfold_sem_expr(n, env0, ev);
                    }
                }
                proof {
                    use_type_invariant(&*self);
                }
                r
            },
            Expr::PrefixExpr(prefix, x) => {
                let ghost xv = (*x)@;
                proof {
                    assert(ev == ExprV::Prefix(prefix, Box::new(xv)));
                    assert(sem_prefix(fuel, env0, prefix, xv) is Some) by {
                        unfold_sem_expr(fuel, env0, ev);
                    }
                    lemma_least(prefix_ok(env0, prefix, xv), fuel);
                }
                let r = self.eval_prefix(prefix, *x);
                proof {
                    assert forall|n: nat| sem_expr(n, env0, ev) is Some implies sem_expr(n, env0, ev)
                        == Some((self@, r@)) by {
                        unfold_sem_expr(n, env0, ev);
                    }
                }
                proof {
                    use_type_invariant(&*self);
                }
                r
            },
            Expr::InfixExpr(infix, x1, x2) => {
                let ghost (v1, v2) = ((*x1)@, (*x2)@);
                proof {
                    assert(ev == ExprV::Infix(infix, Box::new(v1), Box::new(v2)));
                    assert(sem_infix(fuel, env0, infix, v1, v2) is Some) by {
                        unfold_sem_expr(fuel, env0, ev);
                    }
                    lemma_least(infix_ok(env0, infix, v1, v2), fuel);
                }
                let r = self.eval_infix(infix, *x1, *x2);
                proof {
                    assert forall|n: nat| sem_expr(n, env0, ev) is Some implies sem_expr(n, env0, ev)
                        == Some((self@, r@)) by {
                        unfold_sem_expr(n, env0, ev);
                    }
                }
                proof {
                    use_type_invariant(&*self);
                }
                r
            },
            Expr::IfExpr { cond, consequence, alternative } => {
                let ghost (cv, tv, av) = (
                    (*cond)@,
                    block_view(consequence@),
                    opt_block_view(alternative),
                );
                proof {
                    assert(ev == ExprV::If(Box::new(cv), tv, av));
                    assert(sem_if(fuel, env0, cv, tv, av) is Some) by {
                        unfold_sem_expr(fuel, env0, ev);
                    }
                    lemma_least(if_ok(env0, cv, tv, av), fuel);
                }
                let r = self.eval_if(*cond, consequence, alternative);
                proof {
                    assert forall|n: nat| sem_expr(n, env0, ev) is Some implies sem_expr(n, env0, ev)
                        == Some((self@, r@)) by {
                        unfold_sem_expr(n, env0, ev);
                    }
                }
                proof {
                    use_type_invariant(&*self);
                }
                r
            },
            Expr::FnExpr { params, body } => {
                let ghost (pv, bv) = (idents_view(params@), block_view(body@));
                let r = self.eval_fn(params, body);
                proof {
                    assert(ev == ExprV::Func(pv, bv));
                    assert forall|n: nat| sem_expr(n, env0, ev) is Some implies sem_expr(n, env0, ev)
                        == Some((self@, r@)) by {
                        unfold_sem_expr(n, env0, ev);
                    }
                }
                proof {
                    use_type_invariant(&*self);
                }
                r
            },
            Expr::CallExpr { function, arguments } => {
                let ghost (fv, av) = ((*function)@, exprs_view(arguments@));
                proof {
                    assert(ev == ExprV::Call(Box::new(fv), av));
                    assert(sem_call(fuel, env0, fv, av) is Some) by {
                        unfold_sem_expr(fuel, env0, ev);
                    }
                    lemma_least(call_ok(env0, fv, av), fuel);
                }
                let r = self.eval_call(*function, arguments);
                proof {
                    assert forall|n: nat| sem_expr(n, env0, ev) is Some implies sem_expr(n, env0, ev)
                        == Some((self@, r@)) by {
                        unfold_sem_expr(n, env0, ev);
                    }
                }
                proof {
                    use_type_invariant(&*self);
                }
                r
            },
            Expr::ArrayExpr(exprs) => {
                let ghost av = exprs_view(exprs@);
                proof {
                    assert(ev == ExprV::Array(av));
                    assert(sem_array(fuel, env0, av) is Some) by {
                        unfold_sem_expr(fuel, env0, ev);
                    }
                    lemma_least(array_ok(env0, av), fuel);
                }
                let r = self.eval_array(exprs);
                proof {
                    assert forall|n: nat| sem_expr(n, env0, ev) is Some implies sem_expr(n, env0, ev)
                        == Some((self@, r@)) by {
                        unfold_sem_expr(n, env0, ev);
                    }
                }
                proof {
                    use_type_invariant(&*self);
                }
                r
            },
            Expr::HashExpr(hs) => {
                let ghost hv = pairs_view(hs@);
                proof {
                    assert(ev == ExprV::Hash(hv));
                    assert(sem_hash(fuel, env0, hv) is Some) by {
                        unfold_sem_expr(fuel, env0, ev);
                    }
                    lemma_least(hash_ok(env0, hv), fuel);
                }
                let r = self.eval_hash(hs);
                proof {
                    assert forall|n: nat| sem_expr(n, env0, ev) is Some implies sem_expr(n, env0, ev)
                        == Some((self@, r@)) by {
                        unfold_sem_expr(n, env0, ev);
                    }
                }
                proof {
                    use_type_invariant(&*self);
                }
                r
            },
            Expr::IndexExpr { array, index } => {
                let ghost (tv, iv) = ((*array)@, (*index)@);
                proof {
                    assert(ev == ExprV::Index(Box::new(tv), Box::new(iv)));
                    assert(sem_index(fuel, env0, tv, iv) is Some) by {
                        unfold_sem_expr(fuel, env0, ev);
                    }
                    lemma_least(index_ok(env0, tv, iv), fuel);
                }
                let r = self.eval_index(*array, *index);
                proof {
                    assert forall|n: nat| sem_expr(n, env0, ev) is Some implies sem_expr(n, env0, ev)
                        == Some((self@, r@)) by {
                        unfold_sem_expr(n, env0, ev);
                    }
                }
                proof {
                    use_type_invariant(&*self);
                }
                r
            },
        }
    }

    /// Applies a prefix operator to the value of an expression.
    pub fn eval_prefix(&mut self, prefix: Prefix, expr: Expr) -> (r: Object)
        requires
            prefix_finishes(old(self)@, prefix, expr@),
        ensures
            env_wf(final(self)@),
            forall|n: nat|
                #![trigger sem_prefix(n, old(self)@, prefix, expr@)]
                sem_prefix(n, old(self)@, prefix, expr@) is Some ==> sem_prefix(
                    n,
                    old(self)@,
                    prefix,
                    expr@,
                ) == Some((final(self)@, r@)),
        decreases prefix_fuel(old(self)@, prefix, expr@), expr_size(expr@) + 1,
    {
        let ghost env0 = self@;
        let ghost ev = expr@;
        proof {
            let w = choose|n: nat| sem_prefix(n, env0, prefix, ev) is Some;
            lemma_least(prefix_ok(env0, prefix, ev), w);
        }
        let ghost fuel = prefix_fuel(env0, prefix, ev);
        proof {
            assert(sem_expr(fuel, env0, ev) is Some) by {
                unfold_sem_prefix(fuel, env0, prefix, ev);
            }
            lemma_least(expr_ok(env0, ev), fuel);
        }
        let object = self.eval_expr(expr);
        let ghost ov = object@;
        proof {
            assert(prefix_result(prefix, ov) is Some) by {
                unfold_sem_prefix(fuel, env0, prefix, ev);
            }
        }
        let r = prefix_object(self, prefix, object);
        proof {
            assert forall|n: nat| sem_prefix(n, env0, prefix, ev) is Some implies sem_prefix(
                n,
                env0,
                prefix,
                ev,
            ) == Some((self@, r@)) by {
                unfold_sem_prefix(n, env0, prefix, ev);
                assert(sem_expr(n, env0, ev) is Some);
            }
        }
        proof {
            use_type_invariant(&*self);
        }
        r
    }

    /// Evaluates both operands, left first, and applies a binary operator.
    pub fn eval_infix(&mut self, infix: Infix, expr1: Expr, expr2: Expr) -> (r: Object)
        requires
            infix_finishes(old(self)@, infix, expr1@, expr2@),
        ensures
            env_wf(final(self)@),
            forall|n: nat|
                #![trigger sem_infix(n, old(self)@, infix, expr1@, expr2@)]
                sem_infix(n, old(self)@, infix, expr1@, expr2@) is Some ==> sem_infix(
                    n,
                    old(self)@,
                    infix,
                    expr1@,
                    expr2@,
                ) == Some((final(self)@, r@)),
        decreases infix_fuel(old(self)@, infix, expr1@, expr2@), expr_size(expr1@) + expr_size(
            expr2@,
        ) + 1,
    {
        let ghost env0 = self@;
        let ghost (ev1, ev2) = (expr1@, expr2@);
        proof {
            let w = choose|n: nat| sem_infix(n, env0, infix, ev1, ev2) is Some;
            lemma_least(infix_ok(env0, infix, ev1, ev2), w);
        }
        let ghost fuel = infix_fuel(env0, infix, ev1, ev2);
        proof {
            assert(sem_expr(fuel, env0, ev1) is Some) by {
                unfold_sem_infix(fuel, env0, infix, ev1, ev2);
            }
            lemma_least(expr_ok(env0, ev1), fuel);
        }
        let object1 = self.eval_expr(expr1);
        let ghost env1 = self@;
        proof {
            assert(sem_expr(fuel, env1, ev2) is Some) by {
                unfold_sem_infix(fuel, env0, infix, ev1, ev2);
            }
            lemma_least(expr_ok(env1, ev2), fuel);
        }
        let object2 = self.eval_expr(expr2);
        let ghost (o1, o2) = (object1@, object2@);
        proof {
            assert(infix_result(infix, o1, o2) is Some) by {
                unfold_sem_infix(fuel, env0, infix, ev1, ev2);
            }
        }
        let r = infix_object(self, infix, object1, object2);
        proof {
            assert forall|n: nat| sem_infix(n, env0, infix, ev1, ev2) is Some implies sem_infix(
                n,
                env0,
                infix,
                ev1,
                ev2,
            ) == Some((self@, r@)) by {
                unfold_sem_infix(n, env0, infix, ev1, ev2);
                assert(sem_expr(n, env0, ev1) is Some);
                assert(sem_expr(n, env1, ev2) is Some);
            }
        }
        proof {
            use_type_invariant(&*self);
        }
        r
    }

    /// Evaluates the condition and runs the chosen branch in the current scope.
    pub fn eval_if(&mut self, cond: Expr, conse: BlockStmt, maybe_alter: Option<BlockStmt>) -> (r: Object)
        requires
            if_finishes(old(self)@, cond@, block_view(conse@), opt_block_view(maybe_alter)),
        ensures
            env_wf(final(self)@),
            forall|n: nat|
                #![trigger sem_if(n, old(self)@, cond@, block_view(conse@), opt_block_view(maybe_alter))]
                sem_if(n, old(self)@, cond@, block_view(conse@), opt_block_view(maybe_alter)) is Some
                    ==> sem_if(n, old(self)@, cond@, block_view(conse@), opt_block_view(maybe_alter))
                    == Some((final(self)@, r@)),
        decreases if_fuel(old(self)@, cond@, block_view(conse@), opt_block_view(maybe_alter)),
            expr_size(cond@) + block_size(block_view(conse@)) + opt_block_size(
                opt_block_view(maybe_alter),
            ) + 1,
    {
        let ghost env0 = self@;
        let ghost (cv, tv, av) = (cond@, block_view(conse@), opt_block_view(maybe_alter));
        proof {
            let w = choose|n: nat| sem_if(n, env0, cv, tv, av) is Some;
            lemma_least(if_ok(env0, cv, tv, av), w);
        }
        let ghost fuel = if_fuel(env0, cv, tv, av);
        proof {
            assert(sem_expr(fuel, env0, cv) is Some) by {
                unfold_sem_if(fuel, env0, cv, tv, av);
            }
            lemma_least(expr_ok(env0, cv), fuel);
        }
        let object = self.eval_expr(cond);
        let ghost env1 = self@;
        let r = match self.otb(object) {
            Ok(b) => {
                if b {
                    proof {
                        assert(sem_block(fuel, env1, tv) is Some) by {
                            unfold_sem_if(fuel, env0, cv, tv, av);
                        }
                        lemma_least(block_ok(env1, tv), fuel);
                    }
                    let r = self.eval_blockstmt(conse);
                    proof {
                        assert forall|n: nat| sem_if(n, env0, cv, tv, av) is Some implies sem_if(
                            n,
                            env0,
                            cv,
                            tv,
                            av,
                        ) == Some((self@, r@)) by {
                            unfold_sem_if(n, env0, cv, tv, av);
                            assert(sem_expr(n, env0, cv) is Some);
                            assert(sem_block(n, env1, tv) is Some);
                        }
                    }
                    r
                } else {
                    match maybe_alter {
                        Some(else_conse) => {
                            let ghost ev = block_view(else_conse@);
                            proof {
                                assert(av == Some(ev));
                                assert(sem_block(fuel, env1, ev) is Some) by {
                                    unfold_sem_if(fuel, env0, cv, tv, av);
                                }
                                lemma_least(block_ok(env1, ev), fuel);
                            }
                            let r = self.eval_blockstmt(else_conse);
                            proof {
                                assert forall|n: nat| sem_if(n, env0, cv, tv, av) is Some implies sem_if(
                                    n,
                                    env0,
                                    cv,
                                    tv,
                                    av,
                                ) == Some((self@, r@)) by {
                                    unfold_sem_if(n, env0, cv, tv, av);
                                    assert(sem_expr(n, env0, cv) is Some);
                                    assert(sem_block(n, env1, ev) is Some);
                                }
                            }
                            r
                        },
                        _ => {
                            proof {
                                assert forall|n: nat| sem_if(n, env0, cv, tv, av) is Some implies sem_if(
                                    n,
                                    env0,
                                    cv,
                                    tv,
                                    av,
                                ) == Some((self@, ObjectV::Null)) by {
                                    unfold_sem_if(n, env0, cv, tv, av);
                                    assert(sem_expr(n, env0, cv) is Some);
                                }
                            }
                            Object::Null
                        },
                    }
                }
            },
            Err(err) => {
                proof {
                    assert forall|n: nat| sem_if(n, env0, cv, tv, av) is Some implies sem_if(
                        n,
                        env0,
                        cv,
                        tv,
                        av,
                    ) == Some((self@, err@)) by {
                        unfold_sem_if(n, env0, cv, tv, av);
                        assert(sem_expr(n, env0, cv) is Some);
                    }
                }
                err
            },
        };
        proof {
            use_type_invariant(&*self);
        }
        r
    }

    /// Evaluates the callee, then calls it with the arguments.
    pub fn eval_call(&mut self, fn_expr: Expr, args_expr: Vec<Expr>) -> (r: Object)
        requires
            call_finishes(old(self)@, fn_expr@, exprs_view(args_expr@)),
        ensures
            env_wf(final(self)@),
            forall|n: nat|
                #![trigger sem_call(n, old(self)@, fn_expr@, exprs_view(args_expr@))]
                sem_call(n, old(self)@, fn_expr@, exprs_view(args_expr@)) is Some ==> sem_call(
                    n,
                    old(self)@,
                    fn_expr@,
                    exprs_view(args_expr@),
                ) == Some((final(self)@, r@)),
        decreases call_fuel(old(self)@, fn_expr@, exprs_view(args_expr@)), expr_size(fn_expr@)
            + exprs_size(exprs_view(args_expr@)) + 1,
    {
        let ghost env0 = self@;
        let ghost (fv, av) = (fn_expr@, exprs_view(args_expr@));
        proof {
            let w = choose|n: nat| sem_call(n, env0, fv, av) is Some;
            lemma_least(call_ok(env0, fv, av), w);
        }
        let ghost fuel = call_fuel(env0, fv, av);
        proof {
            assert(sem_expr(fuel, env0, fv) is Some) by {
                unfold_sem_call(fuel, env0, fv, av);
            }
            lemma_least(expr_ok(env0, fv), fuel);
        }
        let fn_object = self.eval_expr(fn_expr);
        let ghost env1 = self@;
        let fn_ = self.otf(fn_object);
        let ghost callee = fn_@;
        let r = match fn_ {
            Object::Function(params, body, f_scope) => {
                let ghost (pv, bv, ev) = (idents_view(params@), block_view(body@), f_scope as nat);
                proof {
                    assert(callee == ObjectV::Function(pv, bv, ev));
                    assert(sem_fn_call(fuel, env1, av, pv, bv, ev) is Some) by {
                        unfold_sem_call(fuel, env0, fv, av);
                    }
                    lemma_least(fn_call_ok(env1, av, pv, bv, ev), fuel);
                }
                let r = self.eval_fn_call(args_expr, params, body, f_scope);
                proof {
                    assert forall|n: nat| sem_call(n, env0, fv, av) is Some implies sem_call(
                        n,
                        env0,
                        fv,
                        av,
                    ) == Some((self@, r@)) by {
                        unfold_sem_call(n, env0, fv, av);
                        assert(sem_expr(n, env0, fv) is Some);
                        assert(sem_fn_call(n, env1, av, pv, bv, ev) is Some);
                    }
                }
                r
            },
            Object::Builtin(_, num_params) => {
                let r = self.eval_builtin_call(args_expr, num_params);
                proof {
                    assert forall|n: nat| sem_call(n, env0, fv, av) is Some implies sem_call(
                        n,
                        env0,
                        fv,
                        av,
                    ) == Some((self@, r@)) by {
                        unfold_sem_call(n, env0, fv, av);
                        assert(sem_expr(n, env0, fv) is Some);
                    }
                }
                r
            },
            o_err => {
                proof {
                    assert forall|n: nat| sem_call(n, env0, fv, av) is Some implies sem_call(
                        n,
                        env0,
                        fv,
                        av,
                    ) == Some((self@, o_err@)) by {
                        unfold_sem_call(n, env0, fv, av);
                        assert(sem_expr(n, env0, fv) is Some);
                    }
                }
                o_err
            },
        };
        proof {
            use_type_invariant(&*self);
        }
        r
    }

    /// Calls a function value: the arguments are evaluated in order, and the
    /// body runs in a new scope inside the scope the function was made in;
    /// the caller's scope is then current again.
    fn eval_fn_call(&mut self, args_expr: Vec<Expr>, params: Vec<Ident>, body: BlockStmt, f_scope: usize) -> (r: Object)
        requires
            fn_call_finishes(old(self)@, exprs_view(args_expr@), idents_view(params@), block_view(body@), f_scope as nat),
        ensures
            forall|n: nat|
                #![trigger sem_fn_call(n, old(self)@, exprs_view(args_expr@), idents_view(params@), block_view(body@), f_scope as nat)]
                sem_fn_call(n, old(self)@, exprs_view(args_expr@), idents_view(params@), block_view(body@), f_scope as nat) is Some
                    ==> sem_fn_call(n, old(self)@, exprs_view(args_expr@), idents_view(params@), block_view(body@), f_scope as nat)
                    == Some((final(self)@, r@)),
        decreases fn_call_fuel(old(self)@, exprs_view(args_expr@), idents_view(params@), block_view(body@), f_scope as nat),
            exprs_size(exprs_view(args_expr@)) + 1,
    {
        let ghost env0 = self@;
        let ghost (sargs, pv, bv, fv) = (exprs_view(args_expr@), idents_view(params@), block_view(body@), f_scope as nat);
        proof {
            let w = choose|n: nat| sem_fn_call(n, env0, sargs, pv, bv, fv) is Some;
            lemma_least(fn_call_ok(env0, sargs, pv, bv, fv), w);
        }
        let ghost fuel = fn_call_fuel(env0, sargs, pv, bv, fv);
        if args_expr.len() != params.len() {
            let r = Object::Error(arity_message(params.len(), args_expr.len()));
            proof {
                assert forall|n: nat| sem_fn_call(n, env0, sargs, pv, bv, fv) is Some implies sem_fn_call(
                    n,
                    env0,
                    sargs,
                    pv,
                    bv,
                    fv,
                ) == Some((self@, r@)) by {
                    unfold_sem_fn_call(n, env0, sargs, pv, bv, fv);
                }
            }
            return r;
        }
        proof {
            assert(sem_exprs(fuel, env0, sargs) is Some) by {
                unfold_sem_fn_call(fuel, env0, sargs, pv, bv, fv);
            }
            lemma_least(exprs_ok(env0, sargs), fuel);
        }
        let args = self.eval_exprs(args_expr);
        let ghost env1 = self@;
        proof {
            assert(env1.scopes.len() < usize::MAX) by {
                unfold_sem_fn_call(fuel, env0, sargs, pv, bv, fv);
            }
        }
        proof {
            use_type_invariant(&*self);
        }
        let mut env = Environment::new();
        std::mem::swap(&mut env, &mut self.env);
        let prev = env.enter(f_scope);
        let ghost entered = env@;
        bind_args(&mut env, &params, &args);
        proof {
            lemma_frame_bind(entered, pv, objects_view(args@));
        }
        self.env = env;
        let ghost bound = self@;
        proof {
            assert(fuel > 0 && sem_block((fuel - 1) as nat, bound, bv) is Some) by {
                unfold_sem_fn_call(fuel, env0, sargs, pv, bv, fv);
            }
            lemma_least(block_ok(bound, bv), (fuel - 1) as nat);
            assert(block_fuel(bound, bv) < fn_call_fuel(env0, sargs, pv, bv, fv));
        }
        let object = self.eval_blockstmt(body);
        proof {
            lemma_frame_block((fuel - 1) as nat, bound, bv, Seq::empty());
            assert(self@ == (sem_block((fuel - 1) as nat, bound, bv)->0).0);
        }
        let mut env = Environment::new();
        std::mem::swap(&mut env, &mut self.env);
        env.leave(prev);
        self.env = env;
        proof {
            assert forall|n: nat| sem_fn_call(n, env0, sargs, pv, bv, fv) is Some implies sem_fn_call(
                n,
                env0,
                sargs,
                pv,
                bv,
                fv,
            ) == Some((self@, object@)) by {
                unfold_sem_fn_call(n, env0, sargs, pv, bv, fv);
                assert(sem_exprs(n, env0, sargs) is Some);
                assert(sem_block((n - 1) as nat, bound, bv) is Some);
            }
        }
        object
    }

    /// Evaluates the elements of an array in order.
    pub fn eval_array(&mut self, exprs: Vec<Expr>) -> (r: Object)
        requires
            array_finishes(old(self)@, exprs_view(exprs@)),
        ensures
            env_wf(final(self)@),
            forall|n: nat|
                #![trigger sem_array(n, old(self)@, exprs_view(exprs@))]
                sem_array(n, old(self)@, exprs_view(exprs@)) is Some ==> sem_array(
                    n,
                    old(self)@,
                    exprs_view(exprs@),
                ) == Some((final(self)@, r@)),
        decreases array_fuel(old(self)@, exprs_view(exprs@)), exprs_size(exprs_view(exprs@)) + 1,
    {
        let ghost env0 = self@;
        let ghost sargs = exprs_view(exprs@);
        proof {
            let w = choose|n: nat| sem_array(n, env0, sargs) is Some;
            lemma_least(array_ok(env0, sargs), w);
        }
        let ghost fuel = array_fuel(env0, sargs);
        proof {
            assert(sem_exprs(fuel, env0, sargs) is Some) by {
                unfold_sem_array(fuel, env0, sargs);
            }
            lemma_least(exprs_ok(env0, sargs), fuel);
        }
        let vals = self.eval_exprs(exprs);
        let r = Object::Array(vals);
        proof {
            assert forall|n: nat| sem_array(n, env0, sargs) is Some implies sem_array(n, env0, sargs)
                == Some((self@, r@)) by {
                unfold_sem_array(n, env0, sargs);
                assert(sem_exprs(n, env0, sargs) is Some);
            }
        }
        proof {
            use_type_invariant(&*self);
        }
        r
    }

    /// Evaluates a list of expressions in order.
    fn eval_exprs(&mut self, exprs: Vec<Expr>) -> (r: Vec<Object>)
        requires
            exprs_finishes(old(self)@, exprs_view(exprs@)),
        ensures
            forall|n: nat|
                #![trigger sem_exprs(n, old(self)@, exprs_view(exprs@))]
                sem_exprs(n, old(self)@, exprs_view(exprs@)) is Some ==> sem_exprs(
                    n,
                    old(self)@,
                    exprs_view(exprs@),
                ) == Some((final(self)@, objects_view(r@))),
            r@.len() == exprs@.len(),
        decreases exprs_fuel(old(self)@, exprs_view(exprs@)), exprs_size(exprs_view(exprs@)),
    {
        let ghost env0 = self@;
        let ghost sargs = exprs_view(exprs@);
        proof {
            let w = choose|n: nat| sem_exprs(n, env0, sargs) is Some;
            lemma_least(exprs_ok(env0, sargs), w);
        }
        let ghost fuel = exprs_fuel(env0, sargs);
        let mut new_vec: Vec<Object> = Vec::new();
        let mut rest = exprs;
        let mut i: usize = 0;
        proof {
            assert forall|m: nat| sem_exprs(m, env0, sargs.subrange(0, 0)) == Some((env0, objects_view(new_vec@))) by {
                unfold_sem_exprs(m, env0, sargs.subrange(0, 0));
                assert(sargs.subrange(0, 0) =~= Seq::<ExprV>::empty());
                assert(objects_view(new_vec@) =~= Seq::<ObjectV>::empty());
            }
            assert(exprs_view(rest@) =~= sargs.subrange(0, sargs.len() as int));
        }
        let ghost total: usize = rest.len();
        while rest.len() > 0
            invariant
                sargs.len() == i + rest@.len(),
                total == sargs.len(),
                new_vec@.len() == i,
                exprs_view(rest@) =~= sargs.subrange(i as int, sargs.len() as int),
                sem_exprs(fuel, env0, sargs) is Some,
                fuel == exprs_fuel(env0, sargs),
                env0 == old(self)@,
                sargs == exprs_view(exprs@),
                forall|m: nat|
                    #![trigger sem_exprs(m, env0, sargs)]
                    sem_exprs(m, env0, sargs) is Some ==> sem_exprs(m, env0, sargs.subrange(0, i as int))
                        == Some((self@, objects_view(new_vec@))),
            decreases rest@.len(),
        {
            let ghost env_i = self@;
            let ghost vals_i = objects_view(new_vec@);
            let ghost rest_i = exprs_view(rest@);
            let e = rest.remove(0);
            let ghost ex = e@;
            proof {
                assert(ex == rest_i[0]);
                assert(ex == sargs[i as int]);
                assert(exprs_view(rest@) =~= rest_i.subrange(1, rest_i.len() as int));
                lemma_exprs_step(fuel, env0, sargs, i as int, env_i, vals_i);
                lemma_least(expr_ok(env_i, ex), fuel);
                lemma_exprs_size(sargs, i as int);
            }
            let v = self.eval_expr(e);
            new_vec.push(v);
            proof {
                assert(objects_view(new_vec@) =~= vals_i.push(v@));
                assert forall|m: nat|
                    #![trigger sem_exprs(m, env0, sargs)]
                    sem_exprs(m, env0, sargs) is Some implies sem_exprs(m, env0, sargs.subrange(0, i + 1))
                        == Some((self@, objects_view(new_vec@))) by {
                    lemma_exprs_step(m, env0, sargs, i as int, env_i, vals_i);
                }
            }
            i = i + 1;
        }
        proof {
            assert(sargs.subrange(0, sargs.len() as int) =~= sargs);
        }
        new_vec
    }

    /// Evaluates the entries of a hash literal in order; a later entry for a
    /// key replaces the value of an earlier one.
    pub fn eval_hash(&mut self, hs: Vec<(Literal, Expr)>) -> (r: Object)
        requires
            hash_finishes(old(self)@, pairs_view(hs@)),
        ensures
            env_wf(final(self)@),
            forall|n: nat|
                #![trigger sem_hash(n, old(self)@, pairs_view(hs@))]
                sem_hash(n, old(self)@, pairs_view(hs@)) is Some ==> sem_hash(
                    n,
                    old(self)@,
                    pairs_view(hs@),
                ) == Some((final(self)@, r@)),
        decreases hash_fuel(old(self)@, pairs_view(hs@)), pairs_size(pairs_view(hs@)) + 1,
    {
        let ghost env0 = self@;
        let ghost sps = pairs_view(hs@);
        proof {
            let w = choose|n: nat| sem_hash(n, env0, sps) is Some;
            lemma_least(hash_ok(env0, sps), w);
        }
        let ghost fuel = hash_fuel(env0, sps);
        proof {
            assert(sem_pairs(fuel, env0, sps) is Some) by {
                unfold_sem_hash(fuel, env0, sps);
            }
        }
        let mut hashmap: Vec<(HashKey, Object)> = Vec::new();
        let mut rest = hs;
        let mut i: usize = 0;
        proof {
            assert forall|m: nat| sem_pairs(m, env0, sps.subrange(0, 0)) == Some((env0, entries_view(hashmap@))) by {
                unfold_sem_pairs(m, env0, sps.subrange(0, 0));
                assert(sps.subrange(0, 0) =~= Seq::<(LiteralV, ExprV)>::empty());
                assert(entries_view(hashmap@) =~= Seq::<(HashKeyV, ObjectV)>::empty());
            }
            assert(pairs_view(rest@) =~= sps.subrange(0, sps.len() as int));
        }
        let ghost total: usize = rest.len();
        while rest.len() > 0
            invariant
                sps.len() == i + rest@.len(),
                total == sps.len(),
                pairs_view(rest@) =~= sps.subrange(i as int, sps.len() as int),
                sem_pairs(fuel, env0, sps) is Some,
                fuel == hash_fuel(env0, sps),
                env0 == old(self)@,
                sps == pairs_view(hs@),
                forall|m: nat|
                    #![trigger sem_pairs(m, env0, sps)]
                    sem_pairs(m, env0, sps) is Some ==> sem_pairs(m, env0, sps.subrange(0, i as int))
                        == Some((self@, entries_view(hashmap@))),
            decreases rest@.len(),
        {
            let ghost env_i = self@;
            let ghost entries_i = entries_view(hashmap@);
            let ghost rest_i = pairs_view(rest@);
            let pair = rest.remove(0);
            let ghost pv = (pair.0@, pair.1@);
            proof {
                assert(pv == rest_i[0]);
                assert(pv == sps[i as int]);
                assert(pairs_view(rest@) =~= rest_i.subrange(1, rest_i.len() as int));
                lemma_pairs_step(fuel, env0, sps, i as int, env_i, entries_i);
                lemma_least(pair_ok(env_i, pv), fuel);
                lemma_pairs_size(sps, i as int);
            }
            let (k, v) = self.eval_pair(pair);
            match hash_key_of(&k) {
                Some(key) => {
                    hash_insert(&mut hashmap, key, v);
                },
                None => {},
            }
            proof {
                assert forall|m: nat|
                    #![trigger sem_pairs(m, env0, sps)]
                    sem_pairs(m, env0, sps) is Some implies sem_pairs(m, env0, sps.subrange(0, i + 1))
                        == Some((self@, entries_view(hashmap@))) by {
                    lemma_pairs_step(m, env0, sps, i as int, env_i, entries_i);
                }
            }
            i = i + 1;
        }
        let r = Object::Hash(hashmap);
        proof {
            assert(sps.subrange(0, sps.len() as int) =~= sps);
            assert forall|n: nat| sem_hash(n, env0, sps) is Some implies sem_hash(n, env0, sps)
                == Some((self@, r@)) by {
                unfold_sem_hash(n, env0, sps);
            }
        }
        proof {
            use_type_invariant(&*self);
        }
        r
    }

    /// Evaluates an entry of a hash literal: its key as a value, and its value.
    fn eval_pair(&mut self, tuple: (Literal, Expr)) -> (r: (Object, Object))
        requires
            pair_finishes(old(self)@, (tuple.0@, tuple.1@)),
        ensures
            forall|n: nat|
                #![trigger sem_pair(n, old(self)@, (tuple.0@, tuple.1@))]
                sem_pair(n, old(self)@, (tuple.0@, tuple.1@)) is Some ==> sem_pair(
                    n,
                    old(self)@,
                    (tuple.0@, tuple.1@),
                ) == Some((final(self)@, (r.0@, r.1@))),
        decreases pair_fuel(old(self)@, (tuple.0@, tuple.1@)), expr_size(tuple.1@) + 1,
    {
        let ghost env0 = self@;
        let ghost pv = (tuple.0@, tuple.1@);
        proof {
            let w = choose|n: nat| sem_pair(n, env0, pv) is Some;
            lemma_least(pair_ok(env0, pv), w);
        }
        let ghost fuel = pair_fuel(env0, pv);
        let (l, e) = tuple;
        let hash = self.l2h(l);
        proof {
            assert(sem_expr(fuel, env0, pv.1) is Some) by {
                unfold_sem_pair(fuel, env0, pv);
            }
            lemma_least(expr_ok(env0, pv.1), fuel);
        }
        let object = self.eval_expr(e);
        proof {
            assert forall|n: nat| sem_pair(n, env0, pv) is Some implies sem_pair(n, env0, pv)
                == Some((self@, (hash@, object@))) by {
                unfold_sem_pair(n, env0, pv);
                assert(sem_expr(n, env0, pv.1) is Some);
            }
        }
        (hash, object)
    }

    /// Evaluates the target, then the index, and looks the index up.
    pub fn eval_index(&mut self, target_exp: Expr, id_exp: Expr) -> (r: Object)
        requires
            index_finishes(old(self)@, target_exp@, id_exp@),
        ensures
            env_wf(final(self)@),
            forall|n: nat|
                #![trigger sem_index(n, old(self)@, target_exp@, id_exp@)]
                sem_index(n, old(self)@, target_exp@, id_exp@) is Some ==> sem_index(
                    n,
                    old(self)@,
                    target_exp@,
                    id_exp@,
                ) == Some((final(self)@, r@)),
        decreases index_fuel(old(self)@, target_exp@, id_exp@), expr_size(target_exp@) + expr_size(
            id_exp@,
        ) + 1,
    {
        let ghost env0 = self@;
        let ghost (tv, iv) = (target_exp@, id_exp@);
        proof {
            let w = choose|n: nat| sem_index(n, env0, tv, iv) is Some;
            lemma_least(index_ok(env0, tv, iv), w);
        }
        let ghost fuel = index_fuel(env0, tv, iv);
        proof {
            assert(sem_expr(fuel, env0, tv) is Some) by {
                unfold_sem_index(fuel, env0, tv, iv);
            }
            lemma_least(expr_ok(env0, tv), fuel);
        }
        let target = self.eval_expr(target_exp);
        let ghost env1 = self@;
        proof {
            assert(sem_expr(fuel, env1, iv) is Some) by {
                unfold_sem_index(fuel, env0, tv, iv);
            }
            lemma_least(expr_ok(env1, iv), fuel);
        }
        let index = self.eval_expr(id_exp);
        let r = index_object(self, target, index);
        proof {
            assert forall|n: nat| sem_index(n, env0, tv, iv) is Some implies sem_index(n, env0, tv, iv)
                == Some((self@, r@)) by {
                unfold_sem_index(n, env0, tv, iv);
                assert(sem_expr(n, env0, tv) is Some);
                assert(sem_expr(n, env1, iv) is Some);
            }
        }
        proof {
            use_type_invariant(&*self);
        }
        r
    }

    /// A call of a built-in function: only the number of arguments is checked.
    fn eval_builtin_call(&mut self, args_expr: Vec<Expr>, num_params: usize) -> (r: Object)
        ensures
            final(self)@ == old(self)@,
            r@ == builtin_result(num_params as nat, args_expr@.len()),
    {
        if args_expr.len() != num_params {
            Object::Error(arity_message(num_params, args_expr.len()))
        } else {
            Object::Null
        }
    }
}

/// Binds each parameter to its argument in the current scope, in order.
fn bind_args(env: &mut Environment, params: &Vec<Ident>, args: &Vec<Object>)
    requires
        params.len() == args.len(),
    ensures
        final(env)@ == bind_params(old(env)@, idents_view(params@), objects_view(args@)),
{
    let ghost pv = idents_view(params@);
    let ghost vals = objects_view(args@);
    let ghost e0 = env@;
    let mut j: usize = 0;
    proof {
        assert(pv.subrange(0, 0) =~= Seq::<Seq<char>>::empty());
    }
    while j < params.len()
        invariant
            j <= params.len(),
            params.len() == args.len(),
            pv == idents_view(params@),
            vals == objects_view(args@),
            env@ == bind_params(e0, pv.subrange(0, j as int), vals.subrange(0, j as int)),
        decreases params.len() - j,
    {
        env.set(&params[j].0, &args[j]);
        proof {
            assert(pv.subrange(0, j + 1).drop_last() =~= pv.subrange(0, j as int));
            assert(vals.subrange(0, j + 1).drop_last() =~= vals.subrange(0, j as int));
        }
        j = j + 1;
    }
    proof {
        assert(pv.subrange(0, pv.len() as int) =~= pv);
        assert(vals.subrange(0, vals.len() as int) =~= vals);
    }
}

/// A prefix operator on a value.
fn prefix_object(ev: &mut Evaluator, prefix: Prefix, object: Object) -> (r: Object)
    requires
        prefix_result(prefix, object@) is Some,
    ensures
        final(ev)@ == old(ev)@,
        Some(r@) == prefix_result(prefix, object@),
{
    match prefix {
        Prefix::Not => {
            match ev.otb(object) {
                Ok(b) => Object::Boolean(!b),
                Err(err) => err,
            }
        },
        Prefix::PrefixPlus => {
            match ev.oti(object) {
                Ok(i) => Object::Integer(i),
                Err(err) => err,
            }
        },
        Prefix::PrefixMinus => {
            match ev.oti(object) {
                Ok(i) => Object::Integer(-i),
                Err(err) => err,
            }
        },
    }
}

/// A binary operator on two values.
fn infix_object(ev: &mut Evaluator, infix: Infix, object1: Object, object2: Object) -> (r: Object)
    requires
        infix_result(infix, object1@, object2@) is Some,
    ensures
        final(ev)@ == old(ev)@,
        Some(r@) == infix_result(infix, object1@, object2@),
{
    match infix {
        Infix::Plus => ev.object_add(object1, object2),
        Infix::Equal => Object::Boolean(objects_equal(&object1, &object2)),
        Infix::NotEqual => Object::Boolean(!objects_equal(&object1, &object2)),
        _ => {
            let i1 = ev.oti(object1);
            let i2 = ev.oti(object2);
            match (i1, i2) {
                (Ok(i1), Ok(i2)) => int_infix(infix, i1, i2),
                (Err(err), _) => err,
                (_, Err(err)) => err,
            }
        },
    }
}

/// `target[index]` on two values.
fn index_object(ev: &mut Evaluator, target: Object, index: Object) -> (r: Object)
    ensures
        final(ev)@ == old(ev)@,
        r@ == index_result(target@, index@),
{
    let ghost tv = target@;
    match target {
        Object::Array(arr) => {
            assert(tv == ObjectV::Array(objects_view(arr@)));
            match ev.oti(index) {
                Ok(index_number) => {
                    if index_number >= 0 && (index_number as u64) < (arr.len() as u64) {
                        let r = clone_object(&arr[index_number as usize]);
                        proof {
                            let k = index_number as int;
                            assert(objects_view(arr@)[k] == arr@[k]@);
                        }
                        r
                    } else {
                        Object::Null
                    }
                },
                Err(err) => err,
            }
        },
        Object::Hash(hash) => {
            assert(tv == ObjectV::Hash(entries_view(hash@)));
            let name = ev.oth(index);
            match hash_key_of(&name) {
                Some(key) => match entries_index(&hash, &key) {
                    Some(i) => {
                        proof {
                            lemma_assoc_index(entries_view(hash@), key@);
                        }
                        let r = clone_object(&hash[i].1);
                        proof {
                            assert(entries_view(hash@)[i as int].1 == hash@[i as int].1@);
                        }
                        r
                    },
                    None => Object::Null,
                },
                None => Object::Null,
            }
        },
        o => Object::Error(
            String::from_str("unexpected index target: ").concat(display_string(&o).as_str()),
        ),
    }
}

/// An operator other than `+`, `==` and `!=` on two integers.
fn int_infix(infix: Infix, i1: i64, i2: i64) -> (r: Object)
    requires
        int_result(infix, i1, i2) is Some,
    ensures
        Some(r@) == int_result(infix, i1, i2),
{
    match infix {
        Infix::Minus => Object::Integer(i1.checked_sub(i2).unwrap()),
        Infix::Divide => Object::Integer(i1.checked_div(i2).unwrap()),
        Infix::Multiply => Object::Integer(i1.checked_mul(i2).unwrap()),
        Infix::GreaterThanEqual => Object::Boolean(i1 >= i2),
        Infix::GreaterThan => Object::Boolean(i1 > i2),
        Infix::LessThanEqual => Object::Boolean(i1 <= i2),
        Infix::LessThan => Object::Boolean(i1 < i2),
        _ => Object::Null,
    }
}

/// `wrong number of arguments: {expected} expected but {given} given`.
fn arity_message(expected: usize, given: usize) -> (s: String)
    ensures
        s@ == arity_msg(expected as nat, given as nat),
{
    String::from_str("wrong number of arguments: ").concat(nat_text(expected as u64).as_str()).concat(
        " expected but ",
    ).concat(nat_text(given as u64).as_str()).concat(" given")
}

} // verus!
