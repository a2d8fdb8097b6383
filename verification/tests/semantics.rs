use monkey::ast::{Expr, Ident, Infix, Literal, Prefix, Program, Stmt};
use monkey::environment::Environment;
use monkey::evaluator::Evaluator;
use monkey::object::{display_string, objects_equal, HashKey, Object};

fn num(i: i64) -> Expr {
    Expr::LitExpr(Literal::IntLiteral(i))
}

fn boolean(b: bool) -> Expr {
    Expr::LitExpr(Literal::BoolLiteral(b))
}

fn string(s: &str) -> Expr {
    Expr::LitExpr(Literal::StringLiteral(s.to_string()))
}

fn ident(name: &str) -> Ident {
    Ident(name.to_string())
}

fn var(name: &str) -> Expr {
    Expr::IdentExpr(ident(name))
}

fn infix(op: Infix, a: Expr, b: Expr) -> Expr {
    Expr::InfixExpr(op, Box::new(a), Box::new(b))
}

fn func(params: &[&str], body: Vec<Stmt>) -> Expr {
    Expr::FnExpr { params: params.iter().map(|p| ident(p)).collect(), body }
}

fn call(function: Expr, arguments: Vec<Expr>) -> Expr {
    Expr::CallExpr { function: Box::new(function), arguments }
}

fn index(a: Expr, i: Expr) -> Expr {
    Expr::IndexExpr { array: Box::new(a), index: Box::new(i) }
}

fn hash(pairs: Vec<(Literal, Expr)>) -> Expr {
    Expr::HashExpr(pairs)
}

fn stmt(e: Expr) -> Stmt {
    Stmt::ExprStmt(e)
}

fn let_stmt(name: &str, e: Expr) -> Stmt {
    Stmt::LetStmt(ident(name), e)
}

fn run(program: Program) -> Object {
    Evaluator::new().eval_program(program)
}

fn error(msg: &str) -> Object {
    Object::Error(msg.to_string())
}

#[test]
fn environment_reads_back_what_was_set() {
    let mut env = Environment::new();
    env.set(&"a".to_string(), &Object::Integer(1));
    env.set(&"b".to_string(), &Object::Integer(2));
    env.set(&"a".to_string(), &Object::Integer(3));
    assert_eq!(env.get(&"a".to_string()), Some(Object::Integer(3)));
    assert_eq!(env.get(&"b".to_string()), Some(Object::Integer(2)));
    assert_eq!(env.get(&"c".to_string()), None);
}

#[test]
fn environment_falls_back_to_outer_scope() {
    let mut env = Environment::new();
    env.set(&"x".to_string(), &Object::Integer(7));
    env.set(&"y".to_string(), &Object::Integer(8));
    let outer = env.current_scope();
    let prev = env.enter(outer);
    assert_eq!(prev, outer);
    env.set(&"x".to_string(), &Object::Boolean(true));
    assert_eq!(env.get(&"x".to_string()), Some(Object::Boolean(true)));
    assert_eq!(env.get(&"y".to_string()), Some(Object::Integer(8)));
    assert_eq!(env.get(&"z".to_string()), None);
    env.leave(prev);
    assert_eq!(env.get(&"x".to_string()), Some(Object::Integer(7)));
    assert_eq!(env.scope_count(), 2);
}

#[test]
fn register_then_read_identifier() {
    let mut ev = Evaluator::new();
    let r = ev.register_ident(ident("answer"), Object::Integer(42));
    assert_eq!(r, Object::Integer(42));
    assert_eq!(ev.eval_ident(ident("answer")), Object::Integer(42));
    assert_eq!(ev.eval_ident(ident("other")), error("identifier not found: other"));
}

#[test]
fn let_then_read_gives_the_value() {
    let program = vec![let_stmt("x", infix(Infix::Multiply, num(6), num(7))), stmt(var("x"))];
    assert_eq!(run(program), Object::Integer(42));
}

#[test]
fn hash_equality_ignores_entry_order() {
    let a = Object::Hash(vec![
        (HashKey::Integer(1), Object::Integer(2)),
        (HashKey::String("k".to_string()), Object::Boolean(true)),
    ]);
    let b = Object::Hash(vec![
        (HashKey::String("k".to_string()), Object::Boolean(true)),
        (HashKey::Integer(1), Object::Integer(2)),
    ]);
    let c = Object::Hash(vec![(HashKey::Integer(1), Object::Integer(2))]);
    assert!(objects_equal(&a, &b));
    assert!(objects_equal(&b, &a));
    assert!(a == b);
    assert!(a != c);
    assert!(c != a);
    // The same through the `==` operator of the language.
    let program = vec![stmt(infix(
        Infix::Equal,
        hash(vec![(Literal::IntLiteral(1), num(2)), (Literal::IntLiteral(3), num(4))]),
        hash(vec![(Literal::IntLiteral(3), num(4)), (Literal::IntLiteral(1), num(2))]),
    ))];
    assert_eq!(run(program), Object::Boolean(true));
}

#[test]
fn equality_is_reflexive_symmetric_and_transitive_on_samples() {
    let samples = vec![
        Object::Integer(1),
        Object::Boolean(false),
        Object::String("s".to_string()),
        Object::Null,
        Object::Array(vec![Object::Integer(1), Object::Null]),
        Object::Hash(vec![(HashKey::Boolean(true), Object::Integer(1))]),
        Object::ReturnValue(Box::new(Object::Integer(1))),
        Object::Error("e".to_string()),
    ];
    for x in &samples {
        assert!(objects_equal(x, x));
        for y in &samples {
            assert_eq!(objects_equal(x, y), objects_equal(y, x));
            for z in &samples {
                if objects_equal(x, y) && objects_equal(y, z) {
                    assert!(objects_equal(x, z));
                }
            }
        }
    }
}

#[test]
fn not_equal_negates_equal() {
    let pairs = vec![(num(1), num(1)), (num(1), num(2)), (string("a"), string("a")), (boolean(true), num(1))];
    for (a, b) in pairs {
        let eq = run(vec![stmt(infix(Infix::Equal, clone_expr(&a), clone_expr(&b)))]);
        let ne = run(vec![stmt(infix(Infix::NotEqual, a, b))]);
        match (eq, ne) {
            (Object::Boolean(e), Object::Boolean(n)) => assert_eq!(e, !n),
            other => panic!("unexpected results {:?}", other),
        }
    }
}

fn clone_expr(e: &Expr) -> Expr {
    monkey::ast::clone_expr(e)
}

#[test]
fn later_hash_entry_replaces_earlier_one() {
    let h = hash(vec![
        (Literal::IntLiteral(1), num(10)),
        (Literal::StringLiteral("a".to_string()), num(5)),
        (Literal::IntLiteral(1), num(20)),
    ]);
    let value = run(vec![stmt(h)]);
    assert_eq!(
        value,
        Object::Hash(vec![
            (HashKey::Integer(1), Object::Integer(20)),
            (HashKey::String("a".to_string()), Object::Integer(5)),
        ])
    );
    match value {
        Object::Hash(entries) => assert_eq!(entries.len(), 2),
        _ => panic!("not a hash"),
    }
    let program = vec![stmt(index(
        hash(vec![(Literal::IntLiteral(1), num(10)), (Literal::IntLiteral(1), num(20))]),
        num(1),
    ))];
    assert_eq!(run(program), Object::Integer(20));
}

#[test]
fn division_rounds_toward_zero() {
    assert_eq!(run(vec![stmt(infix(Infix::Divide, num(7), num(2)))]), Object::Integer(3));
    let minus_seven = Expr::PrefixExpr(Prefix::PrefixMinus, Box::new(num(7)));
    assert_eq!(run(vec![stmt(infix(Infix::Divide, minus_seven, num(2)))]), Object::Integer(-3));
}

#[test]
fn addition_errors() {
    assert_eq!(
        run(vec![stmt(infix(Infix::Plus, num(1), boolean(true)))]),
        error("1 and true are not addable")
    );
    // An error on either side is passed on unchanged.
    let bad = || infix(Infix::Plus, num(1), boolean(true));
    assert_eq!(run(vec![stmt(infix(Infix::Plus, bad(), num(5)))]), error("1 and true are not addable"));
    assert_eq!(run(vec![stmt(infix(Infix::Plus, num(5), bad()))]), error("1 and true are not addable"));
    assert_eq!(run(vec![stmt(infix(Infix::Minus, bad(), num(5)))]), error("1 and true are not addable"));
}

#[test]
fn messages_show_values() {
    let arr = Expr::ArrayExpr(vec![num(1), string("two"), boolean(false)]);
    assert_eq!(
        run(vec![stmt(Expr::PrefixExpr(Prefix::Not, Box::new(arr)))]),
        error("[1, two, false] is not a bool")
    );
    let h = hash(vec![(Literal::IntLiteral(1), num(2)), (Literal::BoolLiteral(true), string("x"))]);
    assert_eq!(
        run(vec![stmt(Expr::PrefixExpr(Prefix::PrefixMinus, Box::new(h)))]),
        error("{1: 2, true: x} is not an integer")
    );
    assert_eq!(
        run(vec![stmt(call(Expr::ArrayExpr(vec![]), vec![]))]),
        error("[] is not a valid function")
    );
    assert_eq!(
        run(vec![stmt(index(func(&["x"], vec![]), num(0)))]),
        error("unexpected index target: [function]")
    );
    assert_eq!(
        run(vec![stmt(index(Expr::ArrayExpr(vec![num(1)]), boolean(true)))]),
        error("true is not an integer")
    );
    assert_eq!(Object::Null.to_string(), "null".to_string());
    assert_eq!(display_string(&Object::Integer(-12)), "-12".to_string());
    assert_eq!(display_string(&Object::Error("boom".to_string())), "Error: boom".to_string());
    assert_eq!(
        display_string(&Object::ReturnValue(Box::new(Object::Boolean(true)))),
        "true".to_string()
    );
    assert_eq!(
        display_string(&Object::Builtin("len".to_string(), 1)),
        "[built-in function: len]".to_string()
    );
}

#[test]
fn builtin_values_check_their_arity() {
    let mut ev = Evaluator::new();
    ev.register_ident(ident("len"), Object::Builtin("len".to_string(), 1));
    assert_eq!(
        ev.eval_expr(call(var("len"), vec![])),
        error("wrong number of arguments: 1 expected but 0 given")
    );
    assert_eq!(ev.eval_expr(call(var("len"), vec![string("abc")])), Object::Null);
}

#[test]
fn function_scope_does_not_leak() {
    let program = vec![
        let_stmt("f", func(&[], vec![let_stmt("z", num(1)), stmt(var("z"))])),
        stmt(call(var("f"), vec![])),
        stmt(var("z")),
    ];
    assert_eq!(run(program), error("identifier not found: z"));
}

#[test]
fn branches_run_in_the_current_scope() {
    let program = vec![
        stmt(Expr::IfExpr {
            cond: Box::new(boolean(true)),
            consequence: vec![let_stmt("q", num(3))],
            alternative: None,
        }),
        stmt(var("q")),
    ];
    assert_eq!(run(program), Object::Integer(3));
}

#[test]
fn closures_keep_their_environment() {
    // let adder = fn(x) { fn(y) { x + y } }; adder(1)(2)
    let program = vec![
        let_stmt("adder", func(&["x"], vec![stmt(func(&["y"], vec![stmt(infix(Infix::Plus, var("x"), var("y")))]))])),
        stmt(call(call(var("adder"), vec![num(1)]), vec![num(2)])),
    ];
    assert_eq!(run(program), Object::Integer(3));
}

#[test]
fn a_function_sees_later_bindings_of_its_scope() {
    // let x = fn () { a; }; let a = 10; x();
    // The function refers to the scope it was made in, which binds `a` by
    // the time it runs.
    let program = vec![
        let_stmt("x", func(&[], vec![stmt(var("a"))])),
        let_stmt("a", num(10)),
        stmt(call(var("x"), vec![])),
    ];
    assert_eq!(run(program), Object::Integer(10));
}

#[test]
fn recursive_functions_see_themselves() {
    // let fact = fn(n) { if (n < 2) { 1 } else { n * fact(n - 1) } }; fact(5)
    let body = vec![stmt(Expr::IfExpr {
        cond: Box::new(infix(Infix::LessThan, var("n"), num(2))),
        consequence: vec![stmt(num(1))],
        alternative: Some(vec![stmt(infix(
            Infix::Multiply,
            var("n"),
            call(var("fact"), vec![infix(Infix::Minus, var("n"), num(1))]),
        ))]),
    })];
    let program = vec![let_stmt("fact", func(&["n"], body)), stmt(call(var("fact"), vec![num(5)]))];
    assert_eq!(run(program), Object::Integer(120));
}

#[test]
fn binding_survives_calls_that_bind_other_names() {
    // let a = 1; let f = fn() { let a = 2; let b = 3; b }; f(); let c = f(); a
    let program = vec![
        let_stmt("a", num(1)),
        let_stmt("f", func(&[], vec![let_stmt("a", num(2)), let_stmt("b", num(3)), stmt(var("b"))])),
        stmt(call(var("f"), vec![])),
        let_stmt("c", call(var("f"), vec![])),
        stmt(var("a")),
    ];
    assert_eq!(run(program), Object::Integer(1));
}

#[test]
fn functions_compare_by_scope_parameters_and_body() {
    // let f = fn(x) { x }; let g = fn(x) { x }; f == g  (made in the same scope)
    let program = vec![
        let_stmt("f", func(&["x"], vec![stmt(var("x"))])),
        let_stmt("g", func(&["x"], vec![stmt(var("x"))])),
        stmt(infix(Infix::Equal, var("f"), var("g"))),
    ];
    assert_eq!(run(program), Object::Boolean(true));
}

#[test]
fn errors_stop_a_block() {
    let program = vec![stmt(var("missing")), stmt(num(5))];
    assert_eq!(run(program), error("identifier not found: missing"));
}

#[test]
fn returned_value_is_unwrapped_once() {
    let mut ev = Evaluator::new();
    let r = ev.eval_blockstmt(vec![Stmt::ReturnStmt(num(4)), stmt(num(5))]);
    assert_eq!(r, Object::ReturnValue(Box::new(Object::Integer(4))));
    assert!(r.is_returned());
    assert_eq!(ev.eval_program(vec![Stmt::ReturnStmt(num(4))]), Object::Integer(4));
}

#[test]
fn conversions() {
    let mut ev = Evaluator::new();
    assert_eq!(ev.otb(Object::Boolean(true)), Ok(true));
    assert_eq!(ev.otb(Object::Null), Err(error("null is not a bool")));
    assert_eq!(ev.oti(Object::Integer(3)), Ok(3));
    assert_eq!(ev.oti(error("e")), Err(error("e")));
    assert_eq!(ev.otf(Object::Integer(3)), error("3 is not a valid function"));
    assert_eq!(ev.oth(Object::Array(vec![])), error("[] is not hashable"));
    assert_eq!(ev.oth(Object::String("k".to_string())), Object::String("k".to_string()));
    assert_eq!(ev.l2h(Literal::BoolLiteral(false)), Object::Boolean(false));
    assert_eq!(
        ev.object_add(Object::String("a".to_string()), Object::String("b".to_string())),
        Object::String("ab".to_string())
    );
}
