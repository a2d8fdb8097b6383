use monkey::ast::{Expr, Ident, Infix, Literal, Prefix, Program, Stmt};
use monkey::evaluator::Evaluator;
use monkey::object::Object;

// Builders for syntax trees, as the parser would produce them.

fn num(i: i64) -> Expr {
    Expr::LitExpr(Literal::IntLiteral(i))
}

fn boolean(b: bool) -> Expr {
    Expr::LitExpr(Literal::BoolLiteral(b))
}

fn string(s: &str) -> Expr {
    Expr::LitExpr(Literal::StringLiteral(s.to_string()))
}

fn ident(name: &str) -> Ident {
    Ident(name.to_string())
}

fn var(name: &str) -> Expr {
    Expr::IdentExpr(ident(name))
}

fn prefix(p: Prefix, e: Expr) -> Expr {
    Expr::PrefixExpr(p, Box::new(e))
}

fn neg(e: Expr) -> Expr {
    prefix(Prefix::PrefixMinus, e)
}

fn infix(op: Infix, a: Expr, b: Expr) -> Expr {
    Expr::InfixExpr(op, Box::new(a), Box::new(b))
}

fn plus(a: Expr, b: Expr) -> Expr {
    infix(Infix::Plus, a, b)
}

fn minus(a: Expr, b: Expr) -> Expr {
    infix(Infix::Minus, a, b)
}

fn times(a: Expr, b: Expr) -> Expr {
    infix(Infix::Multiply, a, b)
}

fn divide(a: Expr, b: Expr) -> Expr {
    infix(Infix::Divide, a, b)
}

fn if_expr(cond: Expr, consequence: Vec<Stmt>, alternative: Option<Vec<Stmt>>) -> Expr {
    Expr::IfExpr { cond: Box::new(cond), consequence, alternative }
}

fn func(params: &[&str], body: Vec<Stmt>) -> Expr {
    Expr::FnExpr { params: params.iter().map(|p| ident(p)).collect(), body }
}

fn call(function: Expr, arguments: Vec<Expr>) -> Expr {
    Expr::CallExpr { function: Box::new(function), arguments }
}

fn array(es: Vec<Expr>) -> Expr {
    Expr::ArrayExpr(es)
}

fn index(a: Expr, i: Expr) -> Expr {
    Expr::IndexExpr { array: Box::new(a), index: Box::new(i) }
}

fn let_stmt(name: &str, e: Expr) -> Stmt {
    Stmt::LetStmt(ident(name), e)
}

fn ret(e: Expr) -> Stmt {
    Stmt::ReturnStmt(e)
}

fn stmt(e: Expr) -> Stmt {
    Stmt::ExprStmt(e)
}

fn compare(program: Program, object: Object) {
    let mut evaluator = Evaluator::new();
    let eval = evaluator.eval_program(program);
    assert_eq!(eval, object);
}

fn error(msg: &str) -> Object {
    Object::Error(msg.to_string())
}

#[test]
fn test_simple() {
    // ints
    compare(vec![stmt(num(5))], Object::Integer(5));
    compare(vec![stmt(num(10))], Object::Integer(10));
    // bools
    compare(vec![stmt(boolean(true))], Object::Boolean(true));
    compare(vec![stmt(boolean(false))], Object::Boolean(false));
}

#[test]
fn test_prefix() {
    let not = |e: Expr| prefix(Prefix::Not, e);
    let plus_p = |e: Expr| prefix(Prefix::PrefixPlus, e);
    // bang operator
    compare(vec![stmt(not(boolean(false)))], Object::Boolean(true));
    compare(vec![stmt(not(boolean(true)))], Object::Boolean(false));
    compare(vec![stmt(not(not(boolean(false))))], Object::Boolean(false));
    compare(vec![stmt(not(not(boolean(true))))], Object::Boolean(true));

    compare(vec![stmt(not(num(5)))], error("5 is not a bool"));
    compare(vec![stmt(not(num(1)))], error("1 is not a bool"));
    compare(vec![stmt(not(num(0)))], error("0 is not a bool"));
    compare(vec![stmt(not(not(num(1))))], error("1 is not a bool"));
    compare(vec![stmt(not(not(num(0))))], error("0 is not a bool"));
    // the prefix +
    compare(vec![stmt(plus_p(num(1)))], Object::Integer(1));
    compare(vec![stmt(plus_p(num(5)))], Object::Integer(5));
    compare(vec![stmt(plus_p(num(20)))], Object::Integer(20));
    compare(vec![stmt(plus_p(boolean(true)))], error("true is not an integer"));
    compare(vec![stmt(plus_p(boolean(false)))], error("false is not an integer"));
    // the prefix -
    compare(vec![stmt(neg(num(1)))], Object::Integer(-1));
    compare(vec![stmt(neg(num(5)))], Object::Integer(-5));
    compare(vec![stmt(neg(num(20)))], Object::Integer(-20));
    compare(vec![stmt(neg(boolean(true)))], error("true is not an integer"));
    compare(vec![stmt(neg(boolean(false)))], error("false is not an integer"));
}

#[test]
fn test_infix_op() {
    // algebra
    // 5 + 5 + 5 + 5 - 10
    compare(
        vec![stmt(minus(plus(plus(plus(num(5), num(5)), num(5)), num(5)), num(10)))],
        Object::Integer(10),
    );
    // 2 * 2 * 2 * 2 * 2
    compare(
        vec![stmt(times(times(times(times(num(2), num(2)), num(2)), num(2)), num(2)))],
        Object::Integer(32),
    );
    // -50 + 100 + -50
    compare(vec![stmt(plus(plus(neg(num(50)), num(100)), neg(num(50))))], Object::Integer(0));
    // 5 * 2 + 10
    compare(vec![stmt(plus(times(num(5), num(2)), num(10)))], Object::Integer(20));
    // 5 + 2 * 10
    compare(vec![stmt(plus(num(5), times(num(2), num(10))))], Object::Integer(25));
    // 20 + 2 * -10
    compare(vec![stmt(plus(num(20), times(num(2), neg(num(10)))))], Object::Integer(0));
    // 50 / 2 * 2 + 10
    compare(vec![stmt(plus(times(divide(num(50), num(2)), num(2)), num(10)))], Object::Integer(60));
    // 2 * (5 + 10)
    compare(vec![stmt(times(num(2), plus(num(5), num(10))))], Object::Integer(30));
    // 3 * 3 * 3 + 10
    compare(vec![stmt(plus(times(times(num(3), num(3)), num(3)), num(10)))], Object::Integer(37));
    // 3 * (3 * 3) + 10
    compare(vec![stmt(plus(times(num(3), times(num(3), num(3))), num(10)))], Object::Integer(37));
    // (5 + 10 * 2 + 15 / 3) * 2 + -10
    compare(
        vec![stmt(plus(
            times(plus(plus(num(5), times(num(10), num(2))), divide(num(15), num(3))), num(2)),
            neg(num(10)),
        ))],
        Object::Integer(50),
    );
    // logic algebra
    let lt = |a: i64, b: i64| infix(Infix::LessThan, num(a), num(b));
    let gt = |a: i64, b: i64| infix(Infix::GreaterThan, num(a), num(b));
    let le = |a: i64, b: i64| infix(Infix::LessThanEqual, num(a), num(b));
    let ge = |a: i64, b: i64| infix(Infix::GreaterThanEqual, num(a), num(b));
    let eq = |a: i64, b: i64| infix(Infix::Equal, num(a), num(b));
    let ne = |a: i64, b: i64| infix(Infix::NotEqual, num(a), num(b));
    compare(vec![stmt(lt(1, 2))], Object::Boolean(true));
    compare(vec![stmt(gt(1, 2))], Object::Boolean(false));
    compare(vec![stmt(lt(1, 1))], Object::Boolean(false));
    compare(vec![stmt(gt(1, 1))], Object::Boolean(false));
    compare(vec![stmt(le(1, 2))], Object::Boolean(true));
    compare(vec![stmt(ge(1, 2))], Object::Boolean(false));
    compare(vec![stmt(le(1, 1))], Object::Boolean(true));
    compare(vec![stmt(ge(1, 1))], Object::Boolean(true));
    compare(vec![stmt(eq(1, 1))], Object::Boolean(true));
    compare(vec![stmt(ne(1, 1))], Object::Boolean(false));
    compare(vec![stmt(eq(1, 2))], Object::Boolean(false));
    compare(vec![stmt(ne(1, 2))], Object::Boolean(true));
    // combination
    compare(vec![stmt(infix(Infix::Equal, lt(1, 2), boolean(true)))], Object::Boolean(true));
    compare(vec![stmt(infix(Infix::Equal, lt(1, 2), boolean(false)))], Object::Boolean(false));
    compare(vec![stmt(infix(Infix::Equal, gt(1, 2), boolean(true)))], Object::Boolean(false));
    compare(vec![stmt(infix(Infix::Equal, gt(1, 2), boolean(false)))], Object::Boolean(true));
}

#[test]
fn test_conditional() {
    let lt = infix(Infix::LessThan, num(1), num(2));
    let gt = infix(Infix::GreaterThan, num(1), num(2));
    compare(vec![stmt(if_expr(boolean(true), vec![stmt(num(10))], None))], Object::Integer(10));
    compare(vec![stmt(if_expr(boolean(false), vec![stmt(num(10))], None))], Object::Null);
    compare(vec![stmt(if_expr(num(1), vec![stmt(num(10))], None))], error("1 is not a bool"));
    compare(
        vec![stmt(if_expr(infix(Infix::LessThan, num(1), num(2)), vec![stmt(num(10))], None))],
        Object::Integer(10),
    );
    compare(
        vec![stmt(if_expr(infix(Infix::GreaterThan, num(1), num(2)), vec![stmt(num(10))], None))],
        Object::Null,
    );
    compare(
        vec![stmt(if_expr(lt, vec![stmt(num(10))], Some(vec![stmt(num(20))])))],
        Object::Integer(10),
    );
    compare(
        vec![stmt(if_expr(gt, vec![stmt(num(10))], Some(vec![stmt(num(20))])))],
        Object::Integer(20),
    );
}

#[test]
fn test_return() {
    compare(vec![ret(num(10))], Object::Integer(10));
    compare(vec![ret(num(10)), stmt(num(9))], Object::Integer(10));
    compare(vec![ret(times(num(2), num(5))), stmt(num(9))], Object::Integer(10));
    compare(vec![stmt(num(9)), ret(times(num(2), num(5))), stmt(num(9))], Object::Integer(10));

    // if (10 > 1) { if (10 > 1) { return 10; } return 1; }
    let gt = || infix(Infix::GreaterThan, num(10), num(1));
    let input = vec![stmt(if_expr(
        gt(),
        vec![stmt(if_expr(gt(), vec![ret(num(10))], None)), ret(num(1))],
        None,
    ))];
    compare(input, Object::Integer(10));
}

#[test]
fn test_bindings() {
    compare(vec![let_stmt("a", num(5)), stmt(var("a"))], Object::Integer(5));
    compare(vec![let_stmt("a", times(num(5), num(5))), stmt(var("a"))], Object::Integer(25));
    compare(
        vec![let_stmt("a", num(5)), let_stmt("b", var("a")), stmt(var("b"))],
        Object::Integer(5),
    );
    compare(
        vec![
            let_stmt("a", num(5)),
            let_stmt("b", var("a")),
            let_stmt("c", plus(plus(var("a"), var("b")), num(5))),
            stmt(var("c")),
        ],
        Object::Integer(15),
    );
    compare(vec![stmt(var("foobar"))], error("identifier not found: foobar"));
}

#[test]
fn test_strings() {
    compare(vec![stmt(string("foobar"))], Object::String("foobar".to_string()));
    compare(vec![stmt(plus(string("foo"), string("bar")))], Object::String("foobar".to_string()));
    compare(
        vec![stmt(plus(plus(string("foo"), string(" ")), string("bar")))],
        Object::String("foo bar".to_string()),
    );
    compare(vec![stmt(minus(string("foo"), string("bar")))], error("foo is not an integer"));
}

#[test]
fn test_fn() {
    compare(
        vec![let_stmt("identity", func(&["x"], vec![stmt(var("x"))])), stmt(call(var("identity"), vec![num(5)]))],
        Object::Integer(5),
    );
    compare(
        vec![let_stmt("identity", func(&["x"], vec![ret(var("x"))])), stmt(call(var("identity"), vec![num(5)]))],
        Object::Integer(5),
    );
    compare(
        vec![
            let_stmt("double", func(&["x"], vec![stmt(times(var("x"), num(2)))])),
            stmt(call(var("double"), vec![num(5)])),
        ],
        Object::Integer(10),
    );
    let add = || func(&["x", "y"], vec![stmt(plus(var("x"), var("y")))]);
    compare(
        vec![let_stmt("add", add()), stmt(call(var("add"), vec![num(5), num(5)]))],
        Object::Integer(10),
    );
    compare(
        vec![
            let_stmt("add", add()),
            stmt(call(var("add"), vec![plus(num(5), num(5)), call(var("add"), vec![num(5), num(5)])])),
        ],
        Object::Integer(20),
    );
    compare(vec![stmt(call(func(&["x"], vec![stmt(var("x"))]), vec![num(5)]))], Object::Integer(5));
    compare(vec![stmt(call(num(5), vec![]))], error("5 is not a valid function"));
    compare(vec![stmt(call(boolean(false), vec![]))], error("false is not a valid function"));
    compare(
        vec![let_stmt("add", add()), stmt(call(var("add"), vec![num(1)]))],
        error("wrong number of arguments: 2 expected but 1 given"),
    );
    compare(
        vec![
            let_stmt("a", num(10)),
            let_stmt("x", func(&[], vec![stmt(var("a"))])),
            stmt(call(var("x"), vec![])),
        ],
        Object::Integer(10),
    );
    // let x = fn () { a; }; let a = 10; x();
    compare(
        vec![
            let_stmt("x", func(&[], vec![stmt(var("a"))])),
            let_stmt("a", num(10)),
            stmt(call(var("x"), vec![])),
        ],
        Object::Integer(10),
    );
}

#[test]
fn test_array() {
    let one_two_three = || array(vec![num(1), num(2), num(3)]);
    compare(
        vec![stmt(array(vec![num(1), num(2), num(3), num(4)]))],
        Object::Array(vec![Object::Integer(1), Object::Integer(2), Object::Integer(3), Object::Integer(4)]),
    );

    compare(
        vec![
            let_stmt("double", func(&["x"], vec![stmt(times(var("x"), num(2)))])),
            stmt(array(vec![
                num(1),
                call(var("double"), vec![num(2)]),
                times(num(3), num(3)),
                minus(num(4), num(3)),
            ])),
        ],
        Object::Array(vec![Object::Integer(1), Object::Integer(4), Object::Integer(9), Object::Integer(1)]),
    );

    compare(vec![stmt(index(one_two_three(), num(0)))], Object::Integer(1));
    compare(vec![stmt(index(one_two_three(), num(1)))], Object::Integer(2));
    compare(vec![stmt(index(one_two_three(), num(2)))], Object::Integer(3));
    compare(
        vec![let_stmt("i", num(0)), stmt(index(array(vec![num(1)]), var("i")))],
        Object::Integer(1),
    );
    compare(vec![stmt(index(one_two_three(), plus(num(1), num(1))))], Object::Integer(3));
    compare(
        vec![let_stmt("myArray", one_two_three()), stmt(index(var("myArray"), num(2)))],
        Object::Integer(3),
    );
    compare(
        vec![
            let_stmt("myArray", one_two_three()),
            stmt(plus(
                plus(index(var("myArray"), num(0)), index(var("myArray"), num(1))),
                index(var("myArray"), num(2)),
            )),
        ],
        Object::Integer(6),
    );
    compare(
        vec![
            let_stmt("myArray", one_two_three()),
            let_stmt("i", index(var("myArray"), num(0))),
            stmt(index(var("myArray"), var("i"))),
        ],
        Object::Integer(2),
    );
    compare(vec![stmt(index(one_two_three(), num(3)))], Object::Null);
    compare(vec![stmt(index(one_two_three(), neg(num(1))))], Object::Null);
}

fn hash_program(last: Vec<Stmt>) -> Program {
    let mut program = vec![
        let_stmt("double", func(&["x"], vec![stmt(times(var("x"), num(2)))])),
        let_stmt("arr", array(vec![num(1), num(2), num(3), num(4)])),
        let_stmt(
            "h",
            Expr::HashExpr(vec![
                (Literal::StringLiteral("one".to_string()), minus(num(10), num(9))),
                (Literal::StringLiteral("two".to_string()), divide(num(8), num(4))),
                (Literal::IntLiteral(3), index(var("arr"), num(2))),
                (Literal::IntLiteral(4), call(var("double"), vec![num(2)])),
                (
                    Literal::BoolLiteral(true),
                    if_expr(
                        infix(Infix::GreaterThan, num(10), num(8)),
                        vec![stmt(boolean(true))],
                        Some(vec![stmt(boolean(false))]),
                    ),
                ),
                (Literal::BoolLiteral(false), infix(Infix::Equal, string("hello"), string("world"))),
            ]),
        ),
    ];
    program.extend(last);
    program
}

#[test]
fn test_hash() {
    compare(hash_program(vec![stmt(index(var("h"), string("one")))]), Object::Integer(1));
    compare(
        hash_program(vec![let_stmt("s", string("two")), stmt(index(var("h"), var("s")))]),
        Object::Integer(2),
    );
    compare(hash_program(vec![stmt(index(var("h"), num(3)))]), Object::Integer(3));
    compare(hash_program(vec![stmt(index(var("h"), plus(num(2), num(2))))]), Object::Integer(4));
    compare(hash_program(vec![stmt(index(var("h"), boolean(true)))]), Object::Boolean(true));
    compare(
        hash_program(vec![stmt(index(var("h"), infix(Infix::LessThan, num(5), num(1))))]),
        Object::Boolean(false),
    );
    compare(hash_program(vec![stmt(index(var("h"), num(100)))]), Object::Null);
    compare(hash_program(vec![stmt(index(var("h"), array(vec![])))]), Object::Null);
    compare(
        hash_program(vec![stmt(index(num(3), boolean(true)))]),
        error("unexpected index target: 3"),
    );
}
