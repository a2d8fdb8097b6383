# monkey

A tree-walking evaluator for the Monkey language, written in Verus. The
evaluator's behaviour is stated as a mathematical semantics, and every
evaluation function is proved to compute what that semantics says.

## Layout

- `src/ast.rs` — the syntax tree (`Expr`, `Stmt`, `Literal`, operators) and
  its model (`ExprV`, `StmtV`, `LiteralV`), with size measures used for
  termination.
- `src/object.rs` — runtime values (`Object`, `HashKey`), their model
  (`ObjectV`), how a value reads as text, and equality as `==` compares values
  (hashes compare as maps, whatever the order of their entries).
- `src/environment.rs` — scopes of bindings, each with an optional outer
  scope, kept in one arena; a function value refers to the scope it was made
  in by its position there, so it sees bindings added to that scope later.
- `src/text.rs` — decimal text of integers.
- `src/semantics.rs` — the meaning of programs as functions on the models.
  Each takes a fuel bound on the depth of nested calls; `None` stands for an
  evaluation that does not finish within it or that stops on an arithmetic
  fault. Step equations (`unfold_sem_*`) unfold each function one step.
- `src/evaluator.rs` — `Evaluator`, whose `eval_*` methods are proved to agree
  with the semantics for every fuel at which the evaluation finishes. Its
  type invariant keeps the current scope one of the scopes made, and every
  method states that its environment is well formed afterwards.
- `src/laws.rs` — properties across operations: reading a binding back after
  writing it, hash literals keeping keys distinct with the last entry winning,
  `!=` negating `==`, `+` being `object_add`, `==` being an equivalence
  relation, what an evaluation may change (only the current scope, and only
  by a `let` that runs there; a call leaves the caller's bindings as the
  arguments left them), and evaluation giving the same result under any bound
  on nested calls that is large enough.
- `tests/` — scenarios run against the compiled library.
