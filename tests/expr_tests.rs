use exprlex::expr::{BinaryOperation, Expr, ExprVisitor, Function, Number, OperatorType, Symbol};
use exprlex::utils::trim_trailing;

fn num(t: &str) -> Box<Expr> {
    Box::new(Expr::Number(Number::new(t).unwrap()))
}

fn sym(t: &str) -> Box<Expr> {
    Box::new(Expr::Symbol(Symbol::new(t)))
}

fn bin(l: Box<Expr>, op: OperatorType, r: Box<Expr>) -> Box<Expr> {
    Box::new(Expr::BinaryOperation(BinaryOperation::new(l, op, r)))
}

#[test]
fn sum_with_function_renders() {
    let f = Box::new(Expr::Function(Function::new("sin", sym("x"))));
    let tree = bin(num("3.0"), OperatorType::ADD, f);
    assert_eq!(tree.to_string(), "(3 + sin(x))");
}

#[test]
fn every_operator_is_parenthesised() {
    let inner = bin(sym("a"), OperatorType::MUL, sym("b"));
    let mid = bin(inner, OperatorType::SUB, num("2"));
    let tree = bin(mid, OperatorType::DIV, sym("c"));
    assert_eq!(tree.to_string(), "(((a * b) - 2) / c)");
}

#[test]
fn numbers_render_canonically() {
    assert_eq!(Number::new("3.0").unwrap().to_string(), "3");
    assert_eq!(Number::new("3.50").unwrap().to_string(), "3.5");
    assert_eq!(Number::new("100").unwrap().to_string(), "100");
    assert_eq!(Number::new("100.000").unwrap().to_string(), "100");
    assert_eq!(Number::new(".5").unwrap().to_string(), "0.5");
    assert_eq!(Number::new("5.").unwrap().to_string(), "5");
    assert_eq!(Number::new("007.250").unwrap().to_string(), "7.25");
    assert_eq!(Number::new("0").unwrap().to_string(), "0");
    assert_eq!(Number::new("0.0").unwrap().to_string(), "0");
}

#[test]
fn number_render_is_idempotent() {
    for t in ["3.0", "3.50", "007.250", ".5", "5.", "0.000", "120"] {
        let once = Number::new(t).unwrap().to_string();
        let twice = Number::new(&once).unwrap().to_string();
        assert_eq!(once, twice);
    }
    assert_eq!(Number::new("2.50").unwrap().to_string(), Number::new("2.5").unwrap().to_string());
}

#[test]
fn number_rejects_non_literals() {
    assert!(Number::new("").is_none());
    assert!(Number::new(".").is_none());
    assert!(Number::new("1.2.3").is_none());
    assert!(Number::new("1e5").is_none());
    assert_eq!(Number::new("1.25").unwrap().text(), "1.25");
}

#[test]
fn clone_renders_the_same() {
    let f = Box::new(Expr::Function(Function::new("f", bin(num("1.10"), OperatorType::SUB, sym("y")))));
    let copy = f.clone_box();
    assert_eq!(copy.to_string(), f.to_string());
    assert_eq!(copy.to_string(), "f((1.1 - y))");
}

#[test]
fn trim_trailing_zeros_and_point() {
    let mut s = "3.000".to_string();
    trim_trailing('0', &mut s);
    assert_eq!(s, "3");
    let mut s = "3.50".to_string();
    trim_trailing('0', &mut s);
    assert_eq!(s, "3.5");
    let mut s = String::new();
    trim_trailing('0', &mut s);
    assert_eq!(s, "");
    let mut s = "a..".to_string();
    trim_trailing('.', &mut s);
    assert_eq!(s, "a");
}

#[test]
fn operator_symbols() {
    assert_eq!(OperatorType::ADD.to_string(), "+");
    assert_eq!(OperatorType::SUB.to_string(), "-");
    assert_eq!(OperatorType::MUL.to_string(), "*");
    assert_eq!(OperatorType::DIV.to_string(), "/");
}

struct Counter {
    numbers: usize,
    symbols: usize,
    ops: usize,
    functions: usize,
}

impl ExprVisitor for Counter {
    fn binary_op_step(before: Self, after: Self, _node: BinaryOperation) -> bool {
        after.ops > before.ops
    }

    fn function_step(before: Self, after: Self, _node: Function) -> bool {
        after.functions > before.functions
    }

    fn number_step(before: Self, after: Self, _node: Number) -> bool {
        after.numbers == before.numbers + 1
    }

    fn symbol_step(before: Self, after: Self, _node: Symbol) -> bool {
        after.symbols == before.symbols + 1
    }

    fn visit_binary_op(&mut self, node: &BinaryOperation) {
        self.ops += 1;
        node.left().accept(self);
        node.right().accept(self);
    }

    fn visit_function(&mut self, node: &Function) {
        self.functions += 1;
        node.argument().accept(self);
    }

    fn visit_number(&mut self, _node: &Number) {
        self.numbers += 1;
    }

    fn visit_symbol(&mut self, _node: &Symbol) {
        self.symbols += 1;
    }
}

#[test]
fn visitor_reaches_every_node() {
    let f = Box::new(Expr::Function(Function::new("cos", sym("t"))));
    let tree = bin(bin(num("1"), OperatorType::ADD, sym("x")), OperatorType::MUL, f);
    let mut c = Counter { numbers: 0, symbols: 0, ops: 0, functions: 0 };
    tree.accept(&mut c);
    assert_eq!((c.numbers, c.symbols, c.ops, c.functions), (1, 2, 2, 1));
}
