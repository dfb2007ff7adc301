use rust_lisp_parser::ast::{parse, SyntaxTree};
use rust_lisp_parser::compiler::compile;
use rust_lisp_parser::lexer::preprocess;
use rust_lisp_parser::simulator::Value;
use rust_lisp_parser::Error;

fn execute(source: &str) -> Result<Vec<u64>, Error> {
    let forms = parse(source)?;
    let program = compile(&forms)?;
    let mut output: Vec<Value> = Vec::new();
    program.run(1_000_000, &mut output)?;
    Ok(output.into_iter().map(|value| value.as_u64()).collect())
}

fn naive(tree: &SyntaxTree) -> Result<u64, Error> {
    match tree {
        SyntaxTree::NumberLiteral(n) => Ok(*n),
        SyntaxTree::Call(name, args) => {
            let mut values = Vec::new();
            for arg in args.iter().rev() {
                values.push(naive(arg)?);
            }
            values.reverse();
            let mut values = values.into_iter();
            let mut acc = values.next().ok_or(Error::EmptyReduction)?;
            for value in values {
                acc = match name.0 {
                    "+" => acc.wrapping_add(value),
                    "-" => acc.wrapping_sub(value),
                    "*" => acc.wrapping_mul(value),
                    "/" => acc.checked_div(value).ok_or(Error::DivisionByZero)?,
                    _ => unreachable!(),
                };
            }
            Ok(acc)
        }
        _ => unreachable!(),
    }
}

fn cross_check(source: &str) {
    let forms = parse(source).unwrap();
    assert_eq!(forms.len(), 1);
    let expected = naive(&forms[0]).map(|value| vec![value]);
    assert_eq!(execute(source), expected, "{}", source);
}

#[test]
fn arithmetic_matches_the_tree_evaluator() {
    cross_check("7 ");
    cross_check("(+ 1 2) ");
    cross_check("(- 10 3) ");
    cross_check("(- 3 10) ");
    cross_check("(/ 100 7) ");
    cross_check("(- 100 1 2 3) ");
    cross_check("(/ 1000 10 5) ");
    cross_check("(* (+ 1 2) (- 9 4) (/ 8 2)) ");
    cross_check("(+ (* 18446744073709551615 2) 5) ");
    cross_check("(- (- 1 2)) ");
    cross_check("(+ (/ 6 (- 3 3)) 1) ");
    cross_check("(/ 1 0) ");
    cross_check("(+) ");
    cross_check("(+ (/ 1 0) (*)) ");
}

#[test]
fn arithmetic_values() {
    assert_eq!(execute("(- 10 3) "), Ok(vec![7]));
    assert_eq!(execute("(/ 100 5 2) "), Ok(vec![10]));
    assert_eq!(execute("(- 3 10) "), Ok(vec![u64::MAX - 6]));
    assert_eq!(execute("(/ 1 0) "), Err(Error::DivisionByZero));
    assert_eq!(execute("(+) "), Err(Error::EmptyReduction));
}

#[test]
fn add_34_35_from_source() {
    assert_eq!(
        execute("(defun add (a b) (+ a b))\n(add 34 35)\n"),
        Ok(vec![69])
    );
}

#[test]
fn factorial_of_5_from_source() {
    let source = "\
; factorial by recursion
(defun fact (n)
  (if n (* n (fact (- n 1))) 1))
(fact 5)
";
    assert_eq!(execute(source), Ok(vec![120]));
}

#[test]
fn square_from_source() {
    assert_eq!(execute("(defun square (x) (* x x)) (square 12) "), Ok(vec![144]));
}

#[test]
fn arguments_are_bound_in_order() {
    assert_eq!(execute("(defun sub (a b) (- a b)) (sub 10 4) "), Ok(vec![6]));
    assert_eq!(execute("(defun second (a b c) b) (second 1 2 3) "), Ok(vec![2]));
}

#[test]
fn let_binds_and_shadows() {
    assert_eq!(execute("(let x 5 (+ x 1)) "), Ok(vec![6]));
    assert_eq!(execute("(let x 1 (+ (let x 2 (* x 10)) x)) "), Ok(vec![21]));
    assert_eq!(
        execute("(defun f (x) (let y (+ x 1) (let x (* y 2) (+ x y)))) (f 3) "),
        Ok(vec![12])
    );
}

#[test]
fn dump_emits_and_keeps_the_value() {
    assert_eq!(execute("(+ (dump 2) (dump 1)) "), Ok(vec![1, 2, 3]));
}

#[test]
fn each_form_of_the_script_is_emitted() {
    assert_eq!(execute("1 (+ 1 1) (defun three () 3) (three) "), Ok(vec![1, 2, 3]));
}

#[test]
fn functions_can_be_used_before_they_are_defined() {
    assert_eq!(
        execute("(defun twice (x) (double x)) (twice 4) (defun double (x) (* 2 x)) "),
        Ok(vec![8])
    );
}

#[test]
fn the_later_of_two_definitions_is_called() {
    assert_eq!(execute("(defun f () 1) (defun f () 2) (f) "), Ok(vec![2]));
}

#[test]
fn explicit_main_is_the_entry() {
    assert_eq!(execute("(defun main () (dump 9)) "), Ok(vec![9]));
}

#[test]
fn compile_errors() {
    assert_eq!(
        execute("(defun f (x) (g x)) (f 1) "),
        Err(Error::UnknownFunction("g".to_string()))
    );
    assert_eq!(execute("(nothing) "), Err(Error::UnknownFunction("nothing".to_string())));
    assert_eq!(execute("(+ x 1) "), Err(Error::UnknownVariable("x".to_string())));
    assert_eq!(
        execute("(let x 1 2) x "),
        Err(Error::UnknownVariable("x".to_string()))
    );
    assert_eq!(execute("(defun f () 1) "), Err(Error::UnresolvedEntrypoint));
    assert_eq!(execute(""), Err(Error::UnresolvedEntrypoint));
    assert_eq!(execute("\"text\" "), Err(Error::SyntaxConstruction));
    assert_eq!(execute("(1 2) "), Err(Error::SyntaxConstruction));
    assert_eq!(execute("(if 1 2) "), Err(Error::SyntaxConstruction));
    assert_eq!(execute("(let 1 2 3) "), Err(Error::SyntaxConstruction));
    assert_eq!(execute("(dump) "), Err(Error::SyntaxConstruction));
    assert_eq!(execute("(defun f) "), Err(Error::SyntaxConstruction));
    assert_eq!(execute("(defun f (1) 2) "), Err(Error::SyntaxConstruction));
    assert_eq!(execute("(+ 1 (defun f () 2)) "), Err(Error::SyntaxConstruction));
}

#[test]
fn runtime_errors_from_source() {
    assert_eq!(execute("(defun f (x) x) (f) "), Err(Error::EmptyStack));
    assert_eq!(
        execute("(defun loop (n) (loop n)) (loop 1) "),
        Err(Error::StepLimit)
    );
}

#[test]
fn source_without_a_trailing_delimiter() {
    assert_eq!(execute("42"), Ok(vec![42]));
    assert_eq!(execute("(+ 1 2)"), Ok(vec![3]));
}

#[test]
fn windows_line_endings() {
    let source = preprocess("; comment\r\n(+ 1 2)\r\n");
    assert_eq!(execute(&source), Ok(vec![3]));
}
