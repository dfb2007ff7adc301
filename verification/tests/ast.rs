use rust_lisp_parser::ast::{
    build_syntax_tree, parse, parse_number, BinaryOp, Identifier, SyntaxTree, Tree,
};
use rust_lisp_parser::lexer::{Scanner, Token, TokenKind};
use rust_lisp_parser::simulator::Op;
use rust_lisp_parser::Error;

fn shape(tree: &Tree<Token>) -> String {
    match tree {
        Tree::Nil => "nil".to_string(),
        Tree::Leaf(token) => match token.kind() {
            TokenKind::Open => "<(>".to_string(),
            TokenKind::Close => "<)>".to_string(),
            TokenKind::NumberLiteral(digits) => digits.to_string(),
            TokenKind::StringLiteral(text) => format!("'{}'", text),
            TokenKind::Identifier(name) => name.to_string(),
        },
        Tree::Branch(children) => {
            let inner: Vec<String> = children.iter().map(shape).collect();
            format!("[{}]", inner.join(" "))
        }
    }
}

fn tree_shape(source: &str) -> String {
    let tokens = Scanner::new(source).evaluate().collect();
    shape(&build_syntax_tree(&tokens))
}

#[test]
fn tree_groups_by_parentheses() {
    assert_eq!(
        tree_shape("; Comment\n(a b c (d 34 \"hello world\")) "),
        "[[a b c [d 34 'hello world']]]"
    );
    assert_eq!(tree_shape("a () (b) "), "[a nil [b]]");
    assert_eq!(tree_shape(""), "[]");
}

#[test]
fn tree_drops_what_is_not_closed() {
    assert_eq!(tree_shape("a (b c "), "[a]");
    assert_eq!(tree_shape("a ) b "), "[a]");
}

#[test]
fn tree_of_closing_before_opening() {
    assert_eq!(tree_shape(") ( "), "[<)>]");
    assert_eq!(tree_shape(") a ( "), "[[a]]");
}

#[test]
fn numbers_up_to_64_bits() {
    assert_eq!(parse_number("0"), Some(0));
    assert_eq!(parse_number("007"), Some(7));
    assert_eq!(parse_number("18446744073709551615"), Some(u64::MAX));
    assert_eq!(parse_number("18446744073709551616"), None);
    assert_eq!(parse_number("99999999999999999999999"), None);
    assert_eq!(parse_number(""), None);
    assert_eq!(parse_number("12a"), None);
}

#[test]
fn forms_of_a_source() {
    let forms = parse("(f 1 (g x) \"s\") 7 () (1 2) ").unwrap();
    assert_eq!(
        forms,
        vec![
            SyntaxTree::Call(
                Identifier("f"),
                vec![
                    SyntaxTree::NumberLiteral(1),
                    SyntaxTree::Call(
                        Identifier("g"),
                        vec![SyntaxTree::Variable(Identifier("x"))]
                    ),
                    SyntaxTree::StringLiteral("s"),
                ]
            ),
            SyntaxTree::NumberLiteral(7),
            SyntaxTree::InlineList(vec![]),
            SyntaxTree::InlineList(vec![
                SyntaxTree::NumberLiteral(1),
                SyntaxTree::NumberLiteral(2)
            ]),
        ]
    );
}

#[test]
fn build_reads_one_tree() {
    let tokens = Scanner::new("(plus 1 2) ").evaluate().collect();
    let tree = build_syntax_tree(&tokens);
    let Tree::Branch(children) = &tree else {
        panic!("the root is a branch");
    };
    assert_eq!(
        SyntaxTree::build(&children[0]),
        Ok(SyntaxTree::Call(
            Identifier("plus"),
            vec![SyntaxTree::NumberLiteral(1), SyntaxTree::NumberLiteral(2)]
        ))
    );
}

#[test]
fn a_source_may_end_in_a_symbol() {
    assert_eq!(parse("42"), Ok(vec![SyntaxTree::NumberLiteral(42)]));
    assert_eq!(
        parse("(f 1) x"),
        Ok(vec![
            SyntaxTree::Call(Identifier("f"), vec![SyntaxTree::NumberLiteral(1)]),
            SyntaxTree::Variable(Identifier("x")),
        ])
    );
    assert_eq!(tree_shape("a (b c) d"), "[a [b c] d]");
}

#[test]
fn syntax_errors() {
    assert_eq!(parse("(f 99999999999999999999) "), Err(Error::SyntaxConstruction));
    assert_eq!(parse(") ( "), Err(Error::SyntaxConstruction));
}

#[test]
fn operators_by_symbol() {
    assert_eq!(BinaryOp::from_symbol("+"), Some(BinaryOp::Add));
    assert_eq!(BinaryOp::from_symbol("-"), Some(BinaryOp::Subtract));
    assert_eq!(BinaryOp::from_symbol("*"), Some(BinaryOp::Multiply));
    assert_eq!(BinaryOp::from_symbol("/"), Some(BinaryOp::Divide));
    assert_eq!(BinaryOp::from_symbol("++"), None);
    assert_eq!(BinaryOp::from_symbol("add"), None);
    assert_eq!(BinaryOp::Subtract.operator(), Op::Sub);
    assert_eq!(BinaryOp::Divide.operator(), Op::Div);
}
