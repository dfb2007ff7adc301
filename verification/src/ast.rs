//! Syntax trees: what a program is once its parentheses have been read.
use vstd::prelude::*;

use crate::error::{Error, ErrorView};
use crate::lexer::{all_digits, is_digit, KindView, Scanner, Token, TokenKind, TokenView};
use crate::simulator::Op;

verus! {

/// A name as it stands in the source.
#[derive(Debug, Clone, Copy, PartialEq, Eq)]
pub struct Identifier<'a>(pub &'a str);

impl<'a> View for Identifier<'a> {
    type V = Seq<char>;

    open spec fn view(&self) -> Seq<char> {
        self.0@
    }
}

/// An arithmetic operation of the language.
#[derive(Debug, Clone, Copy, PartialEq, Eq, Structural)]
pub enum BinaryOp {
    Add,
    Subtract,
    Multiply,
    Divide,
}

impl BinaryOp {
    /// The operation that a symbol names: `+`, `-`, `*` or `/`.
    pub open spec fn named(name: Seq<char>) -> Option<BinaryOp> {
        if name.len() != 1 {
            None
        } else if name[0] == '+' {
            Some(BinaryOp::Add)
        } else if name[0] == '-' {
            Some(BinaryOp::Subtract)
        } else if name[0] == '*' {
            Some(BinaryOp::Multiply)
        } else if name[0] == '/' {
            Some(BinaryOp::Divide)
        } else {
            None
        }
    }

    /// The machine's operator for the operation.
    pub open spec fn op(self) -> Op {
        match self {
            BinaryOp::Add => Op::Add,
            BinaryOp::Subtract => Op::Sub,
            BinaryOp::Multiply => Op::Mul,
            BinaryOp::Divide => Op::Div,
        }
    }

    /// The operation that a symbol names, if it names one.
    pub fn from_symbol(name: &str) -> (operation: Option<BinaryOp>)
        ensures
            operation == BinaryOp::named(name@),
    {
        if name.unicode_len() != 1 {
            return None;
        }
        let symbol = name.get_char(0);
        if symbol == '+' {
            Some(BinaryOp::Add)
        } else if symbol == '-' {
            Some(BinaryOp::Subtract)
        } else if symbol == '*' {
            Some(BinaryOp::Multiply)
        } else if symbol == '/' {
            Some(BinaryOp::Divide)
        } else {
            None
        }
    }

    /// The machine's operator for the operation.
    pub fn operator(self) -> (op: Op)
        ensures
            op == self.op(),
    {
        match self {
            BinaryOp::Add => Op::Add,
            BinaryOp::Subtract => Op::Sub,
            BinaryOp::Multiply => Op::Mul,
            BinaryOp::Divide => Op::Div,
        }
    }
}

/// The abstract syntax of one form.
#[derive(Debug, PartialEq, Eq)]
pub enum SyntaxTree<'a> {
    /// A parenthesised group that does not begin with a name, `()` among
    /// them.
    InlineList(Vec<SyntaxTree<'a>>),
    /// A parenthesised group that begins with a name: the name and what
    /// follows it.
    Call(Identifier<'a>, Vec<SyntaxTree<'a>>),
    /// A number.
    NumberLiteral(u64),
    /// A string as its token holds it: without its quotes, but for the
    /// empty string, which is its two quotes.
    StringLiteral(&'a str),
    /// A name on its own.
    Variable(Identifier<'a>),
}

/// A [`SyntaxTree`] as plain values.
pub enum Ast {
    List(Seq<Ast>),
    Call(Seq<char>, Seq<Ast>),
    Number(u64),
    Text(Seq<char>),
    Name(Seq<char>),
}

impl<'a> SyntaxTree<'a> {
    /// The tree as plain values.
    pub open spec fn model(&self) -> Ast
        decreases self,
    {
        match self {
            SyntaxTree::InlineList(items) => Ast::List(
                Seq::new(
                    items@.len(),
                    |i: int|
                        if 0 <= i < items@.len() {
                            items@[i].model()
                        } else {
                            Ast::List(Seq::empty())
                        },
                ),
            ),
            SyntaxTree::Call(name, args) => Ast::Call(
                name@,
                Seq::new(
                    args@.len(),
                    |i: int|
                        if 0 <= i < args@.len() {
                            args@[i].model()
                        } else {
                            Ast::List(Seq::empty())
                        },
                ),
            ),
            SyntaxTree::NumberLiteral(n) => Ast::Number(*n),
            SyntaxTree::StringLiteral(text) => Ast::Text(text@),
            SyntaxTree::Variable(name) => Ast::Name(name@),
        }
    }
}

impl<'a> View for SyntaxTree<'a> {
    type V = Ast;

    open spec fn view(&self) -> Ast {
        self.model()
    }
}

/// The views of a sequence of trees, one for one.
pub open spec fn views(trees: Seq<SyntaxTree>) -> Seq<Ast> {
    Seq::new(trees.len(), |i: int| trees[i]@)
}

/// The children of a group are viewed one for one.
pub proof fn lemma_view_children(tree: SyntaxTree)
    ensures
        tree matches SyntaxTree::InlineList(items) ==> tree@ == Ast::List(views(items@)),
        tree matches SyntaxTree::Call(name, args) ==> tree@ == Ast::Call(name@, views(args@)),
{
    match tree {
        SyntaxTree::InlineList(items) => {
            assert(tree@ is List);
            assert(tree@->List_0.len() == items@.len());
            assert forall|i: int| 0 <= i < items@.len() implies tree@->List_0[i] == views(
                items@,
            )[i] by {}
            assert(tree@->List_0 =~= views(items@));
        },
        SyntaxTree::Call(name, args) => {
            assert(tree@ is Call);
            assert(tree@->Call_1.len() == args@.len());
            assert forall|i: int| 0 <= i < args@.len() implies tree@->Call_1[i] == views(
                args@,
            )[i] by {}
            assert(tree@->Call_1 =~= views(args@));
        },
        _ => {},
    }
}


/// Tokens grouped by their parentheses.
#[derive(Debug)]
pub enum Tree<T> {
    /// `()`.
    Nil,
    /// A token on its own.
    Leaf(T),
    /// What stands between a pair of parentheses, or a whole source.
    Branch(Vec<Tree<T>>),
}

/// A [`Tree`] of tokens as plain values.
pub enum TreeView {
    Nil,
    Leaf(TokenView),
    Branch(Seq<TreeView>),
}

impl<'a> Tree<Token<'a>> {
    /// The tree as plain values.
    pub open spec fn model(&self) -> TreeView
        decreases self,
    {
        match self {
            Tree::Nil => TreeView::Nil,
            Tree::Leaf(token) => TreeView::Leaf(token@),
            Tree::Branch(children) => TreeView::Branch(
                Seq::new(
                    children@.len(),
                    |i: int|
                        if 0 <= i < children@.len() {
                            children@[i].model()
                        } else {
                            TreeView::Nil
                        },
                ),
            ),
        }
    }
}

impl<'a> View for Tree<Token<'a>> {
    type V = TreeView;

    open spec fn view(&self) -> TreeView {
        self.model()
    }
}

/// The views of a sequence of token trees, one for one.
pub open spec fn tree_views(trees: Seq<Tree<Token>>) -> Seq<TreeView> {
    Seq::new(trees.len(), |i: int| trees[i]@)
}

/// The children of a branch are viewed one for one.
pub proof fn lemma_view_branch(tree: Tree<Token>)
    ensures
        tree matches Tree::Branch(children) ==> tree@ == TreeView::Branch(tree_views(children@)),
{
    match tree {
        Tree::Branch(children) => {
            assert(tree@->Branch_0 =~= tree_views(children@));
        },
        _ => {},
    }
}

/// The views of a sequence of tokens, one for one.
pub open spec fn token_views(tokens: Seq<Token>) -> Seq<TokenView> {
    Seq::new(tokens.len(), |i: int| tokens[i]@)
}

/// By how much a token changes the depth of nesting.
pub open spec fn nesting(kind: KindView) -> int {
    match kind {
        KindView::Open => 1,
        KindView::Close => -1,
        _ => 0,
    }
}

/// Where the expression ends that is `depth` levels deep at position `from`:
/// behind the first token from there on that brings the depth to zero.
pub open spec fn expression_end(tokens: Seq<TokenView>, from: int, depth: int) -> Option<int>
    decreases tokens.len() - from,
{
    if from < 0 || from >= tokens.len() {
        None
    } else {
        let reached = depth + nesting(tokens[from].kind);
        if reached == 0 {
            Some(from + 1)
        } else {
            expression_end(tokens, from + 1, reached)
        }
    }
}

/// The length of the expression at the front of the tokens, if one is
/// complete.
pub open spec fn first_expression(tokens: Seq<TokenView>) -> Option<int> {
    expression_end(tokens, 0, 0)
}

/// The trees of the expressions of a token sequence, from the first to the
/// last that is complete.
pub open spec fn forest(tokens: Seq<TokenView>) -> Seq<TreeView>
    decreases tokens.len(), 1int,
{
    match first_expression(tokens) {
        Some(end) => if 1 <= end <= tokens.len() {
            seq![tree_of(tokens.take(end))] + forest(tokens.skip(end))
        } else {
            Seq::empty()
        },
        None => Seq::empty(),
    }
}

/// The tree of one expression: a branch of what stands inside it if it has
/// more than two tokens, `Nil` if it is `()`, and else a leaf of its first
/// token.
pub open spec fn tree_of(expression: Seq<TokenView>) -> TreeView
    decreases expression.len(), 0int,
{
    if expression.len() > 2 {
        TreeView::Branch(forest(expression.subrange(1, expression.len() - 1)))
    } else if expression.len() == 2 && expression[0].kind is Open && expression[1].kind is Close {
        TreeView::Nil
    } else {
        TreeView::Leaf(expression[0])
    }
}

/// An expression ends behind `from` and inside the tokens.
pub proof fn lemma_expression_end(tokens: Seq<TokenView>, from: int, depth: int)
    requires
        0 <= from,
    ensures
        expression_end(tokens, from, depth) matches Some(end) ==> from < end <= tokens.len(),
    decreases tokens.len() - from,
{
    if from < tokens.len() && depth + nesting(tokens[from].kind) != 0 {
        lemma_expression_end(tokens, from + 1, depth + nesting(tokens[from].kind));
    }
}

fn expr_inside<'a, 'b>(tokens: &'b [Token<'a>]) -> (inside: Option<&'b [Token<'a>]>)
    ensures
        match inside {
            Some(inside) => tokens@.len() > 2 && inside@ == tokens@.subrange(
                1,
                tokens@.len() - 1,
            ),
            None => tokens@.len() <= 2,
        },
{
    if tokens.len() <= 2 {
        return None;
    }
    Some(vstd::slice::slice_subrange(tokens, 1, tokens.len() - 1))
}

fn is_empty_expr(tokens: &[Token]) -> (empty: bool)
    ensures
        empty == (tokens@.len() == 2 && tokens@[0]@.kind is Open && tokens@[1]@.kind is Close),
{
    if tokens.len() != 2 {
        return false;
    }
    let opens = match tokens[0].kind() {
        TokenKind::Open => true,
        _ => false,
    };
    let closes = match tokens[1].kind() {
        TokenKind::Close => true,
        _ => false,
    };
    opens && closes
}

/// Takes a token sequence apart, one expression after the other.
struct ExprTaker<'a, 'b> {
    tokens: &'b [Token<'a>],
}

impl<'a, 'b> ExprTaker<'a, 'b> {
    fn new(tokens: &'b [Token<'a>]) -> (taker: Self)
        ensures
            taker.tokens@ == tokens@,
    {
        Self { tokens }
    }

    /// The expression at the front of what is left, which the taker then is
    /// past; nothing, and no change, where none is complete.
    fn next(&mut self) -> (expression: Option<&'b [Token<'a>]>)
        ensures
            match first_expression(token_views(old(self).tokens@)) {
                Some(end) => {
                    &&& 1 <= end <= old(self).tokens@.len()
                    &&& expression matches Some(found)
                    &&& found@ == old(self).tokens@.take(end)
                    &&& final(self).tokens@ == old(self).tokens@.skip(end)
                },
                None => expression is None && final(self).tokens@ == old(self).tokens@,
            },
    {
        let tokens = self.tokens;
        let ghost all = token_views(tokens@);
        let mut opened: usize = 0;
        let mut closed: usize = 0;
        let mut i: usize = 0;
        proof {
            lemma_expression_end(all, 0, 0);
        }
        while i < tokens.len()
            invariant
                i <= tokens.len(),
                opened <= i,
                closed <= i,
                tokens@ == old(self).tokens@,
                self.tokens@ == old(self).tokens@,
                all == token_views(tokens@),
                first_expression(all) == expression_end(all, i as int, opened - closed),
            decreases tokens.len() - i,
        {
            assert(all[i as int] == tokens@[i as int]@);
            match tokens[i].kind() {
                TokenKind::Open => {
                    opened += 1;
                },
                TokenKind::Close => {
                    closed += 1;
                },
                _ => {},
            }
            if opened == closed {
                let found = vstd::slice::slice_subrange(tokens, 0, i + 1);
                self.tokens = vstd::slice::slice_subrange(tokens, i + 1, tokens.len());
                assert(found@ =~= tokens@.take(i + 1));
                assert(self.tokens@ =~= tokens@.skip(i + 1));
                return Some(found);
            }
            i += 1;
        }
        None
    }
}

/// Groups tokens by their parentheses: the result is a branch of the trees
/// of the expressions, from the first to the last that is complete.
pub fn build_syntax_tree<'a>(tokens: &[Token<'a>]) -> (tree: Tree<Token<'a>>)
    ensures
        tree@ == TreeView::Branch(forest(token_views(tokens@))),
    decreases tokens@.len(),
{
    let ghost all = token_views(tokens@);
    let mut taker = ExprTaker::new(tokens);
    let mut children: Vec<Tree<Token<'a>>> = Vec::new();
    assert(tokens@.skip(0) =~= tokens@);
    assert(tree_views(children@) =~= Seq::<TreeView>::empty());
    loop
        invariant
            all == token_views(tokens@),
            taker.tokens@.len() <= tokens@.len(),
            forest(all) == tree_views(children@) + forest(token_views(taker.tokens@)),
        decreases taker.tokens@.len(),
    {
        let ghost rest = token_views(taker.tokens@);
        let ghost before = tree_views(children@);
        let expr = match taker.next() {
            Some(expr) => expr,
            None => {
                proof {
                    assert(before + Seq::<TreeView>::empty() =~= before);
                }
                let tree = Tree::Branch(children);
                proof {
                    lemma_view_branch(tree);
                }
                return tree;
            },
        };
        let ghost end = first_expression(rest)->0;
        proof {
            assert(token_views(expr@) =~= rest.take(end));
            assert(token_views(taker.tokens@) =~= rest.skip(end));
        }
        let child = match expr_inside(expr) {
            Some(inside) => {
                proof {
                    assert(token_views(inside@) =~= token_views(expr@).subrange(
                        1,
                        expr@.len() - 1,
                    ));
                }
                build_syntax_tree(inside)
            },
            None => if is_empty_expr(expr) {
                Tree::Nil
            } else {
                Tree::Leaf(expr[0])
            },
        };
        assert(child@ == tree_of(rest.take(end)));
        children.push(child);
        proof {
            assert(tree_views(children@) =~= before.push(child@));
            assert(before + (seq![child@] + forest(rest.skip(end))) =~= before.push(child@)
                + forest(rest.skip(end)));
        }
    }
}

/// The number that a sequence of digits writes in base ten.
pub open spec fn decimal(digits: Seq<char>) -> nat
    decreases digits.len(),
{
    if digits.len() == 0 {
        0
    } else {
        decimal(digits.drop_last()) * 10 + (digits.last() as u32 - '0' as u32) as nat
    }
}

/// The number that a text writes, if it consists of digits and the number
/// fits 64 bits.
pub open spec fn number(text: Seq<char>) -> Option<u64> {
    if text.len() >= 1 && all_digits(text) && decimal(text) <= u64::MAX {
        Some(decimal(text) as u64)
    } else {
        None
    }
}

/// Digits in front of a number do not make it smaller.
pub proof fn lemma_decimal_grows(digits: Seq<char>, upto: int)
    requires
        0 <= upto <= digits.len(),
        all_digits(digits),
    ensures
        decimal(digits.take(upto)) <= decimal(digits),
    decreases digits.len() - upto,
{
    if upto < digits.len() {
        assert(digits.take(upto + 1).drop_last() =~= digits.take(upto));
        assert(is_digit(digits[upto]));
        assert(digits.take(upto + 1).last() == digits[upto]);
        lemma_decimal_grows(digits, upto + 1);
    } else {
        assert(digits.take(upto) =~= digits);
    }
}

/// The number that a text writes.
pub fn parse_number(text: &str) -> (value: Option<u64>)
    ensures
        value == number(text@),
{
    let len = text.unicode_len();
    if len == 0 {
        return None;
    }
    let mut value: u64 = 0;
    let mut i: usize = 0;
    assert(text@.take(0) =~= Seq::<char>::empty());
    while i < len
        invariant
            i <= len,
            len == text@.len(),
            all_digits(text@.take(i as int)),
            value == decimal(text@.take(i as int)),
        decreases len - i,
    {
        let c = text.get_char(i);
        proof {
            assert(text@.take(i + 1).drop_last() =~= text@.take(i as int));
            assert(text@.take(i + 1).last() == c);
        }
        if !('0' <= c && c <= '9') {
            assert(!is_digit(text@[i as int]));
            return None;
        }
        let digit = (c as u32 - '0' as u32) as u64;
        proof {
            assert forall|j: int| 0 <= j < i + 1 implies is_digit(
                #[trigger] text@.take(i + 1)[j],
            ) by {
                if j < i {
                    assert(text@.take(i as int)[j] == text@.take(i + 1)[j]);
                }
            }
        }
        let next = match value.checked_mul(10) {
            Some(scaled) => scaled.checked_add(digit),
            None => None,
        };
        match next {
            Some(next) => {
                value = next;
            },
            None => {
                proof {
                    assert(decimal(text@.take(i + 1)) > u64::MAX);
                    if all_digits(text@) {
                        lemma_decimal_grows(text@, i + 1);
                    }
                }
                return None;
            },
        }
        i += 1;
    }
    assert(text@.take(i as int) =~= text@);
    Some(value)
}

/// The syntax that a token tree stands for.
///
/// A number is itself, a string its text, and a name a variable. `()` is the
/// empty list. A branch that begins with a name is a call of that name with
/// what follows as its operands; any other branch is a list. A parenthesis
/// on its own, and a number that 64 bits do not hold, is an error.
pub open spec fn syntax(tree: TreeView) -> Result<Ast, ErrorView>
    decreases tree,
{
    match tree {
        TreeView::Nil => Ok(Ast::List(Seq::empty())),
        TreeView::Leaf(token) => match token.kind {
            KindView::NumberLiteral(digits) => match number(digits) {
                Some(n) => Ok(Ast::Number(n)),
                None => Err(ErrorView::SyntaxConstruction),
            },
            KindView::StringLiteral(text) => Ok(Ast::Text(text)),
            KindView::Identifier(name) => Ok(Ast::Name(name)),
            _ => Err(ErrorView::SyntaxConstruction),
        },
        TreeView::Branch(children) => match syntaxes(children) {
            Ok(items) => if head(children) is Some {
                Ok(Ast::Call(head(children)->0, items.skip(1)))
            } else {
                Ok(Ast::List(items))
            },
            Err(error) => Err(error),
        },
    }
}

/// The name that a branch begins with, if it begins with one.
pub open spec fn head(children: Seq<TreeView>) -> Option<Seq<char>> {
    if children.len() >= 1 && children[0] is Leaf && children[0]->Leaf_0.kind is Identifier {
        Some(children[0]->Leaf_0.kind->Identifier_0)
    } else {
        None
    }
}

/// The syntax of each tree, or the error of the first that has one.
pub open spec fn syntaxes(trees: Seq<TreeView>) -> Result<Seq<Ast>, ErrorView>
    decreases trees,
{
    if trees.len() == 0 {
        Ok(Seq::empty())
    } else {
        match syntaxes(trees.drop_last()) {
            Ok(items) => match syntax(trees.last()) {
                Ok(item) => Ok(items.push(item)),
                Err(error) => Err(error),
            },
            Err(error) => Err(error),
        }
    }
}

/// An error among the first trees is the error of all of them.
proof fn lemma_syntaxes_fail(trees: Seq<TreeView>, upto: int)
    requires
        0 <= upto <= trees.len(),
        syntaxes(trees.take(upto)) is Err,
    ensures
        syntaxes(trees) == syntaxes(trees.take(upto)),
    decreases trees.len() - upto,
{
    if upto < trees.len() {
        assert(trees.take(upto + 1).drop_last() =~= trees.take(upto));
        lemma_syntaxes_fail(trees, upto + 1);
    } else {
        assert(trees.take(upto) =~= trees);
    }
}

/// The syntax of each tree.
fn build_all<'a>(trees: &Vec<Tree<Token<'a>>>) -> (result: Result<Vec<SyntaxTree<'a>>, Error>)
    ensures
        match syntaxes(tree_views(trees@)) {
            Ok(items) => result matches Ok(found) && views(found@) == items,
            Err(error) => result matches Err(found) && found@ == error,
        },
    decreases trees,
{
    let ghost all = tree_views(trees@);
    let mut items: Vec<SyntaxTree<'a>> = Vec::with_capacity(trees.len());
    let mut i: usize = 0;
    assert(all.take(0) =~= Seq::<TreeView>::empty());
    assert(views(items@) =~= Seq::<Ast>::empty());
    while i < trees.len()
        invariant
            i <= trees.len(),
            all == tree_views(trees@),
            syntaxes(all.take(i as int)) == Ok::<Seq<Ast>, ErrorView>(views(items@)),
        decreases trees.len() - i,
    {
        proof {
            assert(all.take(i + 1).drop_last() =~= all.take(i as int));
            assert(all.take(i + 1).last() == trees@[i as int]@);
            assert(decreases_to!(trees => trees@[i as int]));
        }
        let ghost before = views(items@);
        match SyntaxTree::build(&trees[i]) {
            Ok(item) => {
                items.push(item);
                assert(views(items@) =~= before.push(item@));
            },
            Err(error) => {
                proof {
                    lemma_syntaxes_fail(all, i + 1);
                }
                return Err(error);
            },
        }
        i += 1;
    }
    assert(all.take(i as int) =~= all);
    Ok(items)
}

impl<'a> SyntaxTree<'a> {
    /// Reads a token tree as syntax.
    pub fn build(tree: &Tree<Token<'a>>) -> (result: Result<SyntaxTree<'a>, Error>)
        ensures
            match syntax(tree@) {
                Ok(expected) => result matches Ok(found) && found@ == expected,
                Err(error) => result matches Err(found) && found@ == error,
            },
        decreases tree,
    {
        match tree {
            Tree::Nil => {
                let list = SyntaxTree::InlineList(Vec::new());
                proof {
                    lemma_view_children(list);
                    assert(views(list->InlineList_0@) =~= Seq::<Ast>::empty());
                }
                Ok(list)
            },
            Tree::Leaf(token) => match token.kind() {
                TokenKind::NumberLiteral(digits) => match parse_number(digits) {
                    Some(n) => Ok(SyntaxTree::NumberLiteral(n)),
                    None => Err(Error::SyntaxConstruction),
                },
                TokenKind::StringLiteral(text) => Ok(SyntaxTree::StringLiteral(text)),
                TokenKind::Identifier(name) => Ok(SyntaxTree::Variable(Identifier(name))),
                _ => Err(Error::SyntaxConstruction),
            },
            Tree::Branch(children) => {
                proof {
                    lemma_view_branch(*tree);
                }
                let mut items = build_all(children)?;
                let name = if children.len() >= 1 {
                    match &children[0] {
                        Tree::Leaf(token) => match token.kind() {
                            TokenKind::Identifier(name) => Some(name),
                            _ => None,
                        },
                        _ => None,
                    }
                } else {
                    None
                };
                let ghost all = views(items@);
                match name {
                    Some(name) => {
                        items.remove(0);
                        let call = SyntaxTree::Call(Identifier(name), items);
                        proof {
                            lemma_view_children(call);
                            assert(views(call->Call_1@) =~= all.skip(1));
                        }
                        Ok(call)
                    },
                    None => {
                        let list = SyntaxTree::InlineList(items);
                        proof {
                            lemma_view_children(list);
                        }
                        Ok(list)
                    },
                }
            },
        }
    }
}

/// The forms of a source text: its tokens, grouped by their parentheses and
/// read as syntax.
pub open spec fn forms(source: Seq<char>) -> Result<Seq<Ast>, ErrorView> {
    syntaxes(forest(crate::lexer::tokens(source, 0)))
}

/// Reads a source text as a sequence of forms.
pub fn parse<'a>(source: &'a str) -> (result: Result<Vec<SyntaxTree<'a>>, Error>)
    ensures
        match forms(source@) {
            Ok(expected) => result matches Ok(found) && views(found@) == expected,
            Err(error) => result matches Err(found) && found@ == error,
        },
{
    let tokens = Scanner::new(source).evaluate().collect();
    assert(token_views(tokens@) =~= crate::lexer::tokens(source@, 0));
    let tree = build_syntax_tree(tokens.as_slice());
    match &tree {
        Tree::Branch(children) => {
            proof {
                lemma_view_branch(tree);
            }
            build_all(children)
        },
        _ => Err(Error::SyntaxConstruction),
    }
}

} // verus!
