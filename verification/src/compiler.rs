//! The compiler: from syntax trees to a linked program.
//!
//! A source file is a sequence of forms. A form `(defun name (params) body)`
//! defines a function; every other form is an expression of the script. The
//! compiler lays the functions out one after the other, in the order of their
//! definitions, then the script as a function named `main` that emits the
//! value of each of its expressions, and last a short entry sequence that
//! calls `main` and halts. Calls are emitted by name and resolved to
//! addresses once every function has its place; of two functions of one name
//! the later one is called.
//!
//! An expression leaves exactly one value on the operand stack:
//!
//! * a number pushes itself;
//! * a name reads the variable that it names in the innermost binding;
//! * `(+ a b ..)`, `-`, `*`, `/` evaluate their operands from the last to the
//!   first and combine them from the first to the last;
//! * `(if c a b)` evaluates `a` where `c` is not zero and `b` where it is;
//! * `(let x v b)` evaluates `b` with `x` bound to the value of `v`;
//! * `(dump e)` emits the value of `e` and leaves it;
//! * `(f a b ..)` evaluates its operands from the last to the first and calls
//!   `f`, which finds its first operand on top of the stack.
use vstd::prelude::*;

use crate::ast::{lemma_view_children, views, Ast, BinaryOp, SyntaxTree};
use crate::error::{Error, ErrorView};
use crate::simulator::{Instruction, Program, ProgramView, Value};
use crate::text::same;

verus! {

/// One unit of code before linking.
pub enum ItemView {
    /// An instruction that is final.
    Plain(Instruction),
    /// A push of the address of the function of that name.
    Address(Seq<char>),
}

/// A final instruction as an item.
pub open spec fn plain(instruction: Instruction) -> ItemView {
    ItemView::Plain(instruction)
}

/// The item that pushes a code address.
pub open spec fn push_address(address: nat) -> ItemView {
    ItemView::Plain(Instruction::Push(Value::U64(address as u64)))
}

/// `count` copies of one item.
pub open spec fn repeat(item: ItemView, count: nat) -> Seq<ItemView> {
    Seq::new(count, |i: int| item)
}

/// How many bindings lie above the innermost binding of `name`, if it is
/// bound at all. The innermost binding is the last of `scope`.
pub open spec fn lookup(scope: Seq<Seq<char>>, name: Seq<char>) -> Option<nat>
    decreases scope.len(),
{
    if scope.len() == 0 {
        None
    } else if scope.last() == name {
        Some(0)
    } else {
        match lookup(scope.drop_last(), name) {
            Some(depth) => Some(depth + 1),
            None => None,
        }
    }
}

/// A binding hides the earlier bindings of its name and no other name, and
/// when it goes every name means what it meant before: inside the binding
/// its name is the innermost one and every other name lies one binding
/// deeper than outside, and the scope without the binding is the scope of
/// before.
pub proof fn lemma_binding_shadows_and_restores(
    scope: Seq<Seq<char>>,
    name: Seq<char>,
    other: Seq<char>,
)
    ensures
        lookup(scope.push(name), name) == Some(0nat),
        other != name ==> lookup(scope.push(name), other) == match lookup(scope, other) {
            Some(depth) => Some(depth + 1),
            None => None,
        },
        lookup(scope.push(name).drop_last(), other) == lookup(scope, other),
{
    assert(scope.push(name).drop_last() =~= scope);
}

/// The code of an expression that is laid out from address `at` on, with the
/// names of `scope` bound.
pub open spec fn gen(scope: Seq<Seq<char>>, tree: Ast, at: nat) -> Result<Seq<ItemView>, ErrorView>
    decreases tree,
{
    match tree {
        Ast::Number(n) => Ok(seq![plain(Instruction::Push(Value::U64(n)))]),
        Ast::Text(_) => Err(ErrorView::SyntaxConstruction),
        Ast::List(_) => Err(ErrorView::SyntaxConstruction),
        Ast::Name(name) => match lookup(scope, name) {
            Some(depth) => Ok(seq![plain(Instruction::Load(depth as usize))]),
            None => Err(ErrorView::UnknownVariable(name)),
        },
        Ast::Call(name, args) => if BinaryOp::named(name) is Some {
            match gen_args(scope, args, at) {
                Ok(code) => Ok(
                    code.push(
                        plain(
                            Instruction::Operator(
                                BinaryOp::named(name)->0.op(),
                                args.len() as usize,
                            ),
                        ),
                    ),
                ),
                Err(error) => Err(error),
            }
        } else if name == "if"@ {
            gen_if(scope, args, at)
        } else if name == "let"@ {
            gen_let(scope, args, at)
        } else if name == "dump"@ {
            gen_dump(scope, args, at)
        } else if name == "defun"@ {
            Err(ErrorView::SyntaxConstruction)
        } else {
            match gen_args(scope, args, at) {
                Ok(code) => Ok(code.push(ItemView::Address(name)).push(plain(Instruction::Call))),
                Err(error) => Err(error),
            }
        },
    }
}

/// The code of the operands of a call: the last operand first, so that the
/// first operand ends up on top of the stack.
pub open spec fn gen_args(scope: Seq<Seq<char>>, args: Seq<Ast>, at: nat) -> Result<
    Seq<ItemView>,
    ErrorView,
>
    decreases args,
{
    if args.len() == 0 {
        Ok(Seq::empty())
    } else {
        match gen(scope, args.last(), at) {
            Ok(last) => match gen_args(scope, args.drop_last(), at + last.len()) {
                Ok(rest) => Ok(last + rest),
                Err(error) => Err(error),
            },
            Err(error) => Err(error),
        }
    }
}

/// The code of `(if condition then otherwise)`.
pub open spec fn gen_if(scope: Seq<Seq<char>>, args: Seq<Ast>, at: nat) -> Result<
    Seq<ItemView>,
    ErrorView,
>
    decreases args,
{
    if args.len() != 3 {
        Err(ErrorView::SyntaxConstruction)
    } else {
        match gen(scope, args[0], at) {
            Ok(condition) => match gen(scope, args[1], at + condition.len() + 2) {
                Ok(then) => {
                    let otherwise_at = at + condition.len() + 2 + then.len() + 2;
                    match gen(scope, args[2], otherwise_at) {
                        Ok(otherwise) => Ok(
                            condition + seq![
                                push_address(otherwise_at),
                                plain(Instruction::JumpFalsy),
                            ] + then + seq![
                                push_address(otherwise_at + otherwise.len()),
                                plain(Instruction::Jump),
                            ] + otherwise,
                        ),
                        Err(error) => Err(error),
                    }
                },
                Err(error) => Err(error),
            },
            Err(error) => Err(error),
        }
    }
}

/// The code of `(let name value body)`.
pub open spec fn gen_let(scope: Seq<Seq<char>>, args: Seq<Ast>, at: nat) -> Result<
    Seq<ItemView>,
    ErrorView,
>
    decreases args,
{
    if args.len() != 3 || !(args[0] is Name) {
        Err(ErrorView::SyntaxConstruction)
    } else {
        match gen(scope, args[1], at) {
            Ok(value) => match gen(scope.push(args[0]->Name_0), args[2], at + value.len() + 1) {
                Ok(body) => Ok(
                    value + seq![plain(Instruction::Store)] + body + seq![
                        plain(Instruction::Forget),
                    ],
                ),
                Err(error) => Err(error),
            },
            Err(error) => Err(error),
        }
    }
}

/// The code of `(dump value)`.
pub open spec fn gen_dump(scope: Seq<Seq<char>>, args: Seq<Ast>, at: nat) -> Result<
    Seq<ItemView>,
    ErrorView,
>
    decreases args,
{
    if args.len() != 1 {
        Err(ErrorView::SyntaxConstruction)
    } else {
        match gen(scope, args[0], at) {
            Ok(value) => Ok(value + seq![plain(Instruction::Dup), plain(Instruction::Dump)]),
            Err(error) => Err(error),
        }
    }
}

/// Whether a form defines a function.
pub open spec fn is_definition(tree: Ast) -> bool {
    tree matches Ast::Call(name, _) && name == "defun"@
}

/// The names that a parameter list binds: none for `()`, and for `(a b ..)`
/// each of its names. Nothing where the form is no list of names.
pub open spec fn parameters(tree: Ast) -> Option<Seq<Seq<char>>> {
    match tree {
        Ast::List(items) => if items.len() == 0 {
            Some(Seq::empty())
        } else {
            None
        },
        Ast::Call(first, rest) => if forall|i: int| 0 <= i < rest.len() ==> rest[i] is Name {
            Some(seq![first] + Seq::new(rest.len(), |i: int| rest[i]->Name_0))
        } else {
            None
        },
        _ => None,
    }
}

/// A function definition taken apart.
pub struct Definition {
    pub name: Seq<char>,
    pub params: Seq<Seq<char>>,
    pub body: Ast,
}

/// The parts of `(defun name (params) body)`.
pub open spec fn definition(tree: Ast) -> Result<Definition, ErrorView> {
    match tree {
        Ast::Call(_, args) => if args.len() == 3 && args[0] is Name && parameters(args[1])
            is Some {
            Ok(Definition { name: args[0]->Name_0, params: parameters(args[1])->0, body: args[2] })
        } else {
            Err(ErrorView::SyntaxConstruction)
        },
        _ => Err(ErrorView::SyntaxConstruction),
    }
}

/// The code of a function that is laid out from `at` on: it binds its
/// parameters, the first one first, evaluates its body, drops the bindings
/// and returns.
pub open spec fn gen_function(params: Seq<Seq<char>>, body: Ast, at: nat) -> Result<
    Seq<ItemView>,
    ErrorView,
> {
    match gen(params, body, at + params.len()) {
        Ok(code) => Ok(
            repeat(plain(Instruction::Store), params.len()) + code + repeat(
                plain(Instruction::Forget),
                params.len(),
            ) + seq![plain(Instruction::Ret)],
        ),
        Err(error) => Err(error),
    }
}

/// Where a function starts.
pub struct Entry {
    pub name: Seq<char>,
    pub start: nat,
}

/// Code that has its place, and the functions in it.
pub struct Layout {
    pub items: Seq<ItemView>,
    pub table: Seq<Entry>,
}

/// The functions that the forms define, laid out from address 0 in the order
/// of their definitions.
pub open spec fn functions(forms: Seq<Ast>) -> Result<Layout, ErrorView>
    decreases forms.len(),
{
    if forms.len() == 0 {
        Ok(Layout { items: Seq::empty(), table: Seq::empty() })
    } else {
        match functions(forms.drop_last()) {
            Ok(layout) => if is_definition(forms.last()) {
                match definition(forms.last()) {
                    Ok(parts) => match gen_function(parts.params, parts.body, layout.items.len()) {
                        Ok(code) => Ok(
                            Layout {
                                items: layout.items + code,
                                table: layout.table.push(
                                    Entry { name: parts.name, start: layout.items.len() },
                                ),
                            },
                        ),
                        Err(error) => Err(error),
                    },
                    Err(error) => Err(error),
                }
            } else {
                Ok(layout)
            },
            Err(error) => Err(error),
        }
    }
}

/// The code of the forms that define nothing, laid out from `at` on: each
/// expression is evaluated and its value emitted.
pub open spec fn script(forms: Seq<Ast>, at: nat) -> Result<Seq<ItemView>, ErrorView>
    decreases forms.len(),
{
    if forms.len() == 0 {
        Ok(Seq::empty())
    } else {
        match script(forms.drop_last(), at) {
            Ok(code) => if is_definition(forms.last()) {
                Ok(code)
            } else {
                match gen(Seq::empty(), forms.last(), at + code.len()) {
                    Ok(form) => Ok(code + form + seq![plain(Instruction::Dump)]),
                    Err(error) => Err(error),
                }
            },
            Err(error) => Err(error),
        }
    }
}

/// The functions and the script of a source file, laid out: the script, if
/// there is one, stands behind the functions as one more function, `main`.
pub open spec fn layout(forms: Seq<Ast>) -> Result<Layout, ErrorView> {
    match functions(forms) {
        Ok(defined) => match script(forms, defined.items.len()) {
            Ok(code) => if code.len() == 0 {
                Ok(defined)
            } else {
                Ok(
                    Layout {
                        items: defined.items + code + seq![plain(Instruction::Ret)],
                        table: defined.table.push(
                            Entry { name: "main"@, start: defined.items.len() },
                        ),
                    },
                )
            },
            Err(error) => Err(error),
        },
        Err(error) => Err(error),
    }
}

/// The address of the function of that name: where the last function so
/// named starts.
pub open spec fn address(table: Seq<Entry>, name: Seq<char>) -> Option<nat>
    decreases table.len(),
{
    if table.len() == 0 {
        None
    } else if table.last().name == name {
        Some(table.last().start)
    } else {
        address(table.drop_last(), name)
    }
}

/// The final instruction for an item.
pub open spec fn resolve(item: ItemView, table: Seq<Entry>) -> Result<Instruction, ErrorView> {
    match item {
        ItemView::Plain(instruction) => Ok(instruction),
        ItemView::Address(name) => match address(table, name) {
            Some(start) => Ok(Instruction::Push(Value::U64(start as u64))),
            None => Err(ErrorView::UnknownFunction(name)),
        },
    }
}

/// The items with every address filled in, or the first name that no
/// function has.
pub open spec fn link(items: Seq<ItemView>, table: Seq<Entry>) -> Result<
    Seq<Instruction>,
    ErrorView,
>
    decreases items.len(),
{
    if items.len() == 0 {
        Ok(Seq::empty())
    } else {
        match link(items.drop_last(), table) {
            Ok(code) => match resolve(items.last(), table) {
                Ok(instruction) => Ok(code.push(instruction)),
                Err(error) => Err(error),
            },
            Err(error) => Err(error),
        }
    }
}

/// The program that a source file compiles to, or the error that stops the
/// compilation: the first malformed function, else the first malformed
/// expression of the script, else the first call of a function that is not
/// defined, else the missing entry function.
pub open spec fn program(forms: Seq<Ast>) -> Result<ProgramView, ErrorView> {
    match layout(forms) {
        Ok(laid) => match link(laid.items, laid.table) {
            Ok(code) => match address(laid.table, "main"@) {
                Some(start) => Ok(
                    ProgramView {
                        code: code + seq![
                            Instruction::Push(Value::U64(start as u64)),
                            Instruction::Call,
                            Instruction::Halt,
                        ],
                        entrypoint: code.len() as usize,
                    },
                ),
                None => Err(ErrorView::UnresolvedEntrypoint),
            },
            Err(error) => Err(error),
        },
        Err(error) => Err(error),
    }
}

/// Linking resolves the items one by one: it succeeds where every item
/// resolves, and fails with the error of the first item that does not.
pub proof fn lemma_link_pointwise(items: Seq<ItemView>, table: Seq<Entry>)
    ensures
        match link(items, table) {
            Ok(code) => {
                &&& code.len() == items.len()
                &&& forall|j: int|
                    0 <= j < items.len() ==> resolve(#[trigger] items[j], table) == Ok::<
                        Instruction,
                        ErrorView,
                    >(code[j])
            },
            Err(error) => exists|first: int|
                {
                    &&& 0 <= first < items.len()
                    &&& resolve(#[trigger] items[first], table) == Err::<Instruction, ErrorView>(
                        error,
                    )
                    &&& forall|j: int| 0 <= j < first ==> resolve(#[trigger] items[j], table) is Ok
                },
        },
    decreases items.len(),
{
    if items.len() > 0 {
        let front = items.drop_last();
        lemma_link_pointwise(front, table);
        match link(front, table) {
            Ok(code) => {
                if resolve(items.last(), table) is Err {
                    let first = items.len() - 1;
                    assert(items[first] == items.last());
                    assert forall|j: int| 0 <= j < first implies resolve(
                        #[trigger] items[j],
                        table,
                    ) is Ok by {
                        assert(items[j] == front[j]);
                    }
                } else {
                    let all = link(items, table)->Ok_0;
                    assert forall|j: int| 0 <= j < items.len() implies resolve(
                        #[trigger] items[j],
                        table,
                    ) == Ok::<Instruction, ErrorView>(all[j]) by {
                        if j < items.len() - 1 {
                            assert(items[j] == front[j]);
                        }
                    }
                }
            },
            Err(error) => {
                let first = choose|first: int|
                    {
                        &&& 0 <= first < front.len()
                        &&& resolve(#[trigger] front[first], table) == Err::<
                            Instruction,
                            ErrorView,
                        >(error)
                        &&& forall|j: int|
                            0 <= j < first ==> resolve(#[trigger] front[j], table) is Ok
                    };
                assert(items[first] == front[first]);
                assert forall|j: int| 0 <= j < first implies resolve(
                    #[trigger] items[j],
                    table,
                ) is Ok by {
                    assert(items[j] == front[j]);
                }
            },
        }
    }
}

/// A program that calls a function that nothing defines does not compile:
/// where the code of the forms holds a call by a name that has no address,
/// compilation fails with `UnknownFunction` and the name of the first such
/// call. If every call before the given one has its function, the name is
/// that of the given call.
pub proof fn lemma_undefined_call_is_rejected(forms: Seq<Ast>, at: int)
    requires
        layout(forms) is Ok,
        0 <= at < layout(forms)->Ok_0.items.len(),
        layout(forms)->Ok_0.items[at] is Address,
        address(layout(forms)->Ok_0.table, layout(forms)->Ok_0.items[at]->Address_0) is None,
    ensures
        program(forms) matches Err(ErrorView::UnknownFunction(found)) && {
            let laid = layout(forms)->Ok_0;
            &&& address(laid.table, found) is None
            &&& exists|first: int|
                0 <= first <= at && #[trigger] laid.items[first] == ItemView::Address(found)
            &&& (forall|j: int| 0 <= j < at ==> resolve(#[trigger] laid.items[j], laid.table) is Ok)
                ==> found == laid.items[at]->Address_0
        },
{
    let laid = layout(forms)->Ok_0;
    lemma_link_pointwise(laid.items, laid.table);
    match link(laid.items, laid.table) {
        Ok(code) => {
            assert(resolve(laid.items[at], laid.table) is Ok);
        },
        Err(error) => {
            let first = choose|first: int|
                {
                    &&& 0 <= first < laid.items.len()
                    &&& resolve(#[trigger] laid.items[first], laid.table) == Err::<
                        Instruction,
                        ErrorView,
                    >(error)
                    &&& forall|j: int|
                        0 <= j < first ==> resolve(#[trigger] laid.items[j], laid.table) is Ok
                };
            if first > at {
                assert(resolve(laid.items[at], laid.table) is Ok);
            }
            assert(laid.items[first] is Address);
            assert(laid.items[first] == ItemView::Address(laid.items[first]->Address_0));
        },
    }
}

/// One unit of code before linking, as the compiler holds it.
enum Item<'a> {
    Plain(Instruction),
    Address(&'a str),
}

impl<'a> View for Item<'a> {
    type V = ItemView;

    closed spec fn view(&self) -> ItemView {
        match self {
            Item::Plain(instruction) => ItemView::Plain(*instruction),
            Item::Address(name) => ItemView::Address(name@),
        }
    }
}

/// Where a function starts, as the compiler holds it.
struct Function<'a> {
    name: &'a str,
    start: usize,
}

impl<'a> View for Function<'a> {
    type V = Entry;

    closed spec fn view(&self) -> Entry {
        Entry { name: self.name@, start: self.start as nat }
    }
}

/// The items as plain values, one for one.
spec fn item_views(items: Seq<Item>) -> Seq<ItemView> {
    Seq::new(items.len(), |i: int| items[i]@)
}

/// The names as character sequences, one for one.
spec fn names(scope: Seq<&str>) -> Seq<Seq<char>> {
    Seq::new(scope.len(), |i: int| scope[i]@)
}

/// The table as plain values, one for one.
spec fn entries(table: Seq<Function>) -> Seq<Entry> {
    Seq::new(table.len(), |i: int| table[i]@)
}

/// A depth that counts `more` further bindings.
spec fn deeper(depth: Option<nat>, more: nat) -> Option<nat> {
    match depth {
        Some(depth) => Some(depth + more),
        None => None,
    }
}

/// Code behind code that is already there.
spec fn behind(prefix: Seq<ItemView>, code: Result<Seq<ItemView>, ErrorView>) -> Result<
    Seq<ItemView>,
    ErrorView,
> {
    match code {
        Ok(code) => Ok(prefix + code),
        Err(error) => Err(error),
    }
}

/// That an emitting function did what `expected` asks: it appended the code,
/// or it failed with the error.
spec fn emitted(
    expected: Result<Seq<ItemView>, ErrorView>,
    result: Result<(), Error>,
    before: Seq<ItemView>,
    after: Seq<ItemView>,
) -> bool {
    match expected {
        Ok(code) => result is Ok && after == before + code,
        Err(error) => result matches Err(found) && found@ == error,
    }
}

/// How many bindings lie above the innermost binding of `name`.
fn find(scope: &Vec<&str>, name: &str) -> (depth: Option<usize>)
    ensures
        match lookup(names(scope@), name@) {
            Some(found) => depth == Some(found as usize) && found < scope@.len(),
            None => depth is None,
        },
{
    let ghost all = names(scope@);
    let mut i = scope.len();
    assert(all.take(i as int) =~= all);
    while i > 0
        invariant
            i <= scope.len(),
            all == names(scope@),
            lookup(all, name@) == deeper(lookup(all.take(i as int), name@), (scope.len() - i) as nat),
        decreases i,
    {
        proof {
            assert(all.take(i as int).drop_last() =~= all.take(i - 1));
        }
        if same(scope[i - 1], name) {
            return Some(scope.len() - i);
        }
        i -= 1;
    }
    None
}

/// Where the last function of that name starts.
fn locate(table: &Vec<Function>, name: &str) -> (start: Option<usize>)
    ensures
        match address(entries(table@), name@) {
            Some(found) => start == Some(found as usize) && found <= usize::MAX,
            None => start is None,
        },
{
    let ghost all = entries(table@);
    let mut i = table.len();
    assert(all.take(i as int) =~= all);
    while i > 0
        invariant
            i <= table.len(),
            all == entries(table@),
            address(all, name@) == address(all.take(i as int), name@),
        decreases i,
    {
        proof {
            assert(all.take(i as int).drop_last() =~= all.take(i - 1));
        }
        if same(table[i - 1].name, name) {
            return Some(table[i - 1].start);
        }
        i -= 1;
    }
    None
}

/// Appends one final instruction.
fn put<'a>(out: &mut Vec<Item<'a>>, instruction: Instruction)
    ensures
        item_views(final(out)@) == item_views(old(out)@).push(plain(instruction)),
        final(out)@.len() == old(out)@.len() + 1,
{
    out.push(Item::Plain(instruction));
    assert(item_views(out@) =~= item_views(old(out)@).push(plain(instruction)));
}

/// Replaces the item at `index` by a push of the address `target`.
fn patch<'a>(out: &mut Vec<Item<'a>>, index: usize, target: usize)
    requires
        index < old(out)@.len(),
    ensures
        item_views(final(out)@) == item_views(old(out)@).update(
            index as int,
            push_address(target as nat),
        ),
        final(out)@.len() == old(out)@.len(),
{
    out.set(index, Item::Plain(Instruction::Push(Value::U64(target as u64))));
    assert(item_views(out@) =~= item_views(old(out)@).update(
        index as int,
        push_address(target as nat),
    ));
}

/// Appends the code of an expression.
fn emit<'a>(tree: &SyntaxTree<'a>, scope: &mut Vec<&'a str>, out: &mut Vec<Item<'a>>) -> (result:
    Result<(), Error>)
    ensures
        emitted(
            gen(names(old(scope)@), tree@, old(out)@.len() as nat),
            result,
            item_views(old(out)@),
            item_views(final(out)@),
        ),
        result is Ok ==> final(scope)@ == old(scope)@,
    decreases tree,
{
    match tree {
        SyntaxTree::NumberLiteral(n) => {
            put(out, Instruction::Push(Value::U64(*n)));
            assert(item_views(out@) =~= item_views(old(out)@) + seq![
                plain(Instruction::Push(Value::U64(*n))),
            ]);
            Ok(())
        },
        SyntaxTree::StringLiteral(_) => Err(Error::SyntaxConstruction),
        SyntaxTree::InlineList(_) => Err(Error::SyntaxConstruction),
        SyntaxTree::Variable(name) => match find(scope, name.0) {
            Some(depth) => {
                put(out, Instruction::Load(depth));
                assert(item_views(out@) =~= item_views(old(out)@) + seq![
                    plain(Instruction::Load(depth)),
                ]);
                Ok(())
            },
            None => Err(Error::UnknownVariable(name.0.to_owned())),
        },
        SyntaxTree::Call(name, args) => {
            proof {
                lemma_view_children(*tree);
            }
            match BinaryOp::from_symbol(name.0) {
                Some(operation) => {
                    emit_args(args, scope, out)?;
                    put(out, Instruction::Operator(operation.operator(), args.len()));
                    Ok(())
                },
                None => {
                    if same(name.0, "if") {
                        emit_if(args, scope, out)
                    } else if same(name.0, "let") {
                        emit_let(args, scope, out)
                    } else if same(name.0, "dump") {
                        emit_dump(args, scope, out)
                    } else if same(name.0, "defun") {
                        Err(Error::SyntaxConstruction)
                    } else {
                        emit_args(args, scope, out)?;
                        let ghost operands = item_views(out@);
                        out.push(Item::Address(name.0));
                        assert(item_views(out@) =~= operands.push(ItemView::Address(name@)));
                        put(out, Instruction::Call);
                        Ok(())
                    }
                },
            }
        },
    }
}

/// Appends the code of the operands of a call, the last operand first.
fn emit_args<'a>(
    args: &Vec<SyntaxTree<'a>>,
    scope: &mut Vec<&'a str>,
    out: &mut Vec<Item<'a>>,
) -> (result: Result<(), Error>)
    ensures
        emitted(
            gen_args(names(old(scope)@), views(args@), old(out)@.len() as nat),
            result,
            item_views(old(out)@),
            item_views(final(out)@),
        ),
        result is Ok ==> final(scope)@ == old(scope)@,
    decreases args,
{
    let ghost bound = names(scope@);
    let ghost all = views(args@);
    let ghost before = item_views(out@);
    let ghost mut done: Seq<ItemView> = Seq::empty();
    let mut i = args.len();
    assert(all.take(i as int) =~= all);
    assert(before + done =~= before);
    while i > 0
        invariant
            i <= args.len(),
            all == views(args@),
            bound == names(scope@),
            scope@ == old(scope)@,
            before == item_views(old(out)@),
            item_views(out@) == before + done,
            out@.len() == before.len() + done.len(),
            gen_args(bound, all, before.len()) == behind(
                done,
                gen_args(bound, all.take(i as int), before.len() + done.len()),
            ),
        decreases i,
    {
        let ghost rest = all.take(i as int);
        proof {
            assert(rest.drop_last() =~= all.take(i - 1));
            assert(rest.last() == args@[i - 1]@);
            assert(decreases_to!(args => args@[i - 1]));
        }
        let ghost here = item_views(out@);
        match emit(&args[i - 1], scope, out) {
            Ok(_) => {},
            Err(error) => {
                return Err(error);
            },
        }
        proof {
            let last = gen(bound, rest.last(), (before.len() + done.len()) as nat)->Ok_0;
            assert(item_views(out@) == here + last);
            assert(item_views(out@).len() == out@.len());
            assert(before + (done + last) =~= (before + done) + last);
            assert forall|tail: Seq<ItemView>| #[trigger] (done + (last + tail)) == (done + last)
                + tail by {
                assert(done + (last + tail) =~= (done + last) + tail);
            }
            done = done + last;
        }
        i -= 1;
    }
    proof {
        assert(all.take(0) =~= Seq::<Ast>::empty());
        assert(done + Seq::<ItemView>::empty() =~= done);
    }
    Ok(())
}

/// Appends the code of `(if condition then otherwise)`.
fn emit_if<'a>(
    args: &Vec<SyntaxTree<'a>>,
    scope: &mut Vec<&'a str>,
    out: &mut Vec<Item<'a>>,
) -> (result: Result<(), Error>)
    ensures
        emitted(
            gen_if(names(old(scope)@), views(args@), old(out)@.len() as nat),
            result,
            item_views(old(out)@),
            item_views(final(out)@),
        ),
        result is Ok ==> final(scope)@ == old(scope)@,
    decreases args,
{
    if args.len() != 3 {
        return Err(Error::SyntaxConstruction);
    }
    let ghost before = item_views(out@);
    proof {
        assert(decreases_to!(args => args@[0]));
        assert(decreases_to!(args => args@[1]));
        assert(decreases_to!(args => args@[2]));
    }
    emit(&args[0], scope, out)?;
    let ghost condition = item_views(out@).skip(before.len() as int);
    assert(item_views(out@).len() == out@.len());
    let first = out.len();
    put(out, Instruction::Push(Value::U64(0)));
    put(out, Instruction::JumpFalsy);
    let ghost branched = item_views(out@);
    emit(&args[1], scope, out)?;
    let ghost then = item_views(out@).skip(branched.len() as int);
    assert(item_views(out@).len() == out@.len());
    let second = out.len();
    put(out, Instruction::Push(Value::U64(0)));
    put(out, Instruction::Jump);
    patch(out, first, out.len());
    let ghost joined = item_views(out@);
    emit(&args[2], scope, out)?;
    let ghost otherwise = item_views(out@).skip(joined.len() as int);
    assert(item_views(out@).len() == out@.len());
    patch(out, second, out.len());
    proof {
        let start = before.len();
        let otherwise_at = start + condition.len() + 2 + then.len() + 2;
        assert(gen(names(old(scope)@), views(args@)[0], start) == Ok::<Seq<ItemView>, ErrorView>(
            condition,
        )) by {
            assert((before + condition).skip(start as int) =~= condition);
            let made = gen(names(old(scope)@), views(args@)[0], start)->Ok_0;
            assert((before + made).skip(start as int) =~= made);
        }
        assert(gen(names(old(scope)@), views(args@)[1], start + condition.len() + 2) == Ok::<
            Seq<ItemView>,
            ErrorView,
        >(then)) by {
            let made = gen(names(old(scope)@), views(args@)[1], start + condition.len() + 2)->Ok_0;
            assert((branched + made).skip(branched.len() as int) =~= made);
        }
        assert(gen(names(old(scope)@), views(args@)[2], otherwise_at) == Ok::<
            Seq<ItemView>,
            ErrorView,
        >(otherwise)) by {
            let made = gen(names(old(scope)@), views(args@)[2], otherwise_at)->Ok_0;
            assert((joined + made).skip(joined.len() as int) =~= made);
        }
        assert(item_views(out@) =~= before + (condition + seq![
            push_address(otherwise_at),
            plain(Instruction::JumpFalsy),
        ] + then + seq![
            push_address(otherwise_at + otherwise.len()),
            plain(Instruction::Jump),
        ] + otherwise));
    }
    Ok(())
}

/// Appends the code of `(let name value body)`.
fn emit_let<'a>(
    args: &Vec<SyntaxTree<'a>>,
    scope: &mut Vec<&'a str>,
    out: &mut Vec<Item<'a>>,
) -> (result: Result<(), Error>)
    ensures
        emitted(
            gen_let(names(old(scope)@), views(args@), old(out)@.len() as nat),
            result,
            item_views(old(out)@),
            item_views(final(out)@),
        ),
        result is Ok ==> final(scope)@ == old(scope)@,
    decreases args,
{
    if args.len() != 3 {
        return Err(Error::SyntaxConstruction);
    }
    let name = match &args[0] {
        SyntaxTree::Variable(name) => name.0,
        _ => {
            return Err(Error::SyntaxConstruction);
        },
    };
    let ghost before = item_views(out@);
    proof {
        assert(decreases_to!(args => args@[1]));
        assert(decreases_to!(args => args@[2]));
    }
    emit(&args[1], scope, out)?;
    let ghost value = item_views(out@).skip(before.len() as int);
    assert(item_views(out@).len() == out@.len());
    put(out, Instruction::Store);
    let ghost stored = item_views(out@);
    scope.push(name);
    assert(names(scope@) =~= names(old(scope)@).push(name@));
    emit(&args[2], scope, out)?;
    let ghost body = item_views(out@).skip(stored.len() as int);
    scope.pop();
    assert(scope@ =~= old(scope)@);
    put(out, Instruction::Forget);
    proof {
        let start = before.len();
        assert(gen(names(old(scope)@), views(args@)[1], start) == Ok::<Seq<ItemView>, ErrorView>(
            value,
        )) by {
            let made = gen(names(old(scope)@), views(args@)[1], start)->Ok_0;
            assert((before + made).skip(start as int) =~= made);
        }
        assert(gen(
            names(old(scope)@).push(name@),
            views(args@)[2],
            start + value.len() + 1,
        ) == Ok::<Seq<ItemView>, ErrorView>(body)) by {
            let made = gen(
                names(old(scope)@).push(name@),
                views(args@)[2],
                start + value.len() + 1,
            )->Ok_0;
            assert((stored + made).skip(stored.len() as int) =~= made);
        }
        assert(item_views(out@) =~= before + (value + seq![plain(Instruction::Store)] + body
            + seq![plain(Instruction::Forget)]));
    }
    Ok(())
}

/// Appends the code of `(dump value)`.
fn emit_dump<'a>(
    args: &Vec<SyntaxTree<'a>>,
    scope: &mut Vec<&'a str>,
    out: &mut Vec<Item<'a>>,
) -> (result: Result<(), Error>)
    ensures
        emitted(
            gen_dump(names(old(scope)@), views(args@), old(out)@.len() as nat),
            result,
            item_views(old(out)@),
            item_views(final(out)@),
        ),
        result is Ok ==> final(scope)@ == old(scope)@,
    decreases args,
{
    if args.len() != 1 {
        return Err(Error::SyntaxConstruction);
    }
    let ghost before = item_views(out@);
    proof {
        assert(decreases_to!(args => args@[0]));
    }
    emit(&args[0], scope, out)?;
    let ghost value = item_views(out@).skip(before.len() as int);
    put(out, Instruction::Dup);
    put(out, Instruction::Dump);
    proof {
        let made = gen(names(old(scope)@), views(args@)[0], before.len())->Ok_0;
        assert((before + made).skip(before.len() as int) =~= made);
        assert(item_views(out@) =~= before + (value + seq![
            plain(Instruction::Dup),
            plain(Instruction::Dump),
        ]));
    }
    Ok(())
}


/// Appends `count` copies of one final instruction.
fn fill<'a>(out: &mut Vec<Item<'a>>, instruction: Instruction, count: usize)
    ensures
        item_views(final(out)@) == item_views(old(out)@) + repeat(plain(instruction), count as nat),
{
    let ghost before = item_views(out@);
    let mut i: usize = 0;
    assert(before + repeat(plain(instruction), 0) =~= before);
    while i < count
        invariant
            i <= count,
            item_views(out@) == before + repeat(plain(instruction), i as nat),
        decreases count - i,
    {
        put(out, instruction);
        i += 1;
        assert(item_views(out@) =~= before + repeat(plain(instruction), i as nat));
    }
}

/// Whether a form defines a function.
fn defines(tree: &SyntaxTree) -> (yes: bool)
    ensures
        yes == is_definition(tree@),
{
    match tree {
        SyntaxTree::Call(name, _) => same(name.0, "defun"),
        _ => false,
    }
}

/// The names that a parameter list binds.
fn parameters_of<'a>(tree: &SyntaxTree<'a>) -> (params: Option<Vec<&'a str>>)
    ensures
        match parameters(tree@) {
            Some(expected) => params matches Some(found) && names(found@) == expected,
            None => params is None,
        },
{
    match tree {
        SyntaxTree::InlineList(items) => {
            proof {
                lemma_view_children(*tree);
            }
            if items.len() == 0 {
                let found: Vec<&'a str> = Vec::new();
                assert(names(found@) =~= Seq::<Seq<char>>::empty());
                Some(found)
            } else {
                None
            }
        },
        SyntaxTree::Call(first, rest) => {
            proof {
                lemma_view_children(*tree);
            }
            let ghost all = views(rest@);
            let mut found: Vec<&'a str> = Vec::new();
            found.push(first.0);
            let mut i: usize = 0;
            assert(names(found@) =~= seq![first@] + Seq::new(0, |j: int| all[j]->Name_0));
            while i < rest.len()
                invariant
                    i <= rest.len(),
                    all == views(rest@),
                    tree@ == Ast::Call(first@, all),
                    forall|j: int| 0 <= j < i ==> all[j] is Name,
                    names(found@) == seq![first@] + Seq::new(i as nat, |j: int| all[j]->Name_0),
                decreases rest.len() - i,
            {
                assert(all[i as int] == rest@[i as int]@);
                let ghost known = names(found@);
                match &rest[i] {
                    SyntaxTree::Variable(name) => {
                        found.push(name.0);
                        assert(all[i as int] == Ast::Name(name.0@));
                        assert(names(found@) =~= known.push(name.0@));
                    },
                    _ => {
                        assert(!(all[i as int] is Name));
                        return None;
                    },
                }
                i += 1;
                assert(names(found@) =~= seq![first@] + Seq::new(
                    i as nat,
                    |j: int| all[j]->Name_0,
                ));
            }
            Some(found)
        },
        _ => None,
    }
}

/// Lays out the function that a form defines and enters it in the table.
fn define<'a>(tree: &SyntaxTree<'a>, out: &mut Vec<Item<'a>>, table: &mut Vec<Function<'a>>) -> (result:
    Result<(), Error>)
    requires
        is_definition(tree@),
    ensures
        match definition(tree@) {
            Ok(parts) => match gen_function(parts.params, parts.body, old(out)@.len() as nat) {
                Ok(code) => {
                    &&& result is Ok
                    &&& item_views(final(out)@) == item_views(old(out)@) + code
                    &&& entries(final(table)@) == entries(old(table)@).push(
                        Entry { name: parts.name, start: old(out)@.len() as nat },
                    )
                },
                Err(error) => result matches Err(found) && found@ == error,
            },
            Err(error) => result matches Err(found) && found@ == error,
        },
{
    let args = match tree {
        SyntaxTree::Call(_, args) => args,
        _ => {
            return Err(Error::SyntaxConstruction);
        },
    };
    proof {
        lemma_view_children(*tree);
    }
    if args.len() != 3 {
        return Err(Error::SyntaxConstruction);
    }
    let name = match &args[0] {
        SyntaxTree::Variable(name) => name.0,
        _ => {
            return Err(Error::SyntaxConstruction);
        },
    };
    let mut scope = match parameters_of(&args[1]) {
        Some(params) => params,
        None => {
            return Err(Error::SyntaxConstruction);
        },
    };
    let ghost before = item_views(out@);
    let ghost params = names(scope@);
    let start = out.len();
    let count = scope.len();
    fill(out, Instruction::Store, count);
    let ghost bound = item_views(out@);
    assert(bound.len() == out@.len());
    emit(&args[2], &mut scope, out)?;
    let ghost body = item_views(out@).skip(bound.len() as int);
    fill(out, Instruction::Forget, count);
    put(out, Instruction::Ret);
    let ghost old_table = entries(table@);
    table.push(Function { name, start });
    proof {
        let made = gen(params, views(args@)[2], (start + count) as nat)->Ok_0;
        assert((bound + made).skip(bound.len() as int) =~= made);
        assert(item_views(out@) =~= before + (repeat(plain(Instruction::Store), count as nat)
            + body + repeat(plain(Instruction::Forget), count as nat) + seq![
            plain(Instruction::Ret),
        ]));
        assert(entries(table@) =~= old_table.push(Entry { name: name@, start: start as nat }));
    }
    Ok(())
}

/// Fills in the addresses.
fn link_items<'a>(items: &Vec<Item<'a>>, table: &Vec<Function<'a>>) -> (result: Result<
    Vec<Instruction>,
    Error,
>)
    ensures
        match link(item_views(items@), entries(table@)) {
            Ok(code) => result matches Ok(found) && found@ == code,
            Err(error) => result matches Err(found) && found@ == error,
        },
{
    let ghost all = item_views(items@);
    let mut code: Vec<Instruction> = Vec::with_capacity(items.len());
    let mut i: usize = 0;
    while i < items.len()
        invariant
            i <= items.len(),
            all == item_views(items@),
            link(all.take(i as int), entries(table@)) == Ok::<Seq<Instruction>, ErrorView>(code@),
        decreases items.len() - i,
    {
        proof {
            assert(all.take(i + 1).drop_last() =~= all.take(i as int));
            assert(all.take(i + 1).last() == items@[i as int]@);
        }
        let ghost rest = (items.len() - i - 1) as nat;
        match &items[i] {
            Item::Plain(instruction) => {
                code.push(*instruction);
            },
            Item::Address(name) => match locate(table, name) {
                Some(start) => {
                    code.push(Instruction::Push(Value::U64(start as u64)));
                },
                None => {
                    proof {
                        lemma_link_fails(all, entries(table@), i as int + 1);
                    }
                    return Err(Error::UnknownFunction((*name).to_owned()));
                },
            },
        }
        i += 1;
    }
    assert(all.take(i as int) =~= all);
    Ok(code)
}

/// An error in linking the first items is the error in linking all of them.
proof fn lemma_link_fails(items: Seq<ItemView>, table: Seq<Entry>, upto: int)
    requires
        0 <= upto <= items.len(),
        link(items.take(upto), table) is Err,
    ensures
        link(items, table) == link(items.take(upto), table),
    decreases items.len() - upto,
{
    if upto < items.len() {
        assert(items.take(upto + 1).drop_last() =~= items.take(upto));
        lemma_link_fails(items, table, upto + 1);
    } else {
        assert(items.take(upto) =~= items);
    }
}

/// An error in the first forms is the error in all of them.
proof fn lemma_functions_fail(forms: Seq<Ast>, upto: int)
    requires
        0 <= upto <= forms.len(),
        functions(forms.take(upto)) is Err,
    ensures
        functions(forms) == functions(forms.take(upto)),
    decreases forms.len() - upto,
{
    if upto < forms.len() {
        assert(forms.take(upto + 1).drop_last() =~= forms.take(upto));
        lemma_functions_fail(forms, upto + 1);
    } else {
        assert(forms.take(upto) =~= forms);
    }
}

/// An error in the first forms of the script is the error in all of them.
proof fn lemma_script_fails(forms: Seq<Ast>, at: nat, upto: int)
    requires
        0 <= upto <= forms.len(),
        script(forms.take(upto), at) is Err,
    ensures
        script(forms, at) == script(forms.take(upto), at),
    decreases forms.len() - upto,
{
    if upto < forms.len() {
        assert(forms.take(upto + 1).drop_last() =~= forms.take(upto));
        lemma_script_fails(forms, at, upto + 1);
    } else {
        assert(forms.take(upto) =~= forms);
    }
}

/// Compiles the forms of a source file into a program.
///
/// Compilation has no effect but its result, and it is all or nothing: the
/// result is the whole linked program, or the first error, which names the
/// function or the variable that it is about.
pub fn compile<'a>(nodes: &[SyntaxTree<'a>]) -> (result: Result<Program, Error>)
    ensures
        match program(views(nodes@)) {
            Ok(expected) => result matches Ok(found) && found@ == expected,
            Err(error) => result matches Err(found) && found@ == error,
        },
{
    let ghost all = views(nodes@);
    let mut out: Vec<Item<'a>> = Vec::new();
    let mut table: Vec<Function<'a>> = Vec::new();
    let mut i: usize = 0;
    assert(item_views(out@) =~= Seq::<ItemView>::empty());
    assert(entries(table@) =~= Seq::<Entry>::empty());
    while i < nodes.len()
        invariant
            i <= nodes.len(),
            all == views(nodes@),
            functions(all.take(i as int)) == Ok::<Layout, ErrorView>(
                Layout { items: item_views(out@), table: entries(table@) },
            ),
        decreases nodes.len() - i,
    {
        proof {
            assert(all.take(i + 1).drop_last() =~= all.take(i as int));
            assert(all.take(i + 1).last() == nodes@[i as int]@);
            assert(item_views(out@).len() == out@.len());
        }
        if defines(&nodes[i]) {
            match define(&nodes[i], &mut out, &mut table) {
                Ok(_) => {},
                Err(error) => {
                    proof {
                        lemma_functions_fail(all, i as int + 1);
                    }
                    return Err(error);
                },
            }
        }
        i += 1;
    }
    assert(all.take(i as int) =~= all);
    let ghost defined = item_views(out@);
    assert(defined.len() == out@.len());
    let start = out.len();
    let mut scope: Vec<&'a str> = Vec::new();
    assert(names(scope@) =~= Seq::<Seq<char>>::empty());
    let mut j: usize = 0;
    let ghost mut code: Seq<ItemView> = Seq::empty();
    assert(defined + code =~= defined);
    while j < nodes.len()
        invariant
            j <= nodes.len(),
            all == views(nodes@),
            scope@.len() == 0,
            defined.len() == start,
            functions(all) == Ok::<Layout, ErrorView>(
                Layout { items: defined, table: entries(table@) },
            ),
            script(all.take(j as int), start as nat) == Ok::<Seq<ItemView>, ErrorView>(code),
            item_views(out@) == defined + code,
            out@.len() == start + code.len(),
        decreases nodes.len() - j,
    {
        proof {
            assert(all.take(j + 1).drop_last() =~= all.take(j as int));
            assert(all.take(j + 1).last() == nodes@[j as int]@);
            assert(names(scope@) =~= Seq::<Seq<char>>::empty());
        }
        if !defines(&nodes[j]) {
            let ghost here = item_views(out@);
            match emit(&nodes[j], &mut scope, &mut out) {
                Ok(_) => {},
                Err(error) => {
                    proof {
                        lemma_script_fails(all, start as nat, j as int + 1);
                    }
                    return Err(error);
                },
            }
            put(&mut out, Instruction::Dump);
            proof {
                let form = gen(Seq::empty(), all[j as int], (start + code.len()) as nat)->Ok_0;
                assert(item_views(out@) =~= defined + (code + form + seq![
                    plain(Instruction::Dump),
                ]));
                assert(item_views(out@).len() == out@.len());
                code = code + form + seq![plain(Instruction::Dump)];
            }
        }
        j += 1;
    }
    assert(all.take(j as int) =~= all);
    if out.len() > start {
        let ghost old_table = entries(table@);
        put(&mut out, Instruction::Ret);
        table.push(Function { name: "main", start });
        proof {
            assert(entries(table@) =~= old_table.push(Entry { name: "main"@, start: start as nat }));
            assert(item_views(out@) =~= defined + code + seq![plain(Instruction::Ret)]);
        }
    } else {
        assert(code.len() == 0);
        assert(item_views(out@) =~= defined);
    }
    let mut linked = link_items(&out, &table)?;
    let entrypoint = linked.len();
    let main = match locate(&table, "main") {
        Some(start) => start,
        None => {
            return Err(Error::UnresolvedEntrypoint);
        },
    };
    let ghost body = linked@;
    linked.push(Instruction::Push(Value::U64(main as u64)));
    linked.push(Instruction::Call);
    linked.push(Instruction::Halt);
    assert(linked@ =~= body + seq![
        Instruction::Push(Value::U64(main as u64)),
        Instruction::Call,
        Instruction::Halt,
    ]);
    match Program::new(linked, entrypoint) {
        Some(program) => Ok(program),
        None => Err(Error::UnresolvedEntrypoint),
    }
}

} // verus!
