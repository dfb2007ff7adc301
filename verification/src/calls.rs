//! Which functions a source file calls and which it defines, and the proof
//! that a call of a function that nothing defines stops the compilation.
use vstd::prelude::*;

use crate::ast::{Ast, BinaryOp};
use crate::compiler::{
    address, definition, functions, gen, gen_args, gen_dump, gen_function, gen_if, gen_let,
    is_definition, layout, lemma_undefined_call_is_rejected, plain, program, repeat, script, Entry,
    ItemView,
};
use crate::error::ErrorView;
use crate::simulator::Instruction;

verus! {

/// Whether a name at the head of a form stands for a function: it is no
/// operator and none of the words of the language.
pub open spec fn is_callee(head: Seq<char>) -> bool {
    &&& BinaryOp::named(head) is None
    &&& head != "if"@
    &&& head != "let"@
    &&& head != "dump"@
    &&& head != "defun"@
}

/// Whether an expression holds a call of the function `name`.
pub open spec fn calls(tree: Ast, name: Seq<char>) -> bool
    decreases tree,
{
    match tree {
        Ast::Call(head, args) => (is_callee(head) && head == name) || any_calls(args, name),
        _ => false,
    }
}

/// Whether one of the expressions holds a call of the function `name`.
pub open spec fn any_calls(trees: Seq<Ast>, name: Seq<char>) -> bool
    decreases trees,
{
    exists|i: int| 0 <= i < trees.len() && calls(#[trigger] trees[i], name)
}

/// Whether a source file holds a call of the function `name`: in the body of
/// a function that it defines, or in an expression of its script.
pub open spec fn called(forms: Seq<Ast>, name: Seq<char>) -> bool {
    exists|k: int| 0 <= k < forms.len() && form_calls(#[trigger] forms[k], name)
}

/// Whether a form of a source file holds a call of the function `name`.
pub open spec fn form_calls(form: Ast, name: Seq<char>) -> bool {
    if is_definition(form) {
        definition(form) is Ok && calls(definition(form)->Ok_0.body, name)
    } else {
        calls(form, name)
    }
}

/// Whether a form defines the function `name`.
pub open spec fn form_defines(form: Ast, name: Seq<char>) -> bool {
    is_definition(form) && definition(form) is Ok && definition(form)->Ok_0.name == name
}

/// Whether a source file defines the function `name`: by a definition, or,
/// for `main`, by having a script.
pub open spec fn defined(forms: Seq<Ast>, name: Seq<char>) -> bool {
    ||| exists|k: int| 0 <= k < forms.len() && form_defines(#[trigger] forms[k], name)
    ||| name == "main"@ && exists|k: int| 0 <= k < forms.len() && !is_definition(#[trigger] forms[k])
}

/// Whether code pushes the address of the function `name`.
pub open spec fn mentions(code: Seq<ItemView>, name: Seq<char>) -> bool {
    exists|j: int| 0 <= j < code.len() && #[trigger] code[j] == ItemView::Address(name)
}

proof fn lemma_mentions_concat(first: Seq<ItemView>, second: Seq<ItemView>, name: Seq<char>)
    ensures
        mentions(first + second, name) == (mentions(first, name) || mentions(second, name)),
{
    let both = first + second;
    if mentions(both, name) {
        let j = choose|j: int| 0 <= j < both.len() && #[trigger] both[j] == ItemView::Address(name);
        if j < first.len() {
            assert(first[j] == both[j]);
        } else {
            assert(second[j - first.len()] == both[j]);
        }
    }
    if mentions(first, name) {
        let j = choose|j: int|
            0 <= j < first.len() && #[trigger] first[j] == ItemView::Address(name);
        assert(both[j] == first[j]);
    }
    if mentions(second, name) {
        let j = choose|j: int|
            0 <= j < second.len() && #[trigger] second[j] == ItemView::Address(name);
        assert(both[j + first.len()] == second[j]);
    }
}

proof fn lemma_mentions_plain(code: Seq<ItemView>, name: Seq<char>)
    requires
        forall|j: int| 0 <= j < code.len() ==> #[trigger] code[j] is Plain,
    ensures
        !mentions(code, name),
{
}

proof fn lemma_mentions_push(code: Seq<ItemView>, item: ItemView, name: Seq<char>)
    ensures
        mentions(code.push(item), name) == (mentions(code, name) || item == ItemView::Address(
            name,
        )),
{
    assert(code.push(item) =~= code + seq![item]);
    lemma_mentions_concat(code, seq![item], name);
    if item == ItemView::Address(name) {
        assert(seq![item][0] == ItemView::Address(name));
    }
}

proof fn lemma_any_calls_last(trees: Seq<Ast>, name: Seq<char>)
    requires
        trees.len() > 0,
    ensures
        any_calls(trees, name) == (calls(trees.last(), name) || any_calls(
            trees.drop_last(),
            name,
        )),
{
    let front = trees.drop_last();
    if any_calls(trees, name) {
        let i = choose|i: int| 0 <= i < trees.len() && calls(#[trigger] trees[i], name);
        if i < trees.len() - 1 {
            assert(front[i] == trees[i]);
        }
    }
    if any_calls(front, name) {
        let i = choose|i: int| 0 <= i < front.len() && calls(#[trigger] front[i], name);
        assert(trees[i] == front[i]);
    }
    if calls(trees.last(), name) {
        assert(trees[trees.len() - 1] == trees.last());
    }
}

proof fn lemma_any_calls_three(trees: Seq<Ast>, name: Seq<char>)
    requires
        trees.len() == 3,
    ensures
        any_calls(trees, name) == (calls(trees[0], name) || calls(trees[1], name) || calls(
            trees[2],
            name,
        )),
{
}

/// The code of an expression pushes the address of a function just where
/// the expression holds a call of it.
pub proof fn lemma_gen_mentions(scope: Seq<Seq<char>>, tree: Ast, at: nat, name: Seq<char>)
    requires
        gen(scope, tree, at) is Ok,
    ensures
        mentions(gen(scope, tree, at)->Ok_0, name) == calls(tree, name),
    decreases tree,
{
    let code = gen(scope, tree, at)->Ok_0;
    match tree {
        Ast::Call(head, args) => {
            if BinaryOp::named(head) is Some {
                lemma_gen_args_mentions(scope, args, at, name);
                let operands = gen_args(scope, args, at)->Ok_0;
                lemma_mentions_push(
                    operands,
                    plain(Instruction::Operator(BinaryOp::named(head)->0.op(), args.len() as usize)),
                    name,
                );
            } else if head == "if"@ {
                lemma_gen_if_mentions(scope, args, at, name);
            } else if head == "let"@ {
                lemma_gen_let_mentions(scope, args, at, name);
            } else if head == "dump"@ {
                lemma_gen_dump_mentions(scope, args, at, name);
            } else if head == "defun"@ {
            } else {
                lemma_gen_args_mentions(scope, args, at, name);
                let operands = gen_args(scope, args, at)->Ok_0;
                lemma_mentions_push(operands, ItemView::Address(head), name);
                lemma_mentions_push(
                    operands.push(ItemView::Address(head)),
                    plain(Instruction::Call),
                    name,
                );
            }
        },
        _ => {
            lemma_mentions_plain(code, name);
        },
    }
}

proof fn lemma_gen_args_mentions(scope: Seq<Seq<char>>, args: Seq<Ast>, at: nat, name: Seq<char>)
    requires
        gen_args(scope, args, at) is Ok,
    ensures
        mentions(gen_args(scope, args, at)->Ok_0, name) == any_calls(args, name),
    decreases args,
{
    if args.len() == 0 {
    } else {
        let last = gen(scope, args.last(), at)->Ok_0;
        let rest = gen_args(scope, args.drop_last(), at + last.len())->Ok_0;
        lemma_gen_mentions(scope, args.last(), at, name);
        lemma_gen_args_mentions(scope, args.drop_last(), at + last.len(), name);
        lemma_mentions_concat(last, rest, name);
        lemma_any_calls_last(args, name);
    }
}

proof fn lemma_gen_if_mentions(scope: Seq<Seq<char>>, args: Seq<Ast>, at: nat, name: Seq<char>)
    requires
        gen_if(scope, args, at) is Ok,
    ensures
        mentions(gen_if(scope, args, at)->Ok_0, name) == any_calls(args, name),
    decreases args,
{
    let condition = gen(scope, args[0], at)->Ok_0;
    let then = gen(scope, args[1], at + condition.len() + 2)->Ok_0;
    let otherwise_at = at + condition.len() + 2 + then.len() + 2;
    let otherwise = gen(scope, args[2], otherwise_at)->Ok_0;
    let branch = seq![crate::compiler::push_address(otherwise_at), plain(Instruction::JumpFalsy)];
    let join = seq![
        crate::compiler::push_address(otherwise_at + otherwise.len()),
        plain(Instruction::Jump),
    ];
    lemma_gen_mentions(scope, args[0], at, name);
    lemma_gen_mentions(scope, args[1], at + condition.len() + 2, name);
    lemma_gen_mentions(scope, args[2], otherwise_at, name);
    lemma_mentions_plain(branch, name);
    lemma_mentions_plain(join, name);
    lemma_mentions_concat(condition, branch, name);
    lemma_mentions_concat(condition + branch, then, name);
    lemma_mentions_concat(condition + branch + then, join, name);
    lemma_mentions_concat(condition + branch + then + join, otherwise, name);
    lemma_any_calls_three(args, name);
}

proof fn lemma_gen_let_mentions(scope: Seq<Seq<char>>, args: Seq<Ast>, at: nat, name: Seq<char>)
    requires
        gen_let(scope, args, at) is Ok,
    ensures
        mentions(gen_let(scope, args, at)->Ok_0, name) == any_calls(args, name),
    decreases args,
{
    let value = gen(scope, args[1], at)->Ok_0;
    let inner = scope.push(args[0]->Name_0);
    let body = gen(inner, args[2], at + value.len() + 1)->Ok_0;
    let store = seq![plain(Instruction::Store)];
    let forget = seq![plain(Instruction::Forget)];
    lemma_gen_mentions(scope, args[1], at, name);
    lemma_gen_mentions(inner, args[2], at + value.len() + 1, name);
    lemma_mentions_plain(store, name);
    lemma_mentions_plain(forget, name);
    lemma_mentions_concat(value, store, name);
    lemma_mentions_concat(value + store, body, name);
    lemma_mentions_concat(value + store + body, forget, name);
    lemma_any_calls_three(args, name);
}

proof fn lemma_gen_dump_mentions(scope: Seq<Seq<char>>, args: Seq<Ast>, at: nat, name: Seq<char>)
    requires
        gen_dump(scope, args, at) is Ok,
    ensures
        mentions(gen_dump(scope, args, at)->Ok_0, name) == any_calls(args, name),
    decreases args,
{
    let value = gen(scope, args[0], at)->Ok_0;
    let emit = seq![plain(Instruction::Dup), plain(Instruction::Dump)];
    lemma_gen_mentions(scope, args[0], at, name);
    lemma_mentions_plain(emit, name);
    lemma_mentions_concat(value, emit, name);
}

/// The code of a function pushes the address of a function just where its
/// body holds a call of it.
proof fn lemma_gen_function_mentions(
    params: Seq<Seq<char>>,
    body: Ast,
    at: nat,
    name: Seq<char>,
)
    requires
        gen_function(params, body, at) is Ok,
    ensures
        mentions(gen_function(params, body, at)->Ok_0, name) == calls(body, name),
{
    let code = gen(params, body, at + params.len())->Ok_0;
    let stores = repeat(plain(Instruction::Store), params.len());
    let forgets = repeat(plain(Instruction::Forget), params.len());
    let ret = seq![plain(Instruction::Ret)];
    lemma_gen_mentions(params, body, at + params.len(), name);
    lemma_mentions_plain(stores, name);
    lemma_mentions_plain(forgets, name);
    lemma_mentions_plain(ret, name);
    lemma_mentions_concat(stores, code, name);
    lemma_mentions_concat(stores + code, forgets, name);
    lemma_mentions_concat(stores + code + forgets, ret, name);
}

/// Whether a table has an entry of that name.
pub open spec fn lists(table: Seq<Entry>, name: Seq<char>) -> bool {
    exists|i: int| 0 <= i < table.len() && (#[trigger] table[i]).name == name
}

proof fn lemma_address_lists(table: Seq<Entry>, name: Seq<char>)
    ensures
        address(table, name) is Some == lists(table, name),
    decreases table.len(),
{
    if table.len() > 0 {
        let front = table.drop_last();
        lemma_address_lists(front, name);
        if lists(table, name) {
            let i = choose|i: int| 0 <= i < table.len() && (#[trigger] table[i]).name == name;
            if i < table.len() - 1 {
                assert(front[i] == table[i]);
            }
        }
        if lists(front, name) {
            let i = choose|i: int| 0 <= i < front.len() && (#[trigger] front[i]).name == name;
            assert(table[i] == front[i]);
        }
        if table.last().name == name {
            assert(table[table.len() - 1].name == name);
        }
    }
}

proof fn lemma_lists_push(table: Seq<Entry>, entry: Entry, name: Seq<char>)
    ensures
        lists(table.push(entry), name) == (lists(table, name) || entry.name == name),
{
    let more = table.push(entry);
    if lists(more, name) {
        let i = choose|i: int| 0 <= i < more.len() && (#[trigger] more[i]).name == name;
        if i < table.len() {
            assert(table[i] == more[i]);
        }
    }
    if lists(table, name) {
        let i = choose|i: int| 0 <= i < table.len() && (#[trigger] table[i]).name == name;
        assert(more[i] == table[i]);
    }
    if entry.name == name {
        assert(more[table.len() as int].name == name);
    }
}

/// Whether one of the definitions among the forms holds a call of `name`.
spec fn definitions_call(forms: Seq<Ast>, name: Seq<char>) -> bool {
    exists|k: int|
        0 <= k < forms.len() && is_definition(#[trigger] forms[k]) && form_calls(forms[k], name)
}

/// Whether one of the expressions of the script holds a call of `name`.
spec fn script_calls(forms: Seq<Ast>, name: Seq<char>) -> bool {
    exists|k: int|
        0 <= k < forms.len() && !is_definition(#[trigger] forms[k]) && form_calls(forms[k], name)
}

/// Whether the forms define the function `name` by a definition.
spec fn definitions_define(forms: Seq<Ast>, name: Seq<char>) -> bool {
    exists|k: int| 0 <= k < forms.len() && form_defines(#[trigger] forms[k], name)
}

/// Whether there is a script among the forms.
spec fn has_script(forms: Seq<Ast>) -> bool {
    exists|k: int| 0 <= k < forms.len() && !is_definition(#[trigger] forms[k])
}

proof fn lemma_functions_mention(forms: Seq<Ast>, name: Seq<char>)
    requires
        functions(forms) is Ok,
    ensures
        mentions(functions(forms)->Ok_0.items, name) == definitions_call(forms, name),
        lists(functions(forms)->Ok_0.table, name) == definitions_define(forms, name),
    decreases forms.len(),
{
    if forms.len() == 0 {
    } else {
        let front = forms.drop_last();
        let last = forms.last();
        let before = functions(front)->Ok_0;
        lemma_functions_mention(front, name);
        if is_definition(last) {
            let parts = definition(last)->Ok_0;
            let code = gen_function(parts.params, parts.body, before.items.len())->Ok_0;
            lemma_gen_function_mentions(parts.params, parts.body, before.items.len(), name);
            lemma_mentions_concat(before.items, code, name);
            lemma_lists_push(
                before.table,
                Entry { name: parts.name, start: before.items.len() },
                name,
            );
        }
        assert(forms[forms.len() - 1] == last);
        if definitions_call(forms, name) {
            let k = choose|k: int|
                0 <= k < forms.len() && is_definition(#[trigger] forms[k]) && form_calls(
                    forms[k],
                    name,
                );
            if k < forms.len() - 1 {
                assert(front[k] == forms[k]);
            }
        }
        if definitions_call(front, name) {
            let k = choose|k: int|
                0 <= k < front.len() && is_definition(#[trigger] front[k]) && form_calls(
                    front[k],
                    name,
                );
            assert(forms[k] == front[k]);
        }
        if definitions_define(forms, name) {
            let k = choose|k: int| 0 <= k < forms.len() && form_defines(#[trigger] forms[k], name);
            if k < forms.len() - 1 {
                assert(front[k] == forms[k]);
            }
        }
        if definitions_define(front, name) {
            let k = choose|k: int| 0 <= k < front.len() && form_defines(#[trigger] front[k], name);
            assert(forms[k] == front[k]);
        }
    }
}

proof fn lemma_script_mentions(forms: Seq<Ast>, at: nat, name: Seq<char>)
    requires
        script(forms, at) is Ok,
    ensures
        mentions(script(forms, at)->Ok_0, name) == script_calls(forms, name),
        (script(forms, at)->Ok_0.len() > 0) == has_script(forms),
    decreases forms.len(),
{
    if forms.len() == 0 {
    } else {
        let front = forms.drop_last();
        let last = forms.last();
        let before = script(front, at)->Ok_0;
        lemma_script_mentions(front, at, name);
        if !is_definition(last) {
            let code = gen(Seq::empty(), last, at + before.len())->Ok_0;
            let emit = seq![plain(Instruction::Dump)];
            lemma_gen_mentions(Seq::empty(), last, at + before.len(), name);
            lemma_mentions_plain(emit, name);
            lemma_mentions_concat(before, code, name);
            lemma_mentions_concat(before + code, emit, name);
        }
        assert(forms[forms.len() - 1] == last);
        if script_calls(forms, name) {
            let k = choose|k: int|
                0 <= k < forms.len() && !is_definition(#[trigger] forms[k]) && form_calls(
                    forms[k],
                    name,
                );
            if k < forms.len() - 1 {
                assert(front[k] == forms[k]);
            }
        }
        if script_calls(front, name) {
            let k = choose|k: int|
                0 <= k < front.len() && !is_definition(#[trigger] front[k]) && form_calls(
                    front[k],
                    name,
                );
            assert(forms[k] == front[k]);
        }
        if has_script(forms) {
            let k = choose|k: int| 0 <= k < forms.len() && !is_definition(#[trigger] forms[k]);
            if k < forms.len() - 1 {
                assert(front[k] == forms[k]);
            }
        }
        if has_script(front) {
            let k = choose|k: int| 0 <= k < front.len() && !is_definition(#[trigger] front[k]);
            assert(forms[k] == front[k]);
        }
    }
}

/// The laid-out code of a source file pushes the address of a function just
/// where the file holds a call of it, and a function has an address just
/// where the file defines it.
pub proof fn lemma_layout_mentions(forms: Seq<Ast>, name: Seq<char>)
    requires
        layout(forms) is Ok,
    ensures
        mentions(layout(forms)->Ok_0.items, name) == called(forms, name),
        address(layout(forms)->Ok_0.table, name) is Some == defined(forms, name),
{
    let functions = functions(forms)->Ok_0;
    let code = script(forms, functions.items.len())->Ok_0;
    let laid = layout(forms)->Ok_0;
    lemma_functions_mention(forms, name);
    lemma_script_mentions(forms, functions.items.len(), name);
    lemma_address_lists(laid.table, name);
    if code.len() > 0 {
        let ret = seq![plain(Instruction::Ret)];
        lemma_mentions_plain(ret, name);
        lemma_mentions_concat(functions.items, code, name);
        lemma_mentions_concat(functions.items + code, ret, name);
        lemma_lists_push(
            functions.table,
            Entry { name: "main"@, start: functions.items.len() },
            name,
        );
    }
    if called(forms, name) {
        let k = choose|k: int| 0 <= k < forms.len() && form_calls(#[trigger] forms[k], name);
        assert(definitions_call(forms, name) || script_calls(forms, name));
    }
    if definitions_call(forms, name) {
        let k = choose|k: int|
            0 <= k < forms.len() && is_definition(#[trigger] forms[k]) && form_calls(
                forms[k],
                name,
            );
        assert(form_calls(forms[k], name));
    }
    if script_calls(forms, name) {
        let k = choose|k: int|
            0 <= k < forms.len() && !is_definition(#[trigger] forms[k]) && form_calls(
                forms[k],
                name,
            );
        assert(form_calls(forms[k], name));
    }
}

/// A source file that calls a function which it does not define does not
/// compile. Where its forms are well-formed, so that every one of them has
/// its code, and one of them holds a call of a function that no form
/// defines, compilation fails with `UnknownFunction` and the name of such a
/// function: of the first that the code calls. If the file calls no other
/// undefined function, the name is that of the given one.
pub proof fn lemma_undefined_function_is_rejected(forms: Seq<Ast>, name: Seq<char>)
    requires
        layout(forms) is Ok,
        called(forms, name),
        !defined(forms, name),
    ensures
        program(forms) matches Err(ErrorView::UnknownFunction(found)) && {
            &&& called(forms, found)
            &&& !defined(forms, found)
            &&& (forall|other: Seq<char>|
                #[trigger] called(forms, other) && !defined(forms, other) ==> other == name)
                ==> found == name
        },
{
    let laid = layout(forms)->Ok_0;
    lemma_layout_mentions(forms, name);
    let at = choose|j: int|
        0 <= j < laid.items.len() && #[trigger] laid.items[j] == ItemView::Address(name);
    lemma_undefined_call_is_rejected(forms, at);
    let found = program(forms)->Err_0->UnknownFunction_0;
    lemma_layout_mentions(forms, found);
}

} // verus!
