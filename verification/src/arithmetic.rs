//! Arithmetic expressions: what they evaluate to, and the proof that the code
//! which the compiler emits for them computes just that.
use vstd::prelude::*;

use crate::ast::{Ast, BinaryOp};
use crate::compiler::{
    address, functions, gen, gen_args, is_definition, layout, lemma_link_pointwise, link, plain,
    program, resolve, script, Entry, ItemView, Layout,
};
use crate::error::{Error, ErrorView};
use crate::simulator::{
    exec, lemma_exec_next, lemma_exec_settled, lemma_exec_split, step, Event, Instruction,
    ProgramView, State, Status, Trace, Value,
};

verus! {

/// Whether every tree of a sequence is an arithmetic expression.
pub open spec fn all_arithmetic(trees: Seq<Ast>) -> bool {
    forall|i: int| 0 <= i < trees.len() ==> arithmetic(#[trigger] trees[i])
}

/// Whether a tree is an arithmetic expression: a number, or one of `+`, `-`,
/// `*`, `/` applied to arithmetic expressions.
pub open spec fn arithmetic(tree: Ast) -> bool
    decreases tree,
{
    match tree {
        Ast::Number(_) => true,
        Ast::Call(name, args) => BinaryOp::named(name) is Some && forall|i: int|
            0 <= i < args.len() ==> arithmetic(#[trigger] args[i]),
        _ => false,
    }
}

/// The value of an arithmetic expression, computed on the tree: a number is
/// its own value, and an operator combines the values of its operands from
/// the first to the last. The operands are evaluated from the last to the
/// first, and the first error among them is the error of the whole.
pub open spec fn eval(tree: Ast) -> Result<Value, Error>
    decreases tree,
{
    match tree {
        Ast::Number(n) => Ok(Value::U64(n)),
        Ast::Call(name, args) => match eval_args(args) {
            Ok(values) => match BinaryOp::named(name) {
                Some(operation) => operation.op().reduce(values),
                None => Err(Error::SyntaxConstruction),
            },
            Err(error) => Err(error),
        },
        _ => Err(Error::SyntaxConstruction),
    }
}

/// The values of the operands, in the order of the operands.
pub open spec fn eval_args(args: Seq<Ast>) -> Result<Seq<Value>, Error>
    decreases args,
{
    if args.len() == 0 {
        Ok(Seq::empty())
    } else {
        match eval(args.last()) {
            Ok(value) => match eval_args(args.drop_last()) {
                Ok(values) => Ok(values.push(value)),
                Err(error) => Err(error),
            },
            Err(error) => Err(error),
        }
    }
}

/// The instructions of an arithmetic expression.
pub open spec fn code(tree: Ast) -> Seq<Instruction>
    decreases tree,
{
    match tree {
        Ast::Number(n) => seq![Instruction::Push(Value::U64(n))],
        Ast::Call(name, args) => code_args(args).push(
            Instruction::Operator(BinaryOp::named(name)->0.op(), args.len() as usize),
        ),
        _ => Seq::empty(),
    }
}

/// The instructions of the operands of an operator, the last operand first.
pub open spec fn code_args(args: Seq<Ast>) -> Seq<Instruction>
    decreases args,
{
    if args.len() == 0 {
        Seq::empty()
    } else {
        code(args.last()) + code_args(args.drop_last())
    }
}

/// Final instructions as items.
pub open spec fn plains(instructions: Seq<Instruction>) -> Seq<ItemView> {
    Seq::new(instructions.len(), |i: int| plain(instructions[i]))
}

/// The compiler emits for an arithmetic expression the instructions of
/// [`code`], wherever the expression stands.
pub proof fn lemma_gen_arithmetic(scope: Seq<Seq<char>>, tree: Ast, at: nat)
    requires
        arithmetic(tree),
    ensures
        gen(scope, tree, at) == Ok::<Seq<ItemView>, ErrorView>(plains(code(tree))),
    decreases tree,
{
    match tree {
        Ast::Number(n) => {
            assert(seq![plain(Instruction::Push(Value::U64(n)))] =~= plains(code(tree)));
        },
        Ast::Call(name, args) => {
            lemma_gen_args_arithmetic(scope, args, at);
            let emitted = plains(code_args(args));
            let last = Instruction::Operator(BinaryOp::named(name)->0.op(), args.len() as usize);
            assert(emitted.push(plain(last)) =~= plains(code(tree)));
        },
        _ => {},
    }
}

/// The compiler emits for arithmetic operands the instructions of
/// [`code_args`].
pub proof fn lemma_gen_args_arithmetic(scope: Seq<Seq<char>>, args: Seq<Ast>, at: nat)
    requires
        all_arithmetic(args),
    ensures
        gen_args(scope, args, at) == Ok::<Seq<ItemView>, ErrorView>(plains(code_args(args))),
    decreases args,
{
    if args.len() == 0 {
        assert(plains(code_args(args)) =~= Seq::<ItemView>::empty());
    } else {
        let last = args.last();
        let front = args.drop_last();
        assert(arithmetic(last));
        assert forall|i: int| 0 <= i < front.len() implies arithmetic(#[trigger] front[i]) by {
            assert(front[i] == args[i]);
        }
        lemma_gen_arithmetic(scope, last, at);
        lemma_gen_args_arithmetic(scope, front, at + plains(code(last)).len());
        assert(plains(code(last)) + plains(code_args(front)) =~= plains(code_args(args)));
    }
}

/// An arithmetic expression has at least one instruction.
pub proof fn lemma_code_len(tree: Ast)
    requires
        arithmetic(tree),
    ensures
        code(tree).len() >= 1,
{
}

/// Operands have at least as many instructions as there are operands.
pub proof fn lemma_code_args_len(args: Seq<Ast>)
    requires
        all_arithmetic(args),
    ensures
        code_args(args).len() >= args.len(),
    decreases args.len(),
{
    if args.len() > 0 {
        let front = args.drop_last();
        assert forall|i: int| 0 <= i < front.len() implies arithmetic(#[trigger] front[i]) by {
            assert(front[i] == args[i]);
        }
        assert(arithmetic(args.last()));
        lemma_code_len(args.last());
        lemma_code_args_len(front);
    }
}

/// There are as many values as operands.
pub proof fn lemma_eval_args_len(args: Seq<Ast>)
    ensures
        eval_args(args) matches Ok(values) ==> values.len() == args.len(),
    decreases args.len(),
{
    if args.len() > 0 {
        lemma_eval_args_len(args.drop_last());
    }
}

/// The run after `steps` instructions that did nothing but push `values`.
pub open spec fn pushed(trace: Trace, steps: nat, values: Seq<Value>) -> Trace {
    Trace {
        state: State {
            pc: (trace.state.pc + steps) as usize,
            stack: trace.state.stack + values,
            ..trace.state
        },
        ..trace
    }
}

/// That running `steps` instructions from `trace` does what `outcome` says:
/// it pushes the values and nothing else, or it fails with the error without
/// having emitted anything.
pub open spec fn runs(
    program: Seq<Instruction>,
    trace: Trace,
    steps: nat,
    outcome: Result<Seq<Value>, Error>,
) -> bool {
    match outcome {
        Ok(values) => exec(program, trace, steps) == pushed(trace, steps, values),
        Err(error) => {
            &&& exec(program, trace, steps).status == Status::Failed(error)
            &&& exec(program, trace, steps).output == trace.output
        },
    }
}

/// The value of an expression as the one value that its code pushes.
pub open spec fn one(value: Result<Value, Error>) -> Result<Seq<Value>, Error> {
    match value {
        Ok(value) => Ok(seq![value]),
        Err(error) => Err(error),
    }
}

/// The values of operands as their code pushes them: the last operand
/// first.
pub open spec fn reversed(values: Result<Seq<Value>, Error>) -> Result<Seq<Value>, Error> {
    match values {
        Ok(values) => Ok(values.reverse()),
        Err(error) => Err(error),
    }
}

/// Wherever the code of an arithmetic expression stands in a program,
/// running it from its first instruction pushes the value of the expression
/// and changes nothing else, or fails as the evaluation of the expression
/// does.
pub proof fn lemma_code_runs(program: Seq<Instruction>, tree: Ast, trace: Trace)
    requires
        arithmetic(tree),
        program.len() <= usize::MAX,
        trace.status is Running,
        trace.state.pc + code(tree).len() <= program.len(),
        program.subrange(trace.state.pc as int, trace.state.pc + code(tree).len()) == code(tree),
    ensures
        runs(program, trace, code(tree).len(), one(eval(tree))),
    decreases tree,
{
    let pc = trace.state.pc as int;
    let here = program.subrange(pc, pc + code(tree).len());
    match tree {
        Ast::Number(n) => {
            assert(program[pc] == here[0]);
            assert(trace.state.stack.push(Value::U64(n)) =~= trace.state.stack + seq![
                Value::U64(n),
            ]);
            reveal_with_fuel(exec, 2);
        },
        Ast::Call(name, args) => {
            let operands = code_args(args);
            let count = operands.len();
            let operator = BinaryOp::named(name)->0.op();
            lemma_code_args_len(args);
            lemma_eval_args_len(args);
            assert(program.subrange(pc, pc + count) =~= operands) by {
                assert(here.subrange(0, count as int) =~= operands);
                assert(program.subrange(pc, pc + count) =~= here.subrange(0, count as int));
            }
            assert(program[pc + count] == here[count as int]);
            lemma_args_run(program, args, trace);
            lemma_exec_next(program, trace, count);
            let before = exec(program, trace, count);
            match eval_args(args) {
                Ok(values) => {
                    let state = before.state;
                    let arity = args.len();
                    assert(state.top(arity) =~= values);
                    assert(state.without(arity) =~= trace.state.stack);
                    match operator.reduce(values) {
                        Ok(value) => {
                            assert(trace.state.stack.push(value) =~= trace.state.stack + seq![
                                value,
                            ]);
                        },
                        Err(error) => {},
                    }
                },
                Err(error) => {},
            }
        },
        _ => {},
    }
}

/// Wherever the code of arithmetic operands stands in a program, running it
/// from its first instruction pushes the values of the operands, the last
/// operand first, and changes nothing else, or fails as the evaluation of the
/// operands does.
pub proof fn lemma_args_run(program: Seq<Instruction>, args: Seq<Ast>, trace: Trace)
    requires
        all_arithmetic(args),
        program.len() <= usize::MAX,
        trace.status is Running,
        trace.state.pc + code_args(args).len() <= program.len(),
        program.subrange(trace.state.pc as int, trace.state.pc + code_args(args).len())
            == code_args(args),
    ensures
        runs(program, trace, code_args(args).len(), reversed(eval_args(args))),
    decreases args,
{
    let pc = trace.state.pc as int;
    if args.len() == 0 {
        assert(trace.state.stack + Seq::<Value>::empty().reverse() =~= trace.state.stack);
    } else {
        let last = args.last();
        let front = args.drop_last();
        let first = code(last).len();
        let rest = code_args(front).len();
        let here = program.subrange(pc, pc + first + rest);
        assert(arithmetic(last));
        assert forall|i: int| 0 <= i < front.len() implies arithmetic(#[trigger] front[i]) by {
            assert(front[i] == args[i]);
        }
        assert(program.subrange(pc, pc + first) =~= code(last)) by {
            assert(here.subrange(0, first as int) =~= code(last));
            assert(program.subrange(pc, pc + first) =~= here.subrange(0, first as int));
        }
        lemma_code_runs(program, last, trace);
        lemma_exec_split(program, trace, first, rest);
        let middle = exec(program, trace, first);
        match eval(last) {
            Ok(value) => {
                assert(program.subrange(pc + first, pc + first + rest) =~= code_args(front)) by {
                    assert(here.subrange(first as int, (first + rest) as int) =~= code_args(front));
                    assert(program.subrange(pc + first, pc + first + rest) =~= here.subrange(
                        first as int,
                        (first + rest) as int,
                    ));
                }
                lemma_args_run(program, front, middle);
                match eval_args(front) {
                    Ok(values) => {
                        assert(trace.state.stack + seq![value] + values.reverse()
                            =~= trace.state.stack + values.push(value).reverse());
                    },
                    Err(error) => {},
                }
            },
            Err(error) => {
                lemma_exec_settled(program, middle, rest);
            },
        }
    }
}


/// Linking leaves final instructions as they are.
pub proof fn lemma_link_plains(instructions: Seq<Instruction>, table: Seq<Entry>)
    ensures
        link(plains(instructions), table) == Ok::<Seq<Instruction>, ErrorView>(instructions),
{
    let items = plains(instructions);
    lemma_link_pointwise(items, table);
    match link(items, table) {
        Ok(linked) => {
            assert forall|j: int| 0 <= j < instructions.len() implies linked[j]
                == instructions[j] by {
                assert(resolve(items[j], table) == Ok::<Instruction, ErrorView>(instructions[j]));
            }
            assert(linked =~= instructions);
        },
        Err(error) => {
            let first = choose|first: int|
                0 <= first < items.len() && resolve(#[trigger] items[first], table) == Err::<
                    Instruction,
                    ErrorView,
                >(error);
            assert(resolve(items[first], table) is Ok);
        },
    }
}

/// The instructions of a script of arithmetic expressions: for each
/// expression its code and the instruction that emits its value.
pub open spec fn script_code(forms: Seq<Ast>) -> Seq<Instruction>
    decreases forms.len(),
{
    if forms.len() == 0 {
        Seq::empty()
    } else {
        script_code(forms.drop_last()) + code(forms.last()) + seq![Instruction::Dump]
    }
}

/// The program of a source file that consists of arithmetic expressions: the
/// script as the function `main`, and the entry sequence.
pub open spec fn script_program(forms: Seq<Ast>) -> ProgramView {
    ProgramView {
        code: script_code(forms) + seq![
            Instruction::Ret,
            Instruction::Push(Value::U64(0)),
            Instruction::Call,
            Instruction::Halt,
        ],
        entrypoint: (script_code(forms).len() + 1) as usize,
    }
}

/// What evaluating a script gives.
pub struct Outcome {
    /// The values of the expressions in front of the first that fails.
    pub output: Seq<Value>,
    /// The error of the first expression that fails, if one does.
    pub result: Result<(), Error>,
}

/// What evaluating the expressions of a script, one after the other, gives:
/// their values, up to the first expression whose evaluation fails.
pub open spec fn outcome(forms: Seq<Ast>) -> Outcome
    decreases forms.len(),
{
    if forms.len() == 0 {
        Outcome { output: Seq::empty(), result: Ok(()) }
    } else {
        let before = outcome(forms.drop_last());
        match before.result {
            Ok(_) => match eval(forms.last()) {
                Ok(value) => Outcome { output: before.output.push(value), result: Ok(()) },
                Err(error) => Outcome { output: before.output, result: Err(error) },
            },
            Err(_) => before,
        }
    }
}

/// Arithmetic expressions define no function, and the compiler emits for
/// them the instructions of [`script_code`].
pub proof fn lemma_script_arithmetic(forms: Seq<Ast>, at: nat)
    requires
        all_arithmetic(forms),
    ensures
        functions(forms) == Ok::<Layout, ErrorView>(
            Layout { items: Seq::empty(), table: Seq::empty() },
        ),
        script(forms, at) == Ok::<Seq<ItemView>, ErrorView>(plains(script_code(forms))),
    decreases forms.len(),
{
    if forms.len() == 0 {
        assert(plains(script_code(forms)) =~= Seq::<ItemView>::empty());
    } else {
        let front = forms.drop_last();
        let last = forms.last();
        assert(arithmetic(last));
        assert forall|i: int| 0 <= i < front.len() implies arithmetic(#[trigger] front[i]) by {
            assert(front[i] == forms[i]);
        }
        lemma_script_arithmetic(front, at);
        assert(!is_definition(last)) by {
            reveal_strlit("defun");
        }
        let before = plains(script_code(front));
        lemma_gen_arithmetic(Seq::empty(), last, at + before.len());
        assert(before + plains(code(last)) + seq![plain(Instruction::Dump)] =~= plains(
            script_code(forms),
        ));
    }
}

/// A source file that consists of arithmetic expressions, at least one,
/// compiles to [`script_program`].
pub proof fn lemma_arithmetic_compiles(forms: Seq<Ast>)
    requires
        all_arithmetic(forms),
        forms.len() >= 1,
    ensures
        program(forms) == Ok::<ProgramView, ErrorView>(script_program(forms)),
{
    let body = script_code(forms);
    let none = Layout { items: Seq::empty(), table: Seq::empty() };
    lemma_script_arithmetic(forms, 0);
    let whole = body + seq![Instruction::Ret];
    let items = none.items + plains(body) + seq![plain(Instruction::Ret)];
    let table = none.table.push(Entry { name: "main"@, start: 0 });
    assert(items =~= plains(whole));
    assert(layout(forms) == Ok::<Layout, ErrorView>(Layout { items, table }));
    lemma_link_plains(whole, table);
    assert(table.drop_last() =~= Seq::<Entry>::empty());
    assert(address(table, "main"@) == Some(0nat));
    assert(whole + seq![
        Instruction::Push(Value::U64(0)),
        Instruction::Call,
        Instruction::Halt,
    ] =~= script_program(forms).code);
}

/// Wherever the code of a script of arithmetic expressions stands in a
/// program, running it from its first instruction emits the values of the
/// expressions and leaves the machine as it was, or fails with the error of
/// the first expression that fails, having emitted the values of those in
/// front of it.
pub proof fn lemma_script_runs(program: Seq<Instruction>, forms: Seq<Ast>, trace: Trace)
    requires
        all_arithmetic(forms),
        program.len() <= usize::MAX,
        trace.status is Running,
        trace.state.pc + script_code(forms).len() <= program.len(),
        program.subrange(trace.state.pc as int, trace.state.pc + script_code(forms).len())
            == script_code(forms),
    ensures
        ({
            let run = exec(program, trace, script_code(forms).len());
            let expected = outcome(forms);
            &&& run.output == trace.output + expected.output
            &&& match expected.result {
                Ok(_) => run == (Trace {
                    state: State {
                        pc: (trace.state.pc + script_code(forms).len()) as usize,
                        ..trace.state
                    },
                    output: trace.output + expected.output,
                    ..trace
                }),
                Err(error) => run.status == Status::Failed(error),
            }
        }),
    decreases forms.len(),
{
    let pc = trace.state.pc as int;
    if forms.len() == 0 {
        assert(trace.output + Seq::<Value>::empty() =~= trace.output);
    } else {
        let front = forms.drop_last();
        let last = forms.last();
        let first = script_code(front).len();
        let second = code(last).len();
        let here = program.subrange(pc, pc + first + second + 1);
        assert(arithmetic(last));
        assert forall|i: int| 0 <= i < front.len() implies arithmetic(#[trigger] front[i]) by {
            assert(front[i] == forms[i]);
        }
        assert(program.subrange(pc, pc + first) =~= script_code(front)) by {
            assert(here.subrange(0, first as int) =~= script_code(front));
            assert(program.subrange(pc, pc + first) =~= here.subrange(0, first as int));
        }
        lemma_script_runs(program, front, trace);
        lemma_exec_split(program, trace, first, second + 1);
        let before = exec(program, trace, first);
        let expected = outcome(front);
        match expected.result {
            Ok(_) => {
                assert(program.subrange(pc + first, pc + first + second) =~= code(last)) by {
                    assert(here.subrange(first as int, (first + second) as int) =~= code(last));
                    assert(program.subrange(pc + first, pc + first + second) =~= here.subrange(
                        first as int,
                        (first + second) as int,
                    ));
                }
                assert(program[pc + first + second] == here[(first + second) as int]);
                lemma_code_runs(program, last, before);
                lemma_exec_next(program, before, second);
                let computed = exec(program, before, second);
                match eval(last) {
                    Ok(value) => {
                        let full = computed.state;
                        assert(full.peek(0) == value);
                        assert(full.without(1) =~= trace.state.stack);
                        assert(before.output.push(value) =~= trace.output
                            + expected.output.push(value));
                    },
                    Err(error) => {},
                }
            },
            Err(error) => {
                lemma_exec_settled(program, before, second + 1);
            },
        }
    }
}

/// Compiling a source file of arithmetic expressions and running the program
/// gives what evaluating the expressions gives: a run with a budget of at
/// least four instructions more than the script has emits the values of the
/// expressions and stops, or fails with the error of the first expression
/// that fails, having emitted the values of those in front of it.
pub proof fn lemma_arithmetic_program(forms: Seq<Ast>, budget: nat)
    requires
        all_arithmetic(forms),
        forms.len() >= 1,
        script_code(forms).len() + 4 <= usize::MAX,
        budget >= script_code(forms).len() + 4,
    ensures
        program(forms) == Ok::<ProgramView, ErrorView>(script_program(forms)),
        ({
            let compiled = script_program(forms);
            let run = exec(
                compiled.code,
                Trace::start(State::start(compiled.entrypoint)),
                budget,
            );
            &&& run.result() == outcome(forms).result
            &&& run.output == outcome(forms).output
        }),
{
    lemma_arithmetic_compiles(forms);
    let compiled = script_program(forms);
    let all = compiled.code;
    let len = script_code(forms).len() as int;
    let entry = compiled.entrypoint;
    let start = Trace::start(State::start(entry));
    assert(all.len() == len + 4);
    assert(all[len] == Instruction::Ret);
    assert(all[len + 1] == Instruction::Push(Value::U64(0)));
    assert(all[len + 2] == Instruction::Call);
    assert(all[len + 3] == Instruction::Halt);
    // The entry sequence pushes the address of `main` and calls it.
    let called = Trace {
        state: State {
            pc: 0,
            stack: Seq::empty(),
            calls: seq![(entry + 2) as usize],
            env: Seq::empty(),
        },
        ..start
    };
    assert(exec(all, start, 2) == called) by {
        let pushed = start.state.next(start.state.stack.push(Value::U64(0)));
        assert(step(all, start.state) == Ok::<(State, Event), Error>((pushed, Event::Continue)));
        assert(pushed.without(1) =~= Seq::<Value>::empty());
        assert(Seq::<usize>::empty().push((entry + 2) as usize) =~= seq![(entry + 2) as usize]);
        assert(step(all, pushed) == Ok::<(State, Event), Error>((called.state, Event::Continue)));
        reveal_with_fuel(exec, 3);
    }
    // The script emits the values.
    assert(all.subrange(0, len) =~= script_code(forms));
    lemma_script_runs(all, forms, called);
    lemma_exec_split(all, start, 2, len as nat);
    let emitted = exec(all, called, len as nat);
    lemma_exec_split(all, start, (2 + len) as nat, (budget - 2 - len) as nat);
    let expected = outcome(forms);
    assert(start.output + expected.output =~= expected.output);
    match expected.result {
        Ok(_) => {
            let done = Trace {
                state: State {
                    pc: (len + 4) as usize,
                    stack: Seq::empty(),
                    calls: Seq::empty(),
                    env: Seq::empty(),
                },
                output: expected.output,
                status: Status::Stopped,
            };
            assert(exec(all, emitted, 2) == done) by {
                let full = emitted.state;
                let returned = State {
                    pc: (len + 3) as usize,
                    calls: full.calls.drop_last(),
                    ..full
                };
                assert(full.calls.drop_last() =~= Seq::<usize>::empty());
                assert(step(all, full) == Ok::<(State, Event), Error>(
                    (returned, Event::Continue),
                ));
                assert(step(all, returned) == Ok::<(State, Event), Error>(
                    (done.state, Event::Halt),
                ));
                reveal_with_fuel(exec, 3);
            }
            lemma_exec_split(all, emitted, 2, (budget - 4 - len) as nat);
            lemma_exec_settled(all, done, (budget - 4 - len) as nat);
        },
        Err(error) => {
            lemma_exec_settled(all, emitted, (budget - 2 - len) as nat);
        },
    }
}

} // verus!
