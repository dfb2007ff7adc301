//! Small programs followed from their syntax to their output.
use vstd::prelude::*;

use crate::ast::{Ast, BinaryOp};
use crate::compiler::{
    address, definition, functions, gen, gen_args, gen_function, is_definition, layout, link,
    lookup, parameters, plain, program, repeat, resolve, script, Entry, ItemView, Layout,
};
use crate::error::{Error, ErrorView};
use crate::simulator::{
    exec, lemma_exec_next, step, Event, Instruction, Op, ProgramView, State, Status, Trace, Value,
};

verus! {

/// The run after one more instruction, given what the instruction does.
pub open spec fn then(trace: Trace, state: State, event: Event) -> Trace {
    match event {
        Event::Continue => Trace { state, ..trace },
        Event::Output(value) => Trace { state, output: trace.output.push(value), ..trace },
        Event::Halt => Trace { state, status: Status::Stopped, ..trace },
        Event::End => Trace { state, status: Status::Stopped, ..trace },
    }
}

/// One more instruction of a run.
proof fn lemma_then(
    code: Seq<Instruction>,
    start: Trace,
    steps: nat,
    here: Trace,
    state: State,
    event: Event,
)
    requires
        exec(code, start, steps) == here,
        here.status is Running,
        step(code, here.state) == Ok::<(State, Event), Error>((state, event)),
    ensures
        exec(code, start, steps + 1) == then(here, state, event),
{
    lemma_exec_next(code, start, steps);
}

/// A machine that holds what is given.
pub open spec fn machine(pc: usize, stack: Seq<Value>, calls: Seq<usize>, env: Seq<Value>) -> State {
    State { pc, stack, calls, env }
}

/// A run that goes on and has emitted nothing.
pub open spec fn silent(state: State) -> Trace {
    Trace { state, output: Seq::empty(), status: Status::Running }
}

/// The forms of `(defun add (a b) (+ a b)) (add 34 35)`.
pub open spec fn addition() -> Seq<Ast> {
    seq![
        Ast::Call(
            "defun"@,
            seq![
                Ast::Name("add"@),
                Ast::Call("a"@, seq![Ast::Name("b"@)]),
                Ast::Call("+"@, seq![Ast::Name("a"@), Ast::Name("b"@)]),
            ],
        ),
        Ast::Call("add"@, seq![Ast::Number(34), Ast::Number(35)]),
    ]
}

/// The program of [`addition`]: the function `add` from address 0, the
/// script from address 8, the entry sequence from address 14.
pub open spec fn addition_code() -> Seq<Instruction> {
    seq![
        Instruction::Store,
        Instruction::Store,
        Instruction::Load(0),
        Instruction::Load(1),
        Instruction::Operator(Op::Add, 2),
        Instruction::Forget,
        Instruction::Forget,
        Instruction::Ret,
        Instruction::Push(Value::U64(35)),
        Instruction::Push(Value::U64(34)),
        Instruction::Push(Value::U64(0)),
        Instruction::Call,
        Instruction::Dump,
        Instruction::Ret,
        Instruction::Push(Value::U64(8)),
        Instruction::Call,
        Instruction::Halt,
    ]
}

proof fn lemma_addition_function()
    ensures
        functions(addition()) == Ok::<Layout, ErrorView>(
            Layout {
                items: seq![
                    plain(Instruction::Store),
                    plain(Instruction::Store),
                    plain(Instruction::Load(0)),
                    plain(Instruction::Load(1)),
                    plain(Instruction::Operator(Op::Add, 2)),
                    plain(Instruction::Forget),
                    plain(Instruction::Forget),
                    plain(Instruction::Ret),
                ],
                table: seq![Entry { name: "add"@, start: 0 }],
            },
        ),
{
    reveal_strlit("defun");
    reveal_strlit("add");
    reveal_strlit("a");
    reveal_strlit("b");
    reveal_strlit("+");
    let forms = addition();
    let define = forms[0];
    let call = forms[1];
    let params = seq!["a"@, "b"@];
    let body = Ast::Call("+"@, seq![Ast::Name("a"@), Ast::Name("b"@)]);
    let none = Layout { items: Seq::empty(), table: Seq::empty() };
    // the parameters
    let list = Ast::Call("a"@, seq![Ast::Name("b"@)]);
    assert(parameters(list) == Some(params)) by {
        let rest = seq![Ast::Name("b"@)];
        assert(seq!["a"@] + Seq::new(rest.len(), |i: int| rest[i]->Name_0) =~= params);
    }
    assert(definition(define) matches Ok(parts) && parts.name == "add"@ && parts.params == params
        && parts.body == body);
    // the body
    let operands = seq![Ast::Name("a"@), Ast::Name("b"@)];
    assert("a"@[0] == 'a' && "b"@[0] == 'b');
    assert("a"@ != "b"@);
    assert(params.drop_last() =~= seq!["a"@]);
    assert(params.last() == "b"@);
    assert(lookup(params, "b"@) == Some(0nat));
    assert(lookup(seq!["a"@], "a"@) == Some(0nat)) by {
        assert(seq!["a"@].last() == "a"@);
    }
    assert(lookup(params, "a"@) == Some(1nat));
    assert(gen(params, Ast::Name("a"@), 3) == Ok::<Seq<ItemView>, ErrorView>(
        seq![plain(Instruction::Load(1))],
    ));
    assert(gen(params, Ast::Name("b"@), 2) == Ok::<Seq<ItemView>, ErrorView>(
        seq![plain(Instruction::Load(0))],
    ));
    assert(operands.drop_last() =~= seq![Ast::Name("a"@)]);
    assert(operands.drop_last().drop_last() =~= Seq::<Ast>::empty());
    assert(gen_args(params, seq![Ast::Name("a"@)], 3) == Ok::<Seq<ItemView>, ErrorView>(
        seq![plain(Instruction::Load(1))],
    )) by {
        let one = seq![Ast::Name("a"@)];
        assert(one.last() == Ast::Name("a"@));
        assert(one.drop_last() =~= Seq::<Ast>::empty());
        assert(gen_args(params, one.drop_last(), 4) == Ok::<Seq<ItemView>, ErrorView>(
            Seq::empty(),
        ));
        assert(seq![plain(Instruction::Load(1))] + Seq::<ItemView>::empty() =~= seq![
            plain(Instruction::Load(1)),
        ]);
    }
    assert(gen_args(params, operands, 2) == Ok::<Seq<ItemView>, ErrorView>(
        seq![plain(Instruction::Load(0)), plain(Instruction::Load(1))],
    )) by {
        assert(operands.last() == Ast::Name("b"@));
        assert(seq![plain(Instruction::Load(0))] + seq![plain(Instruction::Load(1))] =~= seq![
            plain(Instruction::Load(0)),
            plain(Instruction::Load(1)),
        ]);
    }
    assert(BinaryOp::named("+"@) == Some(BinaryOp::Add));
    let inner = seq![
        plain(Instruction::Load(0)),
        plain(Instruction::Load(1)),
        plain(Instruction::Operator(Op::Add, 2)),
    ];
    assert(gen(params, body, 2) == Ok::<Seq<ItemView>, ErrorView>(inner)) by {
        assert(seq![plain(Instruction::Load(0)), plain(Instruction::Load(1))].push(
            plain(Instruction::Operator(Op::Add, 2)),
        ) =~= inner);
    }
    let whole = functions(addition())->Ok_0.items;
    assert(gen_function(params, body, 0) matches Ok(code) && code =~= seq![
        plain(Instruction::Store),
        plain(Instruction::Store),
        plain(Instruction::Load(0)),
        plain(Instruction::Load(1)),
        plain(Instruction::Operator(Op::Add, 2)),
        plain(Instruction::Forget),
        plain(Instruction::Forget),
        plain(Instruction::Ret),
    ]);
    // the two forms
    assert(forms.drop_last() =~= seq![define]);
    assert(seq![define].drop_last() =~= Seq::<Ast>::empty());
    assert(is_definition(define));
    assert(!is_definition(call));
    assert(functions(seq![define].drop_last()) == Ok::<Layout, ErrorView>(none));
    let code = gen_function(params, body, 0)->Ok_0;
    assert(none.items + code =~= code);
    assert(none.table.push(Entry { name: "add"@, start: 0 }) =~= seq![
        Entry { name: "add"@, start: 0 },
    ]);
    assert(functions(seq![define]) == Ok::<Layout, ErrorView>(
        Layout { items: code, table: seq![Entry { name: "add"@, start: 0 }] },
    ));
}


/// The source `(defun add (a b) (+ a b)) (add 34 35)` compiles to
/// [`addition_code`], entered at address 14.
pub proof fn lemma_addition_compiles()
    ensures
        program(addition()) == Ok::<ProgramView, ErrorView>(
            ProgramView { code: addition_code(), entrypoint: 14 },
        ),
{
    reveal_strlit("defun");
    reveal_strlit("add");
    reveal_strlit("if");
    reveal_strlit("let");
    reveal_strlit("dump");
    reveal_strlit("main");
    lemma_addition_function();
    let forms = addition();
    let define = forms[0];
    let call = forms[1];
    let defined = functions(forms)->Ok_0;
    assert("add"@[0] == 'a' && "let"@[0] == 'l' && "main"@[0] == 'm');
    assert("add"@ != "let"@ && "add"@ != "main"@);
    assert(is_definition(define));
    assert(!is_definition(call));
    // the script
    let operands = seq![Ast::Number(34), Ast::Number(35)];
    assert(operands.last() == Ast::Number(35));
    assert(operands.drop_last() =~= seq![Ast::Number(34)]);
    assert(seq![Ast::Number(34)].last() == Ast::Number(34));
    assert(seq![Ast::Number(34)].drop_last() =~= Seq::<Ast>::empty());
    assert(gen(Seq::empty(), Ast::Number(34), 9) == Ok::<Seq<ItemView>, ErrorView>(
        seq![plain(Instruction::Push(Value::U64(34)))],
    ));
    assert(gen(Seq::empty(), Ast::Number(35), 8) == Ok::<Seq<ItemView>, ErrorView>(
        seq![plain(Instruction::Push(Value::U64(35)))],
    ));
    assert(gen_args(Seq::empty(), seq![Ast::Number(34)], 9) == Ok::<Seq<ItemView>, ErrorView>(
        seq![plain(Instruction::Push(Value::U64(34)))],
    )) by {
        assert(gen_args(Seq::empty(), Seq::<Ast>::empty(), 10) == Ok::<Seq<ItemView>, ErrorView>(
            Seq::empty(),
        ));
        assert(seq![plain(Instruction::Push(Value::U64(34)))] + Seq::<ItemView>::empty() =~= seq![
            plain(Instruction::Push(Value::U64(34))),
        ]);
    }
    let pushes = seq![
        plain(Instruction::Push(Value::U64(35))),
        plain(Instruction::Push(Value::U64(34))),
    ];
    assert(gen_args(Seq::empty(), operands, 8) == Ok::<Seq<ItemView>, ErrorView>(pushes)) by {
        assert(seq![plain(Instruction::Push(Value::U64(35)))] + seq![
            plain(Instruction::Push(Value::U64(34))),
        ] =~= pushes);
    }
    let calling = seq![
        plain(Instruction::Push(Value::U64(35))),
        plain(Instruction::Push(Value::U64(34))),
        ItemView::Address("add"@),
        plain(Instruction::Call),
    ];
    assert(gen(Seq::empty(), call, 8) == Ok::<Seq<ItemView>, ErrorView>(calling)) by {
        assert(BinaryOp::named("add"@) is None);
        assert(pushes.push(ItemView::Address("add"@)).push(plain(Instruction::Call)) =~= calling);
    }
    assert(forms.drop_last() =~= seq![define]);
    assert(seq![define].drop_last() =~= Seq::<Ast>::empty());
    assert(script(seq![define], 8) == Ok::<Seq<ItemView>, ErrorView>(Seq::empty())) by {
        assert(script(Seq::<Ast>::empty(), 8) == Ok::<Seq<ItemView>, ErrorView>(Seq::empty()));
    }
    let main = calling + seq![plain(Instruction::Dump)];
    assert(script(forms, 8) == Ok::<Seq<ItemView>, ErrorView>(main)) by {
        assert(Seq::<ItemView>::empty() + calling + seq![plain(Instruction::Dump)] =~= main);
    }
    // the layout
    let items = defined.items + main + seq![plain(Instruction::Ret)];
    let table = seq![Entry { name: "add"@, start: 0 }, Entry { name: "main"@, start: 8 }];
    assert(defined.table.push(Entry { name: "main"@, start: 8 }) =~= table);
    assert(layout(forms) == Ok::<Layout, ErrorView>(Layout { items, table }));
    // the addresses
    assert(table.drop_last() =~= seq![Entry { name: "add"@, start: 0 }]);
    assert(address(table, "main"@) == Some(8nat));
    assert(address(table, "add"@) == Some(0nat)) by {
        assert(address(seq![Entry { name: "add"@, start: 0 }], "add"@) == Some(0nat));
    }
    let body = addition_code().take(14);
    crate::compiler::lemma_link_pointwise(items, table);
    assert(items.len() == 14);
    assert forall|j: int| 0 <= j < 14 implies resolve(#[trigger] items[j], table) == Ok::<
        Instruction,
        ErrorView,
    >(body[j]) by {
        if j < 8 {
            assert(items[j] == defined.items[j]);
        } else if j < 13 {
            assert(items[j] == main[j - 8]);
        }
    }
    assert(link(items, table) == Ok::<Seq<Instruction>, ErrorView>(body)) by {
        match link(items, table) {
            Ok(linked) => {
                assert forall|j: int| 0 <= j < 14 implies linked[j] == body[j] by {
                    assert(resolve(items[j], table) == Ok::<Instruction, ErrorView>(body[j]));
                }
                assert(linked =~= body);
            },
            Err(error) => {
                let first = choose|first: int|
                    0 <= first < items.len() && resolve(#[trigger] items[first], table) == Err::<
                        Instruction,
                        ErrorView,
                    >(error);
                assert(resolve(items[first], table) is Ok);
            },
        }
    }
    assert(body + seq![
        Instruction::Push(Value::U64(8)),
        Instruction::Call,
        Instruction::Halt,
    ] =~= addition_code());
}


/// Running [`addition_code`] from its entry emits 69, once, and stops after
/// 17 instructions with nothing left on its stacks.
pub proof fn lemma_addition_runs()
    ensures
        exec(addition_code(), Trace::start(State::start(14)), 17) == (Trace {
            state: machine(17, Seq::empty(), Seq::empty(), Seq::empty()),
            output: seq![Value::U64(69)],
            status: Status::Stopped,
        }),
{
    let code = addition_code();
    let none = Seq::<Value>::empty();
    let idle = Seq::<usize>::empty();
    let a = Value::U64(34);
    let b = Value::U64(35);
    let start = Trace::start(State::start(14));
    let go = Event::Continue;
    assert(exec(code, start, 0) == start);
    // the entry sequence
    let s1 = machine(15, seq![Value::U64(8)], idle, none);
    assert(none.push(Value::U64(8)) =~= seq![Value::U64(8)]);
    lemma_then(code, start, 0, start, s1, go);
    let s2 = machine(8, none, seq![16usize], none);
    assert(s1.without(1) =~= none);
    assert(idle.push(16usize) =~= seq![16usize]);
    lemma_then(code, start, 1, silent(s1), s2, go);
    // the script pushes the operands and calls
    let s3 = machine(9, seq![b], seq![16usize], none);
    assert(none.push(b) =~= seq![b]);
    lemma_then(code, start, 2, silent(s2), s3, go);
    let s4 = machine(10, seq![b, a], seq![16usize], none);
    assert(seq![b].push(a) =~= seq![b, a]);
    lemma_then(code, start, 3, silent(s3), s4, go);
    let s5 = machine(11, seq![b, a, Value::U64(0)], seq![16usize], none);
    assert(seq![b, a].push(Value::U64(0)) =~= seq![b, a, Value::U64(0)]);
    lemma_then(code, start, 4, silent(s4), s5, go);
    let s6 = machine(0, seq![b, a], seq![16usize, 12usize], none);
    assert(s5.without(1) =~= seq![b, a]);
    assert(seq![16usize].push(12usize) =~= seq![16usize, 12usize]);
    lemma_then(code, start, 5, silent(s5), s6, go);
    // the function binds its parameters, the first one first
    let s7 = machine(1, seq![b], seq![16usize, 12usize], seq![a]);
    assert(s6.without(1) =~= seq![b]);
    assert(none.push(a) =~= seq![a]);
    lemma_then(code, start, 6, silent(s6), s7, go);
    let s8 = machine(2, none, seq![16usize, 12usize], seq![a, b]);
    assert(s7.without(1) =~= none);
    assert(seq![a].push(b) =~= seq![a, b]);
    lemma_then(code, start, 7, silent(s7), s8, go);
    // the body reads them and adds
    let s9 = machine(3, seq![b], seq![16usize, 12usize], seq![a, b]);
    lemma_then(code, start, 8, silent(s8), s9, go);
    let s10 = machine(4, seq![b, a], seq![16usize, 12usize], seq![a, b]);
    lemma_then(code, start, 9, silent(s9), s10, go);
    let sum = Value::U64(69);
    let s11 = machine(5, seq![sum], seq![16usize, 12usize], seq![a, b]);
    assert(Op::Add.reduce(s10.top(2)) == Ok::<Value, Error>(sum)) by {
        assert(s10.top(2) =~= seq![a, b]);
        assert(seq![a, b].skip(1) =~= seq![b]);
        assert(seq![b].skip(1) =~= none);
        reveal_with_fuel(Op::fold, 3);
    }
    assert(s10.without(2).push(sum) =~= seq![sum]);
    lemma_then(code, start, 10, silent(s10), s11, go);
    // the bindings go and the function returns
    let s12 = machine(6, seq![sum], seq![16usize, 12usize], seq![a]);
    assert(seq![a, b].drop_last() =~= seq![a]);
    lemma_then(code, start, 11, silent(s11), s12, go);
    let s13 = machine(7, seq![sum], seq![16usize, 12usize], none);
    assert(seq![a].drop_last() =~= none);
    lemma_then(code, start, 12, silent(s12), s13, go);
    let s14 = machine(12, seq![sum], seq![16usize], none);
    assert(seq![16usize, 12usize].drop_last() =~= seq![16usize]);
    lemma_then(code, start, 13, silent(s13), s14, go);
    // the script emits the value and returns, and the entry sequence halts
    let s15 = machine(13, none, seq![16usize], none);
    assert(s14.without(1) =~= none);
    lemma_then(code, start, 14, silent(s14), s15, Event::Output(sum));
    let emitted = Trace { state: s15, output: seq![sum], status: Status::Running };
    assert(none.push(sum) =~= seq![sum]);
    let s16 = machine(16, none, idle, none);
    assert(seq![16usize].drop_last() =~= idle);
    lemma_then(code, start, 15, emitted, s16, go);
    let s17 = machine(17, none, idle, none);
    lemma_then(code, start, 16, Trace { state: s16, ..emitted }, s17, Event::Halt);
}

/// The source `(defun add (a b) (+ a b)) (add 34 35)` compiles, and a run of
/// the program with a budget of at least 17 instructions emits 69, once,
/// and stops.
pub proof fn lemma_addition(budget: nat)
    requires
        budget >= 17,
    ensures
        program(addition()) matches Ok(compiled) && {
            let run = exec(compiled.code, Trace::start(State::start(compiled.entrypoint)), budget);
            &&& compiled.entrypoint < compiled.code.len()
            &&& run.result() == Ok::<(), Error>(())
            &&& run.output == seq![Value::U64(69)]
        },
{
    lemma_addition_compiles();
    lemma_addition_runs();
    let code = addition_code();
    let start = Trace::start(State::start(14));
    crate::simulator::lemma_exec_split(code, start, 17, (budget - 17) as nat);
    crate::simulator::lemma_exec_settled(code, exec(code, start, 17), (budget - 17) as nat);
}


/// The forms of `(defun square (x) (* x x)) (square 7)`.
pub open spec fn squaring() -> Seq<Ast> {
    seq![
        Ast::Call(
            "defun"@,
            seq![
                Ast::Name("square"@),
                Ast::Call("x"@, Seq::empty()),
                Ast::Call("*"@, seq![Ast::Name("x"@), Ast::Name("x"@)]),
            ],
        ),
        Ast::Call("square"@, seq![Ast::Number(7)]),
    ]
}

/// The program of [`squaring`]: the function `square` from address 0, the
/// script from address 6 with its `Call` at address 8, the entry sequence
/// from address 11.
pub open spec fn squaring_code() -> Seq<Instruction> {
    seq![
        Instruction::Store,
        Instruction::Load(0),
        Instruction::Load(0),
        Instruction::Operator(Op::Mul, 2),
        Instruction::Forget,
        Instruction::Ret,
        Instruction::Push(Value::U64(7)),
        Instruction::Push(Value::U64(0)),
        Instruction::Call,
        Instruction::Dump,
        Instruction::Ret,
        Instruction::Push(Value::U64(6)),
        Instruction::Call,
        Instruction::Halt,
    ]
}

/// The source `(defun square (x) (* x x)) (square 7)` compiles to
/// [`squaring_code`], entered at address 11.
pub proof fn lemma_squaring_compiles()
    ensures
        program(squaring()) == Ok::<ProgramView, ErrorView>(
            ProgramView { code: squaring_code(), entrypoint: 11 },
        ),
{
    reveal_strlit("defun");
    reveal_strlit("square");
    reveal_strlit("if");
    reveal_strlit("let");
    reveal_strlit("dump");
    reveal_strlit("main");
    reveal_strlit("x");
    reveal_strlit("*");
    let forms = squaring();
    let define = forms[0];
    let call = forms[1];
    let scope = seq!["x"@];
    let x = Ast::Name("x"@);
    let body = Ast::Call("*"@, seq![x, x]);
    assert(BinaryOp::named("*"@) == Some(BinaryOp::Multiply));
    assert(BinaryOp::named("square"@) is None);
    // the function
    let list = Ast::Call("x"@, Seq::empty());
    assert(parameters(list) == Some(scope)) by {
        let rest = Seq::<Ast>::empty();
        assert(seq!["x"@] + Seq::new(rest.len(), |i: int| rest[i]->Name_0) =~= scope);
    }
    assert(scope.last() == "x"@);
    assert(lookup(scope, "x"@) == Some(0nat));
    let load = seq![plain(Instruction::Load(0))];
    assert(gen(scope, x, 1) == Ok::<Seq<ItemView>, ErrorView>(load));
    assert(gen(scope, x, 2) == Ok::<Seq<ItemView>, ErrorView>(load));
    lemma_gen_args_two(scope, x, x, 1);
    let product = seq![
        plain(Instruction::Load(0)),
        plain(Instruction::Load(0)),
        plain(Instruction::Operator(Op::Mul, 2)),
    ];
    assert(gen(scope, body, 1) == Ok::<Seq<ItemView>, ErrorView>(product)) by {
        assert((load + load).push(plain(Instruction::Operator(Op::Mul, 2))) =~= product);
    }
    let function = seq![
        plain(Instruction::Store),
        plain(Instruction::Load(0)),
        plain(Instruction::Load(0)),
        plain(Instruction::Operator(Op::Mul, 2)),
        plain(Instruction::Forget),
        plain(Instruction::Ret),
    ];
    assert(gen_function(scope, body, 0) == Ok::<Seq<ItemView>, ErrorView>(function)) by {
        assert(repeat(plain(Instruction::Store), 1) + product + repeat(
            plain(Instruction::Forget),
            1,
        ) + seq![plain(Instruction::Ret)] =~= function);
    }
    assert(definition(define) matches Ok(parts) && parts.name == "square"@ && parts.params
        == scope && parts.body == body);
    let none = Layout { items: Seq::empty(), table: Seq::empty() };
    assert(forms.drop_last() =~= seq![define]);
    assert(seq![define].drop_last() =~= Seq::<Ast>::empty());
    assert(is_definition(define));
    assert(!is_definition(call));
    assert(functions(seq![define].drop_last()) == Ok::<Layout, ErrorView>(none));
    assert(none.items + function =~= function);
    assert(none.table.push(Entry { name: "square"@, start: 0 }) =~= seq![
        Entry { name: "square"@, start: 0 },
    ]);
    assert(functions(seq![define]) == Ok::<Layout, ErrorView>(
        Layout { items: function, table: seq![Entry { name: "square"@, start: 0 }] },
    ));
    assert(functions(forms) == Ok::<Layout, ErrorView>(
        Layout { items: function, table: seq![Entry { name: "square"@, start: 0 }] },
    ));
    // the script
    let seven = Ast::Number(7);
    assert(gen(Seq::empty(), seven, 6) == Ok::<Seq<ItemView>, ErrorView>(
        seq![plain(Instruction::Push(Value::U64(7)))],
    ));
    lemma_gen_args_one(Seq::empty(), seven, 6);
    let calling = seq![
        plain(Instruction::Push(Value::U64(7))),
        ItemView::Address("square"@),
        plain(Instruction::Call),
    ];
    assert(gen(Seq::empty(), call, 6) == Ok::<Seq<ItemView>, ErrorView>(calling)) by {
        assert(seq![plain(Instruction::Push(Value::U64(7)))].push(
            ItemView::Address("square"@),
        ).push(plain(Instruction::Call)) =~= calling);
    }
    assert(script(seq![define], 6) == Ok::<Seq<ItemView>, ErrorView>(Seq::empty())) by {
        assert(script(Seq::<Ast>::empty(), 6) == Ok::<Seq<ItemView>, ErrorView>(Seq::empty()));
    }
    let main = calling + seq![plain(Instruction::Dump)];
    assert(script(forms, 6) == Ok::<Seq<ItemView>, ErrorView>(main)) by {
        assert(Seq::<ItemView>::empty() + calling + seq![plain(Instruction::Dump)] =~= main);
    }
    // the layout and the addresses
    let items = function + main + seq![plain(Instruction::Ret)];
    let table = seq![Entry { name: "square"@, start: 0 }, Entry { name: "main"@, start: 6 }];
    assert(seq![Entry { name: "square"@, start: 0 }].push(Entry { name: "main"@, start: 6 })
        =~= table);
    assert(layout(forms) == Ok::<Layout, ErrorView>(Layout { items, table }));
    assert(table.drop_last() =~= seq![Entry { name: "square"@, start: 0 }]);
    assert(address(table, "main"@) == Some(6nat));
    assert(address(table, "square"@) == Some(0nat)) by {
        assert(address(seq![Entry { name: "square"@, start: 0 }], "square"@) == Some(0nat));
    }
    let body_code = squaring_code().take(11);
    crate::compiler::lemma_link_pointwise(items, table);
    assert(items.len() == 11);
    assert forall|j: int| 0 <= j < 11 implies resolve(#[trigger] items[j], table) == Ok::<
        Instruction,
        ErrorView,
    >(body_code[j]) by {
        if j < 6 {
            assert(items[j] == function[j]);
        } else if j < 10 {
            assert(items[j] == main[j - 6]);
        }
    }
    assert(link(items, table) == Ok::<Seq<Instruction>, ErrorView>(body_code)) by {
        match link(items, table) {
            Ok(linked) => {
                assert forall|j: int| 0 <= j < 11 implies linked[j] == body_code[j] by {
                    assert(resolve(items[j], table) == Ok::<Instruction, ErrorView>(body_code[j]));
                }
                assert(linked =~= body_code);
            },
            Err(error) => {
                let first = choose|first: int|
                    0 <= first < items.len() && resolve(#[trigger] items[first], table) == Err::<
                        Instruction,
                        ErrorView,
                    >(error);
                assert(resolve(items[first], table) is Ok);
            },
        }
    }
    assert(body_code + seq![
        Instruction::Push(Value::U64(6)),
        Instruction::Call,
        Instruction::Halt,
    ] =~= squaring_code());
}

/// In a run of [`squaring_code`] the `Call` of the script stands at address
/// 8 and is the fifth instruction to run; the `Ret` of the function is the
/// eleventh, and when it has run the program counter is 9, the address
/// behind the `Call`, and the square of the operand is on top of the stack.
pub proof fn lemma_squaring_returns()
    ensures
        squaring_code()[8] == Instruction::Call,
        exec(squaring_code(), Trace::start(State::start(11)), 4).state.pc == 8,
        exec(squaring_code(), Trace::start(State::start(11)), 10).state.pc == 5,
        squaring_code()[5] == Instruction::Ret,
        exec(squaring_code(), Trace::start(State::start(11)), 11) == silent(
            machine(9, seq![Value::U64(49)], seq![13usize], Seq::empty()),
        ),
{
    let code = squaring_code();
    let none = Seq::<Value>::empty();
    let idle = Seq::<usize>::empty();
    let x = Value::U64(7);
    let start = Trace::start(State::start(11));
    let go = Event::Continue;
    assert(exec(code, start, 0) == start);
    let s1 = machine(12, seq![Value::U64(6)], idle, none);
    assert(none.push(Value::U64(6)) =~= seq![Value::U64(6)]);
    lemma_then(code, start, 0, start, s1, go);
    let s2 = machine(6, none, seq![13usize], none);
    assert(s1.without(1) =~= none);
    assert(idle.push(13usize) =~= seq![13usize]);
    lemma_then(code, start, 1, silent(s1), s2, go);
    let s3 = machine(7, seq![x], seq![13usize], none);
    assert(none.push(x) =~= seq![x]);
    lemma_then(code, start, 2, silent(s2), s3, go);
    let s4 = machine(8, seq![x, Value::U64(0)], seq![13usize], none);
    assert(seq![x].push(Value::U64(0)) =~= seq![x, Value::U64(0)]);
    lemma_then(code, start, 3, silent(s3), s4, go);
    let s5 = machine(0, seq![x], seq![13usize, 9usize], none);
    assert(s4.without(1) =~= seq![x]);
    assert(seq![13usize].push(9usize) =~= seq![13usize, 9usize]);
    lemma_then(code, start, 4, silent(s4), s5, go);
    let s6 = machine(1, none, seq![13usize, 9usize], seq![x]);
    assert(s5.without(1) =~= none);
    assert(none.push(x) =~= seq![x]);
    lemma_then(code, start, 5, silent(s5), s6, go);
    let s7 = machine(2, seq![x], seq![13usize, 9usize], seq![x]);
    lemma_then(code, start, 6, silent(s6), s7, go);
    let s8 = machine(3, seq![x, x], seq![13usize, 9usize], seq![x]);
    assert(seq![x].push(x) =~= seq![x, x]);
    lemma_then(code, start, 7, silent(s7), s8, go);
    let square = Value::U64(49);
    let s9 = machine(4, seq![square], seq![13usize, 9usize], seq![x]);
    assert(Op::Mul.reduce(s8.top(2)) == Ok::<Value, Error>(square)) by {
        assert(s8.top(2) =~= seq![x, x]);
        assert(seq![x, x].skip(1) =~= seq![x]);
        assert(seq![x].skip(1) =~= none);
        reveal_with_fuel(Op::fold, 3);
    }
    assert(s8.without(2).push(square) =~= seq![square]);
    lemma_then(code, start, 8, silent(s8), s9, go);
    let s10 = machine(5, seq![square], seq![13usize, 9usize], none);
    assert(seq![x].drop_last() =~= none);
    lemma_then(code, start, 9, silent(s9), s10, go);
    let s11 = machine(9, seq![square], seq![13usize], none);
    assert(seq![13usize, 9usize].drop_last() =~= seq![13usize]);
    lemma_then(code, start, 10, silent(s10), s11, go);
}

/// The operands of a call with one operand are the operand.
proof fn lemma_gen_args_one(scope: Seq<Seq<char>>, tree: Ast, at: nat)
    requires
        gen(scope, tree, at) is Ok,
    ensures
        gen_args(scope, seq![tree], at) == gen(scope, tree, at),
{
    let one = seq![tree];
    let code = gen(scope, tree, at)->Ok_0;
    assert(one.last() == tree);
    assert(one.drop_last() =~= Seq::<Ast>::empty());
    assert(gen_args(scope, one.drop_last(), at + code.len()) == Ok::<Seq<ItemView>, ErrorView>(
        Seq::empty(),
    ));
    assert(code + Seq::<ItemView>::empty() =~= code);
}

/// The operands of a call with two operands are the second and, behind it,
/// the first.
proof fn lemma_gen_args_two(scope: Seq<Seq<char>>, first: Ast, second: Ast, at: nat)
    requires
        gen(scope, second, at) is Ok,
        gen(scope, first, at + gen(scope, second, at)->Ok_0.len()) is Ok,
    ensures
        gen_args(scope, seq![first, second], at) == Ok::<Seq<ItemView>, ErrorView>(
            gen(scope, second, at)->Ok_0 + gen(
                scope,
                first,
                at + gen(scope, second, at)->Ok_0.len(),
            )->Ok_0,
        ),
{
    let two = seq![first, second];
    let front = gen(scope, second, at)->Ok_0;
    assert(two.last() == second);
    assert(two.drop_last() =~= seq![first]);
    lemma_gen_args_one(scope, first, at + front.len());
}

/// The forms of
/// `(defun fact (n) (if n (* n (fact (- n 1))) 1)) (fact 5)`.
pub open spec fn recursion() -> Seq<Ast> {
    seq![
        Ast::Call(
            "defun"@,
            seq![
                Ast::Name("fact"@),
                Ast::Call("n"@, Seq::empty()),
                Ast::Call(
                    "if"@,
                    seq![
                        Ast::Name("n"@),
                        Ast::Call(
                            "*"@,
                            seq![
                                Ast::Name("n"@),
                                Ast::Call(
                                    "fact"@,
                                    seq![
                                        Ast::Call("-"@, seq![Ast::Name("n"@), Ast::Number(1)]),
                                    ],
                                ),
                            ],
                        ),
                        Ast::Number(1),
                    ],
                ),
            ],
        ),
        Ast::Call("fact"@, seq![Ast::Number(5)]),
    ]
}

/// The function `fact` of [`recursion`], laid out from address 0.
pub open spec fn recursion_function() -> Seq<Instruction> {
    seq![
        Instruction::Store,
        Instruction::Load(0),
        Instruction::Push(Value::U64(13)),
        Instruction::JumpFalsy,
        Instruction::Push(Value::U64(1)),
        Instruction::Load(0),
        Instruction::Operator(Op::Sub, 2),
        Instruction::Push(Value::U64(0)),
        Instruction::Call,
        Instruction::Load(0),
        Instruction::Operator(Op::Mul, 2),
        Instruction::Push(Value::U64(14)),
        Instruction::Jump,
        Instruction::Push(Value::U64(1)),
        Instruction::Forget,
        Instruction::Ret,
    ]
}

/// The program of [`recursion`]: the function from address 0, the script
/// from address 16, the entry sequence from address 21.
pub open spec fn recursion_code() -> Seq<Instruction> {
    recursion_function() + seq![
        Instruction::Push(Value::U64(5)),
        Instruction::Push(Value::U64(0)),
        Instruction::Call,
        Instruction::Dump,
        Instruction::Ret,
        Instruction::Push(Value::U64(16)),
        Instruction::Call,
        Instruction::Halt,
    ]
}

/// The items of the function `fact` before linking.
spec fn recursion_items() -> Seq<ItemView> {
    seq![
        plain(Instruction::Store),
        plain(Instruction::Load(0)),
        plain(Instruction::Push(Value::U64(13))),
        plain(Instruction::JumpFalsy),
        plain(Instruction::Push(Value::U64(1))),
        plain(Instruction::Load(0)),
        plain(Instruction::Operator(Op::Sub, 2)),
        ItemView::Address("fact"@),
        plain(Instruction::Call),
        plain(Instruction::Load(0)),
        plain(Instruction::Operator(Op::Mul, 2)),
        plain(Instruction::Push(Value::U64(14))),
        plain(Instruction::Jump),
        plain(Instruction::Push(Value::U64(1))),
        plain(Instruction::Forget),
        plain(Instruction::Ret),
    ]
}

proof fn lemma_recursion_function()
    ensures
        functions(recursion()) == Ok::<Layout, ErrorView>(
            Layout { items: recursion_items(), table: seq![Entry { name: "fact"@, start: 0 }] },
        ),
{
    reveal_strlit("defun");
    reveal_strlit("fact");
    reveal_strlit("if");
    reveal_strlit("let");
    reveal_strlit("dump");
    reveal_strlit("n");
    reveal_strlit("*");
    reveal_strlit("-");
    let forms = recursion();
    let define = forms[0];
    let call = forms[1];
    let scope = seq!["n"@];
    let n = Ast::Name("n"@);
    let one = Ast::Number(1);
    let minus = Ast::Call("-"@, seq![n, one]);
    let recur = Ast::Call("fact"@, seq![minus]);
    let times = Ast::Call("*"@, seq![n, recur]);
    let body = Ast::Call("if"@, seq![n, times, one]);
    assert("fact"@[0] == 'f' && "dump"@[0] == 'd');
    assert("fact"@ != "dump"@);
    assert(BinaryOp::named("-"@) == Some(BinaryOp::Subtract));
    assert(BinaryOp::named("*"@) == Some(BinaryOp::Multiply));
    assert(BinaryOp::named("fact"@) is None);
    assert(BinaryOp::named("if"@) is None);
    // the parameter
    let list = Ast::Call("n"@, Seq::empty());
    assert(parameters(list) == Some(scope)) by {
        let rest = Seq::<Ast>::empty();
        assert(seq!["n"@] + Seq::new(rest.len(), |i: int| rest[i]->Name_0) =~= scope);
    }
    assert(scope.last() == "n"@);
    assert(lookup(scope, "n"@) == Some(0nat));
    let load = seq![plain(Instruction::Load(0))];
    let push = seq![plain(Instruction::Push(Value::U64(1)))];
    // (- n 1)
    assert(gen(scope, one, 4) == Ok::<Seq<ItemView>, ErrorView>(push));
    assert(gen(scope, n, 5) == Ok::<Seq<ItemView>, ErrorView>(load));
    lemma_gen_args_two(scope, n, one, 4);
    let difference = seq![
        plain(Instruction::Push(Value::U64(1))),
        plain(Instruction::Load(0)),
        plain(Instruction::Operator(Op::Sub, 2)),
    ];
    assert(gen(scope, minus, 4) == Ok::<Seq<ItemView>, ErrorView>(difference)) by {
        assert((push + load).push(plain(Instruction::Operator(Op::Sub, 2))) =~= difference);
    }
    // (fact (- n 1))
    lemma_gen_args_one(scope, minus, 4);
    let recursive = seq![
        plain(Instruction::Push(Value::U64(1))),
        plain(Instruction::Load(0)),
        plain(Instruction::Operator(Op::Sub, 2)),
        ItemView::Address("fact"@),
        plain(Instruction::Call),
    ];
    assert(gen(scope, recur, 4) == Ok::<Seq<ItemView>, ErrorView>(recursive)) by {
        assert(difference.push(ItemView::Address("fact"@)).push(plain(Instruction::Call))
            =~= recursive);
    }
    // (* n (fact (- n 1)))
    assert(gen(scope, n, 9) == Ok::<Seq<ItemView>, ErrorView>(load));
    lemma_gen_args_two(scope, n, recur, 4);
    let product = seq![
        plain(Instruction::Push(Value::U64(1))),
        plain(Instruction::Load(0)),
        plain(Instruction::Operator(Op::Sub, 2)),
        ItemView::Address("fact"@),
        plain(Instruction::Call),
        plain(Instruction::Load(0)),
        plain(Instruction::Operator(Op::Mul, 2)),
    ];
    assert(gen(scope, times, 4) == Ok::<Seq<ItemView>, ErrorView>(product)) by {
        assert((recursive + load).push(plain(Instruction::Operator(Op::Mul, 2))) =~= product);
    }
    // (if n .. 1)
    assert(gen(scope, n, 1) == Ok::<Seq<ItemView>, ErrorView>(load));
    assert(gen(scope, one, 13) == Ok::<Seq<ItemView>, ErrorView>(push));
    let choice = recursion_items().subrange(1, 14);
    assert(crate::compiler::gen_if(scope, seq![n, times, one], 1) == Ok::<
        Seq<ItemView>,
        ErrorView,
    >(choice)) by {
        assert(load + seq![
            crate::compiler::push_address(13),
            plain(Instruction::JumpFalsy),
        ] + product + seq![crate::compiler::push_address(14), plain(Instruction::Jump)] + push
            =~= choice);
    }
    assert(gen(scope, body, 1) == Ok::<Seq<ItemView>, ErrorView>(choice));
    assert(gen_function(scope, body, 0) == Ok::<Seq<ItemView>, ErrorView>(recursion_items())) by {
        assert(repeat(plain(Instruction::Store), 1) + choice + repeat(
            plain(Instruction::Forget),
            1,
        ) + seq![plain(Instruction::Ret)] =~= recursion_items());
    }
    assert(definition(define) matches Ok(parts) && parts.name == "fact"@ && parts.params == scope
        && parts.body == body);
    // the two forms
    let none = Layout { items: Seq::empty(), table: Seq::empty() };
    assert(forms.drop_last() =~= seq![define]);
    assert(seq![define].drop_last() =~= Seq::<Ast>::empty());
    assert(is_definition(define));
    assert(!is_definition(call));
    assert(functions(seq![define].drop_last()) == Ok::<Layout, ErrorView>(none));
    assert(none.items + recursion_items() =~= recursion_items());
    assert(none.table.push(Entry { name: "fact"@, start: 0 }) =~= seq![
        Entry { name: "fact"@, start: 0 },
    ]);
    assert(functions(seq![define]) == Ok::<Layout, ErrorView>(
        Layout { items: recursion_items(), table: seq![Entry { name: "fact"@, start: 0 }] },
    ));
}


/// The source `(defun fact (n) (if n (* n (fact (- n 1))) 1)) (fact 5)`
/// compiles to [`recursion_code`], entered at address 21.
pub proof fn lemma_recursion_compiles()
    ensures
        program(recursion()) == Ok::<ProgramView, ErrorView>(
            ProgramView { code: recursion_code(), entrypoint: 21 },
        ),
{
    reveal_strlit("defun");
    reveal_strlit("fact");
    reveal_strlit("if");
    reveal_strlit("let");
    reveal_strlit("dump");
    reveal_strlit("main");
    lemma_recursion_function();
    let forms = recursion();
    let define = forms[0];
    let call = forms[1];
    let defined = functions(forms)->Ok_0;
    assert("fact"@[0] == 'f' && "dump"@[0] == 'd' && "main"@[0] == 'm');
    assert("fact"@ != "dump"@ && "fact"@ != "main"@);
    assert(BinaryOp::named("fact"@) is None);
    assert(is_definition(define));
    assert(!is_definition(call));
    // the script
    let five = Ast::Number(5);
    assert(gen(Seq::empty(), five, 16) == Ok::<Seq<ItemView>, ErrorView>(
        seq![plain(Instruction::Push(Value::U64(5)))],
    ));
    lemma_gen_args_one(Seq::empty(), five, 16);
    let calling = seq![
        plain(Instruction::Push(Value::U64(5))),
        ItemView::Address("fact"@),
        plain(Instruction::Call),
    ];
    assert(gen(Seq::empty(), call, 16) == Ok::<Seq<ItemView>, ErrorView>(calling)) by {
        assert(seq![plain(Instruction::Push(Value::U64(5)))].push(
            ItemView::Address("fact"@),
        ).push(plain(Instruction::Call)) =~= calling);
    }
    assert(forms.drop_last() =~= seq![define]);
    assert(seq![define].drop_last() =~= Seq::<Ast>::empty());
    assert(script(seq![define], 16) == Ok::<Seq<ItemView>, ErrorView>(Seq::empty())) by {
        assert(script(Seq::<Ast>::empty(), 16) == Ok::<Seq<ItemView>, ErrorView>(Seq::empty()));
    }
    let main = calling + seq![plain(Instruction::Dump)];
    assert(script(forms, 16) == Ok::<Seq<ItemView>, ErrorView>(main)) by {
        assert(Seq::<ItemView>::empty() + calling + seq![plain(Instruction::Dump)] =~= main);
    }
    // the layout
    let items = defined.items + main + seq![plain(Instruction::Ret)];
    let table = seq![Entry { name: "fact"@, start: 0 }, Entry { name: "main"@, start: 16 }];
    assert(defined.table.push(Entry { name: "main"@, start: 16 }) =~= table);
    assert(layout(forms) == Ok::<Layout, ErrorView>(Layout { items, table }));
    // the addresses
    assert(table.drop_last() =~= seq![Entry { name: "fact"@, start: 0 }]);
    assert(address(table, "main"@) == Some(16nat));
    assert(address(table, "fact"@) == Some(0nat)) by {
        assert(address(seq![Entry { name: "fact"@, start: 0 }], "fact"@) == Some(0nat));
    }
    let body = recursion_code().take(21);
    crate::compiler::lemma_link_pointwise(items, table);
    assert(items.len() == 21);
    assert forall|j: int| 0 <= j < 21 implies resolve(#[trigger] items[j], table) == Ok::<
        Instruction,
        ErrorView,
    >(body[j]) by {
        if j < 16 {
            assert(items[j] == defined.items[j]);
        } else if j < 20 {
            assert(items[j] == main[j - 16]);
        }
    }
    assert(link(items, table) == Ok::<Seq<Instruction>, ErrorView>(body)) by {
        match link(items, table) {
            Ok(linked) => {
                assert forall|j: int| 0 <= j < 21 implies linked[j] == body[j] by {
                    assert(resolve(items[j], table) == Ok::<Instruction, ErrorView>(body[j]));
                }
                assert(linked =~= body);
            },
            Err(error) => {
                let first = choose|first: int|
                    0 <= first < items.len() && resolve(#[trigger] items[first], table) == Err::<
                        Instruction,
                        ErrorView,
                    >(error);
                assert(resolve(items[first], table) is Ok);
            },
        }
    }
    assert(body + seq![
        Instruction::Push(Value::U64(16)),
        Instruction::Call,
        Instruction::Halt,
    ] =~= recursion_code());
}

/// The factorial of a number, with products that wrap.
pub open spec fn factorial(n: u64) -> u64
    decreases n,
{
    if n == 0 {
        1
    } else {
        n.wrapping_mul(factorial((n - 1) as u64))
    }
}

/// How many instructions the function `fact` runs for the operand `n`.
pub open spec fn factorial_steps(n: u64) -> nat
    decreases n,
{
    if n == 0 {
        7
    } else {
        15 + factorial_steps((n - 1) as u64)
    }
}

/// A call of the function `fact` of [`recursion_code`] returns to its caller
/// with the factorial of its operand in the place of the operand: every
/// `Ret` returns behind its own `Call`, however deep the calls are nested,
/// and the bindings and the pending calls are what they were.
pub proof fn lemma_factorial_returns(
    n: u64,
    trace: Trace,
    stack: Seq<Value>,
    calls: Seq<usize>,
    env: Seq<Value>,
    back: usize,
)
    requires
        trace.status is Running,
        trace.state == machine(0, stack.push(Value::U64(n)), calls.push(back), env),
    ensures
        exec(recursion_code(), trace, factorial_steps(n)) == (Trace {
            state: machine(back, stack.push(Value::U64(factorial(n))), calls, env),
            ..trace
        }),
    decreases n,
{
    let code = recursion_code();
    let go = Event::Continue;
    let v = Value::U64(n);
    let full = stack.push(v);
    let pending = calls.push(back);
    let bound = env.push(v);
    assert(code.len() == 24);
    assert(exec(code, trace, 0) == trace);
    // the operand is bound and read as the condition
    let s1 = machine(1, stack, pending, bound);
    assert(trace.state.without(1) =~= stack);
    lemma_then(code, trace, 0, trace, s1, go);
    let s2 = machine(2, full, pending, bound);
    lemma_then(code, trace, 1, Trace { state: s1, ..trace }, s2, go);
    let s3 = machine(3, full.push(Value::U64(13)), pending, bound);
    lemma_then(code, trace, 2, Trace { state: s2, ..trace }, s3, go);
    assert(s3.without(2) =~= stack);
    if n == 0 {
        let s4 = machine(13, stack, pending, bound);
        lemma_then(code, trace, 3, Trace { state: s3, ..trace }, s4, go);
        let s5 = machine(14, stack.push(Value::U64(1)), pending, bound);
        lemma_then(code, trace, 4, Trace { state: s4, ..trace }, s5, go);
        let s6 = machine(15, stack.push(Value::U64(1)), pending, env);
        assert(bound.drop_last() =~= env);
        lemma_then(code, trace, 5, Trace { state: s5, ..trace }, s6, go);
        let s7 = machine(back, stack.push(Value::U64(1)), calls, env);
        assert(pending.drop_last() =~= calls);
        lemma_then(code, trace, 6, Trace { state: s6, ..trace }, s7, go);
    } else {
        let less = Value::U64((n - 1) as u64);
        let s4 = machine(4, stack, pending, bound);
        lemma_then(code, trace, 3, Trace { state: s3, ..trace }, s4, go);
        // the operand of the inner call
        let s5 = machine(5, stack.push(Value::U64(1)), pending, bound);
        lemma_then(code, trace, 4, Trace { state: s4, ..trace }, s5, go);
        let s6 = machine(6, stack.push(Value::U64(1)).push(v), pending, bound);
        lemma_then(code, trace, 5, Trace { state: s5, ..trace }, s6, go);
        let s7 = machine(7, stack.push(less), pending, bound);
        assert(Op::Sub.reduce(s6.top(2)) == Ok::<Value, Error>(less)) by {
            assert(s6.top(2) =~= seq![v, Value::U64(1)]);
            assert(seq![v, Value::U64(1)].skip(1) =~= seq![Value::U64(1)]);
            assert(seq![Value::U64(1)].skip(1) =~= Seq::<Value>::empty());
            reveal_with_fuel(Op::fold, 3);
        }
        assert(s6.without(2).push(less) =~= stack.push(less));
        lemma_then(code, trace, 6, Trace { state: s6, ..trace }, s7, go);
        let s8 = machine(8, stack.push(less).push(Value::U64(0)), pending, bound);
        lemma_then(code, trace, 7, Trace { state: s7, ..trace }, s8, go);
        let s9 = machine(0, stack.push(less), pending.push(9usize), bound);
        assert(s8.without(1) =~= stack.push(less));
        lemma_then(code, trace, 8, Trace { state: s8, ..trace }, s9, go);
        // the inner call returns behind its `Call`
        let inner = factorial_steps((n - 1) as u64);
        let called = Trace { state: s9, ..trace };
        lemma_factorial_returns((n - 1) as u64, called, stack, pending, bound, 9usize);
        crate::simulator::lemma_exec_split(code, trace, 9, inner);
        let below = Value::U64(factorial((n - 1) as u64));
        let s10 = machine(9, stack.push(below), pending, bound);
        assert(exec(code, trace, 9 + inner) == (Trace { state: s10, ..trace }));
        // the product
        let s11 = machine(10, stack.push(below).push(v), pending, bound);
        lemma_then(code, trace, 9 + inner, Trace { state: s10, ..trace }, s11, go);
        let result = Value::U64(factorial(n));
        let s12 = machine(11, stack.push(result), pending, bound);
        assert(Op::Mul.reduce(s11.top(2)) == Ok::<Value, Error>(result)) by {
            assert(s11.top(2) =~= seq![v, below]);
            assert(seq![v, below].skip(1) =~= seq![below]);
            assert(seq![below].skip(1) =~= Seq::<Value>::empty());
            reveal_with_fuel(Op::fold, 3);
        }
        assert(s11.without(2).push(result) =~= stack.push(result));
        lemma_then(code, trace, 10 + inner, Trace { state: s11, ..trace }, s12, go);
        // the jump behind the other branch, and the return
        let s13 = machine(12, stack.push(result).push(Value::U64(14)), pending, bound);
        lemma_then(code, trace, 11 + inner, Trace { state: s12, ..trace }, s13, go);
        let s14 = machine(14, stack.push(result), pending, bound);
        assert(s13.without(1) =~= stack.push(result));
        lemma_then(code, trace, 12 + inner, Trace { state: s13, ..trace }, s14, go);
        let s15 = machine(15, stack.push(result), pending, env);
        assert(bound.drop_last() =~= env);
        lemma_then(code, trace, 13 + inner, Trace { state: s14, ..trace }, s15, go);
        let s16 = machine(back, stack.push(result), calls, env);
        assert(pending.drop_last() =~= calls);
        lemma_then(code, trace, 14 + inner, Trace { state: s15, ..trace }, s16, go);
    }
}

/// The source `(defun fact (n) (if n (* n (fact (- n 1))) 1)) (fact 5)`
/// compiles, and a run of the program with a budget of at least 90
/// instructions stops after it has emitted one value, 120.
pub proof fn lemma_recursion(budget: nat)
    requires
        budget >= 90,
    ensures
        program(recursion()) matches Ok(compiled) && {
            let run = exec(compiled.code, Trace::start(State::start(compiled.entrypoint)), budget);
            &&& compiled.entrypoint < compiled.code.len()
            &&& run.result() == Ok::<(), Error>(())
            &&& run.output == seq![Value::U64(120)]
        },
{
    lemma_recursion_compiles();
    let code = recursion_code();
    let none = Seq::<Value>::empty();
    let idle = Seq::<usize>::empty();
    let start = Trace::start(State::start(21));
    let go = Event::Continue;
    assert(code.len() == 24);
    assert(exec(code, start, 0) == start);
    assert(factorial(5) == 120 && factorial_steps(5) == 82) by {
        reveal_with_fuel(factorial, 6);
        reveal_with_fuel(factorial_steps, 6);
    }
    // the entry sequence and the call of the script
    let s1 = machine(22, none.push(Value::U64(16)), idle, none);
    lemma_then(code, start, 0, start, s1, go);
    let s2 = machine(16, none, idle.push(23usize), none);
    assert(s1.without(1) =~= none);
    lemma_then(code, start, 1, silent(s1), s2, go);
    let s3 = machine(17, none.push(Value::U64(5)), idle.push(23usize), none);
    lemma_then(code, start, 2, silent(s2), s3, go);
    let s4 = machine(
        18,
        none.push(Value::U64(5)).push(Value::U64(0)),
        idle.push(23usize),
        none,
    );
    lemma_then(code, start, 3, silent(s3), s4, go);
    let s5 = machine(0, none.push(Value::U64(5)), idle.push(23usize).push(19usize), none);
    assert(s4.without(1) =~= none.push(Value::U64(5)));
    lemma_then(code, start, 4, silent(s4), s5, go);
    // the function
    lemma_factorial_returns(5, silent(s5), none, idle.push(23usize), none, 19usize);
    crate::simulator::lemma_exec_split(code, start, 5, 82);
    let s6 = machine(19, none.push(Value::U64(120)), idle.push(23usize), none);
    assert(exec(code, start, 87) == silent(s6));
    // the value is emitted, the script returns, the entry sequence halts
    let s7 = machine(20, none, idle.push(23usize), none);
    assert(s6.without(1) =~= none);
    lemma_then(code, start, 87, silent(s6), s7, Event::Output(Value::U64(120)));
    let emitted = Trace { state: s7, output: seq![Value::U64(120)], status: Status::Running };
    assert(none.push(Value::U64(120)) =~= seq![Value::U64(120)]);
    let s8 = machine(23, none, idle, none);
    assert(idle.push(23usize).drop_last() =~= idle);
    lemma_then(code, start, 88, emitted, s8, go);
    let s9 = machine(24, none, idle, none);
    lemma_then(code, start, 89, Trace { state: s8, ..emitted }, s9, Event::Halt);
    crate::simulator::lemma_exec_split(code, start, 90, (budget - 90) as nat);
    crate::simulator::lemma_exec_settled(code, exec(code, start, 90), (budget - 90) as nat);
}

} // verus!
