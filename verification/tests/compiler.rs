use rust_lisp_parser::ast::{Identifier, SyntaxTree};
use rust_lisp_parser::compiler::compile;
use rust_lisp_parser::simulator::{run, Instruction, Interperter, Op, Value};
use rust_lisp_parser::Error;

fn num(n: u64) -> SyntaxTree<'static> {
    SyntaxTree::NumberLiteral(n)
}

fn var(name: &'static str) -> SyntaxTree<'static> {
    SyntaxTree::Variable(Identifier(name))
}

fn call(name: &'static str, args: Vec<SyntaxTree<'static>>) -> SyntaxTree<'static> {
    SyntaxTree::Call(Identifier(name), args)
}

fn outputs(forms: &[SyntaxTree<'static>]) -> Result<Vec<u64>, Error> {
    let program = compile(forms)?;
    let mut output = Vec::new();
    program.run(100_000, &mut output)?;
    Ok(output.into_iter().map(|value| value.as_u64()).collect())
}

#[test]
fn literal_compiles_to_push_dump_ret_and_entry() {
    let program = compile(&[num(7)]).unwrap();
    assert_eq!(
        program.code(),
        &[
            Instruction::Push(Value::U64(7)),
            Instruction::Dump,
            Instruction::Ret,
            Instruction::Push(Value::U64(0)),
            Instruction::Call,
            Instruction::Halt,
        ]
    );
    assert_eq!(program.entrypoint(), 3);
}

#[test]
fn operands_are_emitted_last_first() {
    let program = compile(&[call("-", vec![num(10), num(3)])]).unwrap();
    assert_eq!(
        &program.code()[..3],
        &[
            Instruction::Push(Value::U64(3)),
            Instruction::Push(Value::U64(10)),
            Instruction::Operator(Op::Sub, 2),
        ]
    );
    assert_eq!(outputs(&[call("-", vec![num(10), num(3)])]), Ok(vec![7]));
}

#[test]
fn add_34_35_dumps_69() {
    let forms = [
        call(
            "defun",
            vec![
                var("add"),
                call("a", vec![var("b")]),
                call("+", vec![var("a"), var("b")]),
            ],
        ),
        call("add", vec![num(34), num(35)]),
    ];
    assert_eq!(outputs(&forms), Ok(vec![69]));
}

#[test]
fn factorial_of_5_dumps_120() {
    let forms = [
        call(
            "defun",
            vec![
                var("fact"),
                call("n", vec![]),
                call(
                    "if",
                    vec![
                        var("n"),
                        call(
                            "*",
                            vec![
                                var("n"),
                                call("fact", vec![call("-", vec![var("n"), num(1)])]),
                            ],
                        ),
                        num(1),
                    ],
                ),
            ],
        ),
        call("fact", vec![num(5)]),
    ];
    assert_eq!(outputs(&forms), Ok(vec![120]));
}

#[test]
fn undefined_function_is_named() {
    let forms = [call("missing", vec![num(1)])];
    assert_eq!(
        compile(&forms).err(),
        Some(Error::UnknownFunction("missing".to_string()))
    );
}

#[test]
fn manual_jump_out_of_bounds_fails() {
    let code = [Instruction::Push(Value::U64(9)), Instruction::Jump];
    let mut output = Vec::new();
    assert_eq!(run(&code, 0, 100, &mut output), Err(Error::OutOfBoundsJump(9)));
}

#[test]
fn code_of_the_addition() {
    let forms = [
        call(
            "defun",
            vec![
                var("add"),
                call("a", vec![var("b")]),
                call("+", vec![var("a"), var("b")]),
            ],
        ),
        call("add", vec![num(34), num(35)]),
    ];
    let program = compile(&forms).unwrap();
    assert_eq!(
        program.code(),
        &[
            Instruction::Store,
            Instruction::Store,
            Instruction::Load(0),
            Instruction::Load(1),
            Instruction::Operator(Op::Add, 2),
            Instruction::Forget,
            Instruction::Forget,
            Instruction::Ret,
            Instruction::Push(Value::U64(35)),
            Instruction::Push(Value::U64(34)),
            Instruction::Push(Value::U64(0)),
            Instruction::Call,
            Instruction::Dump,
            Instruction::Ret,
            Instruction::Push(Value::U64(8)),
            Instruction::Call,
            Instruction::Halt,
        ]
    );
    assert_eq!(program.entrypoint(), 14);
    let mut output = Vec::new();
    assert_eq!(program.run(17, &mut output), Ok(()));
    assert_eq!(output, vec![Value::U64(69)]);
    let mut output = Vec::new();
    assert_eq!(program.run(16, &mut output), Err(Error::StepLimit));
}

#[test]
fn code_of_the_factorial() {
    let forms = [
        call(
            "defun",
            vec![
                var("fact"),
                call("n", vec![]),
                call(
                    "if",
                    vec![
                        var("n"),
                        call(
                            "*",
                            vec![
                                var("n"),
                                call("fact", vec![call("-", vec![var("n"), num(1)])]),
                            ],
                        ),
                        num(1),
                    ],
                ),
            ],
        ),
        call("fact", vec![num(5)]),
    ];
    let program = compile(&forms).unwrap();
    assert_eq!(
        program.code(),
        &[
            Instruction::Store,
            Instruction::Load(0),
            Instruction::Push(Value::U64(13)),
            Instruction::JumpFalsy,
            Instruction::Push(Value::U64(1)),
            Instruction::Load(0),
            Instruction::Operator(Op::Sub, 2),
            Instruction::Push(Value::U64(0)),
            Instruction::Call,
            Instruction::Load(0),
            Instruction::Operator(Op::Mul, 2),
            Instruction::Push(Value::U64(14)),
            Instruction::Jump,
            Instruction::Push(Value::U64(1)),
            Instruction::Forget,
            Instruction::Ret,
            Instruction::Push(Value::U64(5)),
            Instruction::Push(Value::U64(0)),
            Instruction::Call,
            Instruction::Dump,
            Instruction::Ret,
            Instruction::Push(Value::U64(16)),
            Instruction::Call,
            Instruction::Halt,
        ]
    );
    assert_eq!(program.entrypoint(), 21);
    let mut output = Vec::new();
    assert_eq!(program.run(90, &mut output), Ok(()));
    assert_eq!(output, vec![Value::U64(120)]);
    let mut output = Vec::new();
    assert_eq!(program.run(89, &mut output), Err(Error::StepLimit));
}

#[test]
fn square_returns_behind_its_call() {
    let forms = [
        call(
            "defun",
            vec![
                var("square"),
                call("x", vec![]),
                call("*", vec![var("x"), var("x")]),
            ],
        ),
        call("square", vec![num(7)]),
    ];
    let program = compile(&forms).unwrap();
    assert_eq!(program.entrypoint(), 11);
    assert_eq!(program.code()[8], Instruction::Call);
    assert_eq!(program.code()[5], Instruction::Ret);
    let mut ctx = Interperter::new(program.code(), program.entrypoint());
    for _ in 0..4 {
        ctx.step().unwrap();
    }
    assert_eq!(ctx.addr(), 8);
    for _ in 0..6 {
        ctx.step().unwrap();
    }
    assert_eq!(ctx.addr(), 5);
    ctx.step().unwrap();
    assert_eq!(ctx.addr(), 8 + 1);
    assert_eq!(ctx.stack(), &[Value::U64(49)]);
}
