use rust_lisp_parser::simulator::{run, Event, Instruction, Interperter, Op, Program, Value};
use rust_lisp_parser::Error;

fn v(n: u64) -> Value {
    Value::U64(n)
}

fn push(n: u64) -> Instruction {
    Instruction::Push(Value::U64(n))
}

fn run_all(code: &[Instruction]) -> (Result<(), Error>, Vec<Value>) {
    let mut output = Vec::new();
    let result = run(code, 0, 10_000, &mut output);
    (result, output)
}

#[test]
fn values_wrap_and_divide() {
    assert_eq!(v(u64::MAX).wrapping_add(v(2)), v(1));
    assert_eq!(v(3).wrapping_sub(v(5)), v(u64::MAX - 1));
    assert_eq!(v(1 << 63).wrapping_mul(v(2)), v(0));
    assert_eq!(v(7).checked_div(v(2)), Some(v(3)));
    assert_eq!(v(7).checked_div(v(0)), None);
    assert!(v(1).is_truthy());
    assert!(!v(0).is_truthy());
    assert!(v(0).is_falsey());
    assert_eq!(v(42).as_u64(), 42);
    assert_eq!(v(69).exit_code(), 69);
    assert_eq!(v(256 + 7).exit_code(), 7);
    assert_eq!(v(u64::MAX).exit_code(), 255);
    assert!(v(1) < v(2));
    assert_eq!(v(3).max(v(2)), v(3));
}

#[test]
fn operators_fold_from_the_first_operand() {
    assert_eq!(Op::Sub.compute(&[v(10), v(3), v(2)]), Ok(v(5)));
    assert_eq!(Op::Div.compute(&[v(100), v(5), v(2)]), Ok(v(10)));
    assert_eq!(Op::Add.compute(&[v(4)]), Ok(v(4)));
    assert_eq!(Op::Mul.compute(&[v(2), v(3), v(4)]), Ok(v(24)));
    assert_eq!(Op::Add.compute(&[]), Err(Error::EmptyReduction));
    assert_eq!(Op::Div.compute(&[v(1), v(0)]), Err(Error::DivisionByZero));
}

#[test]
fn operator_takes_the_top_of_the_stack_first() {
    let code = [push(3), push(10), Instruction::Operator(Op::Sub, 2), Instruction::Dump];
    assert_eq!(run_all(&code), (Ok(()), vec![v(7)]));
}

#[test]
fn operator_with_too_few_operands() {
    let code = [push(3), Instruction::Operator(Op::Add, 2)];
    assert_eq!(
        run_all(&code).0,
        Err(Error::ArityMismatch { expected: 2, actual: 1 })
    );
}

#[test]
fn division_by_zero_is_an_error() {
    let code = [push(0), push(10), Instruction::Operator(Op::Div, 2), Instruction::Dump];
    assert_eq!(run_all(&code), (Err(Error::DivisionByZero), vec![]));
}

#[test]
fn dup_drop_twice_is_identity() {
    let pair = [
        Instruction::Dup,
        Instruction::Drop,
        Instruction::Dup,
        Instruction::Drop,
    ];
    let mut with = vec![push(1), push(2)];
    with.extend_from_slice(&pair);
    let mut ctx = Interperter::new(&with, 0);
    for _ in 0..6 {
        assert_eq!(ctx.step(), Ok(Event::Continue));
    }
    assert_eq!(ctx.stack(), &[v(1), v(2)]);
    assert_eq!(ctx.addr(), 6);

    let without = [push(1), push(2)];
    let mut plain = Interperter::new(&without, 0);
    for _ in 0..2 {
        assert_eq!(plain.step(), Ok(Event::Continue));
    }
    assert_eq!(plain.stack(), ctx.stack());
    assert_eq!(plain.calls(), ctx.calls());
    assert_eq!(plain.bindings(), ctx.bindings());
}

#[test]
fn dup_and_jump_on_their_own() {
    let code = [push(5), push(1)];
    let mut ctx = Interperter::new(&code, 0);
    assert_eq!(ctx.dup(), Err(Error::EmptyStack));
    assert_eq!(ctx.jump(), Err(Error::EmptyStack));
    ctx.step().unwrap();
    assert_eq!(ctx.dup(), Ok(()));
    assert_eq!(ctx.stack(), &[v(5), v(5)]);
    assert_eq!(ctx.addr(), 1);
    assert_eq!(ctx.jump(), Err(Error::OutOfBoundsJump(5)));
    assert_eq!(ctx.stack(), &[v(5), v(5)]);
    assert_eq!(ctx.addr(), 1);
    ctx.step().unwrap();
    assert_eq!(ctx.addr(), 2);
    assert_eq!(ctx.jump(), Ok(()));
    assert_eq!(ctx.addr(), 1);
    assert_eq!(ctx.stack(), &[v(5), v(5)]);
}

#[test]
fn dup_on_empty_stack_fails_and_changes_nothing() {
    let code = [Instruction::Dup];
    let mut ctx = Interperter::new(&code, 0);
    assert_eq!(ctx.step(), Err(Error::EmptyStack));
    assert_eq!(ctx.addr(), 0);
    assert!(ctx.stack().is_empty());
}

#[test]
fn stack_shuffles() {
    let code = [push(1), push(2), push(3), Instruction::Swap];
    let mut ctx = Interperter::new(&code, 0);
    for _ in 0..4 {
        ctx.step().unwrap();
    }
    assert_eq!(ctx.stack(), &[v(1), v(3), v(2)]);

    let code = [push(1), push(2), push(3), Instruction::Over];
    let mut ctx = Interperter::new(&code, 0);
    for _ in 0..4 {
        ctx.step().unwrap();
    }
    assert_eq!(ctx.stack(), &[v(1), v(2), v(3), v(2)]);

    let code = [push(1), push(2), push(3), Instruction::Rot];
    let mut ctx = Interperter::new(&code, 0);
    for _ in 0..4 {
        ctx.step().unwrap();
    }
    assert_eq!(ctx.stack(), &[v(2), v(3), v(1)]);

    let code = [push(1), push(2), Instruction::Drop];
    let mut ctx = Interperter::new(&code, 0);
    for _ in 0..3 {
        ctx.step().unwrap();
    }
    assert_eq!(ctx.stack(), &[v(1)]);
}

#[test]
fn shuffles_on_short_stacks_fail() {
    assert_eq!(run_all(&[Instruction::Drop]).0, Err(Error::EmptyStack));
    assert_eq!(run_all(&[push(1), Instruction::Swap]).0, Err(Error::EmptyStack));
    assert_eq!(run_all(&[push(1), Instruction::Over]).0, Err(Error::EmptyStack));
    assert_eq!(run_all(&[push(1), push(2), Instruction::Rot]).0, Err(Error::EmptyStack));
    assert_eq!(run_all(&[Instruction::Dump]).0, Err(Error::EmptyStack));
    assert_eq!(run_all(&[Instruction::Jump]).0, Err(Error::EmptyStack));
    assert_eq!(run_all(&[push(0), Instruction::JumpTruthy]).0, Err(Error::EmptyStack));
    assert_eq!(run_all(&[Instruction::Store]).0, Err(Error::EmptyStack));
}

#[test]
fn square_call_returns_behind_the_call() {
    // 0: jump over the function; 2..: square; 6..: the script.
    let code = [
        push(6),
        Instruction::Jump,
        Instruction::Dup,
        Instruction::Operator(Op::Mul, 2),
        Instruction::Ret,
        Instruction::Halt,
        push(7),
        push(2),
        Instruction::Call,
        Instruction::Dump,
    ];
    let mut ctx = Interperter::new(&code, 0);
    let mut steps = 0;
    while ctx.addr() != 8 {
        assert_eq!(ctx.step(), Ok(Event::Continue));
        steps += 1;
        assert!(steps < 10);
    }
    assert_eq!(ctx.step(), Ok(Event::Continue));
    assert_eq!(ctx.addr(), 2);
    assert_eq!(ctx.calls(), &[9]);
    assert_eq!(ctx.step(), Ok(Event::Continue));
    assert_eq!(ctx.step(), Ok(Event::Continue));
    assert_eq!(ctx.addr(), 4);
    assert_eq!(ctx.step(), Ok(Event::Continue));
    assert_eq!(ctx.addr(), 8 + 1);
    assert!(ctx.calls().is_empty());
    assert_eq!(ctx.step(), Ok(Event::Output(v(49))));
    assert_eq!(ctx.step(), Ok(Event::End));
}

#[test]
fn ret_without_call_fails() {
    assert_eq!(run_all(&[Instruction::Ret]).0, Err(Error::MissingReturnAddress));
}

#[test]
fn nested_calls_return_in_turn() {
    // main at 6 calls outer at 3, which calls inner at 0.
    let code = [
        push(5),
        Instruction::Dump,
        Instruction::Ret,
        push(0),
        Instruction::Call,
        Instruction::Ret,
        push(3),
        Instruction::Call,
        push(6),
        Instruction::Dump,
        Instruction::Halt,
        push(99),
        Instruction::Dump,
    ];
    let mut output = Vec::new();
    assert_eq!(run(&code, 6, 100, &mut output), Ok(()));
    assert_eq!(output, vec![v(5), v(6)]);
}

#[test]
fn jump_out_of_bounds() {
    let code = [push(2), Instruction::Jump];
    assert_eq!(run_all(&code).0, Err(Error::OutOfBoundsJump(2)));
    let code = [push(u64::MAX), Instruction::Call];
    assert_eq!(run_all(&code).0, Err(Error::OutOfBoundsJump(u64::MAX)));
    let code = [push(1), push(7), Instruction::JumpTruthy];
    assert_eq!(run_all(&code).0, Err(Error::OutOfBoundsJump(7)));
}

#[test]
fn conditional_jumps() {
    // condition below the target; both are popped either way.
    let code = [
        push(0),
        push(5),
        Instruction::JumpFalsy,
        push(1),
        Instruction::Dump,
        push(2),
        Instruction::Dump,
    ];
    assert_eq!(run_all(&code), (Ok(()), vec![v(2)]));
    let code = [
        push(9),
        push(5),
        Instruction::JumpFalsy,
        push(1),
        Instruction::Dump,
        push(2),
        Instruction::Dump,
    ];
    assert_eq!(run_all(&code), (Ok(()), vec![v(1), v(2)]));
    let code = [
        push(9),
        push(5),
        Instruction::JumpTruthy,
        push(1),
        Instruction::Dump,
        push(2),
        Instruction::Dump,
    ];
    assert_eq!(run_all(&code), (Ok(()), vec![v(2)]));
    // a branch that is not taken does not look at its target
    let code = [push(0), push(700), Instruction::JumpTruthy, push(3), Instruction::Dump];
    assert_eq!(run_all(&code), (Ok(()), vec![v(3)]));
}

#[test]
fn bindings_shadow_and_come_back() {
    let code = [
        push(1),
        Instruction::Store,
        push(2),
        Instruction::Store,
        Instruction::Load(0),
        Instruction::Dump,
        Instruction::Load(1),
        Instruction::Dump,
        Instruction::Forget,
        Instruction::Load(0),
        Instruction::Dump,
    ];
    assert_eq!(run_all(&code), (Ok(()), vec![v(2), v(1), v(1)]));
    assert_eq!(run_all(&[Instruction::Load(0)]).0, Err(Error::UnboundVariable(0)));
    assert_eq!(
        run_all(&[push(1), Instruction::Store, Instruction::Load(1)]).0,
        Err(Error::UnboundVariable(1))
    );
    assert_eq!(run_all(&[Instruction::Forget]).0, Err(Error::UnboundVariable(0)));
}

#[test]
fn halt_and_end_stop_the_run() {
    let code = [push(1), Instruction::Dump, Instruction::Halt, push(2), Instruction::Dump];
    assert_eq!(run_all(&code), (Ok(()), vec![v(1)]));
    let mut output = Vec::new();
    assert_eq!(run(&code, 5, 10, &mut output), Ok(()));
    assert_eq!(run(&code, 3, 10, &mut output), Ok(()));
    assert_eq!(output, vec![v(2)]);
}

#[test]
fn output_before_a_failure_is_kept() {
    let code = [push(1), Instruction::Dump, Instruction::Drop];
    assert_eq!(run_all(&code), (Err(Error::EmptyStack), vec![v(1)]));
}

#[test]
fn step_limit() {
    let code = [push(0), Instruction::Jump];
    let mut output = Vec::new();
    assert_eq!(run(&code, 0, 1000, &mut output), Err(Error::StepLimit));
    let code = [push(1), Instruction::Dump];
    assert_eq!(run(&code, 0, 1, &mut output), Err(Error::StepLimit));
    assert_eq!(run(&code, 0, 2, &mut output), Err(Error::StepLimit));
    assert_eq!(run(&code, 0, 3, &mut output), Ok(()));
}

#[test]
fn program_needs_an_entry_inside_the_code() {
    assert!(Program::new(vec![Instruction::Halt], 1).is_none());
    assert!(Program::new(vec![], 0).is_none());
    let program = Program::new(vec![push(4), Instruction::Dump], 0).unwrap();
    assert_eq!(program.entrypoint(), 0);
    assert_eq!(program.code(), &[push(4), Instruction::Dump]);
    let mut output = Vec::new();
    assert_eq!(program.run(10, &mut output), Ok(()));
    assert_eq!(output, vec![v(4)]);
}

#[test]
fn interpreter_exposes_its_state() {
    let code = [push(1), Instruction::Store, push(2)];
    let mut ctx = Interperter::new(&code, 0);
    let mut output = Vec::new();
    assert_eq!(ctx.run(10, &mut output), Ok(()));
    assert_eq!(ctx.code(), &code);
    assert_eq!(ctx.addr(), 3);
    assert_eq!(ctx.stack(), &[v(2)]);
    assert_eq!(ctx.bindings(), &[v(1)]);
    assert!(ctx.calls().is_empty());
}
