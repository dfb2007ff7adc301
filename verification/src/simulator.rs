//! The stack machine: values, instructions, and the interpreter that runs them.
//!
//! The machine holds a program counter, an operand stack, a stack of pending
//! return addresses and a stack of variable bindings. What one instruction does
//! is defined by [`step`]; running is repeating it, see [`exec`].
use vstd::prelude::*;

use crate::error::Error;

verus! {

/// The only runtime datum: an unsigned 64-bit integer.
#[derive(Debug, PartialEq, Eq, Structural, PartialOrd, Ord, Clone, Copy)]
pub enum Value {
    U64(u64),
}

impl Value {
    /// The integer that the value holds.
    pub open spec fn raw(self) -> u64 {
        match self {
            Value::U64(n) => n,
        }
    }

    /// Sum, wrapping around at the width of the integer.
    pub fn wrapping_add(self, rhs: Self) -> (sum: Self)
        ensures
            sum == Value::U64(self.raw().wrapping_add(rhs.raw())),
    {
        match self {
            Value::U64(lhs) => match rhs {
                Value::U64(rhs) => Value::U64(lhs.wrapping_add(rhs)),
            },
        }
    }

    /// Difference, wrapping around at the width of the integer.
    pub fn wrapping_sub(self, rhs: Self) -> (difference: Self)
        ensures
            difference == Value::U64(self.raw().wrapping_sub(rhs.raw())),
    {
        match self {
            Value::U64(lhs) => match rhs {
                Value::U64(rhs) => Value::U64(lhs.wrapping_sub(rhs)),
            },
        }
    }

    /// Product, wrapping around at the width of the integer.
    pub fn wrapping_mul(self, rhs: Self) -> (product: Self)
        ensures
            product == Value::U64(self.raw().wrapping_mul(rhs.raw())),
    {
        match self {
            Value::U64(lhs) => match rhs {
                Value::U64(rhs) => Value::U64(lhs.wrapping_mul(rhs)),
            },
        }
    }

    /// Quotient, or nothing where the divisor is zero.
    pub fn checked_div(self, rhs: Self) -> (quotient: Option<Self>)
        ensures
            quotient == if rhs.raw() == 0 {
                None
            } else {
                Some(Value::U64(self.raw() / rhs.raw()))
            },
    {
        match self {
            Value::U64(lhs) => match rhs {
                Value::U64(rhs) => if rhs == 0 {
                    None
                } else {
                    Some(Value::U64(lhs / rhs))
                },
            },
        }
    }

    /// Whether a conditional jump takes the value for true: it is not zero.
    pub fn is_truthy(self) -> (truthy: bool)
        ensures
            truthy == (self.raw() != 0),
    {
        match self {
            Value::U64(n) => n != 0,
        }
    }

    /// Whether a conditional jump takes the value for false: it is zero.
    pub fn is_falsey(self) -> (falsey: bool)
        ensures
            falsey == (self.raw() == 0),
    {
        !self.is_truthy()
    }

    /// The value as the exit code of a process: its lowest eight bits.
    pub fn exit_code(self) -> (code: u8)
        ensures
            code == self.raw() % 256,
    {
        match self {
            Value::U64(n) => (n % 256) as u8,
        }
    }

    /// The integer that the value holds.
    pub fn as_u64(self) -> (n: u64)
        ensures
            n == self.raw(),
    {
        match self {
            Value::U64(n) => n,
        }
    }
}

/// An arithmetic operator.
#[derive(Debug, PartialEq, Eq, Structural, Clone, Copy)]
pub enum Op {
    Add,
    Sub,
    Mul,
    Div,
}

impl Op {
    /// The operator on two operands. Sums, differences and products wrap;
    /// a zero divisor is an error.
    pub open spec fn apply(self, lhs: Value, rhs: Value) -> Result<Value, Error> {
        match self {
            Op::Add => Ok(Value::U64(lhs.raw().wrapping_add(rhs.raw()))),
            Op::Sub => Ok(Value::U64(lhs.raw().wrapping_sub(rhs.raw()))),
            Op::Mul => Ok(Value::U64(lhs.raw().wrapping_mul(rhs.raw()))),
            Op::Div => if rhs.raw() == 0 {
                Err(Error::DivisionByZero)
            } else {
                Ok(Value::U64(lhs.raw() / rhs.raw()))
            },
        }
    }

    /// `((acc op rest[0]) op rest[1]) op ...`, stopping at the first error.
    pub open spec fn fold(self, acc: Value, rest: Seq<Value>) -> Result<Value, Error>
        decreases rest.len(),
    {
        if rest.len() == 0 {
            Ok(acc)
        } else {
            match self.apply(acc, rest[0]) {
                Ok(next) => self.fold(next, rest.skip(1)),
                Err(error) => Err(error),
            }
        }
    }

    /// The operands combined from the first to the last:
    /// `((args[0] op args[1]) op args[2]) op ...`. A single operand is its own
    /// result; no operand is an error.
    pub open spec fn reduce(self, args: Seq<Value>) -> Result<Value, Error> {
        if args.len() == 0 {
            Err(Error::EmptyReduction)
        } else {
            self.fold(args[0], args.skip(1))
        }
    }

    /// Applies the operator to two operands.
    fn combine(&self, lhs: Value, rhs: Value) -> (result: Result<Value, Error>)
        ensures
            result == self.apply(lhs, rhs),
    {
        match self {
            Op::Add => Ok(lhs.wrapping_add(rhs)),
            Op::Sub => Ok(lhs.wrapping_sub(rhs)),
            Op::Mul => Ok(lhs.wrapping_mul(rhs)),
            Op::Div => match lhs.checked_div(rhs) {
                Some(quotient) => Ok(quotient),
                None => Err(Error::DivisionByZero),
            },
        }
    }

    /// Combines the operands from the first to the last.
    pub fn compute(&self, args: &[Value]) -> (result: Result<Value, Error>)
        ensures
            result == self.reduce(args@),
    {
        if args.len() == 0 {
            return Err(Error::EmptyReduction);
        }
        let mut acc = args[0];
        let mut i: usize = 1;
        while i < args.len()
            invariant
                1 <= i <= args.len(),
                self.reduce(args@) == self.fold(acc, args@.skip(i as int)),
            decreases args.len() - i,
        {
            proof {
                assert(args@.skip(i as int).skip(1) =~= args@.skip(i as int + 1));
            }
            match self.combine(acc, args[i]) {
                Ok(next) => {
                    acc = next;
                },
                Err(error) => {
                    return Err(error);
                },
            }
            i += 1;
        }
        Ok(acc)
    }
}

/// One unit of bytecode.
#[derive(Debug, PartialEq, Eq, Structural, Clone, Copy)]
pub enum Instruction {
    /// Push a literal.
    Push(Value),
    /// Pop that many operands, combine them, push the result.
    Operator(Op, usize),
    /// Pop a target address, remember where to return to, jump to the target.
    Call,
    /// Jump to the most recent return address and forget it.
    Ret,
    /// Pop a target address and jump to it.
    Jump,
    /// Pop a target address and a condition; jump if the condition is not zero.
    JumpTruthy,
    /// Pop a target address and a condition; jump if the condition is zero.
    JumpFalsy,
    /// Duplicate the top of the stack.
    Dup,
    /// Discard the top of the stack.
    Drop,
    /// Exchange the two topmost values.
    Swap,
    /// Copy the second value from the top onto the top.
    Over,
    /// Move the third value from the top onto the top.
    Rot,
    /// Pop a value and bind it as the most recent variable.
    Store,
    /// Push the variable that many bindings below the most recent one.
    Load(usize),
    /// Drop the most recent variable binding.
    Forget,
    /// Pop a value and emit it as output.
    Dump,
    /// Stop.
    Halt,
}

/// What the machine holds between two instructions.
pub struct State {
    /// The address of the next instruction.
    pub pc: usize,
    /// The operand stack; its top is the last element.
    pub stack: Seq<Value>,
    /// The pending return addresses, the most recent last.
    pub calls: Seq<usize>,
    /// The variable bindings, the most recent last.
    pub env: Seq<Value>,
}

/// What one instruction did besides changing the machine.
#[derive(Debug, PartialEq, Eq, Structural, Clone, Copy)]
pub enum Event {
    /// Nothing to observe; the machine goes on.
    Continue,
    /// The program emitted a value; the machine goes on.
    Output(Value),
    /// `Halt` ran.
    Halt,
    /// The program counter stands past the end of the code.
    End,
}

impl State {
    /// The state in which a run begins at `entry`.
    pub open spec fn start(entry: usize) -> State {
        State { pc: entry, stack: Seq::empty(), calls: Seq::empty(), env: Seq::empty() }
    }

    /// The value `depth` places below the top of the stack.
    pub open spec fn peek(self, depth: int) -> Value {
        self.stack[self.stack.len() - 1 - depth]
    }

    /// The topmost `n` values in the order in which popping yields them.
    pub open spec fn top(self, n: nat) -> Seq<Value> {
        Seq::new(n, |i: int| self.peek(i))
    }

    /// The stack without its topmost `n` values.
    pub open spec fn without(self, n: nat) -> Seq<Value> {
        self.stack.take(self.stack.len() - n)
    }

    /// The same machine with another stack, one instruction further.
    pub open spec fn next(self, stack: Seq<Value>) -> State {
        State { pc: (self.pc + 1) as usize, stack, ..self }
    }

    /// The same machine with another stack, at the address that `target`
    /// names; an error where that address is outside the code.
    pub open spec fn jump(self, code_len: nat, target: Value, stack: Seq<Value>) -> Result<
        State,
        Error,
    > {
        if target.raw() < code_len {
            Ok(State { pc: target.raw() as usize, stack, ..self })
        } else {
            Err(Error::OutOfBoundsJump(target.raw()))
        }
    }
}

/// The effect of the instruction at `state.pc`: the state that follows and what
/// was observed, or the error that stops the run.
///
/// While an instruction runs, the program counter already names its successor,
/// so `Call` records the address after itself.
pub open spec fn step(code: Seq<Instruction>, state: State) -> Result<(State, Event), Error> {
    if state.pc >= code.len() {
        Ok((state, Event::End))
    } else {
        let depth = state.stack.len();
        match code[state.pc as int] {
            Instruction::Push(value) => Ok((state.next(state.stack.push(value)), Event::Continue)),
            Instruction::Operator(op, arity) => if depth < arity {
                Err(Error::ArityMismatch { expected: arity, actual: depth as usize })
            } else {
                match op.reduce(state.top(arity as nat)) {
                    Ok(value) => Ok(
                        (state.next(state.without(arity as nat).push(value)), Event::Continue),
                    ),
                    Err(error) => Err(error),
                }
            },
            Instruction::Call => if depth < 1 {
                Err(Error::EmptyStack)
            } else {
                match state.jump(code.len(), state.peek(0), state.without(1)) {
                    Ok(landed) => Ok(
                        (
                            State { calls: state.calls.push((state.pc + 1) as usize), ..landed },
                            Event::Continue,
                        ),
                    ),
                    Err(error) => Err(error),
                }
            },
            Instruction::Ret => if state.calls.len() < 1 {
                Err(Error::MissingReturnAddress)
            } else {
                Ok(
                    (
                        State {
                            pc: state.calls.last(),
                            calls: state.calls.drop_last(),
                            ..state
                        },
                        Event::Continue,
                    ),
                )
            },
            Instruction::Jump => if depth < 1 {
                Err(Error::EmptyStack)
            } else {
                match state.jump(code.len(), state.peek(0), state.without(1)) {
                    Ok(landed) => Ok((landed, Event::Continue)),
                    Err(error) => Err(error),
                }
            },
            Instruction::JumpTruthy => if depth < 2 {
                Err(Error::EmptyStack)
            } else if state.peek(1).raw() != 0 {
                match state.jump(code.len(), state.peek(0), state.without(2)) {
                    Ok(landed) => Ok((landed, Event::Continue)),
                    Err(error) => Err(error),
                }
            } else {
                Ok((state.next(state.without(2)), Event::Continue))
            },
            Instruction::JumpFalsy => if depth < 2 {
                Err(Error::EmptyStack)
            } else if state.peek(1).raw() == 0 {
                match state.jump(code.len(), state.peek(0), state.without(2)) {
                    Ok(landed) => Ok((landed, Event::Continue)),
                    Err(error) => Err(error),
                }
            } else {
                Ok((state.next(state.without(2)), Event::Continue))
            },
            Instruction::Dup => if depth < 1 {
                Err(Error::EmptyStack)
            } else {
                Ok((state.next(state.stack.push(state.peek(0))), Event::Continue))
            },
            Instruction::Drop => if depth < 1 {
                Err(Error::EmptyStack)
            } else {
                Ok((state.next(state.without(1)), Event::Continue))
            },
            Instruction::Swap => if depth < 2 {
                Err(Error::EmptyStack)
            } else {
                Ok(
                    (
                        state.next(state.without(2).push(state.peek(0)).push(state.peek(1))),
                        Event::Continue,
                    ),
                )
            },
            Instruction::Over => if depth < 2 {
                Err(Error::EmptyStack)
            } else {
                Ok((state.next(state.stack.push(state.peek(1))), Event::Continue))
            },
            Instruction::Rot => if depth < 3 {
                Err(Error::EmptyStack)
            } else {
                Ok(
                    (
                        state.next(
                            state.without(3).push(state.peek(1)).push(state.peek(0)).push(
                                state.peek(2),
                            ),
                        ),
                        Event::Continue,
                    ),
                )
            },
            Instruction::Store => if depth < 1 {
                Err(Error::EmptyStack)
            } else {
                Ok(
                    (
                        State { env: state.env.push(state.peek(0)), ..state.next(state.without(1)) },
                        Event::Continue,
                    ),
                )
            },
            Instruction::Load(index) => if index >= state.env.len() {
                Err(Error::UnboundVariable(index))
            } else {
                Ok(
                    (
                        state.next(state.stack.push(state.env[state.env.len() - 1 - index])),
                        Event::Continue,
                    ),
                )
            },
            Instruction::Forget => if state.env.len() < 1 {
                Err(Error::UnboundVariable(0))
            } else {
                Ok(
                    (
                        State { env: state.env.drop_last(), ..state.next(state.stack) },
                        Event::Continue,
                    ),
                )
            },
            Instruction::Dump => if depth < 1 {
                Err(Error::EmptyStack)
            } else {
                Ok((state.next(state.without(1)), Event::Output(state.peek(0))))
            },
            Instruction::Halt => Ok((state.next(state.stack), Event::Halt)),
        }
    }
}

/// Whether a run goes on, has stopped, or has failed.
pub enum Status {
    Running,
    Stopped,
    Failed(Error),
}

/// A run so far: the machine, what it has emitted, and whether it goes on.
pub struct Trace {
    pub state: State,
    pub output: Seq<Value>,
    pub status: Status,
}

impl Trace {
    /// A run that has not begun, from the given state.
    pub open spec fn start(state: State) -> Trace {
        Trace { state, output: Seq::empty(), status: Status::Running }
    }

    /// What a run that ends here reports: success once the program has
    /// stopped, its error if it failed, and the spent budget otherwise.
    pub open spec fn result(self) -> Result<(), Error> {
        match self.status {
            Status::Running => Err(Error::StepLimit),
            Status::Stopped => Ok(()),
            Status::Failed(error) => Err(error),
        }
    }
}

/// The run one instruction later. A run that has stopped or failed stays as it
/// is; a failing instruction leaves the machine untouched.
pub open spec fn advance(code: Seq<Instruction>, trace: Trace) -> Trace {
    match trace.status {
        Status::Running => match step(code, trace.state) {
            Ok((state, Event::Continue)) => Trace { state, ..trace },
            Ok((state, Event::Output(value))) => Trace {
                state,
                output: trace.output.push(value),
                ..trace
            },
            Ok((state, Event::Halt)) => Trace { state, status: Status::Stopped, ..trace },
            Ok((state, Event::End)) => Trace { state, status: Status::Stopped, ..trace },
            Err(error) => Trace { status: Status::Failed(error), ..trace },
        },
        _ => trace,
    }
}

/// The run `steps` instructions later.
pub open spec fn exec(code: Seq<Instruction>, trace: Trace, steps: nat) -> Trace
    decreases steps,
{
    if steps == 0 {
        trace
    } else {
        exec(code, advance(code, trace), (steps - 1) as nat)
    }
}

/// A run that has stopped or failed does not change any more.
pub proof fn lemma_exec_settled(code: Seq<Instruction>, trace: Trace, steps: nat)
    requires
        !(trace.status is Running),
    ensures
        exec(code, trace, steps) == trace,
    decreases steps,
{
    if steps > 0 {
        lemma_exec_settled(code, trace, (steps - 1) as nat);
    }
}

/// Running `first + second` instructions is running `first` and then `second`.
pub proof fn lemma_exec_split(code: Seq<Instruction>, trace: Trace, first: nat, second: nat)
    ensures
        exec(code, trace, first + second) == exec(code, exec(code, trace, first), second),
    decreases first,
{
    if first > 0 {
        lemma_exec_split(code, advance(code, trace), (first - 1) as nat, second);
    }
}

/// Running one more instruction is advancing the run once more.
pub proof fn lemma_exec_next(code: Seq<Instruction>, trace: Trace, steps: nat)
    ensures
        exec(code, trace, steps + 1) == advance(code, exec(code, trace, steps)),
{
    lemma_exec_split(code, trace, steps, 1);
    assert(exec(code, exec(code, trace, steps), 1) == advance(code, exec(code, trace, steps))) by {
        reveal_with_fuel(exec, 2);
    }
}


/// `Dup` followed by `Drop` leaves a machine whose stack is not empty as it
/// was, but for the program counter, which stands behind the pair.
pub proof fn lemma_dup_drop_identity(code: Seq<Instruction>, trace: Trace)
    requires
        code.len() <= usize::MAX,
        trace.status is Running,
        trace.state.stack.len() > 0,
        trace.state.pc + 2 <= code.len(),
        code[trace.state.pc as int] == Instruction::Dup,
        code[trace.state.pc + 1] == Instruction::Drop,
    ensures
        exec(code, trace, 2) == (Trace {
            state: State { pc: (trace.state.pc + 2) as usize, ..trace.state },
            ..trace
        }),
{
    let state = trace.state;
    let duplicated = state.next(state.stack.push(state.peek(0)));
    assert(step(code, state) == Ok::<(State, Event), Error>((duplicated, Event::Continue)));
    assert(duplicated.without(1) =~= state.stack);
    assert(step(code, duplicated) == Ok::<(State, Event), Error>(
        (State { pc: (state.pc + 2) as usize, ..state }, Event::Continue),
    ));
    reveal_with_fuel(exec, 3);
}

/// Running `Dup`, `Drop` twice in a row is as good as running neither: the
/// stacks, the bindings and the output are what they were, and the program
/// counter stands behind the four instructions.
pub proof fn lemma_dup_drop_twice_identity(code: Seq<Instruction>, trace: Trace)
    requires
        code.len() <= usize::MAX,
        trace.status is Running,
        trace.state.stack.len() > 0,
        trace.state.pc + 4 <= code.len(),
        code[trace.state.pc as int] == Instruction::Dup,
        code[trace.state.pc + 1] == Instruction::Drop,
        code[trace.state.pc + 2] == Instruction::Dup,
        code[trace.state.pc + 3] == Instruction::Drop,
    ensures
        exec(code, trace, 4) == (Trace {
            state: State { pc: (trace.state.pc + 4) as usize, ..trace.state },
            ..trace
        }),
{
    lemma_dup_drop_identity(code, trace);
    lemma_dup_drop_identity(code, exec(code, trace, 2));
    lemma_exec_split(code, trace, 2, 2);
}

/// A `Ret` that finds the call stack as a `Call` left it continues at the
/// instruction after that `Call` and restores the call stack of before the
/// call, whatever ran in between.
pub proof fn lemma_ret_resumes_after_call(
    code: Seq<Instruction>,
    caller: State,
    callee: State,
    returning: State,
)
    requires
        code.len() <= usize::MAX,
        caller.pc < code.len(),
        code[caller.pc as int] == Instruction::Call,
        step(code, caller) == Ok::<(State, Event), Error>((callee, Event::Continue)),
        returning.pc < code.len(),
        code[returning.pc as int] == Instruction::Ret,
        returning.calls == callee.calls,
    ensures
        callee.pc == caller.peek(0).raw(),
        callee.stack == caller.without(1),
        step(code, returning) == Ok::<(State, Event), Error>(
            (
                State { pc: (caller.pc + 1) as usize, calls: caller.calls, ..returning },
                Event::Continue,
            ),
        ),
{
    assert(callee.calls == caller.calls.push((caller.pc + 1) as usize));
    assert(returning.calls.drop_last() =~= caller.calls);
}

/// Dividing by zero is an error of its own: `Operator(Div, 2)` on a stack
/// whose second value from the top is zero fails with `DivisionByZero`.
pub proof fn lemma_division_by_zero(code: Seq<Instruction>, state: State)
    requires
        state.pc < code.len(),
        code[state.pc as int] == Instruction::Operator(Op::Div, 2),
        state.stack.len() >= 2,
        state.peek(1).raw() == 0,
    ensures
        step(code, state) == Err::<(State, Event), Error>(Error::DivisionByZero),
{
    let args = state.top(2);
    assert(args.skip(1)[0] == state.peek(1));
    reveal_with_fuel(Op::fold, 2);
}

/// A jump or a call to an address that is not inside the code fails with
/// `OutOfBoundsJump` and that address.
pub proof fn lemma_jump_out_of_bounds(code: Seq<Instruction>, state: State)
    requires
        state.pc < code.len(),
        code[state.pc as int] == Instruction::Jump || code[state.pc as int] == Instruction::Call,
        state.stack.len() >= 1,
        state.peek(0).raw() >= code.len(),
    ensures
        step(code, state) == Err::<(State, Event), Error>(
            Error::OutOfBoundsJump(state.peek(0).raw()),
        ),
{
}

/// A variable lives from its `Store` to its `Forget`: `Store` binds the top
/// of the stack, `Load(0)` reads it back, and `Forget` leaves the bindings as
/// they were before the `Store`, whatever they held.
pub proof fn lemma_store_load_forget(code: Seq<Instruction>, trace: Trace)
    requires
        code.len() <= usize::MAX,
        trace.status is Running,
        trace.state.stack.len() > 0,
        trace.state.pc + 3 <= code.len(),
        code[trace.state.pc as int] == Instruction::Store,
        code[trace.state.pc + 1] == Instruction::Load(0),
        code[trace.state.pc + 2] == Instruction::Forget,
    ensures
        exec(code, trace, 3) == (Trace {
            state: State { pc: (trace.state.pc + 3) as usize, ..trace.state },
            ..trace
        }),
{
    let state = trace.state;
    let value = state.peek(0);
    let stored = State { env: state.env.push(value), ..state.next(state.without(1)) };
    assert(step(code, state) == Ok::<(State, Event), Error>((stored, Event::Continue)));
    let loaded = stored.next(stored.stack.push(value));
    assert(step(code, stored) == Ok::<(State, Event), Error>((loaded, Event::Continue)));
    assert(loaded.stack =~= state.stack);
    assert(loaded.env.drop_last() =~= state.env);
    assert(step(code, loaded) == Ok::<(State, Event), Error>(
        (State { pc: (state.pc + 3) as usize, ..state }, Event::Continue),
    ));
    reveal_with_fuel(exec, 4);
}

/// The interpreter: the code it runs and the machine it drives.
#[derive(Debug)]
pub struct Interperter<'a> {
    code: &'a [Instruction],
    addr: usize,
    stack: Vec<Value>,
    calls: Vec<usize>,
    env: Vec<Value>,
}

impl<'a> View for Interperter<'a> {
    type V = State;

    closed spec fn view(&self) -> State {
        State { pc: self.addr, stack: self.stack@, calls: self.calls@, env: self.env@ }
    }
}

impl<'a> Interperter<'a> {
    /// The code that the interpreter runs.
    pub closed spec fn program(&self) -> Seq<Instruction> {
        self.code@
    }

    /// An interpreter about to run `code` from `addr`, with nothing on its
    /// stacks.
    pub fn new(code: &'a [Instruction], addr: usize) -> (ctx: Self)
        ensures
            ctx.program() == code@,
            ctx@ == State::start(addr),
    {
        Self { code, addr, stack: Vec::new(), calls: Vec::new(), env: Vec::new() }
    }

    /// The code that the interpreter runs.
    pub fn code(&self) -> (code: &[Instruction])
        ensures
            code@ == self.program(),
    {
        self.code
    }

    /// The address of the next instruction.
    pub fn addr(&self) -> (addr: usize)
        ensures
            addr == self@.pc,
    {
        self.addr
    }

    /// The operand stack, its top last.
    pub fn stack(&self) -> (stack: &[Value])
        ensures
            stack@ == self@.stack,
    {
        self.stack.as_slice()
    }

    /// The pending return addresses, the most recent last.
    pub fn calls(&self) -> (calls: &[usize])
        ensures
            calls@ == self@.calls,
    {
        self.calls.as_slice()
    }

    /// The variable bindings, the most recent last.
    pub fn bindings(&self) -> (bindings: &[Value])
        ensures
            bindings@ == self@.env,
    {
        self.env.as_slice()
    }

    /// The instructions from the next one on, `size` of them or as many as
    /// there are: what a display of `size` lines shows of the code.
    pub fn page(&self, size: usize) -> (page: &[Instruction])
        ensures
            ({
                let len = self.program().len() as int;
                let from = if self@.pc <= len {
                    self@.pc as int
                } else {
                    len
                };
                let to = if len - from <= size {
                    len
                } else {
                    from + size
                };
                page@ == self.program().subrange(from, to)
            }),
    {
        let len = self.code.len();
        let from = if self.addr <= len {
            self.addr
        } else {
            len
        };
        let to = if len - from <= size {
            len
        } else {
            from + size
        };
        vstd::slice::slice_subrange(self.code, from, to)
    }

    /// The instruction that runs next, if the program counter is inside the
    /// code.
    fn get(&self) -> (fetched: Option<Instruction>)
        ensures
            fetched == if self@.pc < self.program().len() {
                Some(self.program()[self@.pc as int])
            } else {
                None
            },
            fetched is Some ==> self@.pc < usize::MAX,
    {
        if self.addr < self.code.len() {
            Some(self.code[self.addr])
        } else {
            None
        }
    }

    /// Pushes a value onto the operand stack.
    fn push(&mut self, value: Value)
        ensures
            final(self).program() == old(self).program(),
            final(self)@ == (State { stack: old(self)@.stack.push(value), ..old(self)@ }),
    {
        self.stack.push(value);
    }

    /// Takes the top of the operand stack.
    fn pop(&mut self) -> (result: Result<Value, Error>)
        ensures
            final(self).program() == old(self).program(),
            match result {
                Ok(value) => {
                    &&& old(self)@.stack.len() >= 1
                    &&& value == old(self)@.peek(0)
                    &&& final(self)@ == (State { stack: old(self)@.without(1), ..old(self)@ })
                },
                Err(error) => {
                    &&& old(self)@.stack.len() == 0
                    &&& error == Error::EmptyStack
                    &&& final(self)@ == old(self)@
                },
            },
    {
        match self.stack.pop() {
            Some(value) => {
                assert(self.stack@ =~= old(self)@.without(1));
                Ok(value)
            },
            None => Err(Error::EmptyStack),
        }
    }

    /// Discards the topmost `n` values of the operand stack.
    fn popn(&mut self, n: usize)
        requires
            n <= old(self)@.stack.len(),
        ensures
            final(self).program() == old(self).program(),
            final(self)@ == (State { stack: old(self)@.without(n as nat), ..old(self)@ }),
    {
        let keep = self.stack.len() - n;
        self.stack.truncate(keep);
    }

    /// The value `depth` places below the top of the operand stack.
    fn peek(&self, depth: usize) -> (value: Value)
        requires
            depth < self@.stack.len(),
        ensures
            value == self@.peek(depth as int),
    {
        self.stack[self.stack.len() - 1 - depth]
    }

    /// That at least `n` values are on the operand stack.
    fn need(&self, n: usize) -> (result: Result<(), Error>)
        ensures
            result == if self@.stack.len() < n {
                Err::<(), Error>(Error::EmptyStack)
            } else {
                Ok(())
            },
    {
        if self.stack.len() < n {
            Err(Error::EmptyStack)
        } else {
            Ok(())
        }
    }

    /// The topmost `n` values in the order in which popping yields them.
    fn top(&self, n: usize) -> (values: Vec<Value>)
        requires
            n <= self@.stack.len(),
        ensures
            values@ == self@.top(n as nat),
    {
        let mut values: Vec<Value> = Vec::with_capacity(n);
        let mut i: usize = 0;
        while i < n
            invariant
                i <= n <= self@.stack.len(),
                values@ == self@.top(i as nat),
            decreases n - i,
        {
            values.push(self.peek(i));
            i += 1;
            assert(values@ =~= self@.top(i as nat));
        }
        values
    }

    /// Replaces the topmost `drop` values by nothing and continues at the
    /// address that `target` names, if it is inside the code.
    fn land(&mut self, target: Value, drop: usize) -> (result: Result<(), Error>)
        requires
            drop <= old(self)@.stack.len(),
        ensures
            final(self).program() == old(self).program(),
            match old(self)@.jump(
                old(self).program().len(),
                target,
                old(self)@.without(drop as nat),
            ) {
                Ok(landed) => result == Ok::<(), Error>(()) && final(self)@ == landed,
                Err(error) => result == Err::<(), Error>(error) && final(self)@ == old(self)@,
            },
    {
        let addr = target.as_u64();
        if addr >= self.code.len() as u64 {
            return Err(Error::OutOfBoundsJump(addr));
        }
        self.popn(drop);
        self.addr = addr as usize;
        Ok(())
    }

    /// Takes the address on top of the operand stack and continues there:
    /// what `Jump` does. An empty stack and an address outside the code are
    /// errors, and they leave the machine as it was.
    pub fn jump(&mut self) -> (result: Result<(), Error>)
        ensures
            final(self).program() == old(self).program(),
            if old(self)@.stack.len() == 0 {
                result == Err::<(), Error>(Error::EmptyStack) && final(self)@ == old(self)@
            } else if old(self)@.peek(0).raw() < old(self).program().len() {
                &&& result == Ok::<(), Error>(())
                &&& final(self)@ == (State {
                    pc: old(self)@.peek(0).raw() as usize,
                    stack: old(self)@.without(1),
                    ..old(self)@
                })
            } else {
                &&& result == Err::<(), Error>(Error::OutOfBoundsJump(old(self)@.peek(0).raw()))
                &&& final(self)@ == old(self)@
            },
    {
        self.need(1)?;
        let target = self.peek(0);
        self.land(target, 1)
    }

    /// Duplicates the top of the operand stack: what `Dup` does to the
    /// stack. On an empty stack it fails and changes nothing.
    pub fn dup(&mut self) -> (result: Result<(), Error>)
        ensures
            final(self).program() == old(self).program(),
            if old(self)@.stack.len() >= 1 {
                &&& result == Ok::<(), Error>(())
                &&& final(self)@ == (State {
                    stack: old(self)@.stack.push(old(self)@.stack.last()),
                    ..old(self)@
                })
            } else {
                result == Err::<(), Error>(Error::EmptyStack) && final(self)@ == old(self)@
            },
    {
        match self.pick(0) {
            Ok(_) => {
                assert(old(self)@.peek(0) == old(self)@.stack.last());
                Ok(())
            },
            Err(error) => Err(error),
        }
    }

    /// Duplicates the value `depth` places below the top onto the top.
    fn pick(&mut self, depth: usize) -> (result: Result<(), Error>)
        ensures
            final(self).program() == old(self).program(),
            match result {
                Ok(_) => {
                    &&& depth < old(self)@.stack.len()
                    &&& final(self)@ == (State {
                        stack: old(self)@.stack.push(old(self)@.peek(depth as int)),
                        ..old(self)@
                    })
                },
                Err(error) => {
                    &&& depth >= old(self)@.stack.len()
                    &&& error == Error::EmptyStack
                    &&& final(self)@ == old(self)@
                },
            },
    {
        if depth >= self.stack.len() {
            return Err(Error::EmptyStack);
        }
        let value = self.peek(depth);
        self.push(value);
        Ok(())
    }

    /// Runs one instruction. A failing instruction leaves the machine as it
    /// was.
    pub fn step(&mut self) -> (result: Result<Event, Error>)
        ensures
            final(self).program() == old(self).program(),
            match step(old(self).program(), old(self)@) {
                Ok((state, event)) => result == Ok::<Event, Error>(event) && final(self)@ == state,
                Err(error) => result == Err::<Event, Error>(error) && final(self)@ == old(self)@,
            },
    {
        let instruction = match self.get() {
            Some(instruction) => instruction,
            None => {
                return Ok(Event::End);
            },
        };
        let mut event = Event::Continue;
        match instruction {
            Instruction::Push(value) => {
                self.push(value);
                self.addr += 1;
            },
            Instruction::Operator(operator, argc) => {
                if self.stack.len() < argc {
                    return Err(Error::ArityMismatch { expected: argc, actual: self.stack.len() });
                }
                let args = self.top(argc);
                let value = operator.compute(args.as_slice())?;
                self.popn(argc);
                self.push(value);
                self.addr += 1;
            },
            Instruction::Call => {
                let back = self.addr + 1;
                self.jump()?;
                self.calls.push(back);
            },
            Instruction::Ret => {
                match self.calls.pop() {
                    Some(back) => {
                        self.addr = back;
                    },
                    None => {
                        return Err(Error::MissingReturnAddress);
                    },
                }
            },
            Instruction::Jump => {
                self.jump()?;
            },
            Instruction::JumpTruthy => {
                self.need(2)?;
                if self.peek(1).is_truthy() {
                    self.land(self.peek(0), 2)?;
                } else {
                    self.popn(2);
                    self.addr += 1;
                }
            },
            Instruction::JumpFalsy => {
                self.need(2)?;
                if self.peek(1).is_falsey() {
                    self.land(self.peek(0), 2)?;
                } else {
                    self.popn(2);
                    self.addr += 1;
                }
            },
            Instruction::Dup => {
                self.dup()?;
                self.addr += 1;
            },
            Instruction::Drop => {
                self.pop()?;
                self.addr += 1;
            },
            Instruction::Swap => {
                self.need(2)?;
                let upper = self.peek(0);
                let lower = self.peek(1);
                self.popn(2);
                self.push(upper);
                self.push(lower);
                self.addr += 1;
            },
            Instruction::Over => {
                self.need(2)?;
                self.pick(1)?;
                self.addr += 1;
            },
            Instruction::Rot => {
                self.need(3)?;
                let first = self.peek(0);
                let second = self.peek(1);
                let third = self.peek(2);
                self.popn(3);
                self.push(second);
                self.push(first);
                self.push(third);
                self.addr += 1;
            },
            Instruction::Store => {
                let value = self.pop()?;
                self.env.push(value);
                self.addr += 1;
            },
            Instruction::Load(index) => {
                if index >= self.env.len() {
                    return Err(Error::UnboundVariable(index));
                }
                let value = self.env[self.env.len() - 1 - index];
                self.push(value);
                self.addr += 1;
            },
            Instruction::Forget => {
                match self.env.pop() {
                    Some(_) => {},
                    None => {
                        return Err(Error::UnboundVariable(0));
                    },
                }
                self.addr += 1;
            },
            Instruction::Dump => {
                let value = self.pop()?;
                event = Event::Output(value);
                self.addr += 1;
            },
            Instruction::Halt => {
                event = Event::Halt;
                self.addr += 1;
            },
        }
        Ok(event)
    }

    /// Runs until the program stops or fails, for at most `limit`
    /// instructions, and appends what it emits to `output`.
    pub fn run(&mut self, limit: usize, output: &mut Vec<Value>) -> (result: Result<(), Error>)
        ensures
            final(self).program() == old(self).program(),
            ({
                let trace = exec(old(self).program(), Trace::start(old(self)@), limit as nat);
                &&& result == trace.result()
                &&& final(self)@ == trace.state
                &&& final(output)@ == old(output)@ + trace.output
            }),
    {
        let ghost code = self.program();
        let ghost start = Trace::start(self@);
        let ghost before = output@;
        let mut steps: usize = 0;
        assert(output@ =~= before + start.output);
        while steps < limit
            invariant
                steps <= limit,
                code == old(self).program(),
                start == Trace::start(old(self)@),
                before == old(output)@,
                self.program() == code,
                exec(code, start, steps as nat).status is Running,
                exec(code, start, steps as nat).state == self@,
                output@ == before + exec(code, start, steps as nat).output,
            decreases limit - steps,
        {
            let ghost here = exec(code, start, steps as nat);
            proof {
                lemma_exec_next(code, start, steps as nat);
                lemma_exec_split(code, start, (steps + 1) as nat, (limit - steps - 1) as nat);
            }
            match self.step() {
                Ok(Event::Continue) => {},
                Ok(Event::Output(value)) => {
                    output.push(value);
                    assert(output@ =~= before + here.output.push(value));
                },
                Ok(Event::Halt) => {
                    proof {
                        lemma_exec_settled(
                            code,
                            advance(code, here),
                            (limit - steps - 1) as nat,
                        );
                    }
                    return Ok(());
                },
                Ok(Event::End) => {
                    proof {
                        lemma_exec_settled(
                            code,
                            advance(code, here),
                            (limit - steps - 1) as nat,
                        );
                    }
                    return Ok(());
                },
                Err(error) => {
                    proof {
                        lemma_exec_settled(
                            code,
                            advance(code, here),
                            (limit - steps - 1) as nat,
                        );
                    }
                    return Err(error);
                },
            }
            steps += 1;
        }
        Err(Error::StepLimit)
    }
}

/// Runs `bytecode` from `entry` until it stops or fails, for at most `limit`
/// instructions, and appends what it emits to `output`.
///
/// Reaching the end of the code and running `Halt` both end the run with
/// success; a run that is still going on when the budget is spent ends with
/// [`Error::StepLimit`].
pub fn run(bytecode: &[Instruction], entry: usize, limit: usize, output: &mut Vec<Value>) -> (result:
    Result<(), Error>)
    ensures
        ({
            let trace = exec(bytecode@, Trace::start(State::start(entry)), limit as nat);
            &&& result == trace.result()
            &&& final(output)@ == old(output)@ + trace.output
        }),
{
    let mut ctx = Interperter::new(bytecode, entry);
    ctx.run(limit, output)
}

/// Linked bytecode and the address at which it starts.
#[derive(Debug)]
pub struct Program {
    code: Vec<Instruction>,
    entrypoint: usize,
}

/// A [`Program`] as plain values.
pub struct ProgramView {
    pub code: Seq<Instruction>,
    pub entrypoint: usize,
}

impl View for Program {
    type V = ProgramView;

    closed spec fn view(&self) -> ProgramView {
        ProgramView { code: self.code@, entrypoint: self.entrypoint }
    }
}

impl Program {
    #[verifier::type_invariant]
    spec fn well_formed(self) -> bool {
        self.entrypoint < self.code.len()
    }

    /// A program that starts at `entrypoint`, if that address is inside
    /// `code`.
    pub fn new(code: Vec<Instruction>, entrypoint: usize) -> (program: Option<Program>)
        ensures
            match program {
                Some(program) => {
                    &&& entrypoint < code.len()
                    &&& program@ == (ProgramView { code: code@, entrypoint })
                },
                None => entrypoint >= code.len(),
            },
    {
        if entrypoint < code.len() {
            Some(Program { code, entrypoint })
        } else {
            None
        }
    }

    /// The instructions.
    pub fn code(&self) -> (code: &[Instruction])
        ensures
            code@ == self@.code,
    {
        self.code.as_slice()
    }

    /// The address at which a run begins; it is inside the code.
    pub fn entrypoint(&self) -> (entrypoint: usize)
        ensures
            entrypoint == self@.entrypoint,
            entrypoint < self@.code.len(),
    {
        proof {
            use_type_invariant(self);
        }
        self.entrypoint
    }

    /// Runs the program, as [`run`] does.
    pub fn run(&self, limit: usize, output: &mut Vec<Value>) -> (result: Result<(), Error>)
        ensures
            ({
                let trace = exec(
                    self@.code,
                    Trace::start(State::start(self@.entrypoint)),
                    limit as nat,
                );
                &&& result == trace.result()
                &&& final(output)@ == old(output)@ + trace.output
            }),
    {
        run(self.code.as_slice(), self.entrypoint, limit, output)
    }
}

} // verus!
