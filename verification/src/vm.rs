//! The virtual machine: a stack of values and a program that it drains.
//!
//! The machine moves numbers and never computes with them. Where an
//! instruction needs arithmetic or output, `step` hands the operands to its
//! caller and stops; the caller does the work, pushes what arithmetic gave,
//! and steps again. `run` is that loop, with the arithmetic handed in as a
//! function and the output collected.

use crate::instr::{arith_of, symbol_of, ArithOp, Instr};
use crate::value::Value;
use vstd::prelude::*;

verus! {

/// A failure of the machine.
#[derive(Debug, PartialEq)]
pub enum RuntimeError<N> {
    /// An arithmetic instruction found an operand that is no number. `b` was
    /// on top of `a`, and `op` is the sign of the operator.
    InvalidBinaryOp { a: Value<N>, b: Value<N>, op: String },
    /// An instruction needed a value and the stack was empty.
    EmptyPop,
}

/// What `step` asks of its caller when it returns.
#[derive(Clone, Copy, Debug, PartialEq)]
pub enum Request<N> {
    /// The program is exhausted: nothing is left to do.
    Finished,
    /// `PrintLn` popped this value: write it out on a line, then run on.
    Print(Value<N>),
    /// An arithmetic instruction popped `b`, then `a`: push `a op b` as a
    /// number, then run on.
    Apply { op: ArithOp, a: N, b: N },
}

/// How a step stops, as contracts see it.
#[allow(inconsistent_fields)]
pub enum Stop<N> {
    Finished,
    Print(Value<N>),
    Apply { op: ArithOp, a: N, b: N },
    EmptyPop,
    InvalidBinaryOp { a: Value<N>, b: Value<N>, op: ArithOp },
}

/// Where a step leaves the machine, and how it stopped.
pub struct Outcome<N> {
    pub stack: Seq<Value<N>>,
    pub program: Seq<Instr<N>>,
    pub stop: Stop<N>,
}

/// A failed step: the program is dropped.
pub open spec fn failed<N>(stack: Seq<Value<N>>, stop: Stop<N>) -> Outcome<N> {
    Outcome { stack, program: Seq::empty(), stop }
}

/// One step of `program` on `stack`, the top of the stack being its last
/// element: as far as the machine gets without its caller.
///
/// `True`, `False` and `Push` push and go on. `Pop` drops the top and goes
/// on. `PrintLn` pops the top and stops to have it printed. An arithmetic
/// instruction pops `b`, then `a`, and stops to have `a op b` computed, or
/// fails where one of them is no number. Any pop from an empty stack fails.
/// What was popped before a failure stays popped.
pub open spec fn step_of<N>(stack: Seq<Value<N>>, program: Seq<Instr<N>>) -> Outcome<N>
    decreases program.len(),
{
    if program.len() == 0 {
        Outcome { stack, program, stop: Stop::Finished }
    } else {
        let rest = program.drop_first();
        match program[0] {
            Instr::True => step_of(stack.push(Value::Bool(true)), rest),
            Instr::False => step_of(stack.push(Value::Bool(false)), rest),
            Instr::Push(value) => step_of(stack.push(value), rest),
            Instr::Pop => if stack.len() == 0 {
                failed(stack, Stop::EmptyPop)
            } else {
                step_of(stack.drop_last(), rest)
            },
            Instr::PrintLn => if stack.len() == 0 {
                failed(stack, Stop::EmptyPop)
            } else {
                Outcome { stack: stack.drop_last(), program: rest, stop: Stop::Print(stack.last()) }
            },
            _ => arith_on(arith_of(program[0]).unwrap(), stack, rest),
        }
    }
}

/// An arithmetic instruction on `stack`, with `rest` the program behind it.
pub open spec fn arith_on<N>(op: ArithOp, stack: Seq<Value<N>>, rest: Seq<Instr<N>>) -> Outcome<N> {
    if stack.len() == 0 {
        failed(stack, Stop::EmptyPop)
    } else if stack.len() == 1 {
        failed(stack.drop_last(), Stop::EmptyPop)
    } else {
        let b = stack[stack.len() - 1];
        let a = stack[stack.len() - 2];
        let below = stack.subrange(0, stack.len() - 2);
        match (a, b) {
            (Value::Number(x), Value::Number(y)) => Outcome {
                stack: below,
                program: rest,
                stop: Stop::Apply { op, a: x, b: y },
            },
            _ => failed(below, Stop::InvalidBinaryOp { a, b, op }),
        }
    }
}

/// Whether what `step` returned says that the step stopped as `stop`.
pub open spec fn reports<N>(r: Result<Request<N>, RuntimeError<N>>, stop: Stop<N>) -> bool {
    match stop {
        Stop::Finished => r matches Ok(Request::Finished),
        Stop::Print(value) => r matches Ok(Request::Print(v)) && v == value,
        Stop::Apply { op, a, b } => r matches Ok(Request::Apply { op: o, a: x, b: y }) && o == op
            && x == a && y == b,
        Stop::EmptyPop => r matches Err(RuntimeError::EmptyPop),
        Stop::InvalidBinaryOp { a, b, op } => r matches Err(
            RuntimeError::InvalidBinaryOp { a: x, b: y, op: sign },
        ) && x == a && y == b && sign@ == symbol_of(op),
    }
}

/// Whether what `run` returned says that the last step stopped as `stop`.
pub open spec fn closes<N>(r: Result<(), RuntimeError<N>>, stop: Stop<N>) -> bool {
    match stop {
        Stop::Finished => r is Ok,
        Stop::EmptyPop => r matches Err(RuntimeError::EmptyPop),
        Stop::InvalidBinaryOp { a, b, op } => r matches Err(
            RuntimeError::InvalidBinaryOp { a: x, b: y, op: sign },
        ) && x == a && y == b && sign@ == symbol_of(op),
        _ => false,
    }
}

/// Whether a whole run of `program` on `stack`, with `arith` for the
/// arithmetic and `printed` printed before, can end with the stack `stack_end`,
/// with `printed_end` printed, and returning `r`.
///
/// The run goes step by step. A value that a step hands out to be printed is
/// appended to what was printed. Where a step asks for `a op b`, any result
/// of `arith` on them is pushed as a number. The run ends with the step that
/// finishes or fails.
pub open spec fn runs_to<N, F: Fn(ArithOp, N, N) -> N>(
    arith: F,
    stack: Seq<Value<N>>,
    program: Seq<Instr<N>>,
    printed: Seq<Value<N>>,
    stack_end: Seq<Value<N>>,
    printed_end: Seq<Value<N>>,
    r: Result<(), RuntimeError<N>>,
) -> bool
    decreases program.len(),
{
    proof {
        lemma_step_drains(stack, program);
    }
    let step = step_of(stack, program);
    match step.stop {
        Stop::Print(value) => runs_to(
            arith,
            step.stack,
            step.program,
            printed.push(value),
            stack_end,
            printed_end,
            r,
        ),
        Stop::Apply { op, a, b } => exists|result: N| #[trigger]
            arith.ensures((op, a, b), result) && runs_to(
                arith,
                step.stack.push(Value::Number(result)),
                step.program,
                printed,
                stack_end,
                printed_end,
                r,
            ),
        _ => stack_end == step.stack && printed_end == printed && closes(r, step.stop),
    }
}

/// The machine: an operand stack and the program that is loaded.
#[derive(Debug)]
pub struct Vm<N> {
    stack: Vec<Value<N>>,
    program: Vec<Instr<N>>,
    next: usize,
}

impl<N: Copy> Vm<N> {
    /// The operand stack, its top last.
    pub closed spec fn stack(&self) -> Seq<Value<N>> {
        self.stack@
    }

    /// The instructions that are loaded and not yet run.
    pub closed spec fn program(&self) -> Seq<Instr<N>> {
        if self.next <= self.program@.len() {
            self.program@.skip(self.next as int)
        } else {
            Seq::empty()
        }
    }

    pub fn new() -> (r: Self)
        ensures
            r.stack() == Seq::<Value<N>>::empty(),
            r.program() == Seq::<Instr<N>>::empty(),
    {
        let r = Vm { stack: Vec::new(), program: Vec::new(), next: 0 };
        assert(r.program@.skip(0) =~= Seq::<Instr<N>>::empty());
        r
    }

    /// Replaces the program; the stack stays.
    pub fn load(&mut self, program: Vec<Instr<N>>)
        ensures
            final(self).program() == program@,
            final(self).stack() == old(self).stack(),
    {
        proof {
            assert(program@.skip(0) =~= program@);
        }
        self.next = 0;
        self.program = program;
    }

    pub fn push(&mut self, value: Value<N>)
        ensures
            final(self).stack() == old(self).stack().push(value),
            final(self).program() == old(self).program(),
    {
        self.stack.push(value);
    }

    /// Takes the top of the stack off, or fails where there is none.
    pub fn pop(&mut self) -> (r: Result<Value<N>, RuntimeError<N>>)
        ensures
            final(self).program() == old(self).program(),
            old(self).stack().len() == 0 ==> r == Err::<Value<N>, RuntimeError<N>>(
                RuntimeError::EmptyPop,
            ) && final(self).stack() == old(self).stack(),
            old(self).stack().len() > 0 ==> r == Ok::<Value<N>, RuntimeError<N>>(
                old(self).stack().last(),
            ) && final(self).stack() == old(self).stack().drop_last(),
    {
        match self.stack.pop() {
            Some(value) => Ok(value),
            None => Err(RuntimeError::EmptyPop),
        }
    }

    fn fail(&mut self)
        ensures
            final(self).stack() == old(self).stack(),
            final(self).program() == Seq::<Instr<N>>::empty(),
    {
        self.next = 0;
        self.program = Vec::new();
        assert(self.program@.skip(0) =~= Seq::<Instr<N>>::empty());
    }

    /// Pops `b`, then `a`, and asks for `a op b`, or fails.
    fn apply(&mut self, op: ArithOp) -> (r: Result<Request<N>, RuntimeError<N>>)
        ensures
            final(self).stack() == arith_on(op, old(self).stack(), old(self).program()).stack,
            final(self).program() == arith_on(op, old(self).stack(), old(self).program()).program,
            reports(r, arith_on(op, old(self).stack(), old(self).program()).stop),
    {
        let ghost before = self.stack@;
        let b = match self.stack.pop() {
            Some(b) => b,
            None => {
                self.fail();
                return Err(RuntimeError::EmptyPop);
            },
        };
        let a = match self.stack.pop() {
            Some(a) => a,
            None => {
                self.fail();
                return Err(RuntimeError::EmptyPop);
            },
        };
        proof {
            assert(self.stack@ =~= before.subrange(0, before.len() - 2));
        }
        match (a, b) {
            (Value::Number(x), Value::Number(y)) => Ok(Request::Apply { op, a: x, b: y }),
            _ => {
                self.fail();
                Err(RuntimeError::InvalidBinaryOp { a, b, op: op.symbol().to_owned() })
            },
        }
    }

    /// Runs the loaded program until it is exhausted, fails, or needs its
    /// caller. A step that finishes or fails leaves no program behind; one
    /// that stops for its caller leaves what it has not run.
    pub fn step(&mut self) -> (r: Result<Request<N>, RuntimeError<N>>)
        ensures
            final(self).stack() == step_of(old(self).stack(), old(self).program()).stack,
            final(self).program() == step_of(old(self).stack(), old(self).program()).program,
            reports(r, step_of(old(self).stack(), old(self).program()).stop),
    {
        while self.next < self.program.len()
            invariant
                step_of(self.stack(), self.program()) == step_of(
                    old(self).stack(),
                    old(self).program(),
                ),
            decreases self.program@.len() - self.next,
        {
            let instr = self.program[self.next];
            proof {
                assert(self.program()[0] == instr);
                assert(self.program().drop_first() =~= self.program@.skip(self.next + 1));
            }
            self.next = self.next + 1;
            match instr {
                Instr::True => {
                    self.stack.push(Value::Bool(true));
                },
                Instr::False => {
                    self.stack.push(Value::Bool(false));
                },
                Instr::Push(value) => {
                    self.stack.push(value);
                },
                Instr::Pop => {
                    if self.stack.pop().is_none() {
                        self.fail();
                        return Err(RuntimeError::EmptyPop);
                    }
                },
                Instr::PrintLn => {
                    match self.stack.pop() {
                        Some(value) => {
                            return Ok(Request::Print(value));
                        },
                        None => {
                            self.fail();
                            return Err(RuntimeError::EmptyPop);
                        },
                    }
                },
                Instr::Add => {
                    return self.apply(ArithOp::Add);
                },
                Instr::Sub => {
                    return self.apply(ArithOp::Sub);
                },
                Instr::Mul => {
                    return self.apply(ArithOp::Mul);
                },
                Instr::Div => {
                    return self.apply(ArithOp::Div);
                },
                Instr::Mod => {
                    return self.apply(ArithOp::Mod);
                },
            }
        }
        proof {
            if self.next <= self.program@.len() {
                assert(self.program@.skip(self.next as int) =~= Seq::<Instr<N>>::empty());
            }
        }
        self.fail();
        Ok(Request::Finished)
    }

    /// Runs the loaded program to its end or its first failure, drained
    /// either way. `arith` computes what the arithmetic instructions ask for;
    /// what `PrintLn` hands out is appended to `printed`, in order, also
    /// before a failure.
    pub fn run<F: Fn(ArithOp, N, N) -> N>(&mut self, arith: F, printed: &mut Vec<Value<N>>) -> (r:
        Result<(), RuntimeError<N>>)
        requires
            forall|op: ArithOp, a: N, b: N| arith.requires((op, a, b)),
        ensures
            final(self).program() == Seq::<Instr<N>>::empty(),
            runs_to(
                arith,
                old(self).stack(),
                old(self).program(),
                old(printed)@,
                final(self).stack(),
                final(printed)@,
                r,
            ),
    {
        loop
            invariant
                forall|op: ArithOp, a: N, b: N| arith.requires((op, a, b)),
                forall|stack_end: Seq<Value<N>>, printed_end: Seq<Value<N>>, r: Result<(), RuntimeError<N>>|
                    #[trigger] runs_to(
                        arith,
                        self.stack(),
                        self.program(),
                        printed@,
                        stack_end,
                        printed_end,
                        r,
                    ) ==> runs_to(
                        arith,
                        old(self).stack(),
                        old(self).program(),
                        old(printed)@,
                        stack_end,
                        printed_end,
                        r,
                    ),
            decreases self.program().len(),
        {
            let ghost stack = self.stack();
            let ghost program = self.program();
            let ghost before = printed@;
            proof {
                lemma_step_drains(stack, program);
            }
            match self.step() {
                Ok(Request::Finished) => {
                    assert(runs_to(
                        arith,
                        stack,
                        program,
                        before,
                        self.stack(),
                        printed@,
                        Ok::<(), RuntimeError<N>>(()),
                    ));
                    return Ok(());
                },
                Ok(Request::Print(value)) => {
                    printed.push(value);
                    assert forall|
                        stack_end: Seq<Value<N>>,
                        printed_end: Seq<Value<N>>,
                        r: Result<(), RuntimeError<N>>,
                    | #[trigger]
                        runs_to(
                            arith,
                            self.stack(),
                            self.program(),
                            printed@,
                            stack_end,
                            printed_end,
                            r,
                        ) implies runs_to(
                        arith,
                        stack,
                        program,
                        before,
                        stack_end,
                        printed_end,
                        r,
                    ) by {
                        assert(printed@ == before.push(value));
                    }
                },
                Ok(Request::Apply { op, a, b }) => {
                    let result = arith(op, a, b);
                    self.push(Value::Number(result));
                    assert forall|
                        stack_end: Seq<Value<N>>,
                        printed_end: Seq<Value<N>>,
                        r: Result<(), RuntimeError<N>>,
                    | #[trigger]
                        runs_to(
                            arith,
                            self.stack(),
                            self.program(),
                            printed@,
                            stack_end,
                            printed_end,
                            r,
                        ) implies runs_to(
                        arith,
                        stack,
                        program,
                        before,
                        stack_end,
                        printed_end,
                        r,
                    ) by {
                        assert(arith.ensures((op, a, b), result));
                    }
                },
                Err(e) => {
                    assert(runs_to(
                        arith,
                        stack,
                        program,
                        before,
                        self.stack(),
                        printed@,
                        Err::<(), RuntimeError<N>>(e),
                    ));
                    return Err(e);
                },
            }
        }
    }
}

/// How many values an instruction takes off the stack.
pub open spec fn operands<N>(instr: Instr<N>) -> nat {
    match instr {
        Instr::True | Instr::False | Instr::Push(_) => 0,
        Instr::Pop | Instr::PrintLn => 1,
        _ => 2,
    }
}

/// An instruction that finds fewer values than it takes fails with
/// `EmptyPop`, whatever it is, and the program is dropped.
pub proof fn lemma_pop_from_empty_fails<N>(stack: Seq<Value<N>>, program: Seq<Instr<N>>)
    requires
        program.len() > 0,
        stack.len() < operands(program[0]),
    ensures
        step_of(stack, program).stop is EmptyPop,
        step_of(stack, program).program.len() == 0,
{
}

/// An arithmetic instruction whose operands are not both numbers fails with
/// `InvalidBinaryOp`, which holds the two operands as they were and the
/// operator, whichever of the two is no number.
pub proof fn lemma_non_number_operand_fails<N>(stack: Seq<Value<N>>, program: Seq<Instr<N>>)
    requires
        program.len() > 0,
        arith_of(program[0]) is Some,
        stack.len() >= 2,
        !(stack[stack.len() - 2] is Number) || !(stack[stack.len() - 1] is Number),
    ensures
        step_of(stack, program).stop == (Stop::InvalidBinaryOp {
            a: stack[stack.len() - 2],
            b: stack[stack.len() - 1],
            op: arith_of(program[0]).unwrap(),
        }),
        step_of(stack, program).program.len() == 0,
{
}

/// A step that finishes or fails leaves no program; one that stops for its
/// caller leaves less than it found.
pub proof fn lemma_step_drains<N>(stack: Seq<Value<N>>, program: Seq<Instr<N>>)
    ensures
        step_of(stack, program).program.len() <= program.len(),
        !(step_of(stack, program).stop is Print) && !(step_of(stack, program).stop is Apply)
            ==> step_of(stack, program).program.len() == 0,
        step_of(stack, program).stop is Print || step_of(stack, program).stop is Apply ==> step_of(
            stack,
            program,
        ).program.len() < program.len(),
    decreases program.len(),
{
    if program.len() > 0 {
        let rest = program.drop_first();
        match program[0] {
            Instr::True => lemma_step_drains(stack.push(Value::Bool(true)), rest),
            Instr::False => lemma_step_drains(stack.push(Value::Bool(false)), rest),
            Instr::Push(value) => lemma_step_drains(stack.push(value), rest),
            Instr::Pop => if stack.len() > 0 {
                lemma_step_drains(stack.drop_last(), rest)
            },
            _ => {},
        }
    }
}

/// Where a whole run ends: the stack, all that was printed, and how the last
/// step stopped.
pub struct Ran<N> {
    pub stack: Seq<Value<N>>,
    pub printed: Seq<Value<N>>,
    pub stop: Stop<N>,
}

/// The whole run of `program` on `stack` where `f` is the arithmetic, with
/// `printed` printed before.
pub open spec fn run_of<N>(
    f: spec_fn(ArithOp, N, N) -> N,
    stack: Seq<Value<N>>,
    program: Seq<Instr<N>>,
    printed: Seq<Value<N>>,
) -> Ran<N>
    decreases program.len(),
{
    proof {
        lemma_step_drains(stack, program);
    }
    let step = step_of(stack, program);
    match step.stop {
        Stop::Print(value) => run_of(f, step.stack, step.program, printed.push(value)),
        Stop::Apply { op, a, b } => run_of(
            f,
            step.stack.push(Value::Number(f(op, a, b))),
            step.program,
            printed,
        ),
        _ => Ran { stack: step.stack, printed, stop: step.stop },
    }
}

/// Where `arith` computes the function `f`, a run has one end: that of
/// `run_of` with `f`.
pub proof fn lemma_run_computes<N, F: Fn(ArithOp, N, N) -> N>(
    arith: F,
    f: spec_fn(ArithOp, N, N) -> N,
    stack: Seq<Value<N>>,
    program: Seq<Instr<N>>,
    printed: Seq<Value<N>>,
    stack_end: Seq<Value<N>>,
    printed_end: Seq<Value<N>>,
    r: Result<(), RuntimeError<N>>,
)
    requires
        forall|op: ArithOp, a: N, b: N, result: N| #[trigger]
            arith.ensures((op, a, b), result) ==> result == f(op, a, b),
        runs_to(arith, stack, program, printed, stack_end, printed_end, r),
    ensures
        stack_end == run_of(f, stack, program, printed).stack,
        printed_end == run_of(f, stack, program, printed).printed,
        closes(r, run_of(f, stack, program, printed).stop),
    decreases program.len(),
{
    lemma_step_drains(stack, program);
    let step = step_of(stack, program);
    match step.stop {
        Stop::Print(value) => {
            lemma_run_computes(
                arith,
                f,
                step.stack,
                step.program,
                printed.push(value),
                stack_end,
                printed_end,
                r,
            );
        },
        Stop::Apply { op, a, b } => {
            let result = choose|result: N| #[trigger]
                arith.ensures((op, a, b), result) && runs_to(
                    arith,
                    step.stack.push(Value::Number(result)),
                    step.program,
                    printed,
                    stack_end,
                    printed_end,
                    r,
                );
            lemma_run_computes(
                arith,
                f,
                step.stack.push(Value::Number(result)),
                step.program,
                printed,
                stack_end,
                printed_end,
                r,
            );
        },
        _ => {},
    }
}

/// A run keeps what was printed before it and prints behind it.
pub proof fn lemma_run_keeps_printed<N, F: Fn(ArithOp, N, N) -> N>(
    arith: F,
    stack: Seq<Value<N>>,
    program: Seq<Instr<N>>,
    printed: Seq<Value<N>>,
    stack_end: Seq<Value<N>>,
    printed_end: Seq<Value<N>>,
    r: Result<(), RuntimeError<N>>,
)
    requires
        runs_to(arith, stack, program, printed, stack_end, printed_end, r),
    ensures
        printed.len() <= printed_end.len(),
        printed_end.subrange(0, printed.len() as int) == printed,
    decreases program.len(),
{
    lemma_step_drains(stack, program);
    let step = step_of(stack, program);
    match step.stop {
        Stop::Print(value) => {
            lemma_run_keeps_printed(
                arith,
                step.stack,
                step.program,
                printed.push(value),
                stack_end,
                printed_end,
                r,
            );
            assert(printed_end.subrange(0, printed.len() as int) =~= printed_end.subrange(
                0,
                printed.len() as int + 1,
            ).subrange(0, printed.len() as int));
            assert(printed.push(value).subrange(0, printed.len() as int) =~= printed);
        },
        Stop::Apply { op, a, b } => {
            let result = choose|result: N| #[trigger]
                arith.ensures((op, a, b), result) && runs_to(
                    arith,
                    step.stack.push(Value::Number(result)),
                    step.program,
                    printed,
                    stack_end,
                    printed_end,
                    r,
                );
            lemma_run_keeps_printed(
                arith,
                step.stack.push(Value::Number(result)),
                step.program,
                printed,
                stack_end,
                printed_end,
                r,
            );
        },
        _ => {
            assert(printed.subrange(0, printed.len() as int) =~= printed);
        },
    }
}

/// Two numbers pushed, added and printed on an empty stack: their sum is what
/// is printed, and the stack is empty again.
pub proof fn lemma_sum_is_printed<N>(f: spec_fn(ArithOp, N, N) -> N, a: N, b: N)
    ensures
        run_of(
            f,
            Seq::empty(),
            seq![
                Instr::Push(Value::Number(a)),
                Instr::Push(Value::Number(b)),
                Instr::Add,
                Instr::PrintLn,
            ],
            Seq::empty(),
        ) == (Ran::<N> {
            stack: Seq::empty(),
            printed: seq![Value::Number(f(ArithOp::Add, a, b))],
            stop: Stop::Finished,
        }),
{
    let empty = Seq::<Value<N>>::empty();
    let program = seq![
        Instr::Push(Value::Number(a)),
        Instr::Push(Value::Number(b)),
        Instr::Add,
        Instr::PrintLn,
    ];
    let behind_add = seq![Instr::<N>::PrintLn];
    let pushed = seq![Value::Number(a), Value::Number(b)];
    reveal_with_fuel(step_of, 4);
    reveal_with_fuel(run_of, 4);
    assert(program.drop_first() =~= seq![
        Instr::Push(Value::Number(b)),
        Instr::Add,
        Instr::PrintLn,
    ]);
    assert(program.drop_first().drop_first() =~= seq![Instr::<N>::Add, Instr::PrintLn]);
    assert(program.drop_first().drop_first().drop_first() =~= behind_add);
    assert(empty.push(Value::Number(a)).push(Value::Number(b)) =~= pushed);
    assert(pushed.subrange(0, 0) =~= empty);
    assert(step_of(empty, program) == (Outcome {
        stack: empty,
        program: behind_add,
        stop: Stop::Apply { op: ArithOp::Add, a, b },
    }));
    let sum = Value::Number(f(ArithOp::Add, a, b));
    assert(behind_add.drop_first() =~= Seq::<Instr<N>>::empty());
    assert(empty.push(sum).drop_last() =~= empty);
    assert(step_of(empty.push(sum), behind_add) == (Outcome {
        stack: empty,
        program: Seq::empty(),
        stop: Stop::Print(sum),
    }));
    assert(empty.push(sum) =~= seq![sum]);
}

/// A number pushed and then added to nothing fails for want of an operand.
pub proof fn lemma_lone_operand_fails<N>(f: spec_fn(ArithOp, N, N) -> N, a: N)
    ensures
        run_of(f, Seq::empty(), seq![Instr::Push(Value::Number(a)), Instr::Add], Seq::empty())
            == (Ran::<N> { stack: Seq::empty(), printed: Seq::empty(), stop: Stop::EmptyPop }),
{
    let empty = Seq::<Value<N>>::empty();
    let program = seq![Instr::Push(Value::Number(a)), Instr::Add];
    reveal_with_fuel(step_of, 3);
    assert(program.drop_first() =~= seq![Instr::<N>::Add]);
    assert(empty.push(Value::Number(a)).drop_last() =~= empty);
}

} // verus!
