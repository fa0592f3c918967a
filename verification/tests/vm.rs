use umpteen::assembler::assemble;
use umpteen::instr::{ArithOp, Instr};
use umpteen::value::Value;
use umpteen::vm::{Request, RuntimeError, Vm};

fn apply(op: ArithOp, a: f64, b: f64) -> f64 {
    match op {
        ArithOp::Add => a + b,
        ArithOp::Sub => a - b,
        ArithOp::Mul => a * b,
        ArithOp::Div => a / b,
        ArithOp::Mod => a % b,
    }
}

fn show(value: Value<f64>) -> String {
    match value {
        Value::Number(x) => format!("{}", x),
        Value::Bool(x) => format!("{}", x),
    }
}

/// Steps the machine to the end as a host does: computes what it asks for
/// and collects the lines it would print.
fn drive(vm: &mut Vm<f64>, lines: &mut Vec<String>) -> Result<(), RuntimeError<f64>> {
    loop {
        match vm.step()? {
            Request::Finished => return Ok(()),
            Request::Print(value) => lines.push(show(value)),
            Request::Apply { op, a, b } => vm.push(Value::Number(apply(op, a, b))),
        }
    }
}

/// What a program prints on a fresh machine, by `run` and by stepping; the
/// two must agree.
fn output_of(program: Vec<Instr<f64>>) -> Result<Vec<String>, RuntimeError<f64>> {
    let mut stepped = Vm::new();
    stepped.load(program.clone());
    let mut lines = vec![];
    let by_steps = drive(&mut stepped, &mut lines).map(|_| lines.clone());

    let mut vm = Vm::new();
    vm.load(program);
    let mut printed = vec![];
    let by_run = vm
        .run(apply, &mut printed)
        .map(|_| printed.iter().map(|v| show(*v)).collect::<Vec<String>>());
    assert_eq!(by_run, by_steps);
    assert_eq!(printed.into_iter().map(show).collect::<Vec<String>>(), lines);
    assert_eq!(vm.step(), Ok(Request::Finished));
    by_run
}

fn lower(program: Vec<Instr<String>>) -> Vec<Instr<f64>> {
    program
        .into_iter()
        .map(|instr| match instr {
            Instr::True => Instr::True,
            Instr::False => Instr::False,
            Instr::Push(Value::Number(numeral)) => {
                Instr::Push(Value::Number(numeral.parse().unwrap()))
            }
            Instr::Push(Value::Bool(b)) => Instr::Push(Value::Bool(b)),
            Instr::Pop => Instr::Pop,
            Instr::Add => Instr::Add,
            Instr::Sub => Instr::Sub,
            Instr::Mul => Instr::Mul,
            Instr::Div => Instr::Div,
            Instr::Mod => Instr::Mod,
            Instr::PrintLn => Instr::PrintLn,
        })
        .collect()
}

fn number(x: f64) -> Instr<f64> {
    Instr::Push(Value::Number(x))
}

const BINARY: [(Instr<f64>, &str); 5] = [
    (Instr::Add, "+"),
    (Instr::Sub, "-"),
    (Instr::Mul, "*"),
    (Instr::Div, "/"),
    (Instr::Mod, "%"),
];

#[test]
fn thirty_two_plus_forty_eight_prints_eighty() {
    let program = vec![number(32.0), number(48.0), Instr::Add, Instr::PrintLn];
    assert_eq!(output_of(program), Ok(vec!["80".to_owned()]));
}

#[test]
fn the_top_is_the_right_operand() {
    assert_eq!(
        output_of(vec![number(10.0), number(3.0), Instr::Sub, Instr::PrintLn]),
        Ok(vec!["7".to_owned()])
    );
    assert_eq!(
        output_of(vec![number(1.0), number(4.0), Instr::Div, Instr::PrintLn]),
        Ok(vec!["0.25".to_owned()])
    );
    assert_eq!(
        output_of(vec![number(7.0), number(4.0), Instr::Mod, Instr::PrintLn]),
        Ok(vec!["3".to_owned()])
    );
    assert_eq!(
        output_of(vec![number(6.0), number(7.0), Instr::Mul, Instr::PrintLn]),
        Ok(vec!["42".to_owned()])
    );
}

#[test]
fn run_prints_into_what_it_is_given() {
    let mut vm = Vm::new();
    vm.load(vec![number(32.0), number(48.0), Instr::Add, Instr::PrintLn, Instr::True]);
    let mut printed = vec![Value::Bool(false)];
    assert_eq!(vm.run(apply, &mut printed), Ok(()));
    assert_eq!(printed, vec![Value::Bool(false), Value::Number(80.0)]);
    assert_eq!(vm.pop(), Ok(Value::Bool(true)));
    assert_eq!(vm.pop(), Err(RuntimeError::EmptyPop));
}

#[test]
fn run_keeps_what_was_printed_before_a_failure() {
    let mut vm = Vm::new();
    vm.load(vec![number(1.0), Instr::PrintLn, Instr::Pop, number(9.0), Instr::PrintLn]);
    let mut printed = vec![];
    assert_eq!(vm.run(apply, &mut printed), Err(RuntimeError::EmptyPop));
    assert_eq!(printed, vec![Value::Number(1.0)]);
    assert_eq!(vm.run(apply, &mut printed), Ok(()));
    assert_eq!(printed, vec![Value::Number(1.0)]);
}

#[test]
fn run_uses_the_arithmetic_it_is_given() {
    let mut vm = Vm::new();
    vm.load(vec![number(2.0), number(3.0), Instr::Add, number(4.0), Instr::Mul, Instr::PrintLn]);
    let mut printed = vec![];
    let first = |_: ArithOp, a: f64, _: f64| a;
    assert_eq!(vm.run(first, &mut printed), Ok(()));
    assert_eq!(printed, vec![Value::Number(2.0)]);
}

#[test]
fn step_hands_the_operands_out_in_order() {
    let mut vm = Vm::new();
    vm.load(vec![number(10.0), number(3.0), Instr::Sub, Instr::PrintLn]);
    assert_eq!(vm.step(), Ok(Request::Apply { op: ArithOp::Sub, a: 10.0, b: 3.0 }));
    vm.push(Value::Number(7.0));
    assert_eq!(vm.step(), Ok(Request::Print(Value::Number(7.0))));
    assert_eq!(vm.step(), Ok(Request::Finished));
    assert_eq!(vm.step(), Ok(Request::Finished));
    assert_eq!(vm.pop(), Err(RuntimeError::EmptyPop));
}

#[test]
fn division_by_zero_gives_what_the_host_gives() {
    assert_eq!(
        output_of(vec![number(1.0), number(0.0), Instr::Div, Instr::PrintLn]),
        Ok(vec!["inf".to_owned()])
    );
    assert_eq!(
        output_of(vec![number(1.0), number(0.0), Instr::Mod, Instr::PrintLn]),
        Ok(vec!["NaN".to_owned()])
    );
}

#[test]
fn truth_values_and_pushes_are_printed_as_they_are() {
    assert_eq!(
        output_of(vec![
            Instr::True,
            Instr::PrintLn,
            Instr::False,
            Instr::PrintLn,
            number(2.5),
            Instr::PrintLn,
            Instr::Push(Value::Bool(true)),
            Instr::PrintLn,
        ]),
        Ok(vec!["true".to_owned(), "false".to_owned(), "2.5".to_owned(), "true".to_owned()])
    );
}

#[test]
fn pop_discards_the_top() {
    assert_eq!(
        output_of(vec![number(1.0), number(2.0), Instr::Pop, Instr::PrintLn]),
        Ok(vec!["1".to_owned()])
    );
}

#[test]
fn popping_an_empty_stack_fails() {
    assert_eq!(output_of(vec![Instr::Pop]), Err(RuntimeError::EmptyPop));
    assert_eq!(output_of(vec![Instr::PrintLn]), Err(RuntimeError::EmptyPop));
    for (instr, _) in BINARY {
        assert_eq!(output_of(vec![instr]), Err(RuntimeError::EmptyPop));
        assert_eq!(output_of(vec![number(1.0), instr]), Err(RuntimeError::EmptyPop));
        assert_eq!(output_of(vec![Instr::True, instr]), Err(RuntimeError::EmptyPop));
    }
    let mut vm: Vm<f64> = Vm::new();
    assert_eq!(vm.pop(), Err(RuntimeError::EmptyPop));
}

#[test]
fn a_binary_instruction_with_one_operand_has_taken_it() {
    let mut vm = Vm::new();
    vm.load(vec![number(1.0), Instr::Add]);
    assert_eq!(vm.step(), Err(RuntimeError::EmptyPop));
    assert_eq!(vm.pop(), Err(RuntimeError::EmptyPop));
}

#[test]
fn an_operand_that_is_no_number_fails_on_either_side() {
    for (instr, sign) in BINARY {
        assert_eq!(
            output_of(vec![Instr::True, number(2.0), instr]),
            Err(RuntimeError::InvalidBinaryOp {
                a: Value::Bool(true),
                b: Value::Number(2.0),
                op: sign.to_owned()
            })
        );
        assert_eq!(
            output_of(vec![number(2.0), Instr::False, instr]),
            Err(RuntimeError::InvalidBinaryOp {
                a: Value::Number(2.0),
                b: Value::Bool(false),
                op: sign.to_owned()
            })
        );
        assert_eq!(
            output_of(vec![Instr::True, Instr::False, instr]),
            Err(RuntimeError::InvalidBinaryOp {
                a: Value::Bool(true),
                b: Value::Bool(false),
                op: sign.to_owned()
            })
        );
    }
}

#[test]
fn a_failed_run_drops_the_program_and_keeps_what_was_printed() {
    let mut vm = Vm::new();
    vm.load(vec![number(1.0), Instr::PrintLn, Instr::Pop, number(9.0), Instr::PrintLn]);
    let mut lines = vec![];
    assert_eq!(drive(&mut vm, &mut lines), Err(RuntimeError::EmptyPop));
    assert_eq!(lines, vec!["1".to_owned()]);
    assert_eq!(vm.step(), Ok(Request::Finished));
    assert_eq!(lines.len(), 1);
}

#[test]
fn the_operands_of_a_failed_instruction_stay_popped() {
    let mut vm = Vm::new();
    vm.load(vec![number(5.0), Instr::True, number(2.0), Instr::Add]);
    assert!(matches!(vm.step(), Err(RuntimeError::InvalidBinaryOp { .. })));
    assert_eq!(vm.pop(), Ok(Value::Number(5.0)));
    assert_eq!(vm.pop(), Err(RuntimeError::EmptyPop));
}

#[test]
fn assembled_push_then_add_fails_for_want_of_an_operand() {
    let program = lower(assemble("PUSH 3.14\nADD").unwrap());
    assert_eq!(program, vec![number(3.14), Instr::Add]);
    assert_eq!(output_of(program), Err(RuntimeError::EmptyPop));
}

#[test]
fn an_assembled_listing_runs() {
    let program = lower(assemble("PUSH 32\nPUSH 48\nADD\nPRINTLN\n").unwrap());
    assert_eq!(output_of(program), Ok(vec!["80".to_owned()]));
    let longer = lower(
        assemble("PUSH 2\nPUSH 3\nMUL\nPUSH 4.5\nSUB\nPRINTLN\nTRUE\nPRINTLN\nPUSH 1\nPOP").unwrap(),
    );
    assert_eq!(output_of(longer), Ok(vec!["1.5".to_owned(), "true".to_owned()]));
}

#[test]
fn the_stack_outlives_the_program() {
    let mut vm = Vm::new();
    vm.load(vec![number(1.0), number(2.0)]);
    assert_eq!(vm.step(), Ok(Request::Finished));
    vm.load(vec![Instr::Add, Instr::PrintLn]);
    let mut lines = vec![];
    assert_eq!(drive(&mut vm, &mut lines), Ok(()));
    assert_eq!(lines, vec!["3".to_owned()]);
}

#[test]
fn load_replaces_a_program_that_was_not_run_out() {
    let mut vm = Vm::new();
    vm.load(vec![number(1.0), Instr::PrintLn, number(2.0), Instr::PrintLn]);
    assert_eq!(vm.step(), Ok(Request::Print(Value::Number(1.0))));
    vm.load(vec![number(7.0), Instr::PrintLn]);
    assert_eq!(vm.step(), Ok(Request::Print(Value::Number(7.0))));
    assert_eq!(vm.step(), Ok(Request::Finished));
}

#[test]
fn a_program_is_run_once() {
    let mut vm = Vm::new();
    vm.load(vec![number(1.0)]);
    assert_eq!(vm.step(), Ok(Request::Finished));
    assert_eq!(vm.step(), Ok(Request::Finished));
    assert_eq!(vm.pop(), Ok(Value::Number(1.0)));
    assert_eq!(vm.pop(), Err(RuntimeError::EmptyPop));
}

#[test]
fn push_and_pop_are_last_in_first_out() {
    let mut vm = Vm::new();
    vm.push(Value::Number(1.0));
    vm.push(Value::Bool(false));
    vm.push(Value::Number(3.0));
    assert_eq!(vm.pop(), Ok(Value::Number(3.0)));
    assert_eq!(vm.pop(), Ok(Value::Bool(false)));
    assert_eq!(vm.pop(), Ok(Value::Number(1.0)));
    assert_eq!(vm.pop(), Err(RuntimeError::EmptyPop));
}

#[test]
fn the_machine_runs_on_any_number_type() {
    let mut vm: Vm<i64> = Vm::new();
    vm.load(vec![
        Instr::Push(Value::Number(6)),
        Instr::Push(Value::Number(7)),
        Instr::Mul,
    ]);
    assert_eq!(vm.step(), Ok(Request::Apply { op: ArithOp::Mul, a: 6, b: 7 }));
    vm.push(Value::Number(42));
    assert_eq!(vm.step(), Ok(Request::Finished));
    assert_eq!(vm.pop(), Ok(Value::Number(42)));
}

#[test]
fn kinds_and_signs() {
    assert_eq!(Value::Number(1.5).kind(), "number");
    assert_eq!(Value::<f64>::Bool(true).kind(), "bool");
    assert_eq!(ArithOp::Add.symbol(), "+");
    assert_eq!(ArithOp::Sub.symbol(), "-");
    assert_eq!(ArithOp::Mul.symbol(), "*");
    assert_eq!(ArithOp::Div.symbol(), "/");
    assert_eq!(ArithOp::Mod.symbol(), "%");
    assert_eq!(Instr::<f64>::Add.arith(), Some(ArithOp::Add));
    assert_eq!(Instr::<f64>::Mod.arith(), Some(ArithOp::Mod));
    assert_eq!(Instr::<f64>::Pop.arith(), None);
    assert_eq!(Instr::Push(Value::Number(1.0)).arith(), None);
}

#[test]
fn a_truth_value_becomes_a_value() {
    assert_eq!(Value::<f64>::from(true), Value::Bool(true));
    assert_eq!(Value::<f64>::from(false), Value::Bool(false));
    let mut vm: Vm<f64> = Vm::new();
    vm.push(true.into());
    vm.push(Value::from(false));
    assert_eq!(vm.pop(), Ok(Value::Bool(false)));
    assert_eq!(vm.pop(), Ok(Value::Bool(true)));
}
