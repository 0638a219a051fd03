use miniml::compile::compile;
use miniml::machine::value::Value;
use miniml::machine::Machine;
use miniml::machine::program::{ArithInstruction, CmpInstruction, Instruction};
use miniml::syntax::parser::parse;
use miniml::typecheck::typecheck;

fn assert_execs(expected: Value<'static>, program: &str) {
    let program = parse(program).unwrap();
    typecheck(&program).unwrap();
    let program = compile(&program);
    let mut machine = Machine::new(&program);
    match machine.exec() {
        Ok(value) => assert!(value == expected, "Wrong answer\nExpected {:?}\nGot {:?}", expected, value),
        Err(e) => assert!(false, "Machine panicked with error {:?}", e),
    }
}

fn run_unchecked(program: &str) -> Value<'static> {
    let program = parse(program).unwrap();
    let program = compile(&program);
    let mut machine = Machine::new(&program);
    match machine.exec().unwrap() {
        Value::Int(i) => Value::Int(i),
        Value::Bool(b) => Value::Bool(b),
        Value::Closure(_) => panic!("a closure"),
    }
}

#[test]
fn tests_basic() {
    assert_execs(Value::from(92), "92");
    assert_execs(Value::from(false), "false");
}

#[test]
fn arithmetics() {
    assert_execs(Value::from(92), "10 * 5 - 10 + 100 / 10 + 3 * (10 + 4)")
}

#[test]
fn tests_factorial() {
    assert_execs(Value::from(120), "(fun f(n: int): int is if n == 0 then 1 else n * f (n - 1)) 5")
}

#[test]
fn fib() {
    assert_execs(
        Value::from(144),
        "(fun fib(n: int): int is
                            if n == 0 then 1
                            else if n == 1 then 1
                            else fib (n - 1) + fib (n - 2)) 11",
    );
}

#[test]
fn fix_factorial() {
    // Can't typecheck fixpoint combinator ;(
    let fix_factorial = "
((fun fix(F: (int -> int) -> (int -> int)): (int -> int) is
    (fun a(x: int): int is (F fun b(n: int): int is (x x) n))
     fun a(x: int): int is (F fun b(n: int): int is (x x) n))

fun Fact(F: (int -> int)): (int -> int) is fun i(n: int): int is
    if n == 0 then 1 else n * F (n - 1))
5
";
    assert_eq!(run_unchecked(fix_factorial), Value::Int(120));
}

#[test]
fn fib_let() {
    assert_execs(
        Value::from(144),
        "let fun fib(n: int): int is
                      if n == 0 then 1
                      else if n == 1 then 1
                      else fib (n - 1) + fib (n - 2)
                  in fib 11",
    );
}

#[test]
fn fix_factorial_let() {
    // Can't typecheck fixpoint combinator ;(
    let fix_factorial = "
let fun fix(F: (int -> int) -> (int -> int)): (int -> int) is
    (fun a(x: int): int is (F fun b(n: int): int is (x x) n))
     fun a(x: int): int is (F fun b(n: int): int is (x x) n)
in let fun Fact(F: (int -> int)): (int -> int) is fun i(n: int): int is
    if n == 0 then 1 else n * F (n - 1)
in (fix Fact) 5
";
    assert_eq!(run_unchecked(fix_factorial), Value::Int(120));
}

#[test]
fn let_shadowing() {
    assert_execs(
        Value::from(92),
        "let fun f(x: int): int is x * 2
                  in let fun f(x: int): int is x + 2
                  in f 90",
    )
}

#[test]
fn let_rec_mutual_recursion() {
    let program = "let rec fun even(n: int): bool is if n == 0 then true else odd (n - 1)
                   and fun odd(n: int): bool is if n == 0 then false else even (n - 1)
                   in even 10";
    assert_execs(Value::from(true), program);
    let program = "let rec fun even(n: int): bool is if n == 0 then true else odd (n - 1)
                   and fun odd(n: int): bool is if n == 0 then false else even (n - 1)
                   in odd 7";
    assert_execs(Value::from(true), program);
    let program = "let rec fun even(n: int): bool is if n == 0 then true else odd (n - 1)
                   and fun odd(n: int): bool is if n == 0 then false else even (n - 1)
                   in even 7";
    assert_execs(Value::from(false), program);
}

#[test]
fn let_rec_of_one_function() {
    assert_execs(
        Value::from(55),
        "let rec fun sum(n: int): int is if n == 0 then 0 else n + sum (n - 1) in sum 10",
    );
}

#[test]
fn run_time_errors() {
    let program = parse("1 / 0").unwrap();
    let code = compile(&program);
    let mut machine = Machine::new(&code);
    assert_eq!(machine.exec().err().map(|e| e.message), Some("Division by zero".to_string()));

    let program = parse("9223372036854775807 + 1").unwrap();
    let code = compile(&program);
    let mut machine = Machine::new(&code);
    assert!(machine.try_exec().is_none());
}

#[test]
fn a_function_is_printed_as_a_closure() {
    let program = parse("fun id(x: int): int is x").unwrap();
    let code = compile(&program);
    let mut machine = Machine::new(&code);
    assert_eq!(machine.exec().unwrap().to_display_string(), "<closure>");
}

#[test]
fn deep_recursion_survives_collections() {
    assert_execs(
        Value::from(5050),
        "let fun sum(n: int): int is if n == 0 then 0 else n + sum (n - 1) in sum 100",
    );
}

#[test]
fn well_typed_programs_end_in_a_value_of_their_type() {
    for (text, kind) in [
        ("let fun twice(n: int): int is n * 2 in twice 21", "int"),
        ("(fun f(x: int): bool is x < 3) 2", "bool"),
        ("let fun add(x: int): int -> int is fun g(y: int): int is x + y in add 1", "closure"),
    ] {
        let program = parse(text).unwrap();
        let ty = typecheck(&program).unwrap();
        let code = compile(&program);
        let mut machine = Machine::new(&code);
        let value = machine.exec().unwrap();
        let got = match value {
            Value::Int(_) => "int",
            Value::Bool(_) => "bool",
            Value::Closure(_) => "closure",
        };
        assert_eq!(got, kind, "{} has type {:?}", text, ty);
    }
}

#[test]
fn a_well_typed_division_by_zero_is_reported() {
    let program = parse("(fun f(x: int): int is 10 / x) 0").unwrap();
    typecheck(&program).unwrap();
    let code = compile(&program);
    let mut machine = Machine::new(&code);
    assert_eq!(machine.exec().err().map(|e| e.message), Some("Division by zero".to_string()));
}

#[test]
fn code_is_left_part_then_right_part_then_operator() {
    let sum = compile(&parse("1 + 2").unwrap());
    assert_eq!(
        sum,
        vec![Instruction::PushInt(1), Instruction::PushInt(2), Instruction::ArithInstruction(ArithInstruction::Add)]
    );
    let lt = compile(&parse("(1 - 4) < 2").unwrap());
    assert_eq!(
        lt,
        vec![
            Instruction::PushInt(1),
            Instruction::PushInt(4),
            Instruction::ArithInstruction(ArithInstruction::Sub),
            Instruction::PushInt(2),
            Instruction::CmpInstruction(CmpInstruction::Lt),
        ]
    );
    let program = parse("(fun f(x: int): int is x) 3").unwrap();
    assert_eq!(compile(&program), compile(&program));
    assert_eq!(compile(&program).last(), Some(&Instruction::Call));
}
