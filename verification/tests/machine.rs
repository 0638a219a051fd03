use miniml::machine::program::{ArithInstruction, CmpInstruction, Frame, Instruction, Name};
use miniml::machine::value::Value;
use miniml::machine::env::Env;
use miniml::machine::Machine;

fn push(i: i64) -> Instruction {
    Instruction::PushInt(i)
}

fn push_bool(b: bool) -> Instruction {
    Instruction::PushBool(b)
}

fn add() -> Instruction {
    Instruction::ArithInstruction(ArithInstruction::Add)
}

fn sub() -> Instruction {
    Instruction::ArithInstruction(ArithInstruction::Sub)
}

fn mul() -> Instruction {
    Instruction::ArithInstruction(ArithInstruction::Mul)
}

fn div() -> Instruction {
    Instruction::ArithInstruction(ArithInstruction::Div)
}

fn lt() -> Instruction {
    Instruction::CmpInstruction(CmpInstruction::Lt)
}

fn eq() -> Instruction {
    Instruction::CmpInstruction(CmpInstruction::Eq)
}

fn gt() -> Instruction {
    Instruction::CmpInstruction(CmpInstruction::Gt)
}

fn var(n: Name) -> Instruction {
    Instruction::Var(n)
}

fn branch_on(tru: Frame, fls: Frame) -> Instruction {
    Instruction::Branch(tru, fls)
}

fn clos(name: Name, arg: Name, frame: Frame) -> Instruction {
    Instruction::Closure { name, arg, frame }
}

fn call() -> Instruction {
    Instruction::Call
}

fn ret() -> Instruction {
    Instruction::PopEnv
}

fn assert_execs(expected: Value<'static>, program: Frame) {
    let mut machine = Machine::new(&program);
    match machine.exec() {
        Ok(value) => assert!(value == expected, "Wrong answer\nExpected {:?}\nGot {:?}", expected, value),
        Err(e) => assert!(false, "Machine panicked with error {:?}", e),
    }
}

fn assert_fails(expected_message: &str, program: Frame) {
    let mut machine = Machine::new(&program);
    match machine.exec() {
        Ok(_) => assert!(false, "Machine should have failed with {}", expected_message),
        Err(e) => assert!(
            e.message.contains(expected_message),
            "Wrong error message.\nExpected: {}\nGot:      {}",
            expected_message,
            e.message
        ),
    }
}

#[test]
fn simple_eval() {
    assert_execs(Value::Int(92), vec![push(90), push(2), add()]);
}

#[test]
fn mod_basic() {
    assert_execs(Value::from(92), vec![push(92)]);
    assert_fails("Fatal: empty stack :(", vec![]);
    assert_fails("Fatal: more then one value on stack left :(", vec![push(1), push(2)]);
}

#[test]
fn arith() {
    assert_execs(Value::from(92), vec![push(90), push(2), add()]);
    assert_execs(Value::from(92), vec![push(94), push(2), sub()]);
    assert_execs(Value::from(92), vec![push(46), push(2), mul()]);
    assert_execs(Value::from(92), vec![push(184), push(2), div()]);
    assert_fails("Division by zero", vec![push(1), push(0), div()]);
    assert_fails("Fatal: empty stack :(", vec![add()]);
    assert_fails("Fatal: runtime type error :(", vec![push(1), push_bool(true), add()]);
}

#[test]
fn cmp() {
    assert_execs(Value::from(false), vec![push(92), push(62), lt()]);
    assert_execs(Value::from(true), vec![push(92), push(62), gt()]);
    assert_execs(Value::from(false), vec![push(1), push(2), eq()]);
    assert_execs(Value::from(true), vec![push(2), push(2), eq()]);

    assert_fails("Fatal: runtime type error :(", vec![push(1), push_bool(true), eq()]);
    assert_fails("Fatal: runtime type error :(", vec![push_bool(true), push_bool(false), eq()]);
}

#[test]
fn branch() {
    assert_execs(Value::from(92), vec![push_bool(true), branch_on(vec![push(92)], vec![push(62)])]);

    assert_execs(Value::from(62), vec![push_bool(false), branch_on(vec![push(92)], vec![push(62)])]);

    assert_execs(
        Value::from(92),
        vec![
            push_bool(true),
            branch_on(vec![push(41)], vec![push(51)]),
            push_bool(false),
            branch_on(vec![push(41)], vec![push(51)]),
            add(),
        ],
    );
    assert_fails(
        "Fatal: runtime type error :(",
        vec![push(92), branch_on(vec![push_bool(true)], vec![push_bool(false)])],
    );
}

#[test]
fn vars() {
    assert_execs(Value::from(92), vec![clos(0, 1, vec![var(1)]), push(92), call()]);

    assert_fails("Fatal: undefined variable :(", vec![var(92)]);
}

#[test]
fn mod_factorial() {
    let factorial = vec![
        clos(
            0,
            1,
            vec![
                push(0),
                var(1),
                eq(),
                branch_on(vec![push(1)], vec![var(1), var(0), var(1), push(1), sub(), call(), mul()]),
                ret(),
            ],
        ),
        push(5),
        call(),
    ];
    assert_execs(Value::from(120), factorial);
}

#[test]
fn hof() {
    let apply_twice = vec![
        clos(0, 1, vec![clos(2, 3, vec![var(1), var(1), var(3), call(), call(), ret()]), ret()]),
        clos(0, 1, vec![var(1), var(1), add(), ret()]),
        call(),
        push(23),
        call(),
    ];

    assert_execs(Value::from(92), apply_twice);
}

#[test]
fn closure_is_a_value() {
    let program = vec![clos(0, 1, vec![var(1)])];
    let mut machine = Machine::new(&program);
    match machine.exec() {
        Ok(v) => {
            assert_eq!(v.to_display_string(), "<closure>");
            assert!(v.into_closure().is_ok());
        }
        Err(e) => assert!(false, "Machine panicked with error {:?}", e),
    }
}

#[test]
fn long_run_with_collections() {
    // Counts down from 500 by recursion: far more than one collection interval
    // of instructions, and the answer must survive every collection.
    let countdown = vec![
        clos(
            0,
            1,
            vec![
                push(0),
                var(1),
                eq(),
                branch_on(vec![push(0)], vec![var(1), var(0), var(1), push(1), sub(), call(), add()]),
                ret(),
            ],
        ),
        push(500),
        call(),
    ];
    assert_execs(Value::from(125250), countdown);
}

#[test]
fn overflow_stops_the_machine() {
    let program = vec![push(i64::MAX), push(1), add()];
    let mut machine = Machine::new(&program);
    assert!(machine.try_exec().is_none());

    let program = vec![push(i64::MIN), push(-1), div()];
    let mut machine = Machine::new(&program);
    assert!(machine.try_exec().is_none());

    let program = vec![push(40), push(2), add()];
    let mut machine = Machine::new(&program);
    match machine.try_exec() {
        Some(Ok(v)) => assert_eq!(v, Value::Int(42)),
        _ => assert!(false, "expected a value"),
    }
}

#[test]
fn values_convert() {
    assert_eq!(Value::from(7).into_int().ok(), Some(7));
    assert_eq!(Value::from(true).into_bool().ok(), Some(true));
    assert_eq!(
        Value::from(true).into_int().err().map(|e| e.message),
        Some("Fatal: runtime type error :(".to_string())
    );
    assert_eq!(
        Value::from(3).into_bool().err().map(|e| e.message),
        Some("Fatal: runtime type error :(".to_string())
    );
    assert!(Value::from(3).into_closure().is_err());
    assert_eq!(Value::from(-12).to_display_string(), "-12");
    assert_eq!(Value::from(false).to_display_string(), "false");
}

#[test]
fn an_environment_gives_the_latest_binding() {
    let mut env = Env::new();
    assert_eq!(env.get(4), None);
    env.insert(4, Value::Int(1));
    env.insert(6, Value::Bool(true));
    assert_eq!(env.get(4), Some(Value::Int(1)));
    env.insert(4, Value::Int(2));
    assert_eq!(env.get(4), Some(Value::Int(2)));
    assert_eq!(env.get(6), Some(Value::Bool(true)));
    let copy = env.clone_env();
    assert_eq!(copy.get(4), Some(Value::Int(2)));
    let mut entries = env.entries();
    entries.sort_by_key(|p| p.0);
    assert_eq!(entries, vec![(4, Value::Int(2)), (6, Value::Bool(true))]);
}

#[test]
fn a_failed_instruction_pops_only_what_it_read() {
    // An undefined variable leaves the machine as it was: the earlier value
    // stays, so the run reports the variable, not the leftover value.
    assert_fails("Fatal: undefined variable :(", vec![push(1), var(7)]);
    // A type error pops the operands it has read.
    assert_fails("Fatal: runtime type error :(", vec![push(1), push_bool(true), push(2), add()]);
}
