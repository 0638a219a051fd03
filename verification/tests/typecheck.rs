use miniml::syntax::parser::{parse, parse_type};
use miniml::syntax::types::Type;
use miniml::syntax::types::Type::{Bool, Int};
use miniml::typecheck::typecheck;

fn assert_valid(expr: &str, type_: Type) {
    let expr = parse(expr).unwrap();
    match typecheck(&expr) {
        Ok(t) => assert!(
            t == type_,
            "Wrong type for {}.\nExpected {}, got {}",
            expr.to_debug_string(),
            type_.to_debug_string(),
            t.to_debug_string()
        ),
        Err(e) => assert!(false, "Failed to typecheck {}:\n {:?}", expr.to_debug_string(), e),
    }
}

fn assert_valid_str(expr: &str, type_: &str) {
    assert_valid(expr, parse_type(type_).unwrap());
}

fn assert_fails(expr: &str) {
    let expr = parse(expr).unwrap();
    let t = typecheck(&expr);
    assert!(t.is_err(), "This expression should not typecheck: {}", expr.to_debug_string());
}

fn error_message(expr: &str) -> String {
    let expr = parse(expr).unwrap();
    typecheck(&expr).unwrap_err().message
}

#[test]
fn typecheck_test_arithmetics() {
    assert_valid("92", Int);
    assert_valid("true", Bool);

    assert_valid("1 + 1", Int);
    assert_fails("1 * true");
}

#[test]
fn typecheck_test_bools() {
    assert_valid("1 < 1", Bool);
    assert_fails("true == true");
    assert_fails("false > 92");
}

#[test]
fn typecheck_test_if() {
    assert_valid("if 1 < 2 then 92 else 62", Int);
    assert_valid("if true then false else true", Bool);
    assert_fails("if 1 + (1 == 2) then 92 else 62");
    assert_fails("if 1 then 92 else 62");
    assert_fails("if true then 92 else false");
}

#[test]
fn typecheck_test_fun() {
    assert_valid("fun id (x: int): int is x", Int.maps_to(Int));
    assert_valid("fun id (x: int): int is id x", Int.maps_to(Int));
    assert_valid("(fun id (x: int): int is x) 92", Int);

    assert_fails("fun id (x: int): int is y");
    assert_fails("(fun id (x: int): int is x) true");
}

#[test]
fn test_let_fun() {
    assert_valid("let fun inc (x: int): int is x + 1 in inc 92", Int);

    assert_fails("let fun inc (x: int): int is x + 1 in inc inc");
}

#[test]
fn typeckeck_test_arithmetics() {
    assert_valid_str("92", "int");
    assert_valid_str("true", "bool");

    assert_valid_str("1 + 1", "int");
    assert_fails("1 * true");
}

#[test]
fn typeckeck_test_bools() {
    assert_valid_str("1 < 1", "bool");
    assert_fails("true == true");
    assert_fails("false > 92");
}

#[test]
fn typeckeck_test_if() {
    assert_valid_str("if 1 < 2 then 92 else 62", "int");
    assert_valid_str("if true then false else true", "bool");
    assert_fails("if 1 + (1 == 2) then 92 else 62");
    assert_fails("if 1 then 92 else 62");
    assert_fails("if true then 92 else false");
}

#[test]
fn typeckeck_test_fun() {
    assert_valid_str("fun id (x: int): int is x", "int -> int");
    assert_valid_str("fun id (x: int): int is id x", "int -> int");
}

#[test]
fn let_rec_types() {
    assert_valid(
        "let rec fun even(n: int): bool is if n == 0 then true else odd (n - 1)
         and fun odd(n: int): bool is if n == 0 then false else even (n - 1)
         in even 10",
        Bool,
    );
    assert_fails("let rec fun f(n: int): int is g n and fun g(n: int): bool is true in f 1");
}

#[test]
fn type_error_messages() {
    assert_eq!(error_message("y"), "Unbound variable: y");
    assert_eq!(error_message("1 * true"), "Expected int, got bool");
    assert_eq!(error_message("if true then 92 else false"), "Arms of an if have different types: int bool");
    assert_eq!(error_message("1 2"), "Not a function 1");
}

#[test]
fn function_types_print() {
    let t = Int.maps_to(Int).maps_to(Bool);
    assert_eq!(t.to_debug_string(), "(int -> int) -> bool");
    assert_eq!(Type::arrow(Int, Type::arrow(Int, Bool)).to_debug_string(), "int -> int -> bool");
}
