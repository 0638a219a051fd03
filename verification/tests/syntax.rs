use miniml::syntax::exprs::{ArithOp, CmpOp, Expr, Literal};
use miniml::syntax::ident::Ident;
use miniml::syntax::parser::{parse, parse_type, try_parse, try_parse_type};
use miniml::syntax::parser_util::{application, arith_op, cmp_op, fun, if_expr, let_fun_expr, let_rec_expr};
use miniml::syntax::types::Type;

fn assert_parses(expr: &str, ast: &str) {
    let result = parse(expr);
    assert!(result.is_ok(), "\n`{}` failed to parse:\n {:?}\n", expr, result);
    let result = result.unwrap().to_debug_string();
    assert_eq!(result, ast);
}

fn you_shall_not_parse(expr: &str) {
    assert!(parse(expr).is_err());
}

#[test]
fn smoke_test() {
    assert_eq!(Ident::from_str("Hello").as_str(), "Hello");
}

#[test]
fn mod_test_good_expressions() {
    assert_parses("92", "92");
    assert_parses("(92)", "92");
    assert_parses("(((92)))", "92");
    assert_parses("true", "true");
    assert_parses("false", "false");
    assert_parses("spam", "spam");
    assert_parses("1 == 1", "(== 1 1)");
    assert_parses("1 < 1 + 1", "(< 1 (+ 1 1))");
    assert_parses("1 * 2 > 1", "(> (* 1 2) 1)");
    assert_parses("(1 == 2) == 3", "(== (== 1 2) 3)");
    assert_parses("1 < (2 > 3)", "(< 1 (> 2 3))");
    assert_parses("1 + 2 * 3", "(+ 1 (* 2 3))");
    assert_parses("if 1 then 2 else if 3 then 4 else 5", "(if 1 2 (if 3 4 5))");
    assert_parses("if 1 then if 2 then 3 else 4 else 5", "(if 1 (if 2 3 4) 5)");
    assert_parses("f 92 + x y z", "(+ (f 92) ((x y) z))");
    assert_parses("1 * f 92", "(* 1 (f 92))");
}

#[test]
fn mod_test_good_fns() {
    assert_parses("fun id(x: int): int is x", "(λ id (x: int): int x)");
    assert_parses(
        "fun id(x: (int -> int) -> bool): bool -> (int -> int) is x",
        "(λ id (x: (int -> int) -> bool): bool -> int -> int x)",
    );
    assert_parses(
        "fun id(x: int): int is fun id(x: int): int is x",
        "(λ id (x: int): int (λ id (x: int): int x))",
    );
    assert_parses(
        "fun factorial(n: int): int is if n == 0 then 1 else n * factorial (n - 1)",
        "(λ factorial (n: int): int (if (== n 0) 1 (* n (factorial (- n 1)))))",
    );
}

#[test]
fn mod_test_bad_expressions() {
    you_shall_not_parse("((92)");
    you_shall_not_parse("1 == 1 == 1");
    you_shall_not_parse("1 < 1 > 1");
}

#[test]
fn parser_test_good_expressions() {
    assert_parses("92", "92");
    assert_parses("(92)", "92");
    assert_parses("(((92)))", "92");
    assert_parses("true", "true");
    assert_parses("false", "false");
    assert_parses("spam", "spam");
    assert_parses("1 == 1", "(== 1 1)");
    assert_parses("1 < 1 + 1", "(< 1 (+ 1 1))");
    assert_parses("1 * 2 > 1", "(> (* 1 2) 1)");
    assert_parses("(1 == 2) == 3", "(== (== 1 2) 3)");
    assert_parses("1 < (2 > 3)", "(< 1 (> 2 3))");
    assert_parses("1 + 2 * 3", "(+ 1 (* 2 3))");
    assert_parses("if 1 then 2 else if 3 then 4 else 5", "(if 1 2 (if 3 4 5))");
    assert_parses("if 1 then if 2 then 3 else 4 else 5", "(if 1 (if 2 3 4) 5)");
    assert_parses("f 92 + x y z", "(+ (f 92) ((x y) z))");
    assert_parses("1 * f 92", "(* 1 (f 92))");
    assert_parses("0 * if 1 then 2 else 3", "(* 0 (if 1 2 3))")
}

#[test]
fn parser_test_good_fns() {
    assert_parses("fun id(x: int): int is x", "(λ id (x: int): int x)");

    assert_parses(
        "fun id(x: (int -> int) -> bool): bool -> (int -> int) is x",
        "(λ id (x: (int -> int) -> bool): bool -> int -> int x)",
    );

    assert_parses(
        "fun id(x: int): int is fun id(x: int): int is x",
        "(λ id (x: int): int (λ id (x: int): int x))",
    );

    assert_parses(
        "fun factorial(n: int): int is if n == 0 then 1 else n * factorial (n - 1)",
        "(λ factorial (n: int): int (if (== n 0) 1 (* n (factorial (- n 1)))))",
    );

    assert_parses("1 + fun f(n:bool):bool is n + 1", "(+ 1 (λ f (n: bool): bool (+ n 1)))");
}

#[test]
fn test_let_fn() {
    assert_parses("let fun f(x: int): int is 92 in f 1", "(let f λ(x: int): int 92 in (f 1))")
}

#[test]
fn test_let_rec() {
    assert_parses(
        "let rec fun a(x: int): int is b x
                   and fun b(x: int): int is a x
                   in a b 92",
        "(letrec [(λ a (x: int): int (b x))(λ b (x: int): int (a x))] in ((a b) 92))",
    )
}

#[test]
fn parser_test_bad_expressions() {
    you_shall_not_parse("((92)");
    you_shall_not_parse("1 == 1 == 1");
    you_shall_not_parse("1 < 1 > 1");
}

#[test]
fn test_expr_is_small() {
    let size = std::mem::size_of::<Expr>();
    assert!(size <= 32, "Expr size is to large: {}", size);
}

fn error_of(expr: &str) -> (usize, String) {
    match parse(expr) {
        Ok(e) => panic!("`{}` should not parse, got {}", expr, e.to_debug_string()),
        Err(e) => (e.location(), e.message().clone()),
    }
}

#[test]
fn parse_errors_say_where_and_what() {
    assert_eq!(error_of("((92)"), (5, "Expected `)`".to_string()));
    assert_eq!(error_of("1 == 1 == 1"), (11, "Chained comparisons are not allowed".to_string()));
    assert_eq!(error_of(""), (0, "Expected expression".to_string()));
    assert_eq!(error_of("1 +"), (3, "Expected expression".to_string()));
    assert_eq!(error_of("1 ?"), (2, "Unknown token".to_string()));
    assert_eq!(error_of("1 )"), (2, "Expected end of input".to_string()));
    assert_eq!(error_of("if 1 else 2"), (10, "Expected `then`".to_string()));
    assert_eq!(error_of("if 1 then 2 then 3"), (17, "Expected `else`".to_string()));
    assert_eq!(error_of("fun 1(x: int): int is x"), (5, "Expected identifier".to_string()));
    assert_eq!(error_of("fun f x: int): int is x"), (7, "Expected `(`".to_string()));
    assert_eq!(error_of("fun f(x int): int is x"), (11, "Expected `:`".to_string()));
    assert_eq!(error_of("fun f(x: num): int is x"), (12, "Expected type".to_string()));
    assert_eq!(error_of("fun f(x: int): int x"), (20, "Expected `is` before function body".to_string()));
    assert_eq!(error_of("let fun f(x: int): int is x f 1"), (31, "Expected `in`".to_string()));
    assert_eq!(error_of("let f"), (5, "Expected `fun`".to_string()));
}

#[test]
fn keywords_are_whole_words() {
    assert_parses("inc 1", "(inc 1)");
    assert_parses("iffy", "iffy");
    assert_parses("  1   +   2  ", "(+ 1 2)");
}

#[test]
fn divisions_print_with_a_backslash() {
    assert_parses("8 / 2 - 1", "(- (\\ 8 2) 1)");
}

#[test]
fn numbers_beyond_64_bits() {
    assert!(try_parse("99999999999999999999").is_none());
    assert!(try_parse("1 + 99999999999999999999").is_none());
    assert!(try_parse("9223372036854775807").unwrap().is_ok());
    match try_parse("1 )") {
        Some(Err(e)) => assert_eq!(e.message(), "Expected end of input"),
        _ => panic!("expected an error"),
    }
}

#[test]
fn types_parse() {
    assert_eq!(parse_type("int").unwrap().to_debug_string(), "int");
    assert_eq!(parse_type("(int -> int) -> bool").unwrap().to_debug_string(), "(int -> int) -> bool");
    assert_eq!(parse_type("int -> int -> int").unwrap().to_debug_string(), "int -> int -> int");
    assert!(parse_type("int ->").is_err());
    assert!(parse_type("float").is_err());
}

#[test]
fn expressions_built_by_hand_print_like_parsed_ones() {
    let id = |s: &str| Ident::from_str(s);
    let body = cmp_op(Expr::Var(id("n")), CmpOp::Eq, Expr::Literal(Literal::Number(0)));
    let body = if_expr(
        body,
        Expr::Literal(Literal::Bool(true)),
        application(Expr::Var(id("odd")), arith_op(Expr::Var(id("n")), ArithOp::Sub, Expr::Literal(Literal::Number(1)))),
    );
    let even = fun(id("even"), id("n"), Type::Int, Type::Bool, body);
    let odd = fun(id("odd"), id("n"), Type::Int, Type::Bool, application(Expr::Var(id("even")), Expr::Var(id("n"))));
    let e = let_rec_expr(vec![even], odd, application(Expr::Var(id("even")), Expr::Literal(Literal::Number(4))));
    let parsed = parse(
        "let rec fun even(n: int): bool is if n == 0 then true else odd (n - 1)
         and fun odd(n: int): bool is even n in even 4",
    )
    .unwrap();
    assert_eq!(e.to_debug_string(), parsed.to_debug_string());

    let f = fun(id("f"), id("x"), Type::Int, Type::Int, Expr::Var(id("x")));
    let e = let_fun_expr(f, application(Expr::Var(id("f")), Expr::Literal(Literal::Number(1))));
    assert_eq!(e.to_debug_string(), "(let f λ(x: int): int x in (f 1))");
}

#[test]
fn type_texts_with_huge_numbers() {
    assert!(try_parse_type("int -> 99999999999999999999").is_none());
    match try_parse_type("int -> bool") {
        Some(Ok(t)) => assert_eq!(t, Type::arrow(Type::Int, Type::Bool)),
        _ => panic!("expected a type"),
    }
    match try_parse_type("int bool") {
        Some(Err(e)) => assert_eq!((e.location(), e.message().as_str()), (4, "Expected end of input")),
        _ => panic!("expected an error"),
    }
}

#[test]
fn error_positions_count_bytes() {
    assert_eq!(error_of("é ?"), (3, "Unknown token".to_string()));
    assert_eq!(error_of("λx )"), (4, "Expected end of input".to_string()));
}

#[test]
fn printed_types_read_back() {
    let types = vec![
        Type::Int,
        Type::Bool,
        Type::arrow(Type::Int, Type::Bool),
        Type::arrow(Type::arrow(Type::Int, Type::Int), Type::Bool),
        Type::arrow(Type::Int, Type::arrow(Type::Bool, Type::arrow(Type::Int, Type::Int))),
        Type::arrow(Type::arrow(Type::arrow(Type::Int, Type::Bool), Type::Int), Type::arrow(Type::Bool, Type::Bool)),
    ];
    for t in types {
        let text = t.to_debug_string();
        assert_eq!(parse_type(&text).unwrap(), t, "{}", text);
    }
}

#[test]
fn leading_white_space_does_not_matter() {
    let text = "let fun f(x: int): int is x * 2 in f 46";
    let plain = parse(text).unwrap().to_debug_string();
    for prefix in ["\n", " ", "\t\r\n  ", "\u{3000}"] {
        let padded = format!("{}{}", prefix, text);
        assert_eq!(parse(&padded).unwrap().to_debug_string(), plain);
    }
}
