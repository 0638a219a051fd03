use miniml::ir::{desugar, BinOpKind, Ir, ANON_NAME, DISPATCH_ARG, DISPATCH_NAME};
use miniml::syntax::parser::parse;

fn var_name(ir: &Ir) -> usize {
    match ir {
        Ir::Var(n) => *n,
        _ => panic!("not a variable"),
    }
}

#[test]
fn identifiers_are_numbered_in_order_of_first_use() {
    let e = parse("x y x z y").unwrap();
    let ir = desugar(&e);
    let mut names = Vec::new();
    let mut cur = &ir;
    loop {
        match cur {
            Ir::Apply(a) => {
                names.push(var_name(&a.arg));
                cur = &a.fun;
            }
            other => {
                names.push(var_name(other));
                break;
            }
        }
    }
    names.reverse();
    assert_eq!(names, vec![0, 2, 0, 4, 2]);
}

#[test]
fn let_fun_becomes_a_call_of_an_anonymous_function() {
    let e = parse("let fun f(x: int): int is x in f 1").unwrap();
    match desugar(&e) {
        Ir::Apply(a) => {
            match &a.fun {
                Ir::Fun(anon) => {
                    assert_eq!(anon.fun_name, ANON_NAME);
                    assert_eq!(anon.arg_name, 0);
                    match &anon.body {
                        Ir::Apply(call) => {
                            assert_eq!(var_name(&call.fun), 0);
                            assert!(matches!(call.arg, Ir::IntLiteral(1)));
                        }
                        _ => panic!("expected a call"),
                    }
                }
                _ => panic!("expected a function"),
            }
            match &a.arg {
                Ir::Fun(f) => {
                    assert_eq!(f.fun_name, 0);
                    assert_eq!(f.arg_name, 2);
                    assert_eq!(var_name(&f.body), 2);
                }
                _ => panic!("expected a function"),
            }
        }
        _ => panic!("expected an application"),
    }
}

fn fun_of(ir: &Ir) -> &miniml::ir::Fun {
    match ir {
        Ir::Fun(f) => f,
        _ => panic!("expected a function"),
    }
}

/// The arm that the dispatcher's body selects for `tag`.
fn selected(body: &Ir, tag: i64) -> Option<&Ir> {
    match body {
        Ir::If(i) => match &i.cond {
            Ir::BinOp(b) => {
                assert_eq!(var_name(&b.lhs), DISPATCH_ARG);
                assert!(b.kind == BinOpKind::Eq);
                match b.rhs {
                    Ir::IntLiteral(k) if k == tag => Some(&i.tru),
                    _ => selected(&i.fls, tag),
                }
            }
            _ => panic!("expected a test"),
        },
        _ => None,
    }
}

#[test]
fn let_rec_dispatches_by_tag_and_binds_the_other_names() {
    let e = parse("let rec fun f(x: int): int is g x and fun g(y: int): int is y in f 1").unwrap();
    let ir = desugar(&e);
    let (outer, dispatcher) = match &ir {
        Ir::Apply(a) => (fun_of(&a.fun), fun_of(&a.arg)),
        _ => panic!("expected an application"),
    };
    assert_eq!(outer.fun_name, ANON_NAME);
    assert_eq!(outer.arg_name, DISPATCH_NAME);
    assert_eq!(dispatcher.fun_name, DISPATCH_NAME);
    assert_eq!(dispatcher.arg_name, DISPATCH_ARG);
    // f is 0, x is 2, g is 4, y is 6.
    let f = fun_of(selected(&dispatcher.body, 0).unwrap());
    let g = fun_of(selected(&dispatcher.body, 1).unwrap());
    assert!(selected(&dispatcher.body, 2).is_none());
    assert_eq!((f.fun_name, f.arg_name), (0, 2));
    assert_eq!((g.fun_name, g.arg_name), (4, 6));
    // Inside f, g is bound to a function that calls the dispatcher with tag 1.
    match &f.body {
        Ir::Apply(a) => {
            let anon = fun_of(&a.fun);
            assert_eq!((anon.fun_name, anon.arg_name), (ANON_NAME, 4));
            let binding = fun_of(&a.arg);
            assert_eq!((binding.fun_name, binding.arg_name), (4, ANON_NAME));
            match &binding.body {
                Ir::Apply(call) => {
                    assert_eq!(var_name(&call.arg), ANON_NAME);
                    match &call.fun {
                        Ir::Apply(d) => {
                            assert_eq!(var_name(&d.fun), DISPATCH_NAME);
                            assert!(matches!(d.arg, Ir::IntLiteral(1)));
                        }
                        _ => panic!("expected a call of the dispatcher"),
                    }
                }
                _ => panic!("expected a call"),
            }
        }
        _ => panic!("expected the binding of g"),
    }
}
