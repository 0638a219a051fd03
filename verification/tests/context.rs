use miniml::context::{Context, StackContext};
use miniml::syntax::ident::Ident;

#[test]
fn a_lookup_finds_the_latest_binding() {
    let mut ctx: StackContext<i64> = StackContext::new();
    let x = Ident::from_str("x");
    let y = Ident::from_str("y");
    assert_eq!(ctx.lookup(&x), None);
    ctx.push(&x, 1);
    ctx.push(&y, 2);
    assert_eq!(ctx.lookup(&x), Some(&1));
    assert_eq!(ctx.lookup(&y), Some(&2));
    ctx.push(&x, 3);
    assert_eq!(ctx.lookup(&x), Some(&3));
    assert_eq!(ctx.lookup(&y), Some(&2));
    ctx.pop();
    assert_eq!(ctx.lookup(&x), Some(&1));
    ctx.pop();
    ctx.pop();
    assert_eq!(ctx.lookup(&x), None);
}

#[test]
fn an_empty_context_binds_nothing() {
    let ctx: StackContext<bool> = Context::empty();
    assert_eq!(ctx.lookup(&Ident::from_str("anything")), None);
}
