//! Reading back the printed form of a type gives the type.
use vstd::prelude::*;
use crate::syntax::grammar::{
    Paren, SFail, Sym, Token, alpha_end, eat, is_letter, keyword_of, p_atom_type, p_expect,
    p_type, scan, spec_parse_type, sym_at, whitespace, word_token, ws_end,
};
use crate::syntax::show::show_type;
use crate::syntax::types::Type;

verus! {

/// The printed form of `t` on the left of an arrow: in parentheses where it
/// is itself a function type.
pub open spec fn show_operand(t: Type) -> Seq<char> {
    match t {
        Type::Arrow(_, _) => "("@ + show_type(t) + ")"@,
        _ => show_type(t),
    }
}

/// A place where a word ends: the end of the text, or a character that is
/// not a letter.
pub open spec fn word_ends(cs: Seq<char>, q: int) -> bool {
    q == cs.len() || (0 <= q < cs.len() && !is_letter(cs[q]))
}

/// After the white space from `q`, the text goes on with a token that is
/// not an arrow.
pub open spec fn no_arrow_after(cs: Seq<char>, q: int) -> bool {
    eat(cs, ws_end(cs, q)) matches Some((t, _)) && t != Token::Sym(Sym::Arrow)
}

proof fn lemma_show_shape(t: Type)
    ensures
        show_type(t).len() >= 3,
        show_type(t)[0] == 'i' || show_type(t)[0] == 'b' || show_type(t)[0] == '(',
        show_operand(t).len() >= 3,
        show_operand(t)[0] == 'i' || show_operand(t)[0] == 'b' || show_operand(t)[0] == '(',
        t matches Type::Arrow(l, r) ==> show_type(t) =~= show_operand(*l) + " -> "@ + show_type(*r),
    decreases t,
{
    reveal_strlit("int");
    reveal_strlit("bool");
    reveal_strlit("(");
    reveal_strlit(")");
    reveal_strlit(") -> ");
    reveal_strlit(" -> ");
    if let Type::Arrow(l, r) = t {
        lemma_show_shape(*l);
        lemma_show_shape(*r);
        match *l {
            Type::Arrow(_, _) => {
                assert(show_type(t) =~= show_operand(*l) + " -> "@ + show_type(*r));
            },
            _ => {},
        }
    }
}

/// The pieces of a text that spells `a` followed by `b`.
proof fn lemma_split(cs: Seq<char>, pos: int, a: Seq<char>, b: Seq<char>)
    requires
        0 <= pos,
        pos + a.len() + b.len() <= cs.len(),
        cs.subrange(pos, pos + a.len() + b.len()) == a + b,
    ensures
        cs.subrange(pos, pos + a.len()) == a,
        cs.subrange(pos + a.len(), pos + a.len() + b.len()) == b,
{
    let whole = cs.subrange(pos, pos + a.len() + b.len());
    assert forall|j: int| 0 <= j < a.len() implies cs[pos + j] == a[j] by {
        assert(whole[j] == cs[pos + j]);
        assert((a + b)[j] == a[j]);
    }
    assert forall|j: int| 0 <= j < b.len() implies cs[pos + a.len() + j] == b[j] by {
        assert(whole[a.len() + j] == cs[pos + a.len() + j]);
        assert((a + b)[a.len() + j] == b[j]);
    }
    assert(cs.subrange(pos, pos + a.len()) =~= a);
    assert(cs.subrange(pos + a.len(), pos + a.len() + b.len()) =~= b);
}

/// The run of letters from `i` ends at `e`.
proof fn lemma_alpha_run(cs: Seq<char>, i: int, e: int)
    requires
        0 <= i <= e,
        word_ends(cs, e),
        forall|j: int| i <= j < e ==> is_letter(#[trigger] cs[j]),
    ensures
        alpha_end(cs, i) == e,
    decreases e - i,
{
    if i < e {
        lemma_alpha_run(cs, i + 1, e);
    }
}

/// White space from `q` ends at `q` where no white space stands there.
proof fn lemma_ws_stop(cs: Seq<char>, q: int)
    requires
        0 <= q,
        q < cs.len() ==> !whitespace(cs[q]),
    ensures
        ws_end(cs, q) == q,
{
}

/// The word `int` or `bool` at `pos` is read as an identifier.
proof fn lemma_type_word(cs: Seq<char>, pos: int, w: Seq<char>)
    requires
        w == "int"@ || w == "bool"@,
        0 <= pos,
        pos + w.len() <= cs.len() <= usize::MAX,
        cs.subrange(pos, pos + w.len()) == w,
        word_ends(cs, pos + w.len()),
    ensures
        scan(cs, pos) == Some((Token::Ident(pos as usize, (pos + w.len()) as usize), w.len() as int)),
{
    reveal_strlit("int");
    reveal_strlit("bool");
    reveal_strlit("true");
    reveal_strlit("false");
    reveal_strlit("if");
    reveal_strlit("then");
    reveal_strlit("else");
    reveal_strlit("fun");
    reveal_strlit("is");
    reveal_strlit("let");
    reveal_strlit("rec");
    reveal_strlit("and");
    reveal_strlit("in");
    let e = pos + w.len();
    assert forall|j: int| pos <= j < e implies is_letter(#[trigger] cs[j]) by {
        assert(cs.subrange(pos, e)[j - pos] == w[j - pos]);
    }
    assert(cs[pos] == w[0]);
    lemma_alpha_run(cs, pos, e);
    let s = cs.subrange(pos, e);
    assert(s != "true"@) by {
        assert(s[0] != "true"@[0]);
    }
    assert(s != "false"@) by {
        if s.len() == 5 {
            assert(s[0] != "false"@[0]);
        }
    }
    assert(keyword_of(s) is None) by {
        assert(s[0] != "then"@[0]);
        assert(s[0] != "fun"@[0]);
        assert(s[0] != "rec"@[0]);
        assert(s[0] != "and"@[0]);
        assert(s[0] != "let"@[0]);
        if s == "int"@ {
            assert(s.len() != "if"@.len());
            assert(s.len() != "is"@.len());
            assert(s.len() != "in"@.len());
            assert(s[0] != "else"@[0]);
        } else {
            assert(s[0] != "if"@[0]);
            assert(s[0] != "is"@[0]);
            assert(s[0] != "in"@[0]);
            assert(s[0] != "else"@[0]);
        }
    }
    assert(word_token(cs, pos, e) == Token::Ident(pos as usize, e as usize));
}

/// An operand printed at `pos` is read back as one atom.
proof fn lemma_read_operand(t: Type, cs: Seq<char>, pos: int, fuel: nat)
    requires
        0 <= pos,
        pos + show_operand(t).len() <= cs.len() <= usize::MAX,
        cs.subrange(pos, pos + show_operand(t).len()) == show_operand(t),
        word_ends(cs, pos + show_operand(t).len()),
        fuel >= 2 * show_operand(t).len() + 1,
    ensures
        p_atom_type(cs, pos, fuel) == Ok::<(Type, int), SFail>((t, ws_end(cs, pos + show_operand(t).len()))),
    decreases t, if t is Arrow { 1nat } else { 0nat },
{
    reveal_strlit("int");
    reveal_strlit("bool");
    reveal_strlit("(");
    reveal_strlit(")");
    let m = show_operand(t).len() as int;
    lemma_show_shape(t);
    match t {
        Type::Int => {
            lemma_type_word(cs, pos, "int"@);
        },
        Type::Bool => {
            lemma_type_word(cs, pos, "bool"@);
        },
        Type::Arrow(_, _) => {
            let n = show_type(t).len() as int;
            lemma_split(cs, pos, "("@ + show_type(t), ")"@);
            lemma_split(cs, pos, "("@, show_type(t));
            assert(cs[pos] == '(') by {
                assert(cs.subrange(pos, pos + 1)[0] == "("@[0]);
            }
            assert(cs[pos + 1] == show_type(t)[0]) by {
                assert(cs.subrange(pos + 1, pos + 1 + n)[0] == show_type(t)[0]);
            }
            assert(cs[pos + 1 + n] == ')') by {
                assert(cs.subrange(pos + 1 + n, pos + 2 + n)[0] == ")"@[0]);
            }
            lemma_ws_stop(cs, pos + 1);
            lemma_ws_stop(cs, pos + 1 + n);
            assert(eat(cs, pos) == Some((Token::Paren(Paren::Open), pos + 1)));
            assert(eat(cs, pos + 1 + n) == Some((Token::Paren(Paren::Close), ws_end(cs, pos + 2 + n))));
            lemma_read_type(t, cs, pos + 1, (fuel - 1) as nat);
            assert(p_expect(cs, pos + 1 + n, Token::Paren(Paren::Close), "Expected `)`"@) == Ok::<((), int), SFail>(((), ws_end(cs, pos + m))));
        },
    }
}

/// A type printed at `pos` is read back.
proof fn lemma_read_type(t: Type, cs: Seq<char>, pos: int, fuel: nat)
    requires
        0 <= pos,
        pos + show_type(t).len() <= cs.len() <= usize::MAX,
        cs.subrange(pos, pos + show_type(t).len()) == show_type(t),
        word_ends(cs, pos + show_type(t).len()),
        no_arrow_after(cs, pos + show_type(t).len()),
        fuel >= 2 * show_type(t).len() + 2,
    ensures
        p_type(cs, pos, fuel) == Ok::<(Type, int), SFail>((t, ws_end(cs, pos + show_type(t).len()))),
    decreases t, if t is Arrow { 0nat } else { 1nat },
{
    reveal_strlit(" -> ");
    lemma_show_shape(t);
    let n = show_type(t).len() as int;
    match t {
        Type::Arrow(l, r) => {
            let a = show_operand(*l);
            let m = a.len() as int;
            let k = show_type(*r).len() as int;
            lemma_show_shape(*l);
            lemma_show_shape(*r);
            assert(show_type(t) == a + " -> "@ + show_type(*r));
            lemma_split(cs, pos, a + " -> "@, show_type(*r));
            lemma_split(cs, pos, a, " -> "@);
            let q = pos + m;
            assert forall|j: int| 0 <= j < 4 implies cs[q + j] == " -> "@[j] by {
                assert(cs.subrange(q, q + 4)[j] == " -> "@[j]);
            }
            assert(cs[q + 4] == show_type(*r)[0]) by {
                assert(cs.subrange(q + 4, q + 4 + k)[0] == show_type(*r)[0]);
            }
            let arrow = " -> "@;
            assert(arrow.len() == 4);
            assert(arrow[0] == ' ' && arrow[1] == '-' && arrow[2] == '>' && arrow[3] == ' ');
            assert(cs[q + 0] == arrow[0]);
            assert(cs[q + 1] == arrow[1]);
            assert(cs[q + 2] == arrow[2]);
            assert(cs[q + 3] == arrow[3]);
            assert(cs[q] == ' ');
            assert(word_ends(cs, q));
            lemma_read_operand(*l, cs, pos, (fuel - 1) as nat);
            lemma_ws_stop(cs, q + 1);
            assert(ws_end(cs, q) == q + 1);
            assert(sym_at(cs, q + 1) == Some((Sym::Arrow, 2int)));
            lemma_ws_stop(cs, q + 4);
            assert(ws_end(cs, q + 3) == q + 4);
            assert(eat(cs, q + 1) == Some((Token::Sym(Sym::Arrow), q + 4)));
            lemma_read_type(*r, cs, q + 4, (fuel - 1) as nat);
        },
        _ => {
            assert(show_operand(t) == show_type(t));
            lemma_read_operand(t, cs, pos, (fuel - 1) as nat);
        },
    }
}

/// Printing a type and parsing the printed text as a type gives back the
/// type; function types associate to the right, so that the parentheses
/// that printing puts around a function type on the left of an arrow are
/// the only ones needed.
pub proof fn law_parse_printed_type(t: Type)
    requires
        show_type(t).len() <= usize::MAX,
    ensures
        spec_parse_type(show_type(t)) == Ok::<Type, SFail>(t),
{
    let cs = show_type(t);
    let n = cs.len() as int;
    lemma_show_shape(t);
    assert(cs.subrange(0, n) =~= cs);
    lemma_ws_stop(cs, 0);
    lemma_ws_stop(cs, n);
    assert(eat(cs, n) == Some((Token::Eof, n)));
    lemma_read_type(t, cs, 0, crate::syntax::grammar::budget(cs, 0) + 16);
}

} // verus!
