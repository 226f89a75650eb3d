//! What holds of every parse: variable slots, and that a parse is a function
//! of its tokens.
use vstd::prelude::*;
use crate::parser::{
    add_op, add_rest, adv, bin, eq_op, eq_rest, moved, mul_op, mul_rest, p_add, p_assign, p_equality,
    p_expr, p_mul, p_primary, p_program, p_relational, p_stmt, p_unary, parse, rel_op, rel_rest,
    resolve, slot_offset, tok_at, Ast, BinOp, PRes, PState, ParseError, SLOT_STRIDE,
};
use crate::tokenizer::Tok;

verus! {

/// Every variable reference in `a` names a variable of `vars` and carries the
/// slot of that variable's position in `vars`.
pub open spec fn slots_ok(a: Ast, vars: Seq<Seq<char>>) -> bool
    decreases a,
{
    match a {
        Ast::Num(_) => true,
        Ast::Var(n, o) => vars.contains(n) && o == slot_offset(vars.index_of(n)),
        Ast::Bin(_, l, r) => slots_ok(*l, vars) && slots_ok(*r, vars),
        Ast::Ret(e) => slots_ok(*e, vars),
    }
}

/// `a` is a prefix of `b`.
pub open spec fn extends(a: Seq<Seq<char>>, b: Seq<Seq<char>>) -> bool {
    a.len() <= b.len() && b.subrange(0, a.len() as int) == a
}

/// A successful parse step from `st` keeps the variable table free of
/// duplicates, only appends to it, and gives its tree the slots of the table.
pub open spec fn step_ok(r: PRes, st: PState) -> bool {
    match r {
        Ok((a, s1)) => s1.vars.no_duplicates() && extends(st.vars, s1.vars) && slots_ok(a, s1.vars),
        Err(_) => true,
    }
}

proof fn lemma_extends_trans(a: Seq<Seq<char>>, b: Seq<Seq<char>>, c: Seq<Seq<char>>)
    requires
        extends(a, b),
        extends(b, c),
    ensures
        extends(a, c),
{
    assert(c.subrange(0, a.len() as int) =~= b.subrange(0, a.len() as int));
}

/// Slots given against a table stay right when the table grows.
proof fn lemma_slots_grow(a: Ast, v: Seq<Seq<char>>, w: Seq<Seq<char>>)
    requires
        slots_ok(a, v),
        extends(v, w),
        w.no_duplicates(),
    ensures
        slots_ok(a, w),
    decreases a,
{
    match a {
        Ast::Num(_) => {},
        Ast::Var(n, o) => {
            let i = v.index_of(n);
            assert(v[i] == n);
            assert(w[i] == w.subrange(0, v.len() as int)[i]);
            assert(w.contains(n));
            let j = w.index_of(n);
            assert(w[j] == n);
        },
        Ast::Bin(_, l, r) => {
            lemma_slots_grow(*l, v, w);
            lemma_slots_grow(*r, v, w);
        },
        Ast::Ret(e) => {
            lemma_slots_grow(*e, v, w);
        },
    }
}

proof fn lemma_extends_refl(a: Seq<Seq<char>>)
    ensures
        extends(a, a),
{
    assert(a.subrange(0, a.len() as int) =~= a);
}

/// A binary step: an operand `r` parsed from `s0` to `s1` after `lhs`.
proof fn lemma_bin_step(op: BinOp, lhs: Ast, r: Ast, st: PState, s1: PState, swap: bool)
    requires
        st.vars.no_duplicates(),
        slots_ok(lhs, st.vars),
        step_ok(Ok((r, s1)), st),
    ensures
        s1.vars.no_duplicates(),
        slots_ok(if swap { bin(op, r, lhs) } else { bin(op, lhs, r) }, s1.vars),
        slots_ok(bin(op, lhs, r), s1.vars),
{
    lemma_slots_grow(lhs, st.vars, s1.vars);
}

proof fn lemma_primary(t: Seq<Tok>, st: PState)
    requires
        st.vars.no_duplicates(),
    ensures
        step_ok(p_primary(t, st), st),
    decreases t.len() - st.pos, 2int,
{
    match tok_at(t, st.pos) {
        Tok::Num(_) => {
            lemma_extends_refl(st.vars);
        },
        Tok::Ident(name) => {
            let vars = st.vars;
            if vars.contains(name) {
                lemma_extends_refl(vars);
            } else {
                let w = vars.push(name);
                assert(w.subrange(0, vars.len() as int) =~= vars);
                assert forall|a: int, b: int| 0 <= a < w.len() && 0 <= b < w.len() && a != b implies w[a]
                    != w[b] by {
                    if a < vars.len() && b < vars.len() {
                    } else if a < vars.len() {
                        assert(w[a] == vars[a]);
                        assert(!vars.contains(name));
                    } else {
                        assert(w[b] == vars[b]);
                    }
                }
                assert(w[vars.len() as int] == name);
                assert(w.contains(name));
                let j = w.index_of(name);
                assert(w[j] == name);
            }
        },
        Tok::LParen => {
            lemma_expr(t, adv(st));
        },
        _ => {},
    }
}

proof fn lemma_unary(t: Seq<Tok>, st: PState)
    requires
        st.vars.no_duplicates(),
    ensures
        step_ok(p_unary(t, st), st),
    decreases t.len() - st.pos, 4int,
{
    if tok_at(t, st.pos) == Tok::Op("+"@) {
        lemma_primary(t, adv(st));
    } else if tok_at(t, st.pos) == Tok::Op("-"@) {
        lemma_primary(t, adv(st));
        if let Ok((a, s1)) = p_primary(t, adv(st)) {
            assert(slots_ok(Ast::Num(0), s1.vars));
            assert(slots_ok(bin(BinOp::Sub, Ast::Num(0), a), s1.vars));
        }
    } else {
        lemma_primary(t, st);
    }
}

proof fn lemma_mul_rest(t: Seq<Tok>, lhs: Ast, st: PState)
    requires
        st.vars.no_duplicates(),
        slots_ok(lhs, st.vars),
    ensures
        step_ok(mul_rest(t, lhs, st), st),
    decreases t.len() - st.pos, 5int,
{
    lemma_extends_refl(st.vars);
    if let Some(op) = mul_op(tok_at(t, st.pos)) {
        lemma_unary(t, adv(st));
        if let Ok((r, s1)) = p_unary(t, adv(st)) {
            if moved(t, adv(st), s1) {
                lemma_bin_step(op, lhs, r, adv(st), s1, false);
                lemma_mul_rest(t, bin(op, lhs, r), s1);
                if let Ok((a, s2)) = mul_rest(t, bin(op, lhs, r), s1) {
                    lemma_extends_trans(st.vars, s1.vars, s2.vars);
                }
            }
        }
    }
}

proof fn lemma_mul(t: Seq<Tok>, st: PState)
    requires
        st.vars.no_duplicates(),
    ensures
        step_ok(p_mul(t, st), st),
    decreases t.len() - st.pos, 6int,
{
    lemma_unary(t, st);
    if let Ok((l, s1)) = p_unary(t, st) {
        if moved(t, st, s1) {
            lemma_mul_rest(t, l, s1);
            if let Ok((a, s2)) = mul_rest(t, l, s1) {
                lemma_extends_trans(st.vars, s1.vars, s2.vars);
            }
        }
    }
}

proof fn lemma_add_rest(t: Seq<Tok>, lhs: Ast, st: PState)
    requires
        st.vars.no_duplicates(),
        slots_ok(lhs, st.vars),
    ensures
        step_ok(add_rest(t, lhs, st), st),
    decreases t.len() - st.pos, 7int,
{
    lemma_extends_refl(st.vars);
    if let Some(op) = add_op(tok_at(t, st.pos)) {
        lemma_mul(t, adv(st));
        if let Ok((r, s1)) = p_mul(t, adv(st)) {
            if moved(t, adv(st), s1) {
                lemma_bin_step(op, lhs, r, adv(st), s1, false);
                lemma_add_rest(t, bin(op, lhs, r), s1);
                if let Ok((a, s2)) = add_rest(t, bin(op, lhs, r), s1) {
                    lemma_extends_trans(st.vars, s1.vars, s2.vars);
                }
            }
        }
    }
}

proof fn lemma_add(t: Seq<Tok>, st: PState)
    requires
        st.vars.no_duplicates(),
    ensures
        step_ok(p_add(t, st), st),
    decreases t.len() - st.pos, 8int,
{
    lemma_mul(t, st);
    if let Ok((l, s1)) = p_mul(t, st) {
        if moved(t, st, s1) {
            lemma_add_rest(t, l, s1);
            if let Ok((a, s2)) = add_rest(t, l, s1) {
                lemma_extends_trans(st.vars, s1.vars, s2.vars);
            }
        }
    }
}

proof fn lemma_rel_rest(t: Seq<Tok>, lhs: Ast, st: PState)
    requires
        st.vars.no_duplicates(),
        slots_ok(lhs, st.vars),
    ensures
        step_ok(rel_rest(t, lhs, st), st),
    decreases t.len() - st.pos, 9int,
{
    lemma_extends_refl(st.vars);
    if let Some((op, swap)) = rel_op(tok_at(t, st.pos)) {
        lemma_add(t, adv(st));
        if let Ok((r, s1)) = p_add(t, adv(st)) {
            if moved(t, adv(st), s1) {
                let node = if swap { bin(op, r, lhs) } else { bin(op, lhs, r) };
                lemma_bin_step(op, lhs, r, adv(st), s1, swap);
                lemma_rel_rest(t, node, s1);
                if let Ok((a, s2)) = rel_rest(t, node, s1) {
                    lemma_extends_trans(st.vars, s1.vars, s2.vars);
                }
            }
        }
    }
}

proof fn lemma_relational(t: Seq<Tok>, st: PState)
    requires
        st.vars.no_duplicates(),
    ensures
        step_ok(p_relational(t, st), st),
    decreases t.len() - st.pos, 10int,
{
    lemma_add(t, st);
    if let Ok((l, s1)) = p_add(t, st) {
        if moved(t, st, s1) {
            lemma_rel_rest(t, l, s1);
            if let Ok((a, s2)) = rel_rest(t, l, s1) {
                lemma_extends_trans(st.vars, s1.vars, s2.vars);
            }
        }
    }
}

proof fn lemma_eq_rest(t: Seq<Tok>, lhs: Ast, st: PState)
    requires
        st.vars.no_duplicates(),
        slots_ok(lhs, st.vars),
    ensures
        step_ok(eq_rest(t, lhs, st), st),
    decreases t.len() - st.pos, 11int,
{
    lemma_extends_refl(st.vars);
    if let Some(op) = eq_op(tok_at(t, st.pos)) {
        lemma_relational(t, adv(st));
        if let Ok((r, s1)) = p_relational(t, adv(st)) {
            if moved(t, adv(st), s1) {
                lemma_bin_step(op, lhs, r, adv(st), s1, false);
                lemma_eq_rest(t, bin(op, lhs, r), s1);
                if let Ok((a, s2)) = eq_rest(t, bin(op, lhs, r), s1) {
                    lemma_extends_trans(st.vars, s1.vars, s2.vars);
                }
            }
        }
    }
}

proof fn lemma_equality(t: Seq<Tok>, st: PState)
    requires
        st.vars.no_duplicates(),
    ensures
        step_ok(p_equality(t, st), st),
    decreases t.len() - st.pos, 12int,
{
    lemma_relational(t, st);
    if let Ok((l, s1)) = p_relational(t, st) {
        if moved(t, st, s1) {
            lemma_eq_rest(t, l, s1);
            if let Ok((a, s2)) = eq_rest(t, l, s1) {
                lemma_extends_trans(st.vars, s1.vars, s2.vars);
            }
        }
    }
}

proof fn lemma_assign(t: Seq<Tok>, st: PState)
    requires
        st.vars.no_duplicates(),
    ensures
        step_ok(p_assign(t, st), st),
    decreases t.len() - st.pos, 14int,
{
    lemma_equality(t, st);
    if let Ok((l, s1)) = p_equality(t, st) {
        if tok_at(t, s1.pos) == Tok::Op("="@) && moved(t, st, s1) {
            lemma_assign(t, adv(s1));
            if let Ok((r, s2)) = p_assign(t, adv(s1)) {
                lemma_bin_step(BinOp::Assign, l, r, adv(s1), s2, false);
                lemma_extends_trans(st.vars, s1.vars, s2.vars);
            }
        }
    }
}

proof fn lemma_expr(t: Seq<Tok>, st: PState)
    requires
        st.vars.no_duplicates(),
    ensures
        step_ok(p_expr(t, st), st),
    decreases t.len() - st.pos, 15int,
{
    lemma_assign(t, st);
}

proof fn lemma_stmt(t: Seq<Tok>, st: PState)
    requires
        st.vars.no_duplicates(),
    ensures
        step_ok(p_stmt(t, st), st),
{
    reveal(p_stmt);
    lemma_expr(t, adv(st));
    lemma_expr(t, st);
}

proof fn lemma_program(t: Seq<Tok>, st: PState)
    requires
        st.vars.no_duplicates(),
    ensures
        match p_program(t, st) {
            Ok((stmts, s1)) => {
                &&& s1.vars.no_duplicates()
                &&& extends(st.vars, s1.vars)
                &&& forall|i: int| 0 <= i < stmts.len() ==> slots_ok(#[trigger] stmts[i], s1.vars)
            },
            Err(_) => true,
        },
    decreases t.len() - st.pos,
{
    reveal_with_fuel(p_program, 1);
    lemma_extends_refl(st.vars);
    if tok_at(t, st.pos) != Tok::Eof {
        lemma_stmt(t, st);
        if let Ok((a, s1)) = p_stmt(t, st) {
            if tok_at(t, s1.pos) == Tok::Semi && moved(t, st, s1) {
                lemma_program(t, adv(s1));
                if let Ok((rest, s2)) = p_program(t, adv(s1)) {
                    lemma_extends_trans(st.vars, s1.vars, s2.vars);
                    lemma_slots_grow(a, s1.vars, s2.vars);
                    let all = seq![a] + rest;
                    assert forall|i: int| 0 <= i < all.len() implies slots_ok(#[trigger] all[i], s2.vars) by {
                        if i > 0 {
                            assert(all[i] == rest[i - 1]);
                        }
                    }
                }
            }
        }
    }
}

/// In a parsed program, every reference to a variable, in any statement,
/// carries the slot given at that name's first occurrence: two references to
/// one name never differ in offset, and the table of names has no repeats.
pub proof fn lemma_slots_agree(t: Seq<Tok>)
    requires
        parse(t) is Ok,
    ensures
        parse(t)->Ok_0.1.vars.no_duplicates(),
        forall|i: int|
            0 <= i < parse(t)->Ok_0.0.len() ==> slots_ok(#[trigger] parse(t)->Ok_0.0[i], parse(t)->Ok_0.1.vars),
{
    let st = PState { pos: 0, vars: seq![] };
    lemma_program(t.push(Tok::Eof), st);
}

/// The first variable of a program gets slot 0; each new name gets the slot
/// after the last one.
pub proof fn lemma_first_slot(vars: Seq<Seq<char>>, name: Seq<char>)
    requires
        !vars.contains(name),
    ensures
        resolve(vars, name).0 == Ast::Var(name, -(SLOT_STRIDE as int) * vars.len()),
        resolve(vars, name).1 == vars.push(name),
        resolve(seq![], name).0 == Ast::Var(name, 0),
{
    assert(!Seq::<Seq<char>>::empty().contains(name));
}

/// Parsing is a function of the tokens: two parses of one token sequence, by
/// two fresh parsers, give the same statements and the same variable table.
pub proof fn lemma_parse_deterministic(t1: Seq<Tok>, t2: Seq<Tok>)
    requires
        t1 == t2,
    ensures
        parse(t1) == parse(t2),
{
}

proof fn lemma_reveal_symbols()
    ensures
        "+"@ == seq!['+'],
        "-"@ == seq!['-'],
        "*"@ == seq!['*'],
        "/"@ == seq!['/'],
        "<"@ == seq!['<'],
        "<="@ == seq!['<', '='],
        ">"@ == seq!['>'],
        ">="@ == seq!['>', '='],
        "=="@ == seq!['=', '='],
        "!="@ == seq!['!', '='],
        "="@ == seq!['='],
{
    reveal_strlit("+");
    reveal_strlit("-");
    reveal_strlit("*");
    reveal_strlit("/");
    reveal_strlit("<");
    reveal_strlit("<=");
    reveal_strlit(">");
    reveal_strlit(">=");
    reveal_strlit("==");
    reveal_strlit("!=");
    reveal_strlit("=");
    assert("+"@ =~= seq!['+']);
    assert("-"@ =~= seq!['-']);
    assert("*"@ =~= seq!['*']);
    assert("/"@ =~= seq!['/']);
    assert("<"@ =~= seq!['<']);
    assert("<="@ =~= seq!['<', '=']);
    assert(">"@ =~= seq!['>']);
    assert(">="@ =~= seq!['>', '=']);
    assert("=="@ =~= seq!['=', '=']);
    assert("!="@ =~= seq!['!', '=']);
    assert("="@ =~= seq!['=']);
}

/// A comparison operator: relational (possibly swapping) or equality.
pub open spec fn comparison_node(sym: Seq<char>, x: int, y: int) -> Ast {
    match rel_op(Tok::Op(sym)) {
        Some((op, swap)) => if swap {
            bin(op, Ast::Num(y), Ast::Num(x))
        } else {
            bin(op, Ast::Num(x), Ast::Num(y))
        },
        None => bin(eq_op(Tok::Op(sym)).unwrap(), Ast::Num(x), Ast::Num(y)),
    }
}

/// A lone number at `p`, followed by a token that no add- or mul-level
/// operator matches, is a whole add-level operand.
proof fn lemma_number_operand(t: Seq<Tok>, p: int, n: int)
    requires
        0 <= p,
        p + 1 < t.len(),
        t[p] == Tok::Num(n),
        mul_op(t[p + 1]) is None,
        add_op(t[p + 1]) is None,
    ensures
        p_add(t, PState { pos: p, vars: seq![] }) == Ok::<(Ast, PState), ParseError>(
            (Ast::Num(n), PState { pos: p + 1, vars: seq![] }),
        ),
{
    let st = PState { pos: p, vars: seq![] };
    let s1 = PState { pos: p + 1, vars: seq![] };
    lemma_reveal_symbols();
    assert(p_primary(t, st) == Ok::<(Ast, PState), ParseError>((Ast::Num(n), s1)));
    assert(p_unary(t, st) == Ok::<(Ast, PState), ParseError>((Ast::Num(n), s1)));
    assert(mul_rest(t, Ast::Num(n), s1) == Ok::<(Ast, PState), ParseError>((Ast::Num(n), s1)));
    assert(p_mul(t, st) == Ok::<(Ast, PState), ParseError>((Ast::Num(n), s1)));
    assert(add_rest(t, Ast::Num(n), s1) == Ok::<(Ast, PState), ParseError>((Ast::Num(n), s1)));
}

/// The tokens of one comparison of two numbers, with the end of input.
spec fn comparison_tokens(x: int, y: int, sym: Seq<char>) -> Seq<Tok> {
    seq![Tok::Num(x), Tok::Op(sym), Tok::Num(y)].push(Tok::Eof)
}

proof fn lemma_comparison_tokens(x: int, y: int, sym: Seq<char>)
    requires
        sym == "<"@ || sym == "<="@ || sym == ">"@ || sym == ">="@ || sym == "=="@ || sym == "!="@,
    ensures
        p_add(comparison_tokens(x, y, sym), PState { pos: 0, vars: seq![] })
            == Ok::<(Ast, PState), ParseError>((Ast::Num(x), PState { pos: 1, vars: seq![] })),
        p_add(comparison_tokens(x, y, sym), PState { pos: 2, vars: seq![] })
            == Ok::<(Ast, PState), ParseError>((Ast::Num(y), PState { pos: 3, vars: seq![] })),
        tok_at(comparison_tokens(x, y, sym), 1) == Tok::Op(sym),
        tok_at(comparison_tokens(x, y, sym), 3) == Tok::Eof,
        rel_op(Tok::Op(sym)) is Some || eq_op(Tok::Op(sym)) is Some,
        rel_op(Tok::Op(sym)) is Some ==> eq_op(Tok::Op(sym)) is None,
{
    lemma_reveal_symbols();
    let t = comparison_tokens(x, y, sym);
    assert(t[1] == Tok::Op(sym));
    let c0 = sym[0];
    assert(c0 == '<' || c0 == '>' || c0 == '=' || c0 == '!');
    assert(sym != "*"@) by {
        if sym == "*"@ {
            assert(sym[0] == '*');
        }
    }
    assert(sym != "/"@) by {
        if sym == "/"@ {
            assert(sym[0] == '/');
        }
    }
    assert(sym != "+"@) by {
        if sym == "+"@ {
            assert(sym[0] == '+');
        }
    }
    assert(sym != "-"@) by {
        if sym == "-"@ {
            assert(sym[0] == '-');
        }
    }
    lemma_number_operand(t, 0, x);
    lemma_number_operand(t, 2, y);
}

proof fn lemma_relational_comparison(x: int, y: int, sym: Seq<char>)
    requires
        sym == "<"@ || sym == "<="@ || sym == ">"@ || sym == ">="@ || sym == "=="@ || sym == "!="@,
        rel_op(Tok::Op(sym)) is Some,
    ensures
        p_equality(comparison_tokens(x, y, sym), PState { pos: 0, vars: seq![] })
            == Ok::<(Ast, PState), ParseError>(
            (comparison_node(sym, x, y), PState { pos: 3, vars: seq![] }),
        ),
{
    lemma_comparison_tokens(x, y, sym);
    let t = comparison_tokens(x, y, sym);
    let s0 = PState { pos: 0, vars: seq![] };
    let s3 = PState { pos: 3, vars: seq![] };
    let c = comparison_node(sym, x, y);
    assert(rel_rest(t, c, s3) == Ok::<(Ast, PState), ParseError>((c, s3)));
    assert(rel_rest(t, Ast::Num(x), PState { pos: 1, vars: seq![] }) == Ok::<(Ast, PState), ParseError>(
        (c, s3),
    ));
    assert(p_relational(t, s0) == Ok::<(Ast, PState), ParseError>((c, s3)));
    assert(eq_rest(t, c, s3) == Ok::<(Ast, PState), ParseError>((c, s3)));
}

proof fn lemma_equality_comparison(x: int, y: int, sym: Seq<char>)
    requires
        sym == "<"@ || sym == "<="@ || sym == ">"@ || sym == ">="@ || sym == "=="@ || sym == "!="@,
        rel_op(Tok::Op(sym)) is None,
    ensures
        p_equality(comparison_tokens(x, y, sym), PState { pos: 0, vars: seq![] })
            == Ok::<(Ast, PState), ParseError>(
            (comparison_node(sym, x, y), PState { pos: 3, vars: seq![] }),
        ),
{
    lemma_comparison_tokens(x, y, sym);
    let t = comparison_tokens(x, y, sym);
    let s0 = PState { pos: 0, vars: seq![] };
    let s1 = PState { pos: 1, vars: seq![] };
    let s2 = PState { pos: 2, vars: seq![] };
    let s3 = PState { pos: 3, vars: seq![] };
    let c = comparison_node(sym, x, y);
    assert(rel_rest(t, Ast::Num(x), s1) == Ok::<(Ast, PState), ParseError>((Ast::Num(x), s1)));
    assert(p_relational(t, s0) == Ok::<(Ast, PState), ParseError>((Ast::Num(x), s1)));
    assert(rel_rest(t, Ast::Num(y), s3) == Ok::<(Ast, PState), ParseError>((Ast::Num(y), s3)));
    assert(p_relational(t, s2) == Ok::<(Ast, PState), ParseError>((Ast::Num(y), s3)));
    assert(eq_rest(t, c, s3) == Ok::<(Ast, PState), ParseError>((c, s3)));
    assert(eq_rest(t, Ast::Num(x), s1) == Ok::<(Ast, PState), ParseError>((c, s3)));
}

/// For all numbers `x` and `y`, the tokens of `x < y`, `x <= y`, `x > y`,
/// `x >= y`, `x == y` and `x != y` parse to one statement: a single comparison
/// node over the two numbers, `>` and `>=` with the operands swapped.
pub proof fn lemma_comparison_parse(x: int, y: int, sym: Seq<char>)
    requires
        sym == "<"@ || sym == "<="@ || sym == ">"@ || sym == ">="@ || sym == "=="@ || sym == "!="@,
    ensures
        parse(seq![Tok::Num(x), Tok::Op(sym), Tok::Num(y)]) == Ok::<(Seq<Ast>, PState), ParseError>(
            (seq![comparison_node(sym, x, y)], PState { pos: 3, vars: seq![] }),
        ),
{
    let t = comparison_tokens(x, y, sym);
    let s0 = PState { pos: 0, vars: seq![] };
    let s3 = PState { pos: 3, vars: seq![] };
    let c = comparison_node(sym, x, y);
    lemma_comparison_tokens(x, y, sym);
    if rel_op(Tok::Op(sym)) is Some {
        lemma_relational_comparison(x, y, sym);
    } else {
        lemma_equality_comparison(x, y, sym);
    }
    assert(p_assign(t, s0) == Ok::<(Ast, PState), ParseError>((c, s3)));
    assert(p_expr(t, s0) == Ok::<(Ast, PState), ParseError>((c, s3)));
    assert(tok_at(t, 0) == Tok::Num(x));
    reveal(p_stmt);
    assert(p_stmt(t, s0) == Ok::<(Ast, PState), ParseError>((c, s3)));
    reveal_with_fuel(p_program, 1);
    assert(p_program(t, s0) == Ok::<(Seq<Ast>, PState), ParseError>((seq![c], s3)));
}

} // verus!
