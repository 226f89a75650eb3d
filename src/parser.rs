//! Recursive-descent parsing of a token sequence into statement trees.
use vstd::prelude::*;
use crate::tokenizer::{Token, Tok, toks_of, is_operator, is_reserved};

verus! {

/// Distance in bytes between the frame slots of two consecutive variables.
pub const SLOT_STRIDE: i64 = 8;

/// The largest token sequence a parser accepts; it keeps every frame offset
/// within `i64`.
pub const MAX_TOKENS: usize = usize::MAX / 16;

/// The frame offset of the variable discovered in position `i`.
pub open spec fn slot_offset(i: int) -> int {
    -(SLOT_STRIDE as int) * i
}

/// The operator of a binary node.
pub enum BinOp {
    Add,
    Sub,
    Mul,
    Div,
    Lt,
    Lte,
    Eq,
    Neq,
    Assign,
}

/// The mathematical value of a syntax tree.
pub enum Ast {
    Num(int),
    Var(Seq<char>, int),
    Bin(BinOp, Box<Ast>, Box<Ast>),
    Ret(Box<Ast>),
}

/// The kind of a syntax tree node.
#[derive(Clone, Debug)]
pub enum NodeType {
    ADD,
    SUB,
    MUL,
    DIV,
    NUM(i64),
    LT,
    LTE,
    EQ,
    NEQ,
    ASSIGN,
    /// A local variable: its name and its frame offset.
    LVAR(String, i64),
    RETURN,
}

/// The binary operator a node kind stands for, if it stands for one.
pub open spec fn bin_op_of(v: NodeType) -> Option<BinOp> {
    match v {
        NodeType::ADD => Some(BinOp::Add),
        NodeType::SUB => Some(BinOp::Sub),
        NodeType::MUL => Some(BinOp::Mul),
        NodeType::DIV => Some(BinOp::Div),
        NodeType::LT => Some(BinOp::Lt),
        NodeType::LTE => Some(BinOp::Lte),
        NodeType::EQ => Some(BinOp::Eq),
        NodeType::NEQ => Some(BinOp::Neq),
        NodeType::ASSIGN => Some(BinOp::Assign),
        _ => None,
    }
}

/// A syntax tree node: a kind and its ordered children.
#[derive(Debug)]
pub struct Node {
    pub value: NodeType,
    pub children: Vec<Box<Node>>,
}

impl Node {
    /// Each kind has its own number of children: none for leaves, one for a
    /// return, two for a binary operator.
    pub open spec fn wf(&self) -> bool
        decreases self,
    {
        match self.value {
            NodeType::NUM(_) => self.children.len() == 0,
            NodeType::LVAR(_, _) => self.children.len() == 0,
            NodeType::RETURN => self.children.len() == 1 && (*self.children@[0]).wf(),
            _ => self.children.len() == 2 && (*self.children@[0]).wf() && (*self.children@[1]).wf(),
        }
    }

    /// The tree that a well-formed node stands for.
    pub open spec fn ast(&self) -> Ast
        decreases self,
    {
        match self.value {
            NodeType::NUM(n) => Ast::Num(n as int),
            NodeType::LVAR(s, o) => Ast::Var(s@, o as int),
            NodeType::RETURN => if self.children.len() >= 1 {
                Ast::Ret(Box::new((*self.children@[0]).ast()))
            } else {
                Ast::Num(0)
            },
            _ => if self.children.len() >= 2 {
                Ast::Bin(
                    bin_op_of(self.value).unwrap(),
                    Box::new((*self.children@[0]).ast()),
                    Box::new((*self.children@[1]).ast()),
                )
            } else {
                Ast::Num(0)
            },
        }
    }

    /// A node of the given kind without children.
    pub fn new(value: NodeType) -> (r: Box<Node>)
        ensures
            r.value == value,
            r.children@.len() == 0,
    {
        Box::new(Node { value, children: Vec::new() })
    }

    /// A new node: this one with `child` appended to its children.
    pub fn add_child(self, child: Box<Node>) -> (r: Box<Node>)
        ensures
            r.value == self.value,
            r.children@ == self.children@.push(child),
    {
        let mut children = self.children;
        children.push(child);
        Box::new(Node { value: self.value, children })
    }

    /// A binary node of the given kind over two well-formed operands.
    pub fn binary(kind: NodeType, l: Box<Node>, r: Box<Node>) -> (n: Box<Node>)
        requires
            bin_op_of(kind) is Some,
            l.wf(),
            r.wf(),
        ensures
            n.wf(),
            n.ast() == bin(bin_op_of(kind).unwrap(), l.ast(), r.ast()),
    {
        let ghost (la, ra) = (l.ast(), r.ast());
        let n = Node::new(kind).add_child(l).add_child(r);
        assert(n.children@[0].ast() == la);
        assert(n.children@[1].ast() == ra);
        n
    }
}

/// Why a token sequence is not a program.
#[derive(Debug, Clone, Copy, PartialEq, Eq, Structural)]
pub enum ParseError {
    /// A statement is followed by neither `;` nor the end of input.
    MissingSemicolon,
    /// A parenthesized expression is not closed by `)`.
    UnmatchedParen,
    /// A number, a variable or `(` was expected.
    ExpectedValue,
}

/// Where a parse stands: the index of the current token and the names of the
/// variables discovered so far, in order of discovery.
pub struct PState {
    pub pos: int,
    pub vars: Seq<Seq<char>>,
}

/// The token at `p`; past the end, the end of input.
pub open spec fn tok_at(t: Seq<Tok>, p: int) -> Tok {
    if 0 <= p < t.len() {
        t[p]
    } else {
        Tok::Eof
    }
}

/// The state after the current token.
pub open spec fn adv(st: PState) -> PState {
    PState { pos: st.pos + 1, vars: st.vars }
}

/// `b` lies between `a` and the end of the tokens.
pub open spec fn moved(t: Seq<Tok>, a: PState, b: PState) -> bool {
    a.pos <= b.pos <= t.len()
}

pub type PRes = Result<(Ast, PState), ParseError>;

pub open spec fn bin(op: BinOp, l: Ast, r: Ast) -> Ast {
    Ast::Bin(op, Box::new(l), Box::new(r))
}

/// A reference to variable `name`: its slot is the one given at its first
/// occurrence, or the next free one if this is its first occurrence.
pub open spec fn resolve(vars: Seq<Seq<char>>, name: Seq<char>) -> (Ast, Seq<Seq<char>>) {
    if vars.contains(name) {
        (Ast::Var(name, slot_offset(vars.index_of(name))), vars)
    } else {
        (Ast::Var(name, slot_offset(vars.len() as int)), vars.push(name))
    }
}

/// primary := number | identifier | "(" expr ")"
pub open spec fn p_primary(t: Seq<Tok>, st: PState) -> PRes
    decreases t.len() - st.pos, 2int,
{
    match tok_at(t, st.pos) {
        Tok::Num(n) => Ok((Ast::Num(n), adv(st))),
        Tok::Ident(name) => {
            let (a, vars) = resolve(st.vars, name);
            Ok((a, PState { pos: st.pos + 1, vars }))
        },
        Tok::LParen => match p_expr(t, adv(st)) {
            Err(e) => Err(e),
            Ok((a, s1)) => if tok_at(t, s1.pos) == Tok::RParen {
                Ok((a, adv(s1)))
            } else {
                Err(ParseError::UnmatchedParen)
            },
        },
        _ => Err(ParseError::ExpectedValue),
    }
}

/// unary := "+" primary | "-" primary | primary, where `-x` is `0 - x`.
pub open spec fn p_unary(t: Seq<Tok>, st: PState) -> PRes
    decreases t.len() - st.pos, 4int,
{
    if tok_at(t, st.pos) == Tok::Op("+"@) {
        p_primary(t, adv(st))
    } else if tok_at(t, st.pos) == Tok::Op("-"@) {
        match p_primary(t, adv(st)) {
            Err(e) => Err(e),
            Ok((a, s1)) => Ok((bin(BinOp::Sub, Ast::Num(0), a), s1)),
        }
    } else {
        p_primary(t, st)
    }
}

pub open spec fn mul_op(k: Tok) -> Option<BinOp> {
    if k == Tok::Op("*"@) {
        Some(BinOp::Mul)
    } else if k == Tok::Op("/"@) {
        Some(BinOp::Div)
    } else {
        None
    }
}

/// The rest of a mul-level expression whose operands so far make `lhs`.
pub open spec fn mul_rest(t: Seq<Tok>, lhs: Ast, st: PState) -> PRes
    decreases t.len() - st.pos, 5int,
{
    match mul_op(tok_at(t, st.pos)) {
        None => Ok((lhs, st)),
        Some(op) => match p_unary(t, adv(st)) {
            Err(e) => Err(e),
            Ok((r, s1)) => if moved(t, adv(st), s1) {
                mul_rest(t, bin(op, lhs, r), s1)
            } else {
                Err(ParseError::ExpectedValue)
            },
        },
    }
}

/// mul := unary (("*" | "/") unary)*, left-associative.
pub open spec fn p_mul(t: Seq<Tok>, st: PState) -> PRes
    decreases t.len() - st.pos, 6int,
{
    match p_unary(t, st) {
        Err(e) => Err(e),
        Ok((l, s1)) => if moved(t, st, s1) {
            mul_rest(t, l, s1)
        } else {
            Err(ParseError::ExpectedValue)
        },
    }
}

pub open spec fn add_op(k: Tok) -> Option<BinOp> {
    if k == Tok::Op("+"@) {
        Some(BinOp::Add)
    } else if k == Tok::Op("-"@) {
        Some(BinOp::Sub)
    } else {
        None
    }
}

/// The rest of an add-level expression whose operands so far make `lhs`.
pub open spec fn add_rest(t: Seq<Tok>, lhs: Ast, st: PState) -> PRes
    decreases t.len() - st.pos, 7int,
{
    match add_op(tok_at(t, st.pos)) {
        None => Ok((lhs, st)),
        Some(op) => match p_mul(t, adv(st)) {
            Err(e) => Err(e),
            Ok((r, s1)) => if moved(t, adv(st), s1) {
                add_rest(t, bin(op, lhs, r), s1)
            } else {
                Err(ParseError::ExpectedValue)
            },
        },
    }
}

/// add := mul (("+" | "-") mul)*, left-associative.
pub open spec fn p_add(t: Seq<Tok>, st: PState) -> PRes
    decreases t.len() - st.pos, 8int,
{
    match p_mul(t, st) {
        Err(e) => Err(e),
        Ok((l, s1)) => if moved(t, st, s1) {
            add_rest(t, l, s1)
        } else {
            Err(ParseError::ExpectedValue)
        },
    }
}

/// A relational operator: the node operator and whether the operands swap
/// (`a > b` is `b < a`, `a >= b` is `b <= a`).
pub open spec fn rel_op(k: Tok) -> Option<(BinOp, bool)> {
    if k == Tok::Op("<"@) {
        Some((BinOp::Lt, false))
    } else if k == Tok::Op("<="@) {
        Some((BinOp::Lte, false))
    } else if k == Tok::Op(">"@) {
        Some((BinOp::Lt, true))
    } else if k == Tok::Op(">="@) {
        Some((BinOp::Lte, true))
    } else {
        None
    }
}

/// The rest of a relational expression whose operands so far make `lhs`.
pub open spec fn rel_rest(t: Seq<Tok>, lhs: Ast, st: PState) -> PRes
    decreases t.len() - st.pos, 9int,
{
    match rel_op(tok_at(t, st.pos)) {
        None => Ok((lhs, st)),
        Some((op, swap)) => match p_add(t, adv(st)) {
            Err(e) => Err(e),
            Ok((r, s1)) => if moved(t, adv(st), s1) {
                rel_rest(t, if swap { bin(op, r, lhs) } else { bin(op, lhs, r) }, s1)
            } else {
                Err(ParseError::ExpectedValue)
            },
        },
    }
}

/// relational := add (("<" | "<=" | ">" | ">=") add)*, left-associative.
pub open spec fn p_relational(t: Seq<Tok>, st: PState) -> PRes
    decreases t.len() - st.pos, 10int,
{
    match p_add(t, st) {
        Err(e) => Err(e),
        Ok((l, s1)) => if moved(t, st, s1) {
            rel_rest(t, l, s1)
        } else {
            Err(ParseError::ExpectedValue)
        },
    }
}

pub open spec fn eq_op(k: Tok) -> Option<BinOp> {
    if k == Tok::Op("=="@) {
        Some(BinOp::Eq)
    } else if k == Tok::Op("!="@) {
        Some(BinOp::Neq)
    } else {
        None
    }
}

/// The rest of an equality expression whose operands so far make `lhs`.
pub open spec fn eq_rest(t: Seq<Tok>, lhs: Ast, st: PState) -> PRes
    decreases t.len() - st.pos, 11int,
{
    match eq_op(tok_at(t, st.pos)) {
        None => Ok((lhs, st)),
        Some(op) => match p_relational(t, adv(st)) {
            Err(e) => Err(e),
            Ok((r, s1)) => if moved(t, adv(st), s1) {
                eq_rest(t, bin(op, lhs, r), s1)
            } else {
                Err(ParseError::ExpectedValue)
            },
        },
    }
}

/// equality := relational (("==" | "!=") relational)*, left-associative.
pub open spec fn p_equality(t: Seq<Tok>, st: PState) -> PRes
    decreases t.len() - st.pos, 12int,
{
    match p_relational(t, st) {
        Err(e) => Err(e),
        Ok((l, s1)) => if moved(t, st, s1) {
            eq_rest(t, l, s1)
        } else {
            Err(ParseError::ExpectedValue)
        },
    }
}

/// assign := equality ("=" assign)?, right-associative.
pub open spec fn p_assign(t: Seq<Tok>, st: PState) -> PRes
    decreases t.len() - st.pos, 14int,
{
    match p_equality(t, st) {
        Err(e) => Err(e),
        Ok((l, s1)) => if tok_at(t, s1.pos) == Tok::Op("="@) {
            if moved(t, st, s1) {
                match p_assign(t, adv(s1)) {
                    Err(e) => Err(e),
                    Ok((r, s2)) => Ok((bin(BinOp::Assign, l, r), s2)),
                }
            } else {
                Err(ParseError::ExpectedValue)
            }
        } else {
            Ok((l, s1))
        },
    }
}

/// expr := assign
pub open spec fn p_expr(t: Seq<Tok>, st: PState) -> PRes
    decreases t.len() - st.pos, 15int,
{
    p_assign(t, st)
}

/// stmt := "return" expr | expr
#[verifier::opaque]
pub open spec fn p_stmt(t: Seq<Tok>, st: PState) -> PRes
    decreases t.len() - st.pos, 16int,
{
    if tok_at(t, st.pos) == Tok::Reserved("return"@) {
        match p_expr(t, adv(st)) {
            Err(e) => Err(e),
            Ok((a, s1)) => Ok((Ast::Ret(Box::new(a)), s1)),
        }
    } else {
        p_expr(t, st)
    }
}

pub type ProgRes = Result<(Seq<Ast>, PState), ParseError>;

#[verifier::opaque]
/// program := (stmt (";" stmt)*)? followed by the end of input; a `;` may end
/// the last statement.
pub open spec fn p_program(t: Seq<Tok>, st: PState) -> ProgRes
    decreases t.len() - st.pos,
{
    if tok_at(t, st.pos) == Tok::Eof {
        Ok((seq![], st))
    } else {
        match p_stmt(t, st) {
            Err(e) => Err(e),
            Ok((a, s1)) => if tok_at(t, s1.pos) == Tok::Eof {
                Ok((seq![a], s1))
            } else if tok_at(t, s1.pos) == Tok::Semi {
                if moved(t, st, s1) {
                    match p_program(t, adv(s1)) {
                        Err(e) => Err(e),
                        Ok((rest, s2)) => Ok((seq![a] + rest, s2)),
                    }
                } else {
                    Err(ParseError::ExpectedValue)
                }
            } else {
                Err(ParseError::MissingSemicolon)
            },
        }
    }
}

/// The statements of a token sequence, with the variables in order of
/// discovery; the end of input is appended before parsing.
pub open spec fn parse(t: Seq<Tok>) -> ProgRes {
    p_program(t.push(Tok::Eof), PState { pos: 0, vars: seq![] })
}

/// The result of a parse step as a tree and the state after it.
pub open spec fn res_of(r: Result<Box<Node>, ParseError>, st: PState) -> PRes {
    match r {
        Ok(n) => Ok(((*n).ast(), st)),
        Err(e) => Err(e),
    }
}

pub open spec fn node_ok(r: Result<Box<Node>, ParseError>) -> bool {
    match r {
        Ok(n) => (*n).wf(),
        Err(_) => true,
    }
}

/// The trees of a sequence of nodes.
pub open spec fn asts_of(v: Seq<Box<Node>>) -> Seq<Ast> {
    v.map_values(|n: Box<Node>| (*n).ast())
}

/// `done` in front of the statements of `rest`, or the error of `rest`.
pub open spec fn prog_after(done: Seq<Ast>, rest: ProgRes) -> ProgRes {
    match rest {
        Ok((r, st)) => Ok((done + r, st)),
        Err(e) => Err(e),
    }
}

/// One statement `a`, parsed from `s` up to `s1`, then the end of input or a
/// `;` (after which parsing goes on from `s2`).
proof fn lemma_program_step(t: Seq<Tok>, s: PState, done: Seq<Ast>, a: Ast, s1: PState, s2: PState)
    requires
        tok_at(t, s.pos) != Tok::Eof,
        p_stmt(t, s) == Ok::<(Ast, PState), ParseError>((a, s1)),
        s.pos < s1.pos <= t.len(),
        tok_at(t, s1.pos) == Tok::Eof ==> s2 == s1,
        tok_at(t, s1.pos) == Tok::Semi ==> s2 == adv(s1),
        tok_at(t, s1.pos) == Tok::Eof || tok_at(t, s1.pos) == Tok::Semi,
    ensures
        prog_after(done, p_program(t, s)) == prog_after(done.push(a), p_program(t, s2)),
{
    reveal_with_fuel(p_program, 1);
    if tok_at(t, s1.pos) == Tok::Eof {
        assert(done + seq![a] =~= done.push(a) + seq![]);
    } else {
        match p_program(t, s2) {
            Ok((rest, s3)) => {
                assert(done + (seq![a] + rest) =~= done.push(a) + rest);
            },
            Err(_) => {},
        }
    }
}

/// A local variable: its name and its frame offset.
#[derive(Debug, Clone)]
pub struct LVar {
    pub ident: String,
    pub offset: i64,
}

pub open spec fn names_of(l: Seq<LVar>) -> Seq<Seq<char>> {
    l.map_values(|v: LVar| v.ident@)
}

/// A recursive-descent parser over a token sequence that ends with the end of
/// input, with its table of local variables.
#[derive(Debug)]
pub struct Parser {
    tokens: Vec<Token>,
    pos: usize,
    lvars: Vec<LVar>,
}

impl Parser {
    /// The tokens being parsed.
    pub closed spec fn toks(&self) -> Seq<Tok> {
        toks_of(self.tokens@)
    }

    /// The current position and the variables discovered so far.
    pub closed spec fn st(&self) -> PState {
        PState { pos: self.pos as int, vars: names_of(self.lvars@) }
    }

    /// The tokens end with the end of input, which is never passed; each
    /// variable's name is given once, with the offset of its slot.
    pub closed spec fn inv(&self) -> bool {
        &&& self.tokens@.len() <= MAX_TOKENS
        &&& self.tokens@.len() >= 1
        &&& self.tokens@.last()@ == Tok::Eof
        &&& self.pos < self.tokens@.len()
        &&& self.lvars@.len() <= self.pos
        &&& names_of(self.lvars@).no_duplicates()
        &&& forall|i: int|
            0 <= i < self.lvars@.len() ==> #[trigger] self.lvars@[i].offset as int == slot_offset(i)
    }

    pub fn new(tokens: Vec<Token>) -> (r: Parser)
        requires
            tokens@.len() < MAX_TOKENS,
        ensures
            r.inv(),
            r.toks() == toks_of(tokens@).push(Tok::Eof),
            r.st() == (PState { pos: 0, vars: seq![] }),
    {
        let mut tokens = tokens;
        let ghost t0 = toks_of(tokens@);
        tokens.push(Token::EOF);
        let r = Parser { tokens, pos: 0, lvars: Vec::new() };
        assert(r.toks() =~= t0.push(Tok::Eof));
        assert(names_of(r.lvars@) =~= seq![]);
        r
    }

    fn token(&self) -> (r: &Token)
        requires
            self.inv(),
        ensures
            r@ == tok_at(self.toks(), self.st().pos),
    {
        &self.tokens[self.pos]
    }

    fn next(&mut self)
        requires
            old(self).inv(),
            tok_at(old(self).toks(), old(self).st().pos) != Tok::Eof,
        ensures
            final(self).inv(),
            final(self).toks() == old(self).toks(),
            final(self).st() == adv(old(self).st()),
    {
        self.pos = self.pos + 1;
    }

    /// The index of variable `name` in the table, if it is there.
    fn find_lvar(&self, name: &String) -> (r: Option<usize>)
        requires
            self.inv(),
        ensures
            match r {
                Some(i) => i < self.lvars@.len() && self.st().vars.contains(name@)
                    && i == self.st().vars.index_of(name@),
                None => !self.st().vars.contains(name@),
            },
    {
        let mut i: usize = 0;
        while i < self.lvars.len()
            invariant
                self.inv(),
                0 <= i <= self.lvars@.len(),
                forall|j: int| 0 <= j < i ==> names_of(self.lvars@)[j] != name@,
            decreases self.lvars@.len() - i,
        {
            if self.lvars[i].ident == *name {
                let ghost vs = names_of(self.lvars@);
                assert(vs[i as int] == name@);
                assert(vs.contains(name@));
                assert(vs[vs.index_of(name@)] == name@);
                return Some(i);
            }
            i = i + 1;
        }
        None
    }

    /// A reference to variable `name`, which is added to the table on its first
    /// occurrence.
    fn lvar_node(&mut self, name: String) -> (r: Box<Node>)
        requires
            old(self).inv(),
            old(self).st().vars.len() < old(self).st().pos,
        ensures
            final(self).inv(),
            final(self).toks() == old(self).toks(),
            final(self).st().pos == old(self).st().pos,
            r.wf(),
            (r.ast(), final(self).st().vars) == resolve(old(self).st().vars, name@),
    {
        let ghost vars0 = self.st().vars;
        let offset: i64;
        match self.find_lvar(&name) {
            Some(i) => {
                offset = self.lvars[i].offset;
            },
            None => {
                let k = self.lvars.len();
                offset = 0 - SLOT_STRIDE * (k as i64);
                let ghost old_lvars = self.lvars@;
                self.lvars.push(LVar { ident: name.clone(), offset });
                proof {
                    let vs = names_of(self.lvars@);
                    assert(vs =~= vars0.push(name@));
                    assert forall|a: int, b: int|
                        0 <= a < vs.len() && 0 <= b < vs.len() && a != b implies vs[a] != vs[b] by {
                        if a < vars0.len() && b < vars0.len() {
                            assert(vs[a] == vars0[a] && vs[b] == vars0[b]);
                        } else if a < vars0.len() {
                            assert(vs[a] == vars0[a]);
                        } else if b < vars0.len() {
                            assert(vs[b] == vars0[b]);
                        }
                    }
                    assert forall|i: int| 0 <= i < self.lvars@.len() implies
                        #[trigger] self.lvars@[i].offset as int == slot_offset(i) by {
                        if i < old_lvars.len() {
                            assert(self.lvars@[i] == old_lvars[i]);
                        }
                    }
                }
            },
        }
        Node::new(NodeType::LVAR(name, offset))
    }

    /// primary := number | identifier | "(" expr ")"
    fn parse_primary(&mut self) -> (r: Result<Box<Node>, ParseError>)
        requires
            old(self).inv(),
        ensures
            final(self).inv(),
            final(self).toks() == old(self).toks(),
            old(self).st().pos <= final(self).st().pos,
            r is Ok ==> old(self).st().pos < final(self).st().pos,
            node_ok(r),
            p_primary(old(self).toks(), old(self).st()) == res_of(r, final(self).st()),
        decreases old(self).toks().len() - old(self).st().pos, 2int,
    {
        match self.token() {
            Token::Number(n) => {
                let v = *n;
                self.next();
                Ok(Node::new(NodeType::NUM(v)))
            },
            Token::Ident(s) => {
                let name = s.clone();
                self.next();
                Ok(self.lvar_node(name))
            },
            Token::LeftParen => {
                self.next();
                let n = match self.parse_expr() {
                    Ok(n) => n,
                    Err(e) => return Err(e),
                };
                match self.token() {
                    Token::RightParen => {},
                    _ => return Err(ParseError::UnmatchedParen),
                }
                self.next();
                Ok(n)
            },
            _ => Err(ParseError::ExpectedValue),
        }
    }

    /// unary := "+" primary | "-" primary | primary, where `-x` is `0 - x`.
    fn parse_unary(&mut self) -> (r: Result<Box<Node>, ParseError>)
        requires
            old(self).inv(),
        ensures
            final(self).inv(),
            final(self).toks() == old(self).toks(),
            old(self).st().pos <= final(self).st().pos,
            r is Ok ==> old(self).st().pos < final(self).st().pos,
            node_ok(r),
            p_unary(old(self).toks(), old(self).st()) == res_of(r, final(self).st()),
        decreases old(self).toks().len() - old(self).st().pos, 4int,
    {
        if is_operator(self.token(), "+") {
            self.next();
            self.parse_primary()
        } else if is_operator(self.token(), "-") {
            self.next();
            let e = match self.parse_primary() {
                Ok(n) => n,
                Err(e) => return Err(e),
            };
            Ok(Node::binary(NodeType::SUB, Node::new(NodeType::NUM(0)), e))
        } else {
            self.parse_primary()
        }
    }

    /// mul := unary (("*" | "/") unary)*, left-associative.
    fn parse_mul(&mut self) -> (r: Result<Box<Node>, ParseError>)
        requires
            old(self).inv(),
        ensures
            final(self).inv(),
            final(self).toks() == old(self).toks(),
            old(self).st().pos <= final(self).st().pos,
            r is Ok ==> old(self).st().pos < final(self).st().pos,
            node_ok(r),
            p_mul(old(self).toks(), old(self).st()) == res_of(r, final(self).st()),
        decreases old(self).toks().len() - old(self).st().pos, 6int,
    {
        let ghost t = self.toks();
        let ghost st0 = self.st();
        let mut root = match self.parse_unary() {
            Ok(n) => n,
            Err(e) => return Err(e),
        };
        loop
            invariant
                self.inv(),
                self.toks() == t,
                st0.pos < self.st().pos,
                root.wf(),
                t == old(self).toks(),
                st0 == old(self).st(),
                p_mul(t, st0) == mul_rest(t, root.ast(), self.st()),
            ensures
                self.inv(),
                self.toks() == t,
                st0.pos < self.st().pos,
                root.wf(),
                p_mul(t, st0) == Ok::<(Ast, PState), ParseError>((root.ast(), self.st())),
            decreases t.len() - self.st().pos,
        {
            let kind: NodeType;
            if is_operator(self.token(), "*") {
                kind = NodeType::MUL;
            } else if is_operator(self.token(), "/") {
                kind = NodeType::DIV;
            } else {
                break;
            }
            self.next();
            let rhs = match self.parse_unary() {
                Ok(n) => n,
                Err(e) => return Err(e),
            };
            root = Node::binary(kind, root, rhs);
        }
        Ok(root)
    }

    /// equality := relational (("==" | "!=") relational)*, left-associative.
    pub fn parse_equality(&mut self) -> (r: Result<Box<Node>, ParseError>)
        requires
            old(self).inv(),
        ensures
            final(self).inv(),
            final(self).toks() == old(self).toks(),
            old(self).st().pos <= final(self).st().pos,
            r is Ok ==> old(self).st().pos < final(self).st().pos,
            node_ok(r),
            p_equality(old(self).toks(), old(self).st()) == res_of(r, final(self).st()),
        decreases old(self).toks().len() - old(self).st().pos, 12int,
    {
        let ghost t = self.toks();
        let ghost st0 = self.st();
        let mut root = match self.parse_relational() {
            Ok(n) => n,
            Err(e) => return Err(e),
        };
        loop
            invariant
                self.inv(),
                self.toks() == t,
                st0.pos < self.st().pos,
                root.wf(),
                t == old(self).toks(),
                st0 == old(self).st(),
                p_equality(t, st0) == eq_rest(t, root.ast(), self.st()),
            ensures
                self.inv(),
                self.toks() == t,
                st0.pos < self.st().pos,
                root.wf(),
                p_equality(t, st0) == Ok::<(Ast, PState), ParseError>((root.ast(), self.st())),
            decreases t.len() - self.st().pos,
        {
            let kind: NodeType;
            if is_operator(self.token(), "==") {
                kind = NodeType::EQ;
            } else if is_operator(self.token(), "!=") {
                kind = NodeType::NEQ;
            } else {
                break;
            }
            self.next();
            let rhs = match self.parse_relational() {
                Ok(n) => n,
                Err(e) => return Err(e),
            };
            root = Node::binary(kind, root, rhs);
        }
        Ok(root)
    }

    /// relational := add (("<" | "<=" | ">" | ">=") add)*, left-associative;
    /// `a > b` becomes `b < a` and `a >= b` becomes `b <= a`.
    pub fn parse_relational(&mut self) -> (r: Result<Box<Node>, ParseError>)
        requires
            old(self).inv(),
        ensures
            final(self).inv(),
            final(self).toks() == old(self).toks(),
            old(self).st().pos <= final(self).st().pos,
            r is Ok ==> old(self).st().pos < final(self).st().pos,
            node_ok(r),
            p_relational(old(self).toks(), old(self).st()) == res_of(r, final(self).st()),
        decreases old(self).toks().len() - old(self).st().pos, 10int,
    {
        let ghost t = self.toks();
        let ghost st0 = self.st();
        let mut root = match self.parse_add() {
            Ok(n) => n,
            Err(e) => return Err(e),
        };
        loop
            invariant
                self.inv(),
                self.toks() == t,
                st0.pos < self.st().pos,
                root.wf(),
                t == old(self).toks(),
                st0 == old(self).st(),
                p_relational(t, st0) == rel_rest(t, root.ast(), self.st()),
            ensures
                self.inv(),
                self.toks() == t,
                st0.pos < self.st().pos,
                root.wf(),
                p_relational(t, st0) == Ok::<(Ast, PState), ParseError>((root.ast(), self.st())),
            decreases t.len() - self.st().pos,
        {
            let kind: NodeType;
            let swapped: bool;
            if is_operator(self.token(), "<") {
                kind = NodeType::LT;
                swapped = false;
            } else if is_operator(self.token(), "<=") {
                kind = NodeType::LTE;
                swapped = false;
            } else if is_operator(self.token(), ">") {
                kind = NodeType::LT;
                swapped = true;
            } else if is_operator(self.token(), ">=") {
                kind = NodeType::LTE;
                swapped = true;
            } else {
                break;
            }
            self.next();
            let rhs = match self.parse_add() {
                Ok(n) => n,
                Err(e) => return Err(e),
            };
            root = if swapped {
                Node::binary(kind, rhs, root)
            } else {
                Node::binary(kind, root, rhs)
            };
        }
        Ok(root)
    }

    /// add := mul (("+" | "-") mul)*, left-associative.
    pub fn parse_add(&mut self) -> (r: Result<Box<Node>, ParseError>)
        requires
            old(self).inv(),
        ensures
            final(self).inv(),
            final(self).toks() == old(self).toks(),
            old(self).st().pos <= final(self).st().pos,
            r is Ok ==> old(self).st().pos < final(self).st().pos,
            node_ok(r),
            p_add(old(self).toks(), old(self).st()) == res_of(r, final(self).st()),
        decreases old(self).toks().len() - old(self).st().pos, 8int,
    {
        let ghost t = self.toks();
        let ghost st0 = self.st();
        let mut root = match self.parse_mul() {
            Ok(n) => n,
            Err(e) => return Err(e),
        };
        loop
            invariant
                self.inv(),
                self.toks() == t,
                st0.pos < self.st().pos,
                root.wf(),
                t == old(self).toks(),
                st0 == old(self).st(),
                p_add(t, st0) == add_rest(t, root.ast(), self.st()),
            ensures
                self.inv(),
                self.toks() == t,
                st0.pos < self.st().pos,
                root.wf(),
                p_add(t, st0) == Ok::<(Ast, PState), ParseError>((root.ast(), self.st())),
            decreases t.len() - self.st().pos,
        {
            let kind: NodeType;
            if is_operator(self.token(), "+") {
                kind = NodeType::ADD;
            } else if is_operator(self.token(), "-") {
                kind = NodeType::SUB;
            } else {
                break;
            }
            self.next();
            let rhs = match self.parse_mul() {
                Ok(n) => n,
                Err(e) => return Err(e),
            };
            root = Node::binary(kind, root, rhs);
        }
        Ok(root)
    }

    /// assign := equality ("=" assign)?, right-associative: `a = b = 3` is
    /// `a = (b = 3)`.
    pub fn parse_assign(&mut self) -> (r: Result<Box<Node>, ParseError>)
        requires
            old(self).inv(),
        ensures
            final(self).inv(),
            final(self).toks() == old(self).toks(),
            old(self).st().pos <= final(self).st().pos,
            r is Ok ==> old(self).st().pos < final(self).st().pos,
            node_ok(r),
            p_assign(old(self).toks(), old(self).st()) == res_of(r, final(self).st()),
        decreases old(self).toks().len() - old(self).st().pos, 14int,
    {
        let root = match self.parse_equality() {
            Ok(n) => n,
            Err(e) => return Err(e),
        };
        if is_operator(self.token(), "=") {
            self.next();
            let rhs = match self.parse_assign() {
                Ok(n) => n,
                Err(e) => return Err(e),
            };
            Ok(Node::binary(NodeType::ASSIGN, root, rhs))
        } else {
            Ok(root)
        }
    }

    /// expr := assign
    pub fn parse_expr(&mut self) -> (r: Result<Box<Node>, ParseError>)
        requires
            old(self).inv(),
        ensures
            final(self).inv(),
            final(self).toks() == old(self).toks(),
            old(self).st().pos <= final(self).st().pos,
            r is Ok ==> old(self).st().pos < final(self).st().pos,
            node_ok(r),
            p_expr(old(self).toks(), old(self).st()) == res_of(r, final(self).st()),
        decreases old(self).toks().len() - old(self).st().pos, 15int,
    {
        self.parse_assign()
    }

    /// Parses statements up to the end of input. Returns them in source order
    /// with the number of distinct variables they use.
    pub fn parse_program(&mut self) -> (r: Result<(Vec<Box<Node>>, usize), ParseError>)
        requires
            old(self).inv(),
        ensures
            final(self).inv(),
            final(self).toks() == old(self).toks(),
            match r {
                Ok((v, n)) => {
                    &&& p_program(old(self).toks(), old(self).st()) == Ok::<(Seq<Ast>, PState), ParseError>(
                        (asts_of(v@), final(self).st()),
                    )
                    &&& n == final(self).st().vars.len()
                    &&& n < MAX_TOKENS
                    &&& forall|i: int| 0 <= i < v@.len() ==> (*#[trigger] v@[i]).wf()
                },
                Err(e) => p_program(old(self).toks(), old(self).st()) == Err::<(Seq<Ast>, PState), ParseError>(e),
            },
    {
        let ghost t = self.toks();
        let ghost st0 = self.st();
        let mut nodes: Vec<Box<Node>> = Vec::new();
        loop
            invariant
                self.inv(),
                self.toks() == t,
                t == old(self).toks(),
                st0 == old(self).st(),
                forall|i: int| 0 <= i < nodes@.len() ==> (*#[trigger] nodes@[i]).wf(),
                p_program(t, st0) == prog_after(asts_of(nodes@), p_program(t, self.st())),
            ensures
                self.inv(),
                self.toks() == t,
                forall|i: int| 0 <= i < nodes@.len() ==> (*#[trigger] nodes@[i]).wf(),
                p_program(t, st0) == Ok::<(Seq<Ast>, PState), ParseError>((asts_of(nodes@), self.st())),
            decreases t.len() - self.st().pos,
        {
            let at_end = match self.token() {
                Token::EOF => true,
                _ => false,
            };
            if at_end {
                proof {
                    reveal_with_fuel(p_program, 1);
                }
                assert(asts_of(nodes@) + seq![] =~= asts_of(nodes@));
                break;
            }
            let ghost s = self.st();
            let ghost done = asts_of(nodes@);
            let stmt = match self.parse_stmt() {
                Ok(n) => n,
                Err(e) => {
                    proof {
                        reveal_with_fuel(p_program, 1);
                    }
                    return Err(e);
                },
            };
            let ghost a = stmt.ast();
            let ghost s1 = self.st();
            nodes.push(stmt);
            assert(asts_of(nodes@) =~= done.push(a));
            match self.token() {
                Token::EOF => {
                    proof {
                        lemma_program_step(t, s, done, a, self.st(), self.st());
                    }
                },
                Token::SEMICOLON => {
                    self.next();
                    proof {
                        lemma_program_step(t, s, done, a, s1, self.st());
                    }
                },
                _ => {
                    proof {
                        reveal_with_fuel(p_program, 1);
                        assert(p_program(t, s) == Err::<(Seq<Ast>, PState), ParseError>(
                            ParseError::MissingSemicolon));
                    }
                    return Err(ParseError::MissingSemicolon);
                },
            }
        }
        Ok((nodes, self.lvars.len()))
    }

    /// stmt := "return" expr | expr
    pub fn parse_stmt(&mut self) -> (r: Result<Box<Node>, ParseError>)
        requires
            old(self).inv(),
        ensures
            final(self).inv(),
            final(self).toks() == old(self).toks(),
            old(self).st().pos <= final(self).st().pos,
            r is Ok ==> old(self).st().pos < final(self).st().pos,
            node_ok(r),
            p_stmt(old(self).toks(), old(self).st()) == res_of(r, final(self).st()),
        decreases old(self).toks().len() - old(self).st().pos, 16int,
    {
        proof {
            reveal(p_stmt);
        }
        if is_reserved(self.token(), "return") {
            self.next();
            let e = match self.parse_expr() {
                Ok(n) => n,
                Err(e) => return Err(e),
            };
            let ghost ea = e.ast();
            let n = Node::new(NodeType::RETURN).add_child(e);
            assert(n.children@[0].ast() == ea);
            Ok(n)
        } else {
            self.parse_expr()
        }
    }
}

} // verus!
