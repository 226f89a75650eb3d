//! Stack-machine code generation: statement trees to assembly text.
use vstd::prelude::*;
use vstd::string::*;
use crate::parser::{Ast, BinOp, Node, NodeType, Parser, ParseError, asts_of, bin_op_of, parse, MAX_TOKENS, SLOT_STRIDE};
use crate::tokenizer::{LexError, Tokenizer, lex, toks_of};

verus! {

/// Why a tree cannot be turned into code.
#[derive(Debug, Clone, Copy, PartialEq, Eq, Structural)]
pub enum GenError {
    /// The left side of an assignment is not a variable.
    NotAssignable,
}

pub open spec fn digit_char(d: int) -> char {
    seq!['0', '1', '2', '3', '4', '5', '6', '7', '8', '9'][d]
}

/// The decimal digits of a natural number.
pub open spec fn nat_digits(m: nat) -> Seq<char>
    decreases m,
{
    if m < 10 {
        seq![digit_char(m as int)]
    } else {
        nat_digits(m / 10) + seq![digit_char((m % 10) as int)]
    }
}

/// The decimal text of an integer, with a leading `-` when it is negative.
pub open spec fn dec(n: int) -> Seq<char> {
    if n < 0 {
        seq!['-'] + nat_digits((-n) as nat)
    } else {
        nat_digits(n as nat)
    }
}

/// Appends the decimal digits of `m`.
fn push_nat(out: &mut String, m: u64)
    ensures
        final(out)@ == old(out)@ + nat_digits(m as nat),
    decreases m,
{
    let ghost o = out@;
    if m >= 10 {
        push_nat(out, m / 10);
    }
    let d = (m % 10) as usize;
    proof {
        reveal_strlit("0123456789");
    }
    let digit = "0123456789".substring_char(d, d + 1);
    assert(digit@ =~= seq![digit_char(d as int)]);
    out.append(digit);
    if m >= 10 {
        assert(final(out)@ =~= o + nat_digits(m as nat));
    } else {
        assert(final(out)@ =~= o + nat_digits(m as nat));
    }
}

/// Appends the decimal text of `n`.
fn push_decimal(out: &mut String, n: i64)
    ensures
        final(out)@ == old(out)@ + dec(n as int),
{
    let ghost o = out@;
    if n < 0 {
        out.append("-");
        proof {
            reveal_strlit("-");
        }
        let m = (0 - (n as i128)) as u64;
        push_nat(out, m);
        assert(final(out)@ =~= o + dec(n as int));
    } else {
        push_nat(out, n as u64);
    }
}

/// Pushes a register's value on the runtime stack.
pub open spec fn push_text(reg: Seq<char>) -> Seq<char> {
    "  addi sp, sp, -4\n"@ + "  sw "@ + reg + ", 0(sp)\n"@
}

/// Pops the top of the runtime stack into a register.
pub open spec fn pop_text(reg: Seq<char>) -> Seq<char> {
    "  lw "@ + reg + ", 0(sp)\n"@ + "  addi sp, sp, 4\n"@
}

/// Loads an immediate into a register.
pub open spec fn li_text(reg: Seq<char>, n: int) -> Seq<char> {
    "  addi "@ + reg + ", zero, "@ + dec(n) + "\n"@
}

/// Pushes the address of the frame slot at `offset`.
pub open spec fn addr_text(offset: int) -> Seq<char> {
    "  addi t0, fp, "@ + dec(offset) + "\n"@ + push_text("t0"@)
}

/// Sets `t2` to 1 when the branch instruction `branch` is taken and to 0
/// otherwise, with labels named after `path`.
pub open spec fn flag_text(branch: Seq<char>, path: Seq<char>) -> Seq<char> {
    branch + " L_SET_"@ + path + "\n"@ + "  addi t2, zero, 0\n"@ + "  j L_FIN_"@ + path + "\n"@
        + "L_SET_"@ + path + ":\n"@ + "  addi t2, zero, 1\n"@ + "L_FIN_"@ + path + ":\n"@
}

/// What a binary arithmetic or comparison operator does with `t1` (left) and
/// `t0` (right), leaving its result in `t2`.
pub open spec fn op_text(op: BinOp, path: Seq<char>) -> Seq<char> {
    match op {
        BinOp::Add => "  add t2, t1, t0\n"@,
        BinOp::Sub => "  sub t2, t1, t0\n"@,
        BinOp::Mul => "  mul t2, t1, t0\n"@,
        BinOp::Div => "  div t2, t1, t0\n"@,
        BinOp::Lt => "  slt t2, t1, t0\n"@,
        BinOp::Lte => "  slt t2, t0, t1\n"@ + flag_text("  beq t2, zero,"@, path),
        BinOp::Eq => flag_text("  beq t0, t1,"@, path),
        BinOp::Neq => flag_text("  bne t0, t1,"@, path),
        BinOp::Assign => seq![],
    }
}

/// The code of a tree whose labels are named after `path`: it leaves the
/// tree's value on the runtime stack (a return leaves its value in `a0` and
/// jumps to the end of the program).
pub open spec fn gen(a: Ast, path: Seq<char>) -> Result<Seq<char>, GenError>
    decreases a,
{
    match a {
        Ast::Num(n) => Ok(li_text("t0"@, n) + push_text("t0"@)),
        Ast::Var(_, o) => Ok(
            addr_text(o) + pop_text("t0"@) + "  lw t1, 0(t0)\n"@ + push_text("t1"@),
        ),
        Ast::Bin(BinOp::Assign, l, r) => match *l {
            Ast::Var(_, o) => match gen(*r, path + "_1"@) {
                Ok(rc) => Ok(
                    addr_text(o) + rc + pop_text("t0"@) + pop_text("t1"@) + "  sw t0, 0(t1)\n"@
                        + push_text("t0"@),
                ),
                Err(e) => Err(e),
            },
            _ => Err(GenError::NotAssignable),
        },
        Ast::Bin(op, l, r) => match gen(*l, path + "_0"@) {
            Err(e) => Err(e),
            Ok(lc) => match gen(*r, path + "_1"@) {
                Err(e) => Err(e),
                Ok(rc) => Ok(
                    lc + rc + pop_text("t0"@) + pop_text("t1"@) + op_text(op, path) + push_text(
                        "t2"@,
                    ),
                ),
            },
        },
        Ast::Ret(e) => match gen(*e, path + "_0"@) {
            Err(e) => Err(e),
            Ok(c) => Ok(c + pop_text("a0"@) + "  j L_END\n"@),
        },
    }
}

pub fn generate_push(register: &str, out: &mut String)
    ensures
        final(out)@ == old(out)@ + push_text(register@),
{
    let ghost o = out@;
    out.append("  addi sp, sp, -4\n");
    out.append("  sw ");
    out.append(register);
    out.append(", 0(sp)\n");
    assert(final(out)@ =~= o + push_text(register@));
}

pub fn generate_pop(register: &str, out: &mut String)
    ensures
        final(out)@ == old(out)@ + pop_text(register@),
{
    let ghost o = out@;
    out.append("  lw ");
    out.append(register);
    out.append(", 0(sp)\n");
    out.append("  addi sp, sp, 4\n");
    assert(final(out)@ =~= o + pop_text(register@));
}

fn generate_li(register: &str, n: i64, out: &mut String)
    ensures
        final(out)@ == old(out)@ + li_text(register@, n as int),
{
    let ghost o = out@;
    out.append("  addi ");
    out.append(register);
    out.append(", zero, ");
    push_decimal(out, n);
    out.append("\n");
    assert(final(out)@ =~= o + li_text(register@, n as int));
}

/// Pushes the address of a variable node; any other node cannot be assigned to.
fn generate_lvar(node: &Node, out: &mut String) -> (r: Result<(), GenError>)
    ensures
        match node.ast() {
            Ast::Var(_, o) => r is Ok && final(out)@ == old(out)@ + addr_text(o),
            _ => r == Err::<(), GenError>(GenError::NotAssignable),
        },
{
    match &node.value {
        NodeType::LVAR(_, offset) => {
            let ghost o = out@;
            out.append("  addi t0, fp, ");
            push_decimal(out, *offset);
            out.append("\n");
            generate_push("t0", out);
            assert(final(out)@ =~= o + addr_text(*offset as int));
            Ok(())
        },
        _ => Err(GenError::NotAssignable),
    }
}

/// Appends the branch that materializes a comparison as 0 or 1 in `t2`.
fn generate_flag(branch: &str, name: &String, out: &mut String)
    ensures
        final(out)@ == old(out)@ + flag_text(branch@, name@),
{
    let ghost o = out@;
    out.append(branch);
    out.append(" L_SET_");
    out.append(name.as_str());
    out.append("\n");
    out.append("  addi t2, zero, 0\n");
    out.append("  j L_FIN_");
    out.append(name.as_str());
    out.append("\n");
    out.append("L_SET_");
    out.append(name.as_str());
    out.append(":\n");
    out.append("  addi t2, zero, 1\n");
    out.append("L_FIN_");
    out.append(name.as_str());
    out.append(":\n");
    assert(final(out)@ =~= o + flag_text(branch@, name@));
}

/// Appends what a binary operator does with `t1` and `t0`.
fn generate_op(value: &NodeType, name: &String, out: &mut String)
    requires
        bin_op_of(*value) is Some,
    ensures
        final(out)@ == old(out)@ + op_text(bin_op_of(*value).unwrap(), name@),
{
    let ghost o = out@;
    match value {
        NodeType::ADD => out.append("  add t2, t1, t0\n"),
        NodeType::SUB => out.append("  sub t2, t1, t0\n"),
        NodeType::MUL => out.append("  mul t2, t1, t0\n"),
        NodeType::DIV => out.append("  div t2, t1, t0\n"),
        NodeType::LT => out.append("  slt t2, t1, t0\n"),
        NodeType::LTE => {
            out.append("  slt t2, t0, t1\n");
            generate_flag("  beq t2, zero,", name, out);
            assert(final(out)@ =~= o + op_text(BinOp::Lte, name@));
        },
        NodeType::EQ => generate_flag("  beq t0, t1,", name, out),
        NodeType::NEQ => generate_flag("  bne t0, t1,", name, out),
        _ => {
            assert(final(out)@ =~= o + seq![]);
        },
    }
}

/// Appends the code of a well-formed tree, post-order; `name` is the tree's
/// position in the program and names its labels.
pub fn generate(node: &Node, name: &String, out: &mut String) -> (r: Result<(), GenError>)
    requires
        node.wf(),
    ensures
        match gen(node.ast(), name@) {
            Ok(c) => r is Ok && final(out)@ == old(out)@ + c,
            Err(e) => r == Err::<(), GenError>(e),
        },
    decreases node,
{
    let ghost o = out@;
    match &node.value {
        NodeType::NUM(n) => {
            generate_li("t0", *n, out);
            generate_push("t0", out);
            assert(final(out)@ =~= o + gen(node.ast(), name@)->Ok_0);
            return Ok(());
        },
        NodeType::LVAR(_, _) => {
            let _ = generate_lvar(node, out);
            generate_pop("t0", out);
            out.append("  lw t1, 0(t0)\n");
            generate_push("t1", out);
            assert(final(out)@ =~= o + gen(node.ast(), name@)->Ok_0);
            return Ok(());
        },
        NodeType::ASSIGN => {
            let left: &Node = &node.children[0];
            let right: &Node = &node.children[1];
            match generate_lvar(left, out) {
                Ok(()) => {},
                Err(e) => return Err(e),
            }
            let ghost o1 = out@;
            let rname = name.clone().concat("_1");
            match generate(right, &rname, out) {
                Ok(()) => {},
                Err(e) => return Err(e),
            }
            generate_pop("t0", out);
            generate_pop("t1", out);
            out.append("  sw t0, 0(t1)\n");
            generate_push("t0", out);
            assert(final(out)@ =~= o + gen(node.ast(), name@)->Ok_0);
            return Ok(());
        },
        _ => {},
    }
    let first: &Node = &node.children[0];
    let lname = name.clone().concat("_0");
    match generate(first, &lname, out) {
        Ok(()) => {},
        Err(e) => return Err(e),
    }
    if let NodeType::RETURN = &node.value {
        generate_pop("a0", out);
        out.append("  j L_END\n");
        assert(final(out)@ =~= o + gen(node.ast(), name@)->Ok_0);
        return Ok(());
    }
    let ghost o1 = out@;
    let second: &Node = &node.children[1];
    let rname = name.clone().concat("_1");
    match generate(second, &rname, out) {
        Ok(()) => {},
        Err(e) => return Err(e),
    }
    let ghost o2 = out@;
    generate_pop("t0", out);
    generate_pop("t1", out);
    generate_op(&node.value, name, out);
    generate_push("t2", out);
    assert(final(out)@ =~= o + gen(node.ast(), name@)->Ok_0);
    Ok(())
}

/// Saves the caller's frame pointer, opens a frame and reserves one slot of
/// `SLOT_STRIDE` bytes for each of `nvars` variables. The first slot lies just
/// below the saved frame pointer, so variable `i` sits at `fp - SLOT_STRIDE * i`.
pub open spec fn prologue(nvars: int) -> Seq<char> {
    ".globl main\n"@ + "main:\n"@ + "  addi sp, sp, -4\n"@ + "  sw fp, 0(sp)\n"@ + "  addi fp, sp, -4\n"@
        + "  addi sp, sp, "@ + dec(-(SLOT_STRIDE as int) * nvars) + "\n"@
}

/// The common end of the program: restores the stack and frame pointers and
/// returns with the result in `a0`.
pub open spec fn epilogue() -> Seq<char> {
    "L_END:\n"@ + "  addi sp, fp, 4\n"@ + "  lw fp, 0(sp)\n"@ + "  addi sp, sp, 4\n"@ + "  ret\n"@
}

/// What follows a statement's code: a return has already taken its value; any
/// other statement's value moves from the stack to `a0`, so that the last one
/// is the program's result.
pub open spec fn discard_text(a: Ast) -> Seq<char> {
    match a {
        Ast::Ret(_) => seq![],
        _ => pop_text("a0"@),
    }
}

/// The code of the first `k` statements; statement `i` names its labels after `i`.
pub open spec fn gen_stmts(stmts: Seq<Ast>, k: int) -> Result<Seq<char>, GenError>
    decreases k,
{
    if k <= 0 {
        Ok(seq![])
    } else {
        match gen_stmts(stmts, k - 1) {
            Err(e) => Err(e),
            Ok(pre) => match gen(stmts[k - 1], nat_digits((k - 1) as nat)) {
                Err(e) => Err(e),
                Ok(c) => Ok(pre + c + discard_text(stmts[k - 1])),
            },
        }
    }
}

/// Once a statement fails, the code of every longer prefix fails the same way.
proof fn lemma_gen_stmts_err(stmts: Seq<Ast>, k: int, m: int)
    requires
        k <= m,
        gen_stmts(stmts, k) is Err,
    ensures
        gen_stmts(stmts, m) == gen_stmts(stmts, k),
    decreases m - k,
{
    if k < m {
        lemma_gen_stmts_err(stmts, k, m - 1);
    }
}

/// The assembly text of a whole program.
pub open spec fn gen_program(stmts: Seq<Ast>, nvars: int) -> Result<Seq<char>, GenError> {
    match gen_stmts(stmts, stmts.len() as int) {
        Ok(body) => Ok(prologue(nvars) + body + epilogue()),
        Err(e) => Err(e),
    }
}

/// Generates the assembly text of a program of well-formed statements that use
/// `nvars` distinct variables.
pub fn generate_program(nodes: &Vec<Box<Node>>, nvars: usize) -> (r: Result<String, GenError>)
    requires
        nvars <= MAX_TOKENS,
        forall|i: int| 0 <= i < nodes@.len() ==> (*#[trigger] nodes@[i]).wf(),
    ensures
        match gen_program(asts_of(nodes@), nvars as int) {
            Ok(c) => r is Ok && r->Ok_0@ == c,
            Err(e) => r == Err::<String, GenError>(e),
        },
{
    let ghost stmts = asts_of(nodes@);
    let mut out = String::new();
    out.append(".globl main\n");
    out.append("main:\n");
    out.append("  addi sp, sp, -4\n");
    out.append("  sw fp, 0(sp)\n");
    out.append("  addi fp, sp, -4\n");
    out.append("  addi sp, sp, ");
    push_decimal(&mut out, 0 - SLOT_STRIDE * (nvars as i64));
    out.append("\n");
    let ghost pro = out@;
    assert(pro =~= prologue(nvars as int));
    let mut i: usize = 0;
    while i < nodes.len()
        invariant
            0 <= i <= nodes@.len(),
            stmts == asts_of(nodes@),
            forall|j: int| 0 <= j < nodes@.len() ==> (*#[trigger] nodes@[j]).wf(),
            gen_stmts(stmts, i as int) is Ok,
            out@ == pro + gen_stmts(stmts, i as int)->Ok_0,
        decreases nodes@.len() - i,
    {
        let ghost pre = out@;
        let mut name = String::new();
        push_nat(&mut name, i as u64);
        match generate(&nodes[i], &name, &mut out) {
            Ok(()) => {},
            Err(e) => {
                proof {
                    lemma_gen_stmts_err(stmts, i + 1, stmts.len() as int);
                }
                return Err(e);
            },
        }
        if let NodeType::RETURN = &nodes[i].value {
        } else {
            generate_pop("a0", &mut out);
        }
        assert(out@ =~= pro + gen_stmts(stmts, i + 1)->Ok_0);
        i = i + 1;
    }
    let ghost body = out@;
    out.append("L_END:\n");
    out.append("  addi sp, fp, 4\n");
    out.append("  lw fp, 0(sp)\n");
    out.append("  addi sp, sp, 4\n");
    out.append("  ret\n");
    assert(out@ =~= body + epilogue());
    Ok(out)
}

/// Why a source text cannot be compiled.
#[derive(Debug, Clone, Copy, PartialEq, Eq, Structural)]
pub enum CompileError {
    Lex(LexError),
    /// The source holds no token.
    Empty,
    /// The source holds more tokens than a parse can number.
    TooLong,
    Parse(ParseError),
    Gen(GenError),
}

/// The assembly text of a source text, or the first error met on the way.
pub open spec fn compilation(s: Seq<char>) -> Result<Seq<char>, CompileError> {
    match lex(s) {
        Err(e) => Err(CompileError::Lex(e)),
        Ok(t) => if t.len() == 0 {
            Err(CompileError::Empty)
        } else if t.len() >= MAX_TOKENS {
            Err(CompileError::TooLong)
        } else {
            match parse(t) {
                Err(e) => Err(CompileError::Parse(e)),
                Ok((stmts, st)) => match gen_program(stmts, st.vars.len() as int) {
                    Ok(c) => Ok(c),
                    Err(e) => Err(CompileError::Gen(e)),
                },
            }
        },
    }
}

/// Compiles a source text: tokens, then statement trees, then assembly text.
pub fn compile(source: String) -> (r: Result<String, CompileError>)
    ensures
        match compilation(source@) {
            Ok(c) => r is Ok && r->Ok_0@ == c,
            Err(e) => r == Err::<String, CompileError>(e),
        },
{
    let tokenizer = Tokenizer::new(source);
    let tokens = match tokenizer.tokenize() {
        Ok(v) => v,
        Err(e) => return Err(CompileError::Lex(e)),
    };
    if tokens.len() == 0 {
        return Err(CompileError::Empty);
    }
    if tokens.len() >= MAX_TOKENS {
        return Err(CompileError::TooLong);
    }
    let mut parser = Parser::new(tokens);
    let (nodes, nvars) = match parser.parse_program() {
        Ok(p) => p,
        Err(e) => return Err(CompileError::Parse(e)),
    };
    match generate_program(&nodes, nvars) {
        Ok(text) => Ok(text),
        Err(e) => Err(CompileError::Gen(e)),
    }
}

} // verus!
