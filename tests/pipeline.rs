use std::collections::HashMap;

use minicc::generator::{compile, generate, generate_pop, generate_program, generate_push, CompileError, GenError};
use minicc::parser::{Node, NodeType, ParseError, Parser};
use minicc::tokenizer::{LexError, Token, Tokenizer};

/// Runs the assembly text on a tiny machine and returns `a0` at `ret`.
fn run(text: &str) -> i64 {
    let lines: Vec<&str> = text.lines().map(|l| l.trim()).filter(|l| !l.is_empty()).collect();
    let mut labels: HashMap<String, usize> = HashMap::new();
    for (i, l) in lines.iter().enumerate() {
        if let Some(name) = l.strip_suffix(':') {
            assert!(labels.insert(name.to_string(), i).is_none(), "duplicate label {}", name);
        }
    }
    let mut regs: HashMap<String, i64> = HashMap::new();
    regs.insert("sp".to_string(), 1 << 20);
    regs.insert("fp".to_string(), 12345);
    regs.insert("zero".to_string(), 0);
    let mut mem: HashMap<i64, i64> = HashMap::new();
    let reg = |regs: &HashMap<String, i64>, r: &str| *regs.get(r).unwrap_or(&0);
    let mem_ref = |arg: &str, regs: &HashMap<String, i64>| -> i64 {
        let open = arg.find('(').unwrap();
        let off: i64 = arg[..open].parse().unwrap();
        let base = &arg[open + 1..arg.len() - 1];
        reg(regs, base) + off
    };
    let mut pc = 0usize;
    let mut steps = 0;
    loop {
        steps += 1;
        assert!(steps < 100_000, "program does not stop");
        let l = lines[pc];
        pc += 1;
        if l.ends_with(':') || l.starts_with('.') {
            continue;
        }
        let (op, rest) = l.split_once(' ').unwrap_or((l, ""));
        let args: Vec<&str> = rest.split(',').map(|a| a.trim()).collect();
        match op {
            "ret" => {
                assert_eq!(reg(&regs, "sp"), 1 << 20, "stack pointer restored");
                assert_eq!(reg(&regs, "fp"), 12345, "frame pointer restored");
                return reg(&regs, "a0");
            }
            "addi" => {
                let v = reg(&regs, args[1]) + args[2].parse::<i64>().unwrap();
                regs.insert(args[0].to_string(), v);
            }
            "sw" => {
                let a = mem_ref(args[1], &regs);
                assert_eq!(a % 4, 0);
                mem.insert(a, reg(&regs, args[0]));
            }
            "lw" => {
                let a = mem_ref(args[1], &regs);
                let v = *mem.get(&a).expect("load of an unwritten word");
                regs.insert(args[0].to_string(), v);
            }
            "add" | "sub" | "mul" | "div" | "slt" => {
                let x = reg(&regs, args[1]);
                let y = reg(&regs, args[2]);
                let v = match op {
                    "add" => x + y,
                    "sub" => x - y,
                    "mul" => x * y,
                    "div" => x / y,
                    _ => (x < y) as i64,
                };
                regs.insert(args[0].to_string(), v);
            }
            "beq" | "bne" => {
                let eq = reg(&regs, args[0]) == reg(&regs, args[1]);
                if eq == (op == "beq") {
                    pc = labels[args[2]];
                }
            }
            "j" => pc = labels[args[0]],
            _ => panic!("unknown instruction {}", l),
        }
    }
}

fn yields(src: &str) -> i64 {
    let text = compile(src.to_string()).expect("compiles");
    run(&text)
}

fn tokens(src: &str) -> Vec<Token> {
    Tokenizer::new(src.to_string()).tokenize().expect("lexes")
}

fn show(n: &Node) -> String {
    let head = match &n.value {
        NodeType::ADD => "+".to_string(),
        NodeType::SUB => "-".to_string(),
        NodeType::MUL => "*".to_string(),
        NodeType::DIV => "/".to_string(),
        NodeType::NUM(v) => return v.to_string(),
        NodeType::LT => "<".to_string(),
        NodeType::LTE => "<=".to_string(),
        NodeType::EQ => "==".to_string(),
        NodeType::NEQ => "!=".to_string(),
        NodeType::ASSIGN => "=".to_string(),
        NodeType::LVAR(name, off) => return format!("{}@{}", name, off),
        NodeType::RETURN => "return".to_string(),
    };
    let kids: Vec<String> = n.children.iter().map(|c| show(c)).collect();
    format!("({} {})", head, kids.join(" "))
}

fn parsed(src: &str) -> (Vec<String>, usize) {
    let (nodes, n) = Parser::new(tokens(src)).parse_program().expect("parses");
    (nodes.iter().map(|s| show(s)).collect(), n)
}

fn parse_error(src: &str) -> ParseError {
    match Parser::new(tokens(src)).parse_program() {
        Ok(_) => panic!("parsed"),
        Err(e) => e,
    }
}

#[test]
fn precedence_mul_binds_tighter() {
    assert_eq!(yields("1+2*3"), 7);
    assert_eq!(parsed("1+2*3").0, vec!["(+ 1 (* 2 3))"]);
}

#[test]
fn precedence_parentheses_group() {
    assert_eq!(yields("(1+2)*3"), 9);
    assert_eq!(parsed("(1+2)*3").0, vec!["(* (+ 1 2) 3)"]);
}

#[test]
fn subtraction_is_left_associative() {
    assert_eq!(yields("10-3-2"), 5);
    assert_eq!(parsed("10-3-2").0, vec!["(- (- 10 3) 2)"]);
    assert_eq!(yields("100/10/5"), 2);
}

#[test]
fn assignment_is_right_associative() {
    assert_eq!(yields("a=b=3; a"), 3);
    assert_eq!(yields("a=b=3; b"), 3);
    let (stmts, n) = parsed("a=b=3; a");
    assert_eq!(stmts, vec!["(= a@0 (= b@-8 3))", "a@0"]);
    assert_eq!(n, 2);
}

#[test]
fn comparisons_give_zero_or_one() {
    let pairs: [(i64, i64); 7] = [(0, 0), (1, 2), (2, 1), (5, 5), (7, 8), (8, 7), (0, 1)];
    for (x, y) in pairs {
        assert_eq!(yields(&format!("{}<{}", x, y)), (x < y) as i64, "{}<{}", x, y);
        assert_eq!(yields(&format!("{}<={}", x, y)), (x <= y) as i64, "{}<={}", x, y);
        assert_eq!(yields(&format!("{}>{}", x, y)), (x > y) as i64, "{}>{}", x, y);
        assert_eq!(yields(&format!("{}>={}", x, y)), (x >= y) as i64, "{}>={}", x, y);
        assert_eq!(yields(&format!("{}=={}", x, y)), (x == y) as i64, "{}=={}", x, y);
        assert_eq!(yields(&format!("{}!={}", x, y)), (x != y) as i64, "{}!={}", x, y);
    }
    assert_eq!(yields("0-1<0"), 1);
    assert_eq!(yields("0-3<=0-3"), 1);
}

#[test]
fn greater_than_swaps_operands() {
    assert_eq!(parsed("1>2").0, vec!["(< 2 1)"]);
    assert_eq!(parsed("1>=2").0, vec!["(<= 2 1)"]);
}

#[test]
fn unary_minus_is_zero_minus() {
    assert_eq!(yields("-5+8"), 3);
    assert_eq!(parsed("-5+8").0, vec!["(+ (- 0 5) 8)"]);
    assert_eq!(yields("+4*2"), 8);
}

#[test]
fn double_unary_minus_is_rejected() {
    assert_eq!(parse_error("--5"), ParseError::ExpectedValue);
    assert_eq!(compile("--5".to_string()), Err(CompileError::Parse(ParseError::ExpectedValue)));
}

#[test]
fn variables_keep_their_slot() {
    assert_eq!(yields("a=5; a=a+1; a"), 6);
    let (stmts, n) = parsed("a=5; b=1; a=a+b; b");
    assert_eq!(stmts, vec!["(= a@0 5)", "(= b@-8 1)", "(= a@0 (+ a@0 b@-8))", "b@-8"]);
    assert_eq!(n, 2);
    assert_eq!(yields("a=5; b=1; a=a+b; a"), 6);
    assert_eq!(yields("foo=2; bar=foo*5; bar-foo"), 8);
}

#[test]
fn many_variables_do_not_overlap() {
    let names = ["a", "b", "c", "d", "e", "f", "g", "h", "i", "j", "k", "l", "m", "n", "o", "p", "q",
        "r", "s", "t", "u", "v", "w", "x", "y", "z", "aa", "bb", "cc", "dd"];
    let mut src = String::new();
    for (i, n) in names.iter().enumerate() {
        src.push_str(&format!("{}={};", n, i + 1));
    }
    src.push_str("a+dd*100+z");
    assert_eq!(yields(&src), 1 + 30 * 100 + 26);
}

#[test]
fn return_stops_the_program() {
    assert_eq!(yields("return 1; 99"), 1);
    let text = compile("return 1; 99".to_string()).unwrap();
    let ret = text.find("  j L_END\n").expect("jump to the end");
    let later = text.find("  addi t0, zero, 99\n").expect("code after return is still emitted");
    assert!(ret < later);
    assert_eq!(text.matches("L_END:").count(), 1);
    assert_eq!(yields("a=2; return a*3; a=100; a"), 6);
}

#[test]
fn malformed_inputs_fail_with_their_kind() {
    assert_eq!(parse_error("1+"), ParseError::ExpectedValue);
    assert_eq!(parse_error("(1+2"), ParseError::UnmatchedParen);
    assert_eq!(parse_error("1 2"), ParseError::MissingSemicolon);
    assert_eq!(compile("1+".to_string()), Err(CompileError::Parse(ParseError::ExpectedValue)));
    assert_eq!(compile("(1+2".to_string()), Err(CompileError::Parse(ParseError::UnmatchedParen)));
    assert_eq!(compile("1 2".to_string()), Err(CompileError::Parse(ParseError::MissingSemicolon)));
    assert_eq!(parse_error(";"), ParseError::ExpectedValue);
}

#[test]
fn parsing_twice_gives_the_same_program() {
    let toks = tokens("a=1; b=a+2*c; c=b<=a; return a==b");
    let first = Parser::new(toks.clone()).parse_program().unwrap();
    let second = Parser::new(toks).parse_program().unwrap();
    assert_eq!(format!("{:?}", first), format!("{:?}", second));
    assert_eq!(first.1, 3);
}

#[test]
fn lexer_reads_operators_and_words() {
    let toks = tokens("a<=b >= c==d!=e<f>g=h; return (12)");
    let shown: Vec<String> = toks.iter().map(|t| format!("{:?}", t)).collect();
    assert_eq!(
        shown,
        vec![
            "Ident(\"a\")", "Operator(\"<=\")", "Ident(\"b\")", "Operator(\">=\")", "Ident(\"c\")",
            "Operator(\"==\")", "Ident(\"d\")", "Operator(\"!=\")", "Ident(\"e\")", "Operator(\"<\")",
            "Ident(\"f\")", "Operator(\">\")", "Ident(\"g\")", "Operator(\"=\")", "Ident(\"h\")",
            "SEMICOLON", "RESERVED(\"return\")", "LeftParen", "Number(12)", "RightParen",
        ]
    );
    let words: Vec<String> = tokens("returns retur return").iter().map(|t| format!("{:?}", t)).collect();
    assert_eq!(words, vec!["Ident(\"returns\")", "Ident(\"retur\")", "RESERVED(\"return\")"]);
    assert!(tokens(" \t\r\n").is_empty());
    let n: Vec<String> = tokens("9223372036854775807").iter().map(|t| format!("{:?}", t)).collect();
    assert_eq!(n, vec!["Number(9223372036854775807)"]);
}

#[test]
fn lexer_rejects_stray_characters() {
    assert_eq!(
        Tokenizer::new("1 ! 2".to_string()).tokenize().unwrap_err(),
        LexError::UnexpectedChar { pos: 2, ch: '!' }
    );
    assert_eq!(
        Tokenizer::new("a+B".to_string()).tokenize().unwrap_err(),
        LexError::UnexpectedChar { pos: 2, ch: 'B' }
    );
    assert_eq!(
        Tokenizer::new("1+92233720368547758070".to_string()).tokenize().unwrap_err(),
        LexError::NumberTooLarge { pos: 2 }
    );
    assert_eq!(
        compile("x # 1".to_string()),
        Err(CompileError::Lex(LexError::UnexpectedChar { pos: 2, ch: '#' }))
    );
}

#[test]
fn empty_source_is_rejected() {
    assert_eq!(compile("".to_string()), Err(CompileError::Empty));
    assert_eq!(compile("  \n".to_string()), Err(CompileError::Empty));
}

#[test]
fn assigning_to_a_value_is_rejected() {
    assert_eq!(compile("1=2".to_string()), Err(CompileError::Gen(GenError::NotAssignable)));
    assert_eq!(compile("a=(b)=1; a".to_string()).map(|s| run(&s)), Ok(1));
    assert_eq!(compile("a+1=2".to_string()), Err(CompileError::Gen(GenError::NotAssignable)));
}

#[test]
fn comparison_labels_follow_tree_positions() {
    let text = compile("1<=2; (1==1)!=(2<=3)".to_string()).unwrap();
    assert!(text.contains("L_SET_0:\n"));
    assert!(text.contains("L_SET_1:\n"));
    assert!(text.contains("L_SET_1_0:\n"));
    assert!(text.contains("L_SET_1_1:\n"));
    assert!(text.contains("L_FIN_1_1:\n"));
    assert_eq!(run(&text), 0);
}

#[test]
fn push_and_pop_text() {
    let mut out = String::from("x\n");
    generate_push("t0", &mut out);
    generate_pop("a0", &mut out);
    assert_eq!(out, "x\n  addi sp, sp, -4\n  sw t0, 0(sp)\n  lw a0, 0(sp)\n  addi sp, sp, 4\n");
}

#[test]
fn node_code_is_post_order() {
    let (nodes, _) = Parser::new(tokens("2-a")).parse_program().unwrap();
    let mut out = String::new();
    generate(&nodes[0], &"0".to_string(), &mut out).unwrap();
    assert_eq!(
        out,
        [
            "  addi t0, zero, 2\n  addi sp, sp, -4\n  sw t0, 0(sp)\n",
            "  addi t0, fp, 0\n  addi sp, sp, -4\n  sw t0, 0(sp)\n",
            "  lw t0, 0(sp)\n  addi sp, sp, 4\n  lw t1, 0(t0)\n  addi sp, sp, -4\n  sw t1, 0(sp)\n",
            "  lw t0, 0(sp)\n  addi sp, sp, 4\n  lw t1, 0(sp)\n  addi sp, sp, 4\n",
            "  sub t2, t1, t0\n  addi sp, sp, -4\n  sw t2, 0(sp)\n",
        ]
        .concat()
    );
}

#[test]
fn program_frame_reserves_one_slot_per_variable() {
    let (nodes, n) = Parser::new(tokens("a=1; b=2; c=3")).parse_program().unwrap();
    let text = generate_program(&nodes, n).unwrap();
    assert!(text.starts_with(
        ".globl main\nmain:\n  addi sp, sp, -4\n  sw fp, 0(sp)\n  addi fp, sp, -4\n  addi sp, sp, -24\n"
    ));
    assert!(text.ends_with("L_END:\n  addi sp, fp, 4\n  lw fp, 0(sp)\n  addi sp, sp, 4\n  ret\n"));
    assert!(text.contains("  addi t0, fp, -16\n"));
    assert_eq!(run(&text), 3);
}

#[test]
fn add_child_appends_without_touching_the_original() {
    let leaf = Node::new(NodeType::NUM(4));
    let one = Node::new(NodeType::RETURN).add_child(leaf);
    assert_eq!(one.children.len(), 1);
    let two = Node::new(NodeType::ADD).add_child(Node::new(NodeType::NUM(1))).add_child(Node::new(NodeType::NUM(2)));
    assert_eq!(show(&two), "(+ 1 2)");
    assert_eq!(show(&one), "(return 4)");
}

#[test]
fn large_values_are_printed_in_full() {
    assert_eq!(yields("123456*1000"), 123456000);
    assert!(compile("9223372036854775807".to_string()).unwrap().contains("zero, 9223372036854775807\n"));
}
