use small_cc::node::{Instruction, Node, NodeKind};
use small_cc::token::{LexError, ParseError, TokenKind, TokenLinkedList};

/// A simple stack machine: `Push` pushes a value; each operator pops
/// two values (right operand on top), combines, and pushes one result;
/// `Ret` halts with the stack as it stands.
fn run(code: &[Instruction]) -> Option<Vec<i64>> {
    let mut stack: Vec<i64> = Vec::new();
    for ins in code {
        match ins {
            Instruction::Push(v) => stack.push(*v as i64),
            Instruction::Ret => return Some(stack),
            op => {
                let b = stack.pop()?;
                let a = stack.pop()?;
                stack.push(match op {
                    Instruction::Add => a + b,
                    Instruction::Sub => a - b,
                    Instruction::Mul => a * b,
                    Instruction::Div => a / b,
                    _ => unreachable!(),
                });
            }
        }
    }
    Some(stack)
}

fn compile_str(s: &str) -> Option<Vec<Instruction>> {
    let mut t = TokenLinkedList::tokenize(s.to_string()).ok()?;
    let n = Node::parse(&mut t)?;
    Some(Node::compile(n))
}

fn eval_str(s: &str) -> i64 {
    let code = compile_str(s).expect("the expression should compile");
    let stack = run(&code).expect("the code should run");
    assert_eq!(stack.len(), 1, "the stack should hold exactly the result");
    stack[0]
}

#[test]
fn single_literal_bare() {
    let code = compile_str("42").unwrap();
    assert_eq!(code, vec![Instruction::Push(42), Instruction::Ret]);
}

#[test]
fn single_literal_parenthesized() {
    let code = compile_str("((7))").unwrap();
    assert_eq!(code, vec![Instruction::Push(7), Instruction::Ret]);
    let code = compile_str("(((((0)))))").unwrap();
    assert_eq!(code, vec![Instruction::Push(0), Instruction::Ret]);
}

#[test]
fn push_count_matches_literals_and_operators() {
    let code = compile_str("(1 + 2) * 3 - 4 / 2").unwrap();
    let pushes = code
        .iter()
        .filter(|i| matches!(i, Instruction::Push(_)))
        .count();
    let ops = code
        .iter()
        .filter(|i| {
            matches!(
                i,
                Instruction::Add | Instruction::Sub | Instruction::Mul | Instruction::Div
            )
        })
        .count();
    assert_eq!(pushes, 5);
    assert_eq!(ops, 4);
}

#[test]
fn precedence_mul_binds_tighter() {
    assert_eq!(eval_str("1 + 2 * 3"), 7);
}

#[test]
fn associativity_left_to_right() {
    assert_eq!(eval_str("10 - 2 - 3"), 5);
    assert_eq!(eval_str("8 / 2 / 2"), 2);
}

#[test]
fn grouping_overrides_precedence() {
    assert_eq!(eval_str("(1 + 2) * 3"), 9);
}

#[test]
fn round_trip_mixed_expression() {
    assert_eq!(eval_str("(1 + 2) * 3 - 4 / 2"), 7);
    assert_eq!(eval_str("2 * (3 + 4) - 5"), 9);
    assert_eq!(eval_str("100 / 10 / 5 + 3 * 3"), 11);
}

#[test]
fn round_trip_instruction_order_is_post_order() {
    let code = compile_str("1 + 2 * 3").unwrap();
    assert_eq!(
        code,
        vec![
            Instruction::Push(1),
            Instruction::Push(2),
            Instruction::Push(3),
            Instruction::Mul,
            Instruction::Add,
            Instruction::Ret,
        ]
    );
}

#[test]
fn rejects_trailing_operator() {
    assert_eq!(
        TokenLinkedList::tokenize("1 +".to_string()).unwrap_err(),
        LexError::TrailingOperator
    );
}

#[test]
fn rejects_unbalanced_parentheses() {
    assert_eq!(
        TokenLinkedList::tokenize("(1 + 2".to_string()).unwrap_err(),
        LexError::UnbalancedParentheses
    );
    assert_eq!(
        TokenLinkedList::tokenize("1)".to_string()).unwrap_err(),
        LexError::UnbalancedParentheses
    );
}

#[test]
fn rejects_illegal_character() {
    assert_eq!(
        TokenLinkedList::tokenize("1 $ 2".to_string()).unwrap_err(),
        LexError::UnexpectedChar(2)
    );
}

#[test]
fn rejects_leading_operator() {
    assert_eq!(
        TokenLinkedList::tokenize("+ 1".to_string()).unwrap_err(),
        LexError::MisplacedOperator(0)
    );
}

#[test]
fn rejects_misplaced_parentheses() {
    assert_eq!(
        TokenLinkedList::tokenize("1(2)".to_string()).unwrap_err(),
        LexError::MisplacedOpenParen(1)
    );
    assert_eq!(
        TokenLinkedList::tokenize("()".to_string()).unwrap_err(),
        LexError::MisplacedCloseParen(1)
    );
}

#[test]
fn rejects_adjacent_numerals() {
    assert_eq!(
        TokenLinkedList::tokenize("1 2".to_string()).unwrap_err(),
        LexError::MisplacedDigit(2)
    );
}

#[test]
fn rejects_numeral_too_large() {
    assert_eq!(
        TokenLinkedList::tokenize("4294967296".to_string()).unwrap_err(),
        LexError::NumberTooLarge(9)
    );
    let t = TokenLinkedList::tokenize("4294967295".to_string()).unwrap();
    assert_eq!(t.tokens, vec![TokenKind::Number(4294967295)]);
}

#[test]
fn rejects_trailing_tokens_at_parse() {
    let mut t = TokenLinkedList::tokenize("1)-(2".to_string()).unwrap();
    assert_eq!(Node::parse(&mut t), None);
}

#[test]
fn rejects_empty_input_at_parse() {
    let mut t = TokenLinkedList::tokenize("".to_string()).unwrap();
    assert_eq!(t.tokens, vec![]);
    assert_eq!(Node::parse(&mut t), None);
}

#[test]
fn parse_is_reproducible() {
    let source = "(1 + 2) * 3 - 4 / 2";
    let mut t1 = TokenLinkedList::tokenize(source.to_string()).unwrap();
    let mut t2 = TokenLinkedList::tokenize(source.to_string()).unwrap();
    assert_eq!(t1.tokens, t2.tokens);
    let n1 = Node::parse(&mut t1).unwrap();
    let n2 = Node::parse(&mut t2).unwrap();
    assert_eq!(n1, n2);
}

#[test]
fn tokenize_classifies_and_ignores_spaces() {
    let t = TokenLinkedList::tokenize("  ( 12+ 3 )* 45 ".to_string()).unwrap();
    assert_eq!(
        t.tokens,
        vec![
            TokenKind::OpenParentheses,
            TokenKind::Number(12),
            TokenKind::Add,
            TokenKind::Number(3),
            TokenKind::CloseParentheses,
            TokenKind::Mul,
            TokenKind::Number(45),
        ]
    );
}

#[test]
fn from_is_tokenize() {
    let a = TokenLinkedList::from("1 + 2".to_string()).unwrap();
    let b = TokenLinkedList::tokenize("1 + 2".to_string()).unwrap();
    assert_eq!(a.tokens, b.tokens);
}

#[test]
fn from_char_classifies_operators() {
    assert_eq!(TokenKind::from_char('+'), Some(TokenKind::Add));
    assert_eq!(TokenKind::from_char('-'), Some(TokenKind::Sub));
    assert_eq!(TokenKind::from_char('*'), Some(TokenKind::Mul));
    assert_eq!(TokenKind::from_char('/'), Some(TokenKind::Div));
    assert_eq!(TokenKind::from_char('('), Some(TokenKind::OpenParentheses));
    assert_eq!(TokenKind::from_char(')'), Some(TokenKind::CloseParentheses));
    assert_eq!(TokenKind::from_char('7'), None);
    assert_eq!(TokenKind::from_char('$'), None);
}

#[test]
fn from_num_wraps_the_value() {
    assert_eq!(TokenKind::from_num(9), TokenKind::Number(9));
}

#[test]
fn stream_consume_and_expect_protocol() {
    let mut t = TokenLinkedList::tokenize("1 + 2".to_string()).unwrap();
    assert_eq!(t.len(), 3);
    assert!(!t.consume(TokenKind::Add));
    assert_eq!(
        t.expect(TokenKind::Add),
        Err(ParseError::UnexpectedToken(TokenKind::Number(1)))
    );
    assert_eq!(t.expect_number(), Ok(1));
    assert!(t.consume(TokenKind::Add));
    assert_eq!(
        t.expect_number(),
        Ok(2),
    );
    assert_eq!(t.len(), 0);
    assert_eq!(t.expect_number(), Err(ParseError::UnexpectedEnd));
    assert_eq!(t.expect(TokenKind::Add), Err(ParseError::UnexpectedEnd));

    let mut empty = TokenLinkedList::new();
    assert_eq!(empty.len(), 0);
    assert!(!empty.consume(TokenKind::Add));
}

#[test]
fn expr_leaves_unconsumable_rest() {
    let mut t = TokenLinkedList::tokenize("1)-(2".to_string()).unwrap();
    let n = Node::expr(&mut t).unwrap();
    assert_eq!(n, Node::new(NodeKind::Number(1), None, None));
    assert_eq!(t.len(), 4);
}

#[test]
fn parser_builds_left_associated_tree() {
    let mut t = TokenLinkedList::tokenize("10 - 2 - 3".to_string()).unwrap();
    let n = Node::parse(&mut t).unwrap();
    let ten = Node::new(NodeKind::Number(10), None, None);
    let two = Node::new(NodeKind::Number(2), None, None);
    let three = Node::new(NodeKind::Number(3), None, None);
    let left = Node::new(NodeKind::Sub, Some(Box::new(ten)), Some(Box::new(two)));
    let expected = Node::new(NodeKind::Sub, Some(Box::new(left)), Some(Box::new(three)));
    assert_eq!(n, expected);
}
