//! The binary expression tree, the recursive-descent parser, and the
//! post-order stack-instruction generator.

use crate::token::all_digits;
use crate::token::count_numbers;
use crate::token::count_numerals_from;
use crate::token::count_operator_chars;
use crate::token::count_operators;
use crate::token::numeral_value;
use crate::token::repeat_token;
use crate::token::spec_tokenize;
use crate::token::wrapped_literal_chars;
use crate::token::TokenKind;
use crate::token::TokenLinkedList;
use vstd::prelude::*;

verus! {

/// The tag of a tree node: one of the four binary operators, or a
/// numeric literal.
#[derive(Debug, Clone, Copy, PartialEq, Eq, Structural)]
pub enum NodeKind {
    Add,
    Sub,
    Mul,
    Div,
    Number(u32),
}

/// A node of the binary expression tree. A `Number` node is a leaf;
/// an operator node owns exactly two children.
#[derive(Debug, PartialEq)]
pub struct Node {
    pub node_kind: NodeKind,
    pub lhs: Option<Box<Node>>,
    pub rhs: Option<Box<Node>>,
}

impl Node {
    /// A tree is well formed when every literal is a leaf and every
    /// operator node has both children, recursively.
    pub open spec fn wf(self) -> bool
        decreases self,
    {
        match (self.node_kind, self.lhs, self.rhs) {
            (NodeKind::Number(_), l, r) => l is None && r is None,
            (_, Some(l), Some(r)) => l.wf() && r.wf(),
            _ => false,
        }
    }

    /// The value of the expression under standard arithmetic, with
    /// every operator read as its mathematical-integer counterpart.
    pub open spec fn eval(self) -> int
        decreases self,
    {
        match (self.node_kind, self.lhs, self.rhs) {
            (NodeKind::Number(v), _, _) => v as int,
            (NodeKind::Add, Some(l), Some(r)) => l.eval() + r.eval(),
            (NodeKind::Sub, Some(l), Some(r)) => l.eval() - r.eval(),
            (NodeKind::Mul, Some(l), Some(r)) => l.eval() * r.eval(),
            (NodeKind::Div, Some(l), Some(r)) => l.eval() / r.eval(),
            _ => 0,
        }
    }

    /// How many literal leaves the tree has.
    pub open spec fn leaf_count(self) -> nat
        decreases self,
    {
        match (self.node_kind, self.lhs, self.rhs) {
            (NodeKind::Number(_), _, _) => 1,
            (_, Some(l), Some(r)) => l.leaf_count() + r.leaf_count(),
            _ => 0,
        }
    }

    /// How many operator nodes the tree has.
    pub open spec fn op_count(self) -> nat
        decreases self,
    {
        match (self.node_kind, self.lhs, self.rhs) {
            (NodeKind::Number(_), _, _) => 0,
            (_, Some(l), Some(r)) => 1 + l.op_count() + r.op_count(),
            _ => 0,
        }
    }

    /// The post-order instruction sequence for the tree: both children
    /// first, then the node's own instruction. The final `Ret` marker is
    /// appended by `compile`, not here.
    pub open spec fn spec_code(self) -> Seq<Instruction>
        decreases self,
    {
        match (self.node_kind, self.lhs, self.rhs) {
            (NodeKind::Number(v), _, _) => seq![Instruction::Push(v)],
            (NodeKind::Add, Some(l), Some(r)) => l.spec_code() + r.spec_code() + seq![
                Instruction::Add,
            ],
            (NodeKind::Sub, Some(l), Some(r)) => l.spec_code() + r.spec_code() + seq![
                Instruction::Sub,
            ],
            (NodeKind::Mul, Some(l), Some(r)) => l.spec_code() + r.spec_code() + seq![
                Instruction::Mul,
            ],
            (NodeKind::Div, Some(l), Some(r)) => l.spec_code() + r.spec_code() + seq![
                Instruction::Div,
            ],
            _ => Seq::empty(),
        }
    }

    /// The grammar rule `primary := '(' expr ')' | NUMBER`: consume one
    /// primary expression from the front of the stream. `None` exactly
    /// when the grammar is violated; the run then aborts, so the
    /// partially drained stream is left as it stands.
    pub fn primary(t: &mut TokenLinkedList) -> (r: Option<Node>)
        requires
            old(t).wf(),
        ensures
            final(t).wf(),
            match r {
                Some(n) => spec_primary(old(t)@) == Some((n, final(t)@)),
                None => spec_primary(old(t)@) is None,
            },
        decreases old(t)@.len(), 0int,
    {
        if t.consume(TokenKind::OpenParentheses) {
            let e = match Node::expr(t) {
                Some(n) => n,
                None => {
                    return None;
                },
            };
            match t.expect(TokenKind::CloseParentheses) {
                Ok(()) => Some(e),
                Err(_) => None,
            }
        } else {
            match t.expect_number() {
                Ok(v) => Some(Node::new(NodeKind::Number(v), None, None)),
                Err(_) => None,
            }
        }
    }

    /// The grammar rule `mul := primary ( ('*' | '/') primary )*`:
    /// parse one primary, then fold `*` and `/` continuations onto it
    /// left to right.
    pub fn mul(t: &mut TokenLinkedList) -> (r: Option<Node>)
        requires
            old(t).wf(),
        ensures
            final(t).wf(),
            match r {
                Some(n) => spec_mul(old(t)@) == Some((n, final(t)@)),
                None => spec_mul(old(t)@) is None,
            },
        decreases old(t)@.len(), 1int,
    {
        let mut node = match Node::primary(t) {
            Some(n) => n,
            None => {
                return None;
            },
        };
        proof {
            lemma_primary_props(old(t)@);
        }
        loop
            invariant
                t.wf(),
                t@.len() < old(t)@.len(),
                spec_mul(old(t)@) == spec_mul_rest(node, t@),
            decreases t@.len(),
        {
            let ghost tl = t@;
            let op = if t.consume(TokenKind::Mul) {
                NodeKind::Mul
            } else if t.consume(TokenKind::Div) {
                NodeKind::Div
            } else {
                return Some(node);
            };
            let m = match Node::primary(t) {
                Some(m) => m,
                None => {
                    return None;
                },
            };
            proof {
                lemma_primary_props(tl.skip(1));
            }
            node = Node::new(op, Some(Box::new(node)), Some(Box::new(m)));
        }
    }

    /// The grammar rule `expr := mul ( ('+' | '-') mul )*`, the start
    /// symbol: parse one mul, then fold `+` and `-` continuations onto
    /// it left to right.
    pub fn expr(t: &mut TokenLinkedList) -> (r: Option<Node>)
        requires
            old(t).wf(),
        ensures
            final(t).wf(),
            match r {
                Some(n) => spec_expr(old(t)@) == Some((n, final(t)@)),
                None => spec_expr(old(t)@) is None,
            },
        decreases old(t)@.len(), 4int,
    {
        let mut node = match Node::mul(t) {
            Some(n) => n,
            None => {
                return None;
            },
        };
        proof {
            lemma_mul_props(old(t)@);
        }
        loop
            invariant
                t.wf(),
                t@.len() < old(t)@.len(),
                spec_expr(old(t)@) == spec_expr_rest(node, t@),
            decreases t@.len(),
        {
            let ghost tl = t@;
            let op = if t.consume(TokenKind::Add) {
                NodeKind::Add
            } else if t.consume(TokenKind::Sub) {
                NodeKind::Sub
            } else {
                return Some(node);
            };
            let m = match Node::mul(t) {
                Some(m) => m,
                None => {
                    return None;
                },
            };
            proof {
                lemma_mul_props(tl.skip(1));
            }
            node = Node::new(op, Some(Box::new(node)), Some(Box::new(m)));
        }
    }

    /// Parse a whole token stream as one expression. Trailing tokens
    /// left over after the top-level `expr` are a grammar violation and
    /// make the parse fail.
    pub fn parse(t: &mut TokenLinkedList) -> (r: Option<Node>)
        requires
            old(t).wf(),
        ensures
            final(t).wf(),
            match r {
                Some(n) => spec_parse(old(t)@) == Some(n) && final(t)@.len() == 0,
                None => spec_parse(old(t)@) is None,
            },
    {
        let node = match Node::expr(t) {
            Some(n) => n,
            None => {
                return None;
            },
        };
        if t.len() == 0 {
            Some(node)
        } else {
            None
        }
    }

    /// Build a node from a tag and two optional children.
    pub fn new(node_kind: NodeKind, lhs: Option<Box<Node>>, rhs: Option<Box<Node>>) -> (r: Node)
        ensures
            r == (Node { node_kind, lhs, rhs }),
    {
        Node { node_kind, lhs, rhs }
    }

    /// Walk the tree in post-order and emit one instruction per node,
    /// appending onto `out`: both children first, then the node's own
    /// instruction.
    fn emit(n: &Node, out: &mut Vec<Instruction>)
        requires
            n.wf(),
        ensures
            final(out)@ == old(out)@ + n.spec_code(),
        decreases *n,
    {
        match (n.node_kind, &n.lhs, &n.rhs) {
            (NodeKind::Number(v), _, _) => {
                out.push(Instruction::Push(v));
                proof {
                    assert(out@ =~= old(out)@ + n.spec_code());
                }
            },
            (k, Some(l), Some(r)) => {
                Node::emit(&**l, out);
                Node::emit(&**r, out);
                out.push(
                    match k {
                        NodeKind::Add => Instruction::Add,
                        NodeKind::Sub => Instruction::Sub,
                        NodeKind::Mul => Instruction::Mul,
                        _ => Instruction::Div,
                    },
                );
                proof {
                    assert(out@ =~= old(out)@ + n.spec_code());
                }
            },
            _ => {
                proof {
                    assert(false);
                }
            },
        }
    }

    /// Generate the whole instruction sequence for a well-formed tree:
    /// the post-order walk of the tree, terminated by `Ret`. This stage
    /// is total over well-formed trees; a malformed stream was already
    /// rejected at parse time.
    pub fn compile(n: Node) -> (code: Vec<Instruction>)
        requires
            n.wf(),
        ensures
            code@ == n.spec_code().push(Instruction::Ret),
    {
        let mut out: Vec<Instruction> = Vec::new();
        Node::emit(&n, &mut out);
        out.push(Instruction::Ret);
        proof {
            assert(out@ =~= n.spec_code().push(Instruction::Ret));
        }
        out
    }
}

/// A literal leaf.
pub open spec fn leaf(v: u32) -> Node {
    Node { node_kind: NodeKind::Number(v), lhs: None, rhs: None }
}

/// An operator node over two owned children.
pub open spec fn binary(node_kind: NodeKind, l: Node, r: Node) -> Node {
    Node { node_kind, lhs: Some(Box::new(l)), rhs: Some(Box::new(r)) }
}

/// The tree tag that an operator token parses to. Only ever applied to
/// the four operator tokens.
pub open spec fn op_node_kind(t: TokenKind) -> NodeKind {
    match t {
        TokenKind::Add => NodeKind::Add,
        TokenKind::Sub => NodeKind::Sub,
        TokenKind::Mul => NodeKind::Mul,
        TokenKind::Div => NodeKind::Div,
        _ => NodeKind::Number(0),
    }
}

/// The grammar rule `primary := '(' expr ')' | NUMBER`, as a function
/// from a token sequence to the parsed tree and the unconsumed rest.
/// `None` is a parse failure.
pub open spec fn spec_primary(t: Seq<TokenKind>) -> Option<(Node, Seq<TokenKind>)>
    decreases t.len(), 0int,
{
    if t.len() > 0 {
        match t[0] {
            TokenKind::Number(v) => Some((leaf(v), t.skip(1))),
            TokenKind::OpenParentheses => match spec_expr(t.skip(1)) {
                Some((n, r)) => if r.len() > 0 && r[0] is CloseParentheses {
                    Some((n, r.skip(1)))
                } else {
                    None
                },
                None => None,
            },
            _ => None,
        }
    } else {
        None
    }
}

/// The grammar rule `mul := primary ( ('*' | '/') primary )*`.
/// The `r.len() < t.len()` tests only witness that parsing consumed at
/// least one token, which `lemma_primary_props` and its siblings prove
/// always holds of a successful sub-parse; they make the recursion
/// visibly terminating.
pub open spec fn spec_mul(t: Seq<TokenKind>) -> Option<(Node, Seq<TokenKind>)>
    decreases t.len(), 1int,
{
    match spec_primary(t) {
        Some((n, r)) => if r.len() < t.len() {
            spec_mul_rest(n, r)
        } else {
            None
        },
        None => None,
    }
}

/// Left-to-right folding of `*` and `/` continuations onto an already
/// parsed left operand.
pub open spec fn spec_mul_rest(n: Node, t: Seq<TokenKind>) -> Option<(Node, Seq<TokenKind>)>
    decreases t.len(), 2int,
{
    if t.len() > 0 && (t[0] is Mul || t[0] is Div) {
        match spec_primary(t.skip(1)) {
            Some((m, r)) => if r.len() < t.len() {
                spec_mul_rest(binary(op_node_kind(t[0]), n, m), r)
            } else {
                None
            },
            None => None,
        }
    } else {
        Some((n, t))
    }
}

/// The grammar rule `expr := mul ( ('+' | '-') mul )*`, the whole
/// grammar's start symbol.
pub open spec fn spec_expr(t: Seq<TokenKind>) -> Option<(Node, Seq<TokenKind>)>
    decreases t.len(), 4int,
{
    match spec_mul(t) {
        Some((n, r)) => if r.len() < t.len() {
            spec_expr_rest(n, r)
        } else {
            None
        },
        None => None,
    }
}

/// Left-to-right folding of `+` and `-` continuations onto an already
/// parsed left operand.
pub open spec fn spec_expr_rest(n: Node, t: Seq<TokenKind>) -> Option<(Node, Seq<TokenKind>)>
    decreases t.len(), 5int,
{
    if t.len() > 0 && (t[0] is Add || t[0] is Sub) {
        match spec_mul(t.skip(1)) {
            Some((m, r)) => if r.len() < t.len() {
                spec_expr_rest(binary(op_node_kind(t[0]), n, m), r)
            } else {
                None
            },
            None => None,
        }
    } else {
        Some((n, t))
    }
}

/// A whole-input parse: one `expr` that must consume every token.
pub open spec fn spec_parse(t: Seq<TokenKind>) -> Option<Node> {
    match spec_expr(t) {
        Some((n, r)) => if r.len() == 0 {
            Some(n)
        } else {
            None
        },
        None => None,
    }
}

/// What every successful `primary` parse guarantees: the tree is well
/// formed, at least one token was consumed, and the consumed tokens
/// hold exactly one numeral per literal leaf and one operator token per
/// operator node of the tree.
pub proof fn lemma_primary_props(t: Seq<TokenKind>)
    ensures
        spec_primary(t) matches Some((n, r)) ==> n.wf() && r.len() < t.len() && n.leaf_count()
            + count_numbers(r) == count_numbers(t) && n.op_count() + count_operators(r)
            == count_operators(t),
    decreases t.len(), 0int,
{
    if t.len() > 0 {
        match t[0] {
            TokenKind::OpenParentheses => {
                lemma_expr_props(t.skip(1));
            },
            _ => {},
        }
    }
}

/// As `lemma_primary_props`, for the `mul` rule.
pub proof fn lemma_mul_props(t: Seq<TokenKind>)
    ensures
        spec_mul(t) matches Some((n, r)) ==> n.wf() && r.len() < t.len() && n.leaf_count()
            + count_numbers(r) == count_numbers(t) && n.op_count() + count_operators(r)
            == count_operators(t),
    decreases t.len(), 1int,
{
    lemma_primary_props(t);
    match spec_primary(t) {
        Some((n, r)) => {
            if r.len() < t.len() {
                lemma_mul_rest_props(n, r);
            }
        },
        None => {},
    }
}

/// As `lemma_primary_props`, for the folding of `*` and `/`
/// continuations: the counts are stated relative to the left operand
/// already parsed, and consumption need not be strict (there may be no
/// continuation at all).
pub proof fn lemma_mul_rest_props(n0: Node, t: Seq<TokenKind>)
    ensures
        spec_mul_rest(n0, t) matches Some((n, r)) ==> (n0.wf() ==> n.wf()) && r.len() <= t.len()
            && n.leaf_count() + count_numbers(r) == n0.leaf_count() + count_numbers(t)
            && n.op_count() + count_operators(r) == n0.op_count() + count_operators(t),
    decreases t.len(), 2int,
{
    if t.len() > 0 && (t[0] is Mul || t[0] is Div) {
        lemma_primary_props(t.skip(1));
        match spec_primary(t.skip(1)) {
            Some((m, r)) => {
                if r.len() < t.len() {
                    lemma_mul_rest_props(binary(op_node_kind(t[0]), n0, m), r);
                }
            },
            None => {},
        }
    }
}

/// As `lemma_primary_props`, for the whole grammar's start rule.
pub proof fn lemma_expr_props(t: Seq<TokenKind>)
    ensures
        spec_expr(t) matches Some((n, r)) ==> n.wf() && r.len() < t.len() && n.leaf_count()
            + count_numbers(r) == count_numbers(t) && n.op_count() + count_operators(r)
            == count_operators(t),
    decreases t.len(), 4int,
{
    lemma_mul_props(t);
    match spec_mul(t) {
        Some((n, r)) => {
            if r.len() < t.len() {
                lemma_expr_rest_props(n, r);
            }
        },
        None => {},
    }
}

/// As `lemma_mul_rest_props`, for the folding of `+` and `-`
/// continuations.
pub proof fn lemma_expr_rest_props(n0: Node, t: Seq<TokenKind>)
    ensures
        spec_expr_rest(n0, t) matches Some((n, r)) ==> (n0.wf() ==> n.wf()) && r.len() <= t.len()
            && n.leaf_count() + count_numbers(r) == n0.leaf_count() + count_numbers(t)
            && n.op_count() + count_operators(r) == n0.op_count() + count_operators(t),
    decreases t.len(), 5int,
{
    if t.len() > 0 && (t[0] is Add || t[0] is Sub) {
        lemma_mul_props(t.skip(1));
        match spec_mul(t.skip(1)) {
            Some((m, r)) => {
                if r.len() < t.len() {
                    lemma_expr_rest_props(binary(op_node_kind(t[0]), n0, m), r);
                }
            },
            None => {},
        }
    }
}

/// One stack-machine instruction: `Push` a literal, apply one of the
/// four operators to the two topmost values, or the final `Ret` marker.
#[derive(Debug, Clone, Copy, PartialEq, Eq, Structural)]
pub enum Instruction {
    Push(u32),
    Add,
    Sub,
    Mul,
    Div,
    Ret,
}

/// Run a stack machine over an instruction sequence, starting from the
/// given stack. `Push` pushes its value; an operator pops the right
/// operand, then the left, and pushes the combined result; `Ret` halts
/// with the stack as it stands. Popping from fewer than two values
/// fails.
pub open spec fn spec_run(code: Seq<Instruction>, stack: Seq<int>) -> Option<Seq<int>>
    decreases code.len(),
{
    if code.len() == 0 {
        Some(stack)
    } else {
        match code[0] {
            Instruction::Push(v) => spec_run(code.skip(1), stack.push(v as int)),
            Instruction::Ret => Some(stack),
            op => {
                if stack.len() >= 2 {
                    let a = stack[stack.len() - 2];
                    let b = stack[stack.len() - 1];
                    let v = match op {
                        Instruction::Add => a + b,
                        Instruction::Sub => a - b,
                        Instruction::Mul => a * b,
                        _ => a / b,
                    };
                    spec_run(code.skip(1), stack.subrange(0, stack.len() - 2).push(v))
                } else {
                    None
                }
            },
        }
    }
}

/// How many `Push` instructions an instruction sequence holds.
pub open spec fn count_push(code: Seq<Instruction>) -> nat
    decreases code.len(),
{
    if code.len() == 0 {
        0
    } else {
        (if code[0] is Push {
            1nat
        } else {
            0nat
        }) + count_push(code.skip(1))
    }
}

/// How many operator instructions an instruction sequence holds.
pub open spec fn count_op_instructions(code: Seq<Instruction>) -> nat
    decreases code.len(),
{
    if code.len() == 0 {
        0
    } else {
        (if code[0] is Add || code[0] is Sub || code[0] is Mul || code[0] is Div {
            1nat
        } else {
            0nat
        }) + count_op_instructions(code.skip(1))
    }
}

/// Both instruction counts distribute over concatenation.
proof fn lemma_counts_concat(a: Seq<Instruction>, b: Seq<Instruction>)
    ensures
        count_push(a + b) == count_push(a) + count_push(b),
        count_op_instructions(a + b) == count_op_instructions(a) + count_op_instructions(b),
    decreases a.len(),
{
    if a.len() == 0 {
        assert(a + b =~= b);
    } else {
        assert((a + b).skip(1) =~= a.skip(1) + b);
        lemma_counts_concat(a.skip(1), b);
    }
}

/// A well-formed tree's code holds one `Push` per literal leaf and one
/// operator instruction per operator node.
pub proof fn lemma_code_counts(n: Node)
    requires
        n.wf(),
    ensures
        count_push(n.spec_code()) == n.leaf_count(),
        count_op_instructions(n.spec_code()) == n.op_count(),
    decreases n,
{
    match (n.node_kind, n.lhs, n.rhs) {
        (NodeKind::Number(v), _, _) => {
            assert(n.spec_code().skip(1) =~= Seq::<Instruction>::empty());
            assert(count_push(Seq::<Instruction>::empty()) == 0);
            assert(count_op_instructions(Seq::<Instruction>::empty()) == 0);
        },
        (k, Some(l), Some(r)) => {
            lemma_code_counts(*l);
            lemma_code_counts(*r);
            let op = match k {
                NodeKind::Add => Instruction::Add,
                NodeKind::Sub => Instruction::Sub,
                NodeKind::Mul => Instruction::Mul,
                _ => Instruction::Div,
            };
            lemma_counts_concat(l.spec_code(), r.spec_code());
            lemma_counts_concat(l.spec_code() + r.spec_code(), seq![op]);
            assert(seq![op].skip(1) =~= Seq::<Instruction>::empty());
            assert(count_push(Seq::<Instruction>::empty()) == 0);
            assert(count_op_instructions(Seq::<Instruction>::empty()) == 0);
            assert(count_push(seq![op]) == 0);
            assert(count_op_instructions(seq![op]) == 1);
        },
        _ => {},
    }
}

/// One numeral token per literal leaf, one operator token per operator
/// node: for any token sequence that parses as a whole expression, the
/// emitted code holds exactly one `Push` per numeral token of the input
/// and exactly one operator instruction per operator token of the
/// input.
pub proof fn lemma_instruction_counts(t: Seq<TokenKind>, n: Node)
    requires
        spec_parse(t) == Some(n),
    ensures
        count_push(n.spec_code()) == count_numbers(t),
        count_op_instructions(n.spec_code()) == count_operators(t),
{
    lemma_expr_props(t);
    match spec_expr(t) {
        Some((n2, r)) => {
            lemma_code_counts(n);
        },
        None => {
            assert(false);
        },
    }
}

/// As `lemma_instruction_counts`, over the input text itself: for any
/// input that lexes and parses as a whole expression, the emitted code
/// holds exactly one `Push` per numeral (maximal digit run) of the text
/// and one operator instruction per operator character of the text.
pub proof fn lemma_instruction_counts_input(s: Seq<char>, n: Node)
    requires
        spec_pipeline(s) == Some(n),
    ensures
        count_push(n.spec_code()) == count_numerals_from(s, 0, false),
        count_op_instructions(n.spec_code()) == count_operator_chars(s, 0),
{
    match spec_tokenize(s) {
        Ok(toks) => {
            crate::token::lemma_lex_counts(
                s,
                0,
                crate::token::State::Start,
                0,
                None,
                Seq::<TokenKind>::empty(),
            );
            assert(count_numbers(Seq::<TokenKind>::empty()) == 0);
            assert(count_operators(Seq::<TokenKind>::empty()) == 0);
            lemma_instruction_counts(toks, n);
        },
        Err(_) => {
            assert(false);
        },
    }
}

/// Running a well-formed tree's code from any stack, with any
/// continuation after it, is running the continuation with the tree's
/// value pushed: operands end up on the stack in encounter order, the
/// left one under the right one.
proof fn lemma_code_runs(n: Node, stack: Seq<int>, rest: Seq<Instruction>)
    requires
        n.wf(),
    ensures
        spec_run(n.spec_code() + rest, stack) == spec_run(rest, stack.push(n.eval())),
    decreases n,
{
    match (n.node_kind, n.lhs, n.rhs) {
        (NodeKind::Number(v), _, _) => {
            assert((n.spec_code() + rest).skip(1) =~= rest);
        },
        (k, Some(l), Some(r)) => {
            let op = match k {
                NodeKind::Add => Instruction::Add,
                NodeKind::Sub => Instruction::Sub,
                NodeKind::Mul => Instruction::Mul,
                _ => Instruction::Div,
            };
            assert(n.spec_code() + rest =~= l.spec_code() + (r.spec_code() + (seq![op] + rest)));
            lemma_code_runs(*l, stack, r.spec_code() + (seq![op] + rest));
            lemma_code_runs(*r, stack.push(l.eval()), seq![op] + rest);
            let stack2 = stack.push(l.eval()).push(r.eval());
            assert((seq![op] + rest).skip(1) =~= rest);
            assert(stack2[stack2.len() - 2] == l.eval());
            assert(stack2[stack2.len() - 1] == r.eval());
            assert(stack2.subrange(0, stack2.len() - 2) =~= stack);
        },
        _ => {},
    }
}

/// ROUND-TRIP SOUNDNESS. Interpreting the emitted instruction sequence
/// on the stack machine — from the empty stack, `Push` pushing a value
/// and each operator popping two values and pushing the combined
/// result — halts with exactly the value of the source expression under
/// standard arithmetic.
pub proof fn lemma_compile_sound(n: Node)
    requires
        n.wf(),
    ensures
        spec_run(n.spec_code().push(Instruction::Ret), Seq::<int>::empty()) == Some(
            seq![n.eval()],
        ),
{
    lemma_code_runs(n, Seq::<int>::empty(), seq![Instruction::Ret]);
    assert(n.spec_code().push(Instruction::Ret) =~= n.spec_code() + seq![Instruction::Ret]);
    assert(Seq::<int>::empty().push(n.eval()) =~= seq![n.eval()]);
}

/// The token sequence of a numeral wrapped in `k` pairs of parentheses.
pub open spec fn parens_wrapped(k: nat, v: u32) -> Seq<TokenKind>
    decreases k,
{
    if k == 0 {
        seq![TokenKind::Number(v)]
    } else {
        seq![TokenKind::OpenParentheses] + parens_wrapped((k - 1) as nat, v) + seq![
            TokenKind::CloseParentheses,
        ]
    }
}

proof fn lemma_parens_wrapped_len(k: nat, v: u32)
    ensures
        parens_wrapped(k, v).len() == 2 * k + 1,
    decreases k,
{
    if k > 0 {
        lemma_parens_wrapped_len((k - 1) as nat, v);
    }
}

/// A parenthesized numeral followed by anything that cannot continue an
/// expression parses to the bare literal leaf, leaving the continuation
/// unconsumed.
proof fn lemma_single_literal_rest(k: nat, v: u32, rest: Seq<TokenKind>)
    requires
        rest.len() == 0 || !(rest[0] is Add || rest[0] is Sub || rest[0] is Mul
            || rest[0] is Div),
    ensures
        spec_expr(parens_wrapped(k, v) + rest) == Some((leaf(v), rest)),
    decreases k,
{
    lemma_parens_wrapped_len(k, v);
    let t = parens_wrapped(k, v) + rest;
    if k == 0 {
        assert(t[0] == TokenKind::Number(v));
        assert(t.skip(1) =~= rest);
    } else {
        let inner_rest = seq![TokenKind::CloseParentheses] + rest;
        assert(t[0] == TokenKind::OpenParentheses);
        assert(t.skip(1) =~= parens_wrapped((k - 1) as nat, v) + inner_rest);
        lemma_single_literal_rest((k - 1) as nat, v, inner_rest);
        assert(inner_rest.skip(1) =~= rest);
        assert(spec_primary(t) == Some((leaf(v), rest)));
    }
}

/// SINGLE LITERAL. An input holding one numeral, parenthesized to any
/// depth, parses to the bare literal leaf, and its whole compiled
/// program is exactly one `Push` of that numeral followed by the `Ret`
/// terminator.
pub proof fn lemma_single_literal(k: nat, v: u32)
    ensures
        spec_parse(parens_wrapped(k, v)) == Some(leaf(v)),
        leaf(v).spec_code().push(Instruction::Ret) == seq![Instruction::Push(v), Instruction::Ret],
{
    lemma_single_literal_rest(k, v, Seq::<TokenKind>::empty());
    assert(parens_wrapped(k, v) + Seq::<TokenKind>::empty() =~= parens_wrapped(k, v));
    assert(leaf(v).spec_code().push(Instruction::Ret) =~= seq![
        Instruction::Push(v),
        Instruction::Ret,
    ]);
}

proof fn lemma_parens_wrapped_flat(k: nat, v: u32)
    ensures
        parens_wrapped(k, v) == repeat_token(TokenKind::OpenParentheses, k) + seq![
            TokenKind::Number(v),
        ] + repeat_token(TokenKind::CloseParentheses, k),
    decreases k,
{
    crate::token::lemma_repeat_token_props(TokenKind::OpenParentheses, k);
    crate::token::lemma_repeat_token_props(TokenKind::CloseParentheses, k);
    if k == 0 {
        assert(parens_wrapped(0, v) =~= repeat_token(TokenKind::OpenParentheses, 0) + seq![
            TokenKind::Number(v),
        ] + repeat_token(TokenKind::CloseParentheses, 0));
    } else {
        crate::token::lemma_repeat_token_props(TokenKind::OpenParentheses, (k - 1) as nat);
        crate::token::lemma_repeat_token_props(TokenKind::CloseParentheses, (k - 1) as nat);
        lemma_parens_wrapped_flat((k - 1) as nat, v);
        lemma_parens_wrapped_len((k - 1) as nat, v);
        assert(parens_wrapped(k, v) =~= repeat_token(TokenKind::OpenParentheses, k) + seq![
            TokenKind::Number(v),
        ] + repeat_token(TokenKind::CloseParentheses, k));
    }
}

/// SINGLE LITERAL, over the input text itself: an input holding one
/// numeral, wrapped in any depth of parentheses, lexes and parses to
/// the bare literal leaf, and its whole compiled program is exactly one
/// `Push` of the numeral's value followed by the `Ret` terminator.
pub proof fn lemma_single_literal_input(k: nat, ds: Seq<char>)
    requires
        ds.len() >= 1,
        all_digits(ds),
        numeral_value(ds) <= u32::MAX,
    ensures
        spec_pipeline(wrapped_literal_chars(k, ds)) == Some(leaf(numeral_value(ds) as u32)),
        leaf(numeral_value(ds) as u32).spec_code().push(Instruction::Ret) == seq![
            Instruction::Push(numeral_value(ds) as u32),
            Instruction::Ret,
        ],
{
    let v = numeral_value(ds) as u32;
    crate::token::lemma_tokenize_wrapped_literal(k, ds);
    lemma_parens_wrapped_flat(k, v);
    lemma_single_literal(k, v);
}

/// The whole pipeline, text to tree, as one function of the input.
pub open spec fn spec_pipeline(s: Seq<char>) -> Option<Node> {
    match spec_tokenize(s) {
        Ok(toks) => spec_parse(toks),
        Err(_) => None,
    }
}

/// PARSING IS REPRODUCIBLE. No hidden mutable state affects the result:
/// any two runs of the lexer and parser over the same input text, each
/// bound by its contract (`tokenize` pins its result to
/// `spec_tokenize`, `parse` pins its result to `spec_parse`), yield
/// structurally identical trees.
pub proof fn lemma_parse_idempotent(s: Seq<char>, r1: Option<Node>, r2: Option<Node>)
    requires
        r1 == spec_pipeline(s),
        r2 == spec_pipeline(s),
    ensures
        r1 == r2,
{
}

} // verus!
