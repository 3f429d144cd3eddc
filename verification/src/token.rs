//! Lexical analysis: tokens, the adjacency-checking state machine,
//! and the token stream the parser consumes from the front.

use vstd::prelude::*;

verus! {

/// The smallest classified unit of input: an operator, a parenthesis,
/// or a numeral.
#[derive(Debug, Clone, Copy, PartialEq, Eq, Structural)]
pub enum TokenKind {
    Add,
    Sub,
    Mul,
    Div,
    OpenParentheses,
    CloseParentheses,
    Number(u32),
}

impl TokenKind {
    /// What `from_char` returns for each character.
    pub open spec fn spec_from_char(c: char) -> Option<TokenKind> {
        if c == '+' {
            Some(TokenKind::Add)
        } else if c == '-' {
            Some(TokenKind::Sub)
        } else if c == '*' {
            Some(TokenKind::Mul)
        } else if c == '/' {
            Some(TokenKind::Div)
        } else if c == '(' {
            Some(TokenKind::OpenParentheses)
        } else if c == ')' {
            Some(TokenKind::CloseParentheses)
        } else {
            None
        }
    }

    /// Classify a single operator or parenthesis character; any other
    /// character has no token of its own.
    pub fn from_char(c: char) -> (r: Option<TokenKind>)
        ensures
            r == TokenKind::spec_from_char(c),
    {
        match c {
            '+' => Some(TokenKind::Add),
            '-' => Some(TokenKind::Sub),
            '*' => Some(TokenKind::Mul),
            '/' => Some(TokenKind::Div),
            '(' => Some(TokenKind::OpenParentheses),
            ')' => Some(TokenKind::CloseParentheses),
            _ => None,
        }
    }

    /// Wrap a numeral's value as a token.
    pub fn from_num(n: u32) -> (r: TokenKind)
        ensures
            r == TokenKind::Number(n),
    {
        TokenKind::Number(n)
    }
}

/// The lexer's adjacency automaton. `S1` expects an operand or an
/// opening parenthesis (the position right after an operator or `(`);
/// `S2` expects an operator or a closing parenthesis (the position
/// right after a numeral or `)`). `End` is the checkpoint reached once
/// the input is exhausted.
#[derive(Debug, Clone, Copy, PartialEq, Eq, Structural)]
pub enum State {
    Start,
    S1,
    S2,
    End,
}

/// Why the lexer refused the input. The `usize` payload is the
/// character index (counted in characters, not bytes) of the offence.
#[derive(Debug, Clone, Copy, PartialEq, Eq, Structural)]
pub enum LexError {
    UnexpectedChar(usize),
    MisplacedOperator(usize),
    MisplacedOpenParen(usize),
    MisplacedCloseParen(usize),
    MisplacedDigit(usize),
    NumberTooLarge(usize),
    TrailingOperator,
    UnbalancedParentheses,
}

/// Whether `c` is a decimal digit.
pub open spec fn is_digit_char(c: char) -> bool {
    48 <= c as u32 && c as u32 <= 57
}

/// The value of a decimal digit character.
pub open spec fn digit_value(c: char) -> u32 {
    (c as u32 - 48) as u32
}

/// Append the pending numeral, if any, to the accumulated tokens.
pub open spec fn flush_pending(pending: Option<u32>, acc: Seq<TokenKind>) -> Seq<TokenKind> {
    match pending {
        Some(v) => acc.push(TokenKind::Number(v)),
        None => acc,
    }
}

/// One run of the lexer state machine from position `pos` to the end of
/// the input. `state` is the adjacency automaton's state, `nest` the
/// parenthesis nesting counter, `pending` the numeral accumulated so
/// far, and `acc` the tokens already emitted. Digits extend `pending`;
/// any other character flushes it first. At the end of the input a
/// final state that still expects an operand, or a nesting counter that
/// has not returned to zero, is an error.
pub open spec fn lex_from(
    s: Seq<char>,
    pos: int,
    state: State,
    nest: int,
    pending: Option<u32>,
    acc: Seq<TokenKind>,
) -> Result<Seq<TokenKind>, LexError>
    decreases s.len() - pos,
{
    if pos < 0 || pos >= s.len() {
        if state is S1 {
            Err(LexError::TrailingOperator)
        } else if nest != 0 {
            Err(LexError::UnbalancedParentheses)
        } else {
            Ok(flush_pending(pending, acc))
        }
    } else {
        let c = s[pos];
        if is_digit_char(c) {
            match pending {
                Some(v) => if v * 10 + digit_value(c) > u32::MAX {
                    Err(LexError::NumberTooLarge(pos as usize))
                } else {
                    lex_from(s, pos + 1, State::S2, nest, Some((v * 10 + digit_value(c)) as u32), acc)
                },
                None => if state is Start || state is S1 {
                    lex_from(s, pos + 1, State::S2, nest, Some(digit_value(c)), acc)
                } else {
                    Err(LexError::MisplacedDigit(pos as usize))
                },
            }
        } else {
            let acc2 = flush_pending(pending, acc);
            if c == '+' || c == '-' || c == '*' || c == '/' {
                if state is S2 {
                    lex_from(
                        s,
                        pos + 1,
                        State::S1,
                        nest,
                        None,
                        acc2.push(TokenKind::spec_from_char(c).unwrap()),
                    )
                } else {
                    Err(LexError::MisplacedOperator(pos as usize))
                }
            } else if c == '(' {
                if state is Start || state is S1 {
                    lex_from(s, pos + 1, State::S1, nest + 1, None, acc2.push(TokenKind::OpenParentheses))
                } else {
                    Err(LexError::MisplacedOpenParen(pos as usize))
                }
            } else if c == ')' {
                if state is S2 {
                    lex_from(s, pos + 1, State::S2, nest - 1, None, acc2.push(TokenKind::CloseParentheses))
                } else {
                    Err(LexError::MisplacedCloseParen(pos as usize))
                }
            } else if c == ' ' {
                lex_from(s, pos + 1, state, nest, None, acc2)
            } else {
                Err(LexError::UnexpectedChar(pos as usize))
            }
        }
    }
}

/// What lexing a whole input yields: the token sequence, or the first
/// lexical error.
pub open spec fn spec_tokenize(s: Seq<char>) -> Result<Seq<TokenKind>, LexError> {
    lex_from(s, 0, State::Start, 0, None, Seq::empty())
}

/// How many numeral tokens a token sequence holds.
pub open spec fn count_numbers(t: Seq<TokenKind>) -> nat
    decreases t.len(),
{
    if t.len() == 0 {
        0
    } else {
        (if t[0] is Number {
            1nat
        } else {
            0nat
        }) + count_numbers(t.skip(1))
    }
}

/// How many operator tokens a token sequence holds.
pub open spec fn count_operators(t: Seq<TokenKind>) -> nat
    decreases t.len(),
{
    if t.len() == 0 {
        0
    } else {
        (if t[0] is Add || t[0] is Sub || t[0] is Mul || t[0] is Div {
            1nat
        } else {
            0nat
        }) + count_operators(t.skip(1))
    }
}

/// How many numerals (maximal digit runs) the input text holds from
/// `pos` on; `in_numeral` says whether a numeral is already in progress
/// at `pos`.
pub open spec fn count_numerals_from(s: Seq<char>, pos: int, in_numeral: bool) -> nat
    decreases s.len() - pos,
{
    if pos < 0 || pos >= s.len() {
        0
    } else if is_digit_char(s[pos]) {
        (if in_numeral {
            0nat
        } else {
            1nat
        }) + count_numerals_from(s, pos + 1, true)
    } else {
        count_numerals_from(s, pos + 1, false)
    }
}

/// How many operator characters the input text holds from `pos` on.
pub open spec fn count_operator_chars(s: Seq<char>, pos: int) -> nat
    decreases s.len() - pos,
{
    if pos < 0 || pos >= s.len() {
        0
    } else {
        (if s[pos] == '+' || s[pos] == '-' || s[pos] == '*' || s[pos] == '/' {
            1nat
        } else {
            0nat
        }) + count_operator_chars(s, pos + 1)
    }
}

proof fn lemma_token_counts_push(acc: Seq<TokenKind>, tk: TokenKind)
    ensures
        count_numbers(acc.push(tk)) == count_numbers(acc) + (if tk is Number {
            1nat
        } else {
            0nat
        }),
        count_operators(acc.push(tk)) == count_operators(acc) + (if tk is Add || tk is Sub
            || tk is Mul || tk is Div {
            1nat
        } else {
            0nat
        }),
    decreases acc.len(),
{
    if acc.len() == 0 {
        assert(acc.push(tk) =~= seq![tk]);
        assert(seq![tk].skip(1) =~= Seq::<TokenKind>::empty());
        assert(count_numbers(Seq::<TokenKind>::empty()) == 0);
        assert(count_operators(Seq::<TokenKind>::empty()) == 0);
        assert(count_numbers(seq![tk]) == (if tk is Number {
            1nat
        } else {
            0nat
        }) + count_numbers(seq![tk].skip(1)));
        assert(count_operators(seq![tk]) == (if tk is Add || tk is Sub || tk is Mul
            || tk is Div {
            1nat
        } else {
            0nat
        }) + count_operators(seq![tk].skip(1)));
    } else {
        assert(acc.push(tk).skip(1) =~= acc.skip(1).push(tk));
        lemma_token_counts_push(acc.skip(1), tk);
    }
}

/// A successful run of the lexer emits exactly one numeral token per
/// maximal digit run of the input text, and one operator token per
/// operator character, on top of what the accumulator already holds.
pub proof fn lemma_lex_counts(
    s: Seq<char>,
    pos: int,
    state: State,
    nest: int,
    pending: Option<u32>,
    acc: Seq<TokenKind>,
)
    ensures
        lex_from(s, pos, state, nest, pending, acc) matches Ok(toks) ==> count_numbers(toks)
            == count_numbers(acc) + (if pending is Some {
            1nat
        } else {
            0nat
        }) + count_numerals_from(s, pos, pending is Some) && count_operators(toks)
            == count_operators(acc) + count_operator_chars(s, pos),
    decreases s.len() - pos,
{
    if pos < 0 || pos >= s.len() {
        match pending {
            Some(v) => {
                lemma_token_counts_push(acc, TokenKind::Number(v));
            },
            None => {},
        }
    } else {
        let c = s[pos];
        if is_digit_char(c) {
            match pending {
                Some(v) => if v * 10 + digit_value(c) <= u32::MAX {
                    lemma_lex_counts(
                        s,
                        pos + 1,
                        State::S2,
                        nest,
                        Some((v * 10 + digit_value(c)) as u32),
                        acc,
                    );
                },
                None => if state is Start || state is S1 {
                    lemma_lex_counts(s, pos + 1, State::S2, nest, Some(digit_value(c)), acc);
                },
            }
        } else {
            let acc2 = flush_pending(pending, acc);
            match pending {
                Some(v) => {
                    lemma_token_counts_push(acc, TokenKind::Number(v));
                },
                None => {},
            }
            if c == '+' || c == '-' || c == '*' || c == '/' {
                if state is S2 {
                    let tk = TokenKind::spec_from_char(c).unwrap();
                    lemma_token_counts_push(acc2, tk);
                    lemma_lex_counts(s, pos + 1, State::S1, nest, None, acc2.push(tk));
                }
            } else if c == '(' {
                if state is Start || state is S1 {
                    lemma_token_counts_push(acc2, TokenKind::OpenParentheses);
                    lemma_lex_counts(
                        s,
                        pos + 1,
                        State::S1,
                        nest + 1,
                        None,
                        acc2.push(TokenKind::OpenParentheses),
                    );
                }
            } else if c == ')' {
                if state is S2 {
                    lemma_token_counts_push(acc2, TokenKind::CloseParentheses);
                    lemma_lex_counts(
                        s,
                        pos + 1,
                        State::S2,
                        nest - 1,
                        None,
                        acc2.push(TokenKind::CloseParentheses),
                    );
                }
            } else if c == ' ' {
                lemma_lex_counts(s, pos + 1, state, nest, None, acc2);
            }
        }
    }
}

/// `k` copies of one character.
pub open spec fn repeat_char(c: char, k: nat) -> Seq<char>
    decreases k,
{
    if k == 0 {
        Seq::empty()
    } else {
        seq![c] + repeat_char(c, (k - 1) as nat)
    }
}

/// `k` copies of one token.
pub open spec fn repeat_token(tk: TokenKind, k: nat) -> Seq<TokenKind>
    decreases k,
{
    if k == 0 {
        Seq::empty()
    } else {
        seq![tk] + repeat_token(tk, (k - 1) as nat)
    }
}

/// Whether every character of `ds` is a decimal digit.
pub open spec fn all_digits(ds: Seq<char>) -> bool {
    forall|i: int| 0 <= i < ds.len() ==> is_digit_char(ds[i])
}

/// The value of the digit run `ds` appended to an accumulator already
/// worth `v`, exactly as the lexer accumulates it.
pub open spec fn numeral_value_acc(v: nat, ds: Seq<char>) -> nat
    decreases ds.len(),
{
    if ds.len() == 0 {
        v
    } else {
        numeral_value_acc(10 * v + digit_value(ds[0]) as nat, ds.skip(1))
    }
}

/// The value of a decimal digit run.
pub open spec fn numeral_value(ds: Seq<char>) -> nat {
    numeral_value_acc(0, ds)
}

proof fn lemma_repeat_char_props(c: char, k: nat)
    ensures
        repeat_char(c, k).len() == k,
        forall|i: int| 0 <= i < k ==> repeat_char(c, k)[i] == c,
    decreases k,
{
    if k > 0 {
        lemma_repeat_char_props(c, (k - 1) as nat);
    }
}

/// A token repetition has length `k` and holds that token everywhere.
pub proof fn lemma_repeat_token_props(tk: TokenKind, k: nat)
    ensures
        repeat_token(tk, k).len() == k,
        forall|i: int| 0 <= i < k ==> repeat_token(tk, k)[i] == tk,
    decreases k,
{
    if k > 0 {
        lemma_repeat_token_props(tk, (k - 1) as nat);
    }
}

proof fn lemma_numeral_value_acc_lower(v: nat, ds: Seq<char>)
    ensures
        numeral_value_acc(v, ds) >= v,
    decreases ds.len(),
{
    if ds.len() > 0 {
        lemma_numeral_value_acc_lower(10 * v + digit_value(ds[0]) as nat, ds.skip(1));
    }
}

/// Running the lexer over a run of `j` opening parentheses, from a
/// state that expects an operand: each one is accepted, raises the
/// nesting counter, and leaves the machine expecting an operand.
proof fn lemma_lex_opens(s: Seq<char>, pos: int, j: nat, state: State, nest: int, acc: Seq<TokenKind>)
    requires
        0 <= pos,
        pos + j <= s.len(),
        state is Start || state is S1,
        forall|i: int| pos <= i < pos + j ==> s[i] == '(',
    ensures
        lex_from(s, pos, state, nest, None, acc) == lex_from(
            s,
            pos + j,
            if j == 0 {
                state
            } else {
                State::S1
            },
            nest + j,
            None,
            acc + repeat_token(TokenKind::OpenParentheses, j),
        ),
    decreases j,
{
    if j == 0 {
        assert(acc + repeat_token(TokenKind::OpenParentheses, 0) =~= acc);
    } else {
        lemma_lex_opens(
            s,
            pos + 1,
            (j - 1) as nat,
            State::S1,
            nest + 1,
            acc.push(TokenKind::OpenParentheses),
        );
        assert(acc.push(TokenKind::OpenParentheses) + repeat_token(
            TokenKind::OpenParentheses,
            (j - 1) as nat,
        ) =~= acc + repeat_token(TokenKind::OpenParentheses, j));
    }
}

/// Running the lexer over a run of `j` digits with a numeral already
/// pending: the digits extend the pending numeral, and nothing else
/// changes, provided the final value fits the unsigned integer domain.
proof fn lemma_lex_digits_acc(s: Seq<char>, pos: int, j: nat, v: u32, nest: int, acc: Seq<TokenKind>)
    requires
        0 <= pos,
        pos + j <= s.len(),
        forall|i: int| pos <= i < pos + j ==> is_digit_char(s[i]),
        numeral_value_acc(v as nat, s.subrange(pos, pos + j)) <= u32::MAX,
    ensures
        lex_from(s, pos, State::S2, nest, Some(v), acc) == lex_from(
            s,
            pos + j,
            State::S2,
            nest,
            Some(numeral_value_acc(v as nat, s.subrange(pos, pos + j)) as u32),
            acc,
        ),
    decreases j,
{
    let ds = s.subrange(pos, pos + j);
    if j == 0 {
        assert(ds.len() == 0);
    } else {
        let c = s[pos];
        let v2 = 10 * (v as nat) + digit_value(c) as nat;
        assert(ds.skip(1) =~= s.subrange(pos + 1, pos + j));
        assert(numeral_value_acc(v as nat, ds) == numeral_value_acc(v2, ds.skip(1)));
        lemma_numeral_value_acc_lower(v2, ds.skip(1));
        lemma_lex_digits_acc(s, pos + 1, (j - 1) as nat, v2 as u32, nest, acc);
    }
}

/// Running the lexer over a whole numeral of `j` digits from a state
/// that expects an operand: the machine accumulates the numeral's value
/// and ends expecting an operator.
proof fn lemma_lex_digits(s: Seq<char>, pos: int, j: nat, state: State, nest: int, acc: Seq<TokenKind>)
    requires
        0 <= pos,
        j >= 1,
        pos + j <= s.len(),
        state is Start || state is S1,
        forall|i: int| pos <= i < pos + j ==> is_digit_char(s[i]),
        numeral_value(s.subrange(pos, pos + j)) <= u32::MAX,
    ensures
        lex_from(s, pos, state, nest, None, acc) == lex_from(
            s,
            pos + j,
            State::S2,
            nest,
            Some(numeral_value(s.subrange(pos, pos + j)) as u32),
            acc,
        ),
    decreases j,
{
    let ds = s.subrange(pos, pos + j);
    let c = s[pos];
    assert(ds.skip(1) =~= s.subrange(pos + 1, pos + j));
    assert(numeral_value(ds) == numeral_value_acc(digit_value(c) as nat, ds.skip(1)));
    lemma_lex_digits_acc(s, pos + 1, (j - 1) as nat, digit_value(c), nest, acc);
}

/// Running the lexer over a run of `j` closing parentheses from a state
/// that expects an operator: the first one flushes any pending numeral,
/// each one lowers the nesting counter, and the machine keeps expecting
/// an operator.
proof fn lemma_lex_closes(
    s: Seq<char>,
    pos: int,
    j: nat,
    nest: int,
    pending: Option<u32>,
    acc: Seq<TokenKind>,
)
    requires
        0 <= pos,
        j >= 1,
        pos + j <= s.len(),
        forall|i: int| pos <= i < pos + j ==> s[i] == ')',
    ensures
        lex_from(s, pos, State::S2, nest, pending, acc) == lex_from(
            s,
            pos + j,
            State::S2,
            nest - j,
            None,
            flush_pending(pending, acc) + repeat_token(TokenKind::CloseParentheses, j),
        ),
    decreases j,
{
    let acc2 = flush_pending(pending, acc).push(TokenKind::CloseParentheses);
    if j == 1 {
        assert(flush_pending(pending, acc) + repeat_token(TokenKind::CloseParentheses, 1)
            =~= acc2);
    } else {
        lemma_lex_closes(s, pos + 1, (j - 1) as nat, nest - 1, None, acc2);
        assert(acc2 + repeat_token(TokenKind::CloseParentheses, (j - 1) as nat) =~= flush_pending(
            pending,
            acc,
        ) + repeat_token(TokenKind::CloseParentheses, j));
    }
}

/// The input text holding one numeral wrapped in `k` pairs of
/// parentheses, with no whitespace.
pub open spec fn wrapped_literal_chars(k: nat, ds: Seq<char>) -> Seq<char> {
    repeat_char('(', k) + ds + repeat_char(')', k)
}

/// Lexing a numeral wrapped in `k` pairs of parentheses yields exactly
/// the numeral's token wrapped in `k` pairs of parenthesis tokens.
pub proof fn lemma_tokenize_wrapped_literal(k: nat, ds: Seq<char>)
    requires
        ds.len() >= 1,
        all_digits(ds),
        numeral_value(ds) <= u32::MAX,
    ensures
        spec_tokenize(wrapped_literal_chars(k, ds)) == Ok::<Seq<TokenKind>, LexError>(
            repeat_token(TokenKind::OpenParentheses, k) + seq![
                TokenKind::Number(numeral_value(ds) as u32),
            ] + repeat_token(TokenKind::CloseParentheses, k),
        ),
{
    let s = wrapped_literal_chars(k, ds);
    let v = numeral_value(ds) as u32;
    lemma_repeat_char_props('(', k);
    lemma_repeat_char_props(')', k);
    lemma_repeat_token_props(TokenKind::OpenParentheses, k);
    lemma_repeat_token_props(TokenKind::CloseParentheses, k);
    assert(s.len() == k + ds.len() + k);
    assert(forall|i: int| 0 <= i < k ==> s[i] == '(');
    assert(forall|i: int| k <= i < k + ds.len() ==> s[i] == ds[i - k]);
    assert(forall|i: int| k + ds.len() <= i < s.len() ==> s[i] == ')');
    let opens = repeat_token(TokenKind::OpenParentheses, k);
    let closes = repeat_token(TokenKind::CloseParentheses, k);
    lemma_lex_opens(s, 0, k, State::Start, 0, Seq::empty());
    assert(Seq::<TokenKind>::empty() + opens =~= opens);
    assert(s.subrange(k as int, (k + ds.len()) as int) =~= ds);
    lemma_lex_digits(
        s,
        k as int,
        ds.len(),
        if k == 0 {
            State::Start
        } else {
            State::S1
        },
        k as int,
        opens,
    );
    if k == 0 {
        assert(lex_from(s, s.len() as int, State::S2, 0, Some(v), opens) == Ok::<
            Seq<TokenKind>,
            LexError,
        >(opens.push(TokenKind::Number(v))));
        assert(opens.push(TokenKind::Number(v)) =~= opens + seq![TokenKind::Number(v)] + closes);
    } else {
        lemma_lex_closes(s, (k + ds.len()) as int, k, k as int, Some(v), opens);
        assert(flush_pending(Some(v), opens) + closes =~= opens + seq![TokenKind::Number(v)]
            + closes);
    }
}

/// Why the parser refused the token stream: either the stream ended
/// where the grammar mandates a token, or the front token is of the
/// wrong kind (the offending token is carried for diagnosis).
#[derive(Debug, Clone, Copy, PartialEq, Eq, Structural)]
pub enum ParseError {
    UnexpectedEnd,
    UnexpectedToken(TokenKind),
}

/// The ordered token sequence the lexer produces and the parser
/// consumes strictly from the front. Consumption moves a cursor over
/// an immutable token array; the view is the remaining suffix.
#[derive(Debug)]
pub struct TokenLinkedList {
    pub tokens: Vec<TokenKind>,
    pub cursor: usize,
}

impl View for TokenLinkedList {
    type V = Seq<TokenKind>;

    open spec fn view(&self) -> Seq<TokenKind> {
        self.tokens@.skip(self.cursor as int)
    }
}

impl TokenLinkedList {
    /// The cursor never points past the end of the token array.
    pub open spec fn wf(&self) -> bool {
        self.cursor <= self.tokens.len()
    }

    /// An empty token stream.
    pub fn new() -> (r: TokenLinkedList)
        ensures
            r.wf(),
            r@ == Seq::<TokenKind>::empty(),
    {
        let r = TokenLinkedList { tokens: Vec::new(), cursor: 0 };
        proof {
            assert(r@ =~= Seq::<TokenKind>::empty());
        }
        r
    }

    /// Lex a whole input string: the adjacency-checked token stream on
    /// success, the first lexical error otherwise.
    pub fn from(s: String) -> (r: Result<TokenLinkedList, LexError>)
        ensures
            match r {
                Ok(t) => t.wf() && spec_tokenize(s@) == Ok::<Seq<TokenKind>, LexError>(t@),
                Err(e) => spec_tokenize(s@) == Err::<Seq<TokenKind>, LexError>(e),
            },
    {
        TokenLinkedList::tokenize(s)
    }

    /// Scan the input character by character, classify each one, and
    /// either extend the pending numeral or emit a token, enforcing
    /// legal adjacency with the `State` automaton. Whitespace only
    /// terminates a pending numeral. The first offending character
    /// aborts the scan with a lexical error.
    pub fn tokenize(s: String) -> (r: Result<TokenLinkedList, LexError>)
        ensures
            match r {
                Ok(t) => t.wf() && spec_tokenize(s@) == Ok::<Seq<TokenKind>, LexError>(t@),
                Err(e) => spec_tokenize(s@) == Err::<Seq<TokenKind>, LexError>(e),
            },
    {
        let ss: &str = s.as_str();
        let n: usize = ss.unicode_len();
        let mut i: usize = 0;
        let mut state: State = State::Start;
        let mut opens: usize = 0;
        let mut closes: usize = 0;
        let mut pending: Option<u32> = None;
        let mut tokens: Vec<TokenKind> = Vec::new();
        while i < n
            invariant
                i <= n,
                n == s@.len(),
                ss@ == s@,
                opens <= i,
                closes <= i,
                spec_tokenize(s@) == lex_from(
                    s@,
                    i as int,
                    state,
                    opens - closes,
                    pending,
                    tokens@,
                ),
            decreases n - i,
        {
            let c = ss.get_char(i);
            let d = c as u32;
            if 48 <= d && d <= 57 {
                match pending {
                    Some(v) => {
                        let nv: u64 = (v as u64) * 10 + ((d - 48) as u64);
                        if nv > 0xffff_ffff {
                            return Err(LexError::NumberTooLarge(i));
                        }
                        pending = Some(nv as u32);
                    },
                    None => {
                        match state {
                            State::Start | State::S1 => {
                                pending = Some(d - 48);
                            },
                            _ => {
                                return Err(LexError::MisplacedDigit(i));
                            },
                        }
                    },
                }
                state = State::S2;
            } else {
                match pending {
                    Some(v) => {
                        tokens.push(TokenKind::Number(v));
                        pending = None;
                    },
                    None => {},
                }
                if c == '+' || c == '-' || c == '*' || c == '/' {
                    match state {
                        State::S2 => {},
                        _ => {
                            return Err(LexError::MisplacedOperator(i));
                        },
                    }
                    let tk = TokenKind::from_char(c).unwrap();
                    tokens.push(tk);
                    state = State::S1;
                } else if c == '(' {
                    match state {
                        State::Start | State::S1 => {},
                        _ => {
                            return Err(LexError::MisplacedOpenParen(i));
                        },
                    }
                    tokens.push(TokenKind::OpenParentheses);
                    state = State::S1;
                    opens = opens + 1;
                } else if c == ')' {
                    match state {
                        State::S2 => {},
                        _ => {
                            return Err(LexError::MisplacedCloseParen(i));
                        },
                    }
                    tokens.push(TokenKind::CloseParentheses);
                    state = State::S2;
                    closes = closes + 1;
                } else if c != ' ' {
                    return Err(LexError::UnexpectedChar(i));
                }
            }
            i = i + 1;
        }
        match pending {
            Some(v) => {
                tokens.push(TokenKind::Number(v));
            },
            None => {},
        }
        if state == State::S1 {
            return Err(LexError::TrailingOperator);
        }
        if opens != closes {
            return Err(LexError::UnbalancedParentheses);
        }
        let r = TokenLinkedList { tokens, cursor: 0 };
        proof {
            assert(r@ =~= r.tokens@);
        }
        Ok(r)
    }

    /// How many tokens are left to consume.
    pub fn len(&self) -> (r: usize)
        requires
            self.wf(),
        ensures
            r == self@.len(),
    {
        self.tokens.len() - self.cursor
    }

    /// Lookahead attempt: if the front token matches `tk`, consume it
    /// and report success; otherwise leave the stream untouched.
    pub fn consume(&mut self, tk: TokenKind) -> (r: bool)
        requires
            old(self).wf(),
        ensures
            final(self).wf(),
            r == (old(self)@.len() > 0 && old(self)@[0] == tk),
            r ==> final(self)@ == old(self)@.skip(1),
            !r ==> *final(self) == *old(self),
    {
        if self.cursor < self.tokens.len() {
            let front = self.tokens[self.cursor];
            if front == tk {
                self.cursor = self.cursor + 1;
                proof {
                    assert(self@ =~= old(self)@.skip(1));
                }
                return true;
            }
        }
        false
    }

    /// Demand that the front token be `tk` and consume it; on an empty
    /// stream or a different front token, leave the stream untouched
    /// and surface a parse error.
    pub fn expect(&mut self, tk: TokenKind) -> (r: Result<(), ParseError>)
        requires
            old(self).wf(),
        ensures
            final(self).wf(),
            match r {
                Ok(()) => old(self)@.len() > 0 && old(self)@[0] == tk && final(self)@ == old(
                    self,
                )@.skip(1),
                Err(e) => *final(self) == *old(self) && e == (if old(self)@.len() == 0 {
                    ParseError::UnexpectedEnd
                } else {
                    ParseError::UnexpectedToken(old(self)@[0])
                }) && (old(self)@.len() > 0 ==> old(self)@[0] != tk),
            },
    {
        if self.cursor >= self.tokens.len() {
            return Err(ParseError::UnexpectedEnd);
        }
        let front = self.tokens[self.cursor];
        if front == tk {
            self.cursor = self.cursor + 1;
            proof {
                assert(self@ =~= old(self)@.skip(1));
            }
            Ok(())
        } else {
            Err(ParseError::UnexpectedToken(front))
        }
    }

    /// Demand that the front token be a numeral, consume it, and return
    /// its value; otherwise leave the stream untouched and surface a
    /// parse error.
    pub fn expect_number(&mut self) -> (r: Result<u32, ParseError>)
        requires
            old(self).wf(),
        ensures
            final(self).wf(),
            match r {
                Ok(v) => old(self)@.len() > 0 && old(self)@[0] == TokenKind::Number(v)
                    && final(self)@ == old(self)@.skip(1),
                Err(e) => *final(self) == *old(self) && e == (if old(self)@.len() == 0 {
                    ParseError::UnexpectedEnd
                } else {
                    ParseError::UnexpectedToken(old(self)@[0])
                }) && (old(self)@.len() > 0 ==> !(old(self)@[0] is Number)),
            },
    {
        if self.cursor >= self.tokens.len() {
            return Err(ParseError::UnexpectedEnd);
        }
        let front = self.tokens[self.cursor];
        match front {
            TokenKind::Number(v) => {
                self.cursor = self.cursor + 1;
                proof {
                    assert(self@ =~= old(self)@.skip(1));
                }
                Ok(v)
            },
            _ => Err(ParseError::UnexpectedToken(front)),
        }
    }
}

} // verus!
