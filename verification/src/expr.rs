//! Arithmetic expressions with `+`, `*` and parentheses, read with
//! precedences that the caller chooses.
use crate::text::{chars_of, decimal_value, is_digit, read_decimal};
use vstd::prelude::*;

verus! {

/// A piece of an expression.
#[derive(Debug, Clone, Copy, PartialEq, Eq, Structural)]
pub enum Token {
    Number(i64),
    LeftParen,
    RightParen,
    Operator(char),
}

/// Cuts a text into tokens, one at a time.  `current` is the token that was
/// read last and `pos` the place behind it.
pub struct Lexer {
    pub data: Vec<char>,
    pub pos: usize,
    pub current: Option<Token>,
}

/// An expression.
#[derive(Debug)]
pub enum Expr {
    /// A number.
    Constant(i64),
    /// Two expressions joined by an operator.
    Op(Box<Expr>, char, Box<Expr>),
}

/// The precedences of the two operators; a higher one binds tighter.
#[derive(Clone, Copy)]
pub struct Rules {
    pub precedence_plus: i64,
    pub precedence_times: i64,
}

/// Reads expressions by the rules it holds.
pub struct Parser {
    pub rules: Rules,
}

/// Why a token has no precedence.
#[derive(Debug, Clone, Copy, PartialEq, Eq, Structural)]
pub enum PrecedenceError {
    /// The operator is neither `+` nor `*`.
    UnknownOperator(char),
    /// The token is no operator.
    UnexpectedToken(Token),
}

/// The first place at or after `pos` that holds no blank, or the end.
pub open spec fn skip_blanks(data: Seq<char>, pos: int) -> int
    decreases data.len() - pos,
{
    if pos >= data.len() {
        data.len() as int
    } else if data[pos] != ' ' {
        pos
    } else {
        skip_blanks(data, pos + 1)
    }
}

/// The first place at or after `pos` that holds no digit, or the end.
pub open spec fn digits_end(data: Seq<char>, pos: int) -> int
    decreases data.len() - pos,
{
    if pos >= data.len() {
        data.len() as int
    } else if !is_digit(data[pos]) {
        pos
    } else {
        digits_end(data, pos + 1)
    }
}

/// Whether a token begins with `c`.
pub open spec fn begins_token(c: char) -> bool {
    c == '(' || c == ')' || c == '+' || c == '*' || is_digit(c)
}

/// Whether the text has a token at or after `pos`, or ends there: after the
/// blanks comes the end, a parenthesis, an operator, or a number that fits in
/// 64 bits with a sign.
pub open spec fn next_ok(data: Seq<char>, pos: int) -> bool {
    let p = skip_blanks(data, pos);
    p == data.len() || (begins_token(data[p]) && (is_digit(data[p]) ==> decimal_value(
        data.subrange(p, digits_end(data, p)),
    ) <= i64::MAX))
}

/// The token at or after `pos`, if the text does not end there.
pub open spec fn next_token(data: Seq<char>, pos: int) -> Option<Token> {
    let p = skip_blanks(data, pos);
    if p == data.len() {
        None
    } else if data[p] == '(' {
        Some(Token::LeftParen)
    } else if data[p] == ')' {
        Some(Token::RightParen)
    } else if data[p] == '+' || data[p] == '*' {
        Some(Token::Operator(data[p]))
    } else {
        Some(Token::Number(decimal_value(data.subrange(p, digits_end(data, p))) as i64))
    }
}

/// The place behind the token at or after `pos`.
pub open spec fn after_token(data: Seq<char>, pos: int) -> int {
    let p = skip_blanks(data, pos);
    if p == data.len() {
        p
    } else if is_digit(data[p]) {
        digits_end(data, p)
    } else {
        p + 1
    }
}

/// Whether the whole text can be cut into tokens.
pub open spec fn clean(data: Seq<char>) -> bool {
    forall|p: int| 0 <= p <= data.len() ==> #[trigger] next_ok(data, p)
}

impl Lexer {
    /// The place of the lexer is inside the text.
    pub open spec fn wf(&self) -> bool {
        self.pos <= self.data@.len()
    }

    /// A lexer for `s` that has read the first token.
    pub fn new(s: &str) -> (r: Lexer)
        requires
            next_ok(s@, 0),
        ensures
            r.wf(),
            r.data@ == s@,
            r.current == next_token(s@, 0),
            r.pos == after_token(s@, 0),
    {
        let mut result = Lexer { data: chars_of(s), pos: 0, current: None };
        result.consume();
        result
    }

    /// The text behind the token that was read last.
    pub fn unread_input(&self) -> (r: Vec<char>)
        requires
            self.wf(),
        ensures
            r@ == self.data@.skip(self.pos as int),
    {
        let mut out: Vec<char> = Vec::new();
        let mut i: usize = self.pos;
        while i < self.data.len()
            invariant
                self.pos <= i <= self.data.len(),
                out@ == self.data@.subrange(self.pos as int, i as int),
            decreases self.data.len() - i,
        {
            out.push(self.data[i]);
            assert(out@ =~= self.data@.subrange(self.pos as int, i + 1));
            i += 1;
        }
        assert(out@ =~= self.data@.skip(self.pos as int));
        out
    }

    /// The token that was read last; `None` at the end of the text.
    pub fn next(&self) -> (r: Option<Token>)
        ensures
            r == self.current,
    {
        self.current
    }

    /// Reads the next token: passes over blanks and takes a parenthesis, an
    /// operator, or all digits of a number.
    pub fn consume(&mut self)
        requires
            old(self).wf(),
            next_ok(old(self).data@, old(self).pos as int),
        ensures
            final(self).wf(),
            final(self).data == old(self).data,
            final(self).current == next_token(old(self).data@, old(self).pos as int),
            final(self).pos == after_token(old(self).data@, old(self).pos as int),
            final(self).pos >= old(self).pos,
            final(self).current is Some ==> final(self).pos > old(self).pos,
            final(self).current is None ==> final(self).pos == final(self).data@.len(),
    {
        let ghost start = self.pos as int;
        while self.pos != self.data.len() && self.data[self.pos] == ' '
            invariant
                self.data == old(self).data,
                start <= self.pos <= self.data.len(),
                skip_blanks(self.data@, start) == skip_blanks(self.data@, self.pos as int),
            decreases self.data.len() - self.pos,
        {
            self.pos += 1;
        }
        if self.pos == self.data.len() {
            self.current = None;
        } else {
            let ch = self.data[self.pos];
            if ch == '(' {
                self.pos += 1;
                self.current = Some(Token::LeftParen);
            } else if ch == ')' {
                self.pos += 1;
                self.current = Some(Token::RightParen);
            } else if ch == '+' || ch == '*' {
                self.pos += 1;
                self.current = Some(Token::Operator(ch));
            } else {
                let from = self.pos;
                while self.pos < self.data.len() && '0' <= self.data[self.pos] && self.data[self.pos]
                    <= '9'
                    invariant
                        self.data == old(self).data,
                        from <= self.pos <= self.data.len(),
                        digits_end(self.data@, from as int) == digits_end(
                            self.data@,
                            self.pos as int,
                        ),
                        forall|k: int| from <= k < self.pos ==> is_digit(#[trigger] self.data@[k]),
                    decreases self.data.len() - self.pos,
                {
                    self.pos += 1;
                }
                proof {
                    let run = self.data@.subrange(from as int, self.pos as int);
                    assert(skip_blanks(self.data@, start) == from);
                    assert(digits_end(self.data@, from as int) == self.pos);
                    assert(is_digit(ch));
                    assert forall|k: int| 0 <= k < run.len() implies is_digit(#[trigger] run[k]) by {
                        assert(run[k] == self.data@[from + k]);
                    }
                }
                let value = read_decimal(&self.data, from, self.pos, 0x7fff_ffff_ffff_ffff);
                self.current = match value {
                    Some(v) => Some(Token::Number(v as i64)),
                    None => None,
                };
            }
        }
    }
}

impl Parser {
    /// The precedence of what `b` holds: -1 at the end of the text, else the
    /// precedence of the operator.
    pub open spec fn prec_of(&self, b: Option<Token>) -> Result<i64, PrecedenceError> {
        match b {
            None => Ok(-1i64),
            Some(Token::Operator(ch)) => if ch == '+' {
                Ok(self.rules.precedence_plus)
            } else if ch == '*' {
                Ok(self.rules.precedence_times)
            } else {
                Err(PrecedenceError::UnknownOperator(ch))
            },
            Some(t) => Err(PrecedenceError::UnexpectedToken(t)),
        }
    }

    /// The precedence of an operator, and -1 for the end of the text.
    pub fn prec(&self, b: &Option<Token>) -> (r: Result<i64, PrecedenceError>)
        ensures
            r == self.prec_of(*b),
    {
        match b {
            None => Ok(-1),
            Some(Token::Operator(ch)) => {
                if *ch == '+' {
                    Ok(self.rules.precedence_plus)
                } else if *ch == '*' {
                    Ok(self.rules.precedence_times)
                } else {
                    Err(PrecedenceError::UnknownOperator(*ch))
                }
            },
            Some(t) => Err(PrecedenceError::UnexpectedToken(*t)),
        }
    }

    /// The least precedence that an operator to the right of `b` must have
    /// to bind tighter than `b`: one more than that of `b`, but a negative
    /// precedence stays as it is.
    pub fn right_prec(&self, b: &Option<Token>) -> (r: Result<i64, PrecedenceError>)
        requires
            self.rules.precedence_plus < i64::MAX,
            self.rules.precedence_times < i64::MAX,
        ensures
            r == (match self.prec_of(*b) {
                Ok(p) => Ok::<i64, PrecedenceError>(
                    if p < 0 {
                        p
                    } else {
                        (p + 1) as i64
                    },
                ),
                Err(e) => Err(e),
            }),
    {
        match self.prec(b) {
            Ok(p) => Ok(
                if p < 0 {
                    p
                } else {
                    p + 1
                },
            ),
            Err(e) => Err(e),
        }
    }

    /// The greatest precedence that may follow `b` on the same level: that
    /// of `b`.
    pub fn next_prec(&self, b: &Option<Token>) -> (r: Result<i64, PrecedenceError>)
        ensures
            r == self.prec_of(*b),
    {
        self.prec(b)
    }

    /// Whether `t` has a precedence and it lies between `low` and `high`,
    /// both included.
    pub fn prec_is_between(&self, low: i64, t: &Option<Token>, high: i64) -> (r: bool)
        ensures
            r == (self.prec_of(*t) matches Ok(p) && low <= p <= high),
    {
        match self.prec(t) {
            Ok(p) => {
                if p < low {
                    false
                } else if p > high {
                    false
                } else {
                    true
                }
            },
            _ => false,
        }
    }
}

/// The value of an expression in which `*` multiplies and every other
/// operator adds.
pub open spec fn value_of(tree: Expr) -> int
    decreases tree,
{
    match tree {
        Expr::Constant(n) => n as int,
        Expr::Op(e1, op, e2) => if op == '*' {
            value_of(*e1) * value_of(*e2)
        } else {
            value_of(*e1) + value_of(*e2)
        },
    }
}

/// Whether an expression can be evaluated: every operator is `+` or `*` and
/// the value of every part fits in 64 bits with a sign.
pub open spec fn evaluable(tree: Expr) -> bool
    decreases tree,
{
    match tree {
        Expr::Constant(n) => true,
        Expr::Op(e1, op, e2) => (op == '+' || op == '*') && evaluable(*e1) && evaluable(*e2)
            && i64::MIN <= value_of(tree) <= i64::MAX,
    }
}

/// The value of an expression.
pub fn eval(tree: &Expr) -> (r: i64)
    requires
        evaluable(*tree),
    ensures
        r == value_of(*tree),
    decreases *tree,
{
    match tree {
        Expr::Constant(n) => *n,
        Expr::Op(e1, op, e2) => {
            let v1 = eval(e1);
            let v2 = eval(e2);
            if *op == '+' {
                v1 + v2
            } else {
                v1 * v2
            }
        },
    }
}

/// Why a text is no expression.
#[derive(Debug, Clone, Copy, PartialEq, Eq, Structural)]
pub enum ParseError {
    /// A token stands where an operator or the end must stand.
    Precedence(PrecedenceError),
    /// A parenthesis is not closed.
    ExpectedClosingParen,
    /// Neither a number nor an open parenthesis stands where an operand must
    /// stand.
    ExpectedOperand,
    /// Something is left behind the expression.
    Trailing(Token),
}

/// Whether every operator of the expression is `+` or `*`.
pub open spec fn well_formed(tree: Expr) -> bool
    decreases tree,
{
    match tree {
        Expr::Constant(n) => true,
        Expr::Op(e1, op, e2) => (op == '+' || op == '*') && well_formed(*e1) && well_formed(*e2),
    }
}

impl Lexer {
    /// How much there is left to read: the characters behind the place of
    /// the lexer, and one more while a token is held.
    pub open spec fn measure(&self) -> nat {
        (self.data@.len() - self.pos + if self.current is Some {
            1int
        } else {
            0int
        }) as nat
    }

    /// Whether the lexer can go on to the end of its text.
    pub open spec fn ready(&self) -> bool {
        self.wf() && clean(self.data@)
    }
}

/// Where a lexer stands in its text: the place behind the token that was
/// read last, and that token.
pub struct LexState {
    pub pos: int,
    pub current: Option<Token>,
}

/// Where a lexer stands after it read one more token.
pub open spec fn advanced(data: Seq<char>, s: LexState) -> LexState {
    LexState { pos: after_token(data, s.pos), current: next_token(data, s.pos) }
}

/// How much there is left to read from `s` on: the characters behind the
/// place, and one more while a token is held.
pub open spec fn left_from(data: Seq<char>, s: LexState) -> nat {
    (data.len() - s.pos + if s.current is Some {
        1int
    } else {
        0int
    }) as nat
}

/// The operand that begins with the token that is held: a number, or an
/// expression in parentheses; with it, where the lexer stands behind it.
pub open spec fn operand_at(p: Parser, data: Seq<char>, s: LexState) -> Result<
    (Expr, LexState),
    ParseError,
>
    decreases left_from(data, s), 1nat,
{
    match s.current {
        Some(Token::LeftParen) => paren_at(p, data, s),
        Some(Token::Number(n)) => Ok((Expr::Constant(n), advanced(data, s))),
        _ => Err(ParseError::ExpectedOperand),
    }
}

/// The expression in parentheses whose open parenthesis is held.  Reading a
/// token always leaves less to read; the test for it only shows that this
/// description comes to an end.
pub open spec fn paren_at(p: Parser, data: Seq<char>, s: LexState) -> Result<
    (Expr, LexState),
    ParseError,
>
    decreases left_from(data, s), 0nat,
{
    let inside = advanced(data, s);
    if left_from(data, inside) >= left_from(data, s) {
        Err(ParseError::ExpectedOperand)
    } else {
        match expression_at(p, data, 0, inside) {
            Ok((tree, behind)) => match behind.current {
                Some(Token::RightParen) => Ok((tree, advanced(data, behind))),
                _ => Err(ParseError::ExpectedClosingParen),
            },
            Err(e) => Err(e),
        }
    }
}

/// The expression that begins with the token that is held and all of whose
/// operators outside parentheses have at least the precedence `precedence`.
pub open spec fn expression_at(p: Parser, data: Seq<char>, precedence: i64, s: LexState) -> Result<
    (Expr, LexState),
    ParseError,
>
    decreases left_from(data, s), 2nat,
{
    match operand_at(p, data, s) {
        Ok((lhs, behind)) => if left_from(data, behind) >= left_from(data, s) {
            Err(ParseError::ExpectedOperand)
        } else {
            climbed(p, data, precedence, lhs, 1000, behind)
        },
        Err(e) => Err(e),
    }
}

/// The expression that `lhs` grows into: for as long as the token that is
/// held is an operator whose precedence is at least `precedence` and at most
/// `stop_at`, it joins what was read so far to the expression of the
/// operators that bind tighter, and no operator after it may bind tighter
/// than it.
pub open spec fn climbed(
    p: Parser,
    data: Seq<char>,
    precedence: i64,
    lhs: Expr,
    stop_at: i64,
    s: LexState,
) -> Result<(Expr, LexState), ParseError>
    decreases left_from(data, s), 3nat,
{
    match p.prec_of(s.current) {
        Ok(q) => if !(precedence <= q <= stop_at) {
            Ok((lhs, s))
        } else {
            let ch = match s.current {
                Some(Token::Operator(ch)) => ch,
                _ => '+',
            };
            let tighter: i64 = if q < 0 {
                q
            } else {
                (q + 1) as i64
            };
            let behind = advanced(data, s);
            if left_from(data, behind) >= left_from(data, s) {
                Err(ParseError::ExpectedOperand)
            } else {
                match expression_at(p, data, tighter, behind) {
                    Err(e) => Err(e),
                    Ok((rhs, after)) => if left_from(data, after) >= left_from(data, s) {
                        Err(ParseError::ExpectedOperand)
                    } else {
                        climbed(
                            p,
                            data,
                            precedence,
                            Expr::Op(Box::new(lhs), ch, Box::new(rhs)),
                            q,
                            after,
                        )
                    },
                }
            }
        },
        Err(_) => Ok((lhs, s)),
    }
}

/// Whether a parser gave what was to come: the expression and the lexer
/// behind it, or the failure.
pub open spec fn agrees(
    r: Result<Expr, ParseError>,
    after: LexState,
    want: Result<(Expr, LexState), ParseError>,
) -> bool {
    match want {
        Ok((tree, s)) => r == Ok::<Expr, ParseError>(tree) && after == s,
        Err(e) => r == Err::<Expr, ParseError>(e),
    }
}

/// The expression that a whole text is, by the rules of the parser.
pub open spec fn parsed(p: Parser, data: Seq<char>) -> Result<Expr, ParseError> {
    match expression_at(p, data, 0, advanced(data, LexState { pos: 0, current: None })) {
        Ok((tree, behind)) => match behind.current {
            None => Ok(tree),
            Some(token) => Err(ParseError::Trailing(token)),
        },
        Err(e) => Err(e),
    }
}

impl Lexer {
    /// Where the lexer stands.
    pub open spec fn state(&self) -> LexState {
        LexState { pos: self.pos as int, current: self.current }
    }
}

impl Parser {
    /// Whether one can be added to both precedences.
    pub open spec fn wf(&self) -> bool {
        self.rules.precedence_plus < i64::MAX && self.rules.precedence_times < i64::MAX
    }

    /// Reads an expression in parentheses; the lexer holds the open
    /// parenthesis.
    pub fn parse_paren_expr(&self, lex: &mut Lexer) -> (r: Result<Expr, ParseError>)
        requires
            self.wf(),
            old(lex).ready(),
            old(lex).current == Some(Token::LeftParen),
        ensures
            final(lex).ready(),
            final(lex).data == old(lex).data,
            final(lex).measure() <= old(lex).measure(),
            r matches Ok(tree) ==> well_formed(tree) && final(lex).measure() < old(lex).measure(),
            agrees(r, final(lex).state(), paren_at(*self, old(lex).data@, old(lex).state())),
        decreases old(lex).measure(), 0nat,
    {
        lex.consume();
        assert(lex.state() == advanced(old(lex).data@, old(lex).state()));
        match self.parse_expression(0, lex) {
            Ok(tree) => {
                match lex.next() {
                    Some(Token::RightParen) => {
                        lex.consume();
                        Ok(tree)
                    },
                    _ => Err(ParseError::ExpectedClosingParen),
                }
            },
            Err(e) => Err(e),
        }
    }

    /// Reads a number or an expression in parentheses.
    pub fn parse_operand(&self, lex: &mut Lexer) -> (r: Result<Expr, ParseError>)
        requires
            self.wf(),
            old(lex).ready(),
        ensures
            final(lex).ready(),
            final(lex).data == old(lex).data,
            final(lex).measure() <= old(lex).measure(),
            r matches Ok(tree) ==> well_formed(tree) && final(lex).measure() < old(lex).measure(),
            agrees(r, final(lex).state(), operand_at(*self, old(lex).data@, old(lex).state())),
        decreases old(lex).measure(), 1nat,
    {
        match lex.next() {
            Some(Token::LeftParen) => self.parse_paren_expr(lex),
            Some(Token::Number(n)) => {
                lex.consume();
                Ok(Expr::Constant(n))
            },
            _ => Err(ParseError::ExpectedOperand),
        }
    }

    /// Reads an expression all of whose operators outside parentheses have
    /// at least the precedence `precedence`: an operand, and for as long as
    /// an operator of such a precedence follows, that operator and the
    /// expression of the operators that bind tighter than it.  Operators of
    /// the same precedence are taken from left to right.
    pub fn parse_expression(&self, precedence: i64, lex: &mut Lexer) -> (r: Result<Expr, ParseError>)
        requires
            self.wf(),
            precedence >= 0,
            old(lex).ready(),
        ensures
            final(lex).ready(),
            final(lex).data == old(lex).data,
            final(lex).measure() <= old(lex).measure(),
            r matches Ok(tree) ==> well_formed(tree) && final(lex).measure() < old(lex).measure(),
            agrees(
                r,
                final(lex).state(),
                expression_at(*self, old(lex).data@, precedence, old(lex).state()),
            ),
        decreases old(lex).measure(), 2nat,
    {
        let ghost data = lex.data@;
        let ghost goal = expression_at(*self, data, precedence, lex.state());
        let mut lhs: Expr = match self.parse_operand(lex) {
            Ok(tree) => tree,
            Err(e) => {
                return Err(e);
            },
        };
        let mut stop_at_prec: i64 = 1000;
        while self.prec_is_between(precedence, &lex.next(), stop_at_prec)
            invariant
                self.wf(),
                precedence >= 0,
                lex.ready(),
                lex.data == old(lex).data,
                data == lex.data@,
                lex.measure() < old(lex).measure(),
                well_formed(lhs),
                goal == expression_at(*self, data, precedence, old(lex).state()),
                goal == climbed(*self, data, precedence, lhs, stop_at_prec, lex.state()),
            decreases lex.measure(),
        {
            let operator = lex.next();
            let ghost before = lex.state();
            lex.consume();
            assert(lex.state() == advanced(data, before));
            assert(left_from(data, lex.state()) < left_from(data, before));
            let ch = match operator {
                Some(Token::Operator(ch)) => ch,
                _ => '+',
            };
            let prec = match self.right_prec(&operator) {
                Ok(prec) => prec,
                Err(e) => {
                    return Err(ParseError::Precedence(e));
                },
            };
            let rhs = match self.parse_expression(prec, lex) {
                Ok(tree) => tree,
                Err(e) => {
                    return Err(e);
                },
            };
            assert(left_from(data, lex.state()) < left_from(data, before));
            lhs = Expr::Op(Box::new(lhs), ch, Box::new(rhs));
            stop_at_prec = match self.next_prec(&operator) {
                Ok(prec) => prec,
                Err(e) => {
                    return Err(ParseError::Precedence(e));
                },
            };
        }
        Ok(lhs)
    }

    /// Reads the whole text as one expression.
    pub fn parse(&self, expr_str: &str) -> (r: Result<Expr, ParseError>)
        requires
            self.wf(),
            clean(expr_str@),
        ensures
            r == parsed(*self, expr_str@),
            r matches Ok(tree) ==> well_formed(tree),
    {
        assert(next_ok(expr_str@, 0));
        let mut lex = Lexer::new(expr_str);
        assert(lex.state() == advanced(expr_str@, LexState { pos: 0, current: None }));
        let tree = match self.parse_expression(0, &mut lex) {
            Ok(tree) => tree,
            Err(e) => {
                return Err(e);
            },
        };
        match lex.next() {
            None => Ok(tree),
            Some(token) => Err(ParseError::Trailing(token)),
        }
    }
}

/// Whether every character of the text may stand in an expression and every
/// number of the text fits in 64 bits with a sign.
pub fn is_clean(s: &str) -> (r: bool)
    ensures
        r == clean(s@),
{
    let data = chars_of(s);
    let n = data.len();
    // From the right, so that the end of each run of blanks and of digits is
    // known when the run is entered.
    let mut p: usize = n;
    let mut run_end: usize = n;
    proof {
        assert(skip_blanks(data@, n as int) == n);
        assert(next_ok(data@, n as int));
    }
    while p > 0
        invariant
            0 <= p <= n,
            n == data@.len(),
            data@ == s@,
            forall|q: int| p <= q <= n ==> #[trigger] next_ok(data@, q),
        decreases p,
    {
        p -= 1;
        let c = data[p];
        if c == ' ' {
            proof {
                assert(skip_blanks(data@, p as int) == skip_blanks(data@, p + 1));
                assert(next_ok(data@, p + 1));
            }
        } else if c == '(' || c == ')' || c == '+' || c == '*' {
            proof {
                assert(skip_blanks(data@, p as int) == p);
            }
        } else if '0' <= c && c <= '9' {
            let mut e: usize = p;
            while e < n && '0' <= data[e] && data[e] <= '9'
                invariant
                    p <= e <= n,
                    n == data@.len(),
                    digits_end(data@, p as int) == digits_end(data@, e as int),
                decreases n - e,
            {
                e += 1;
            }
            proof {
                assert(skip_blanks(data@, p as int) == p);
                assert(digits_end(data@, p as int) == e);
            }
            if read_decimal(&data, p, e, 0x7fff_ffff_ffff_ffff).is_none() {
                proof {
                    lemma_digit_run(data@, p as int, e as int);
                    assert(!next_ok(data@, p as int));
                }
                return false;
            }
        } else {
            proof {
                assert(skip_blanks(data@, p as int) == p);
                assert(!next_ok(data@, p as int));
            }
            return false;
        }
    }
    true
}

/// The characters from `p` up to the end of the digits that begin there are
/// all digits.
pub proof fn lemma_digit_run(data: Seq<char>, p: int, e: int)
    requires
        0 <= p <= e <= data.len(),
        digits_end(data, p) == e,
    ensures
        crate::text::all_digits(data.subrange(p, e)),
    decreases e - p,
{
    if p < e {
        if !is_digit(data[p]) {
            assert(digits_end(data, p) == p);
        } else {
            lemma_digit_run(data, p + 1, e);
            assert forall|k: int| 0 <= k < e - p implies is_digit(
                #[trigger] data.subrange(p, e)[k],
            ) by {
                if k > 0 {
                    assert(data.subrange(p + 1, e)[k - 1] == data.subrange(p, e)[k]);
                }
            }
        }
    }
}

/// The value of an expression, if every operator is `+` or `*` and nothing
/// on the way exceeds 64 bits with a sign.
pub fn try_eval(tree: &Expr) -> (r: Option<i64>)
    ensures
        r is Some <==> evaluable(*tree),
        r matches Some(v) ==> v == value_of(*tree),
    decreases *tree,
{
    match tree {
        Expr::Constant(n) => Some(*n),
        Expr::Op(e1, op, e2) => {
            let v1 = match try_eval(e1) {
                Some(v) => v,
                None => {
                    return None;
                },
            };
            let v2 = match try_eval(e2) {
                Some(v) => v,
                None => {
                    return None;
                },
            };
            if *op == '+' {
                v1.checked_add(v2)
            } else if *op == '*' {
                v1.checked_mul(v2)
            } else {
                None
            }
        },
    }
}

/// Why the expressions of some lines have no sum.
#[derive(Debug, Clone, Copy, PartialEq, Eq, Structural)]
pub enum TotalError {
    /// The line with this number, counted from 0, holds a character that
    /// may not stand in an expression, or a number that is too great.
    Unreadable(usize),
    /// The line with this number is no expression.
    Parse(usize, ParseError),
    /// The value of the line with this number, or the sum up to it, does not
    /// fit in 64 bits with a sign.
    Overflow(usize),
}

/// The sum of the values of the first `n` lines, each read as an expression
/// by the rules, or the failure of the first line that has one.
pub open spec fn total_of(rules: Rules, lines: Seq<String>, n: int) -> Result<i64, TotalError>
    decreases n,
{
    if n <= 0 {
        Ok(0)
    } else {
        match total_of(rules, lines, n - 1) {
            Err(e) => Err(e),
            Ok(before) => {
                let line = lines[n - 1]@;
                if !clean(line) {
                    Err(TotalError::Unreadable((n - 1) as usize))
                } else {
                    match parsed(Parser { rules }, line) {
                        Err(e) => Err(TotalError::Parse((n - 1) as usize, e)),
                        Ok(tree) => if !evaluable(tree) || !(i64::MIN <= before + value_of(tree)
                            <= i64::MAX) {
                            Err(TotalError::Overflow((n - 1) as usize))
                        } else {
                            Ok((before + value_of(tree)) as i64)
                        },
                    }
                }
            },
        }
    }
}

/// Once a line has failed, the lines after it change nothing.
pub proof fn lemma_total_sticks(rules: Rules, lines: Seq<String>, n: int, m: int)
    requires
        0 <= n <= m,
        total_of(rules, lines, n) is Err,
    ensures
        total_of(rules, lines, m) == total_of(rules, lines, n),
    decreases m - n,
{
    if n < m {
        lemma_total_sticks(rules, lines, n, m - 1);
    }
}

/// Reads each line as an expression by the given rules and adds the values
/// up.
pub fn parse_evaluate_and_total(input: &Vec<String>, rules: &Rules) -> (r: Result<i64, TotalError>)
    requires
        rules.precedence_plus < i64::MAX,
        rules.precedence_times < i64::MAX,
    ensures
        r == total_of(*rules, input@, input@.len() as int),
{
    let p = Parser { rules: *rules };
    let mut total: i64 = 0;
    let mut i: usize = 0;
    while i < input.len()
        invariant
            0 <= i <= input@.len(),
            p.wf(),
            p.rules == *rules,
            total_of(*rules, input@, i as int) == Ok::<i64, TotalError>(total),
        decreases input@.len() - i,
    {
        let line = input[i].as_str();
        proof {
            assert(p == Parser { rules: *rules });
        }
        if !is_clean(line) {
            proof {
                lemma_total_sticks(*rules, input@, i + 1, input@.len() as int);
            }
            return Err(TotalError::Unreadable(i));
        }
        let tree = match p.parse(line) {
            Ok(tree) => tree,
            Err(e) => {
                proof {
                    lemma_total_sticks(*rules, input@, i + 1, input@.len() as int);
                }
                return Err(TotalError::Parse(i, e));
            },
        };
        let value = match try_eval(&tree) {
            Some(value) => value,
            None => {
                proof {
                    lemma_total_sticks(*rules, input@, i + 1, input@.len() as int);
                }
                return Err(TotalError::Overflow(i));
            },
        };
        total = match total.checked_add(value) {
            Some(sum) => sum,
            None => {
                proof {
                    lemma_total_sticks(*rules, input@, i + 1, input@.len() as int);
                }
                return Err(TotalError::Overflow(i));
            },
        };
        i += 1;
    }
    Ok(total)
}

} // verus!
