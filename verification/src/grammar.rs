//! The grammar: statements and expressions read from a token sequence.
//!
//! ```text
//! program    := statement* END
//! statement  := "fn" NAME "(" [NAME ("," NAME)*] ")" "=" expression ";"
//!             | "print" expression ";"
//! expression := term (("+" | "-") term)*
//! term       := factor (("*" | "/") factor)*
//! factor     := NUMBER | NAME | NAME "(" [expression ("," expression)*] ")"
//!             | "(" expression ")"
//! ```
//!
//! Both operator levels group to the left. Reading stops at the first token
//! that cannot continue the program.

use vstd::prelude::*;
use crate::ir::{
    exprs_view, statements_view, DefId, ExprDataView, ExprView, Expression, ExpressionData,
    FunctionData, FunctionDataView, FunctionId, Op, Span, Statement, StatementData,
    StatementDataView, StatementView, VariableId,
};
use crate::lexer::{
    ascii_string, lemma_invalid_token, lemma_token_follows, lemma_token_order,
    lemma_tokens_not_empty, token_text, well_formed, Token, TokenKind,
};
use crate::visit::{expr_accepted, expr_data_accepted, statement_data_accepted};

verus! {

/// The one error of a failed parse: the place of the first token that cannot
/// continue the program. It covers one byte, or nothing at the end of the text.
#[derive(Clone, Copy, Debug, PartialEq, Eq, Hash, Structural)]
pub struct ParseError {
    pub start: usize,
    pub end: usize,
}

/// The kind of the token at `pos`; the end of the text beyond the sequence.
pub open spec fn kind_at(tokens: Seq<Token>, pos: int) -> TokenKind {
    if 0 <= pos < tokens.len() {
        tokens[pos].kind
    } else {
        TokenKind::End
    }
}

/// The span from the start of token `first` to the end of the token before `next`.
pub open spec fn span_over(tokens: Seq<Token>, id: DefId, first: int, next: int) -> Span {
    Span { id, start: tokens[first].start, end: tokens[next - 1].end }
}

/// The operator of the lower level that a token stands for.
pub open spec fn additive(kind: TokenKind) -> Option<Op> {
    match kind {
        TokenKind::Plus => Some(Op::Add),
        TokenKind::Minus => Some(Op::Subtract),
        _ => None,
    }
}

/// The operator of the higher level that a token stands for.
pub open spec fn multiplicative(kind: TokenKind) -> Option<Op> {
    match kind {
        TokenKind::Star => Some(Op::Multiply),
        TokenKind::Slash => Some(Op::Divide),
        _ => None,
    }
}

/// The operation on `left` and `right` that covers the tokens from `first` up to `next`.
pub open spec fn binary(tokens: Seq<Token>, id: DefId, first: int, next: int, left: ExprView, op: Op, right: ExprView) -> ExprView {
    ExprView {
        span: span_over(tokens, id, first, next),
        data: ExprDataView::Op(Box::new(left), op, Box::new(right)),
    }
}

/// A factor that starts at token `pos`: the expression and the position after
/// it, or the position of the offending token.
pub open spec fn factor(tokens: Seq<Token>, text: Seq<u8>, id: DefId, pos: int) -> Result<
    (ExprView, int),
    int,
>
    decreases tokens.len() - pos, 0nat,
{
    if !(0 <= pos < tokens.len()) {
        Err(pos)
    } else {
        let t = tokens[pos];
        match t.kind {
            TokenKind::Number => Ok(
                (
                    ExprView {
                        span: span_over(tokens, id, pos, pos + 1),
                        data: ExprDataView::Number(token_text(text, t)),
                    },
                    pos + 1,
                ),
            ),
            TokenKind::Identifier => if kind_at(tokens, pos + 1) == TokenKind::LeftParen {
                match arguments(tokens, text, id, pos + 2) {
                    Ok((args, next)) => if kind_at(tokens, next) == TokenKind::RightParen {
                        Ok(
                            (
                                ExprView {
                                    span: span_over(tokens, id, pos, next + 1),
                                    data: ExprDataView::Call(FunctionId { index: t.symbol }, args),
                                },
                                next + 1,
                            ),
                        )
                    } else {
                        Err(next)
                    },
                    Err(k) => Err(k),
                }
            } else {
                Ok(
                    (
                        ExprView {
                            span: span_over(tokens, id, pos, pos + 1),
                            data: ExprDataView::Variable(VariableId { index: t.symbol }),
                        },
                        pos + 1,
                    ),
                )
            },
            TokenKind::LeftParen => match expression(tokens, text, id, pos + 1) {
                Ok((e, next)) => if kind_at(tokens, next) == TokenKind::RightParen {
                    Ok((e, next + 1))
                } else {
                    Err(next)
                },
                Err(k) => Err(k),
            },
            _ => Err(pos),
        }
    }
}

/// The arguments of a call, from the token after its opening bracket up to the
/// closing one, which is not taken.
pub open spec fn arguments(tokens: Seq<Token>, text: Seq<u8>, id: DefId, pos: int) -> Result<
    (Seq<ExprView>, int),
    int,
>
    decreases tokens.len() - pos, 4nat,
{
    if kind_at(tokens, pos) == TokenKind::RightParen {
        Ok((Seq::empty(), pos))
    } else {
        argument_list(tokens, text, id, pos, Seq::empty())
    }
}

/// One or more expressions with commas between them, after those in `found`.
pub open spec fn argument_list(
    tokens: Seq<Token>,
    text: Seq<u8>,
    id: DefId,
    pos: int,
    found: Seq<ExprView>,
) -> Result<(Seq<ExprView>, int), int>
    decreases tokens.len() - pos, 3nat,
{
    if !(0 <= pos < tokens.len()) {
        Err(pos)
    } else {
        match expression(tokens, text, id, pos) {
            Ok((e, next)) => if kind_at(tokens, next) == TokenKind::Comma && next >= pos {
                argument_list(tokens, text, id, next + 1, found.push(e))
            } else {
                Ok((found.push(e), next))
            },
            Err(k) => Err(k),
        }
    }
}

/// An expression that starts at token `pos`.
pub open spec fn expression(tokens: Seq<Token>, text: Seq<u8>, id: DefId, pos: int) -> Result<
    (ExprView, int),
    int,
>
    decreases tokens.len() - pos, 2nat,
{
    if !(0 <= pos < tokens.len()) {
        Err(pos)
    } else {
        match term(tokens, text, id, pos) {
            Ok((left, next)) => if pos < next <= tokens.len() {
                expression_rest(tokens, text, id, pos, next, left)
            } else {
                Err(pos)
            },
            Err(k) => Err(k),
        }
    }
}

/// What follows the terms read so far: `left` covers the tokens from `first` up to `pos`.
pub open spec fn expression_rest(
    tokens: Seq<Token>,
    text: Seq<u8>,
    id: DefId,
    first: int,
    pos: int,
    left: ExprView,
) -> Result<(ExprView, int), int>
    decreases tokens.len() - pos, 0nat,
{
    match additive(kind_at(tokens, pos)) {
        Some(op) => match term(tokens, text, id, pos + 1) {
            Ok((right, next)) => if pos < next <= tokens.len() {
                expression_rest(
                    tokens,
                    text,
                    id,
                    first,
                    next,
                    binary(tokens, id, first, next, left, op, right),
                )
            } else {
                Err(pos)
            },
            Err(k) => Err(k),
        },
        None => Ok((left, pos)),
    }
}

/// A term that starts at token `pos`.
pub open spec fn term(tokens: Seq<Token>, text: Seq<u8>, id: DefId, pos: int) -> Result<
    (ExprView, int),
    int,
>
    decreases tokens.len() - pos, 1nat,
{
    if !(0 <= pos < tokens.len()) {
        Err(pos)
    } else {
        match factor(tokens, text, id, pos) {
            Ok((left, next)) => if pos < next <= tokens.len() {
                term_rest(tokens, text, id, pos, next, left)
            } else {
                Err(pos)
            },
            Err(k) => Err(k),
        }
    }
}

/// What follows the factors read so far: `left` covers the tokens from `first` up to `pos`.
pub open spec fn term_rest(
    tokens: Seq<Token>,
    text: Seq<u8>,
    id: DefId,
    first: int,
    pos: int,
    left: ExprView,
) -> Result<(ExprView, int), int>
    decreases tokens.len() - pos, 0nat,
{
    match multiplicative(kind_at(tokens, pos)) {
        Some(op) => match factor(tokens, text, id, pos + 1) {
            Ok((right, next)) => if pos < next <= tokens.len() {
                term_rest(
                    tokens,
                    text,
                    id,
                    first,
                    next,
                    binary(tokens, id, first, next, left, op, right),
                )
            } else {
                Err(pos)
            },
            Err(k) => Err(k),
        },
        None => Ok((left, pos)),
    }
}

/// The parameters of a definition, from the token after its opening bracket up
/// to the closing one, which is not taken.
pub open spec fn parameters(tokens: Seq<Token>, pos: int) -> Result<(Seq<VariableId>, int), int> {
    if kind_at(tokens, pos) == TokenKind::RightParen {
        Ok((Seq::empty(), pos))
    } else {
        parameter_list(tokens, pos, Seq::empty())
    }
}

/// One or more names with commas between them, after those in `found`.
pub open spec fn parameter_list(tokens: Seq<Token>, pos: int, found: Seq<VariableId>) -> Result<
    (Seq<VariableId>, int),
    int,
>
    decreases tokens.len() - pos,
{
    if kind_at(tokens, pos) == TokenKind::Identifier {
        let found = found.push(VariableId { index: tokens[pos].symbol });
        if kind_at(tokens, pos + 1) == TokenKind::Comma {
            parameter_list(tokens, pos + 2, found)
        } else {
            Ok((found, pos + 1))
        }
    } else {
        Err(pos)
    }
}

/// A print statement whose keyword is token `pos`.
pub open spec fn print_statement(tokens: Seq<Token>, text: Seq<u8>, id: DefId, pos: int) -> Result<
    (StatementView, int),
    int,
> {
    match expression(tokens, text, id, pos + 1) {
        Ok((e, next)) => if kind_at(tokens, next) == TokenKind::Semicolon {
            Ok(
                (
                    StatementView {
                        span: span_over(tokens, id, pos, next + 1),
                        data: StatementDataView::Print(e),
                    },
                    next + 1,
                ),
            )
        } else {
            Err(next)
        },
        Err(k) => Err(k),
    }
}

/// What follows the parameters `args` of a definition whose keyword is token
/// `pos`: the closing bracket at token `close`, the equals sign, the body and
/// the semicolon.
pub open spec fn definition_body(
    tokens: Seq<Token>,
    text: Seq<u8>,
    id: DefId,
    pos: int,
    args: Seq<VariableId>,
    close: int,
) -> Result<(StatementView, int), int> {
    if kind_at(tokens, close) != TokenKind::RightParen {
        Err(close)
    } else if kind_at(tokens, close + 1) != TokenKind::Equals {
        Err(close + 1)
    } else {
        match expression(tokens, text, id, close + 2) {
            Ok((body, next)) => if kind_at(tokens, next) == TokenKind::Semicolon {
                Ok(
                    (
                        StatementView {
                            span: span_over(tokens, id, pos, next + 1),
                            data: StatementDataView::Function {
                                name: FunctionId { index: tokens[pos + 1].symbol },
                                data: FunctionDataView {
                                    name_span: span_over(tokens, id, pos + 1, pos + 2),
                                    args,
                                    body,
                                },
                            },
                        },
                        next + 1,
                    ),
                )
            } else {
                Err(next)
            },
            Err(k) => Err(k),
        }
    }
}

/// A definition whose keyword is token `pos`.
pub open spec fn definition(tokens: Seq<Token>, text: Seq<u8>, id: DefId, pos: int) -> Result<
    (StatementView, int),
    int,
> {
    if kind_at(tokens, pos + 1) != TokenKind::Identifier {
        Err(pos + 1)
    } else if kind_at(tokens, pos + 2) != TokenKind::LeftParen {
        Err(pos + 2)
    } else {
        match parameters(tokens, pos + 3) {
            Ok((args, close)) => definition_body(tokens, text, id, pos, args, close),
            Err(k) => Err(k),
        }
    }
}

/// A statement that starts at token `pos`.
pub open spec fn statement(tokens: Seq<Token>, text: Seq<u8>, id: DefId, pos: int) -> Result<
    (StatementView, int),
    int,
> {
    match kind_at(tokens, pos) {
        TokenKind::Print => print_statement(tokens, text, id, pos),
        TokenKind::Fn => definition(tokens, text, id, pos),
        _ => Err(pos),
    }
}

/// The statements from token `pos` up to the end of the text, after those in `found`.
pub open spec fn program(
    tokens: Seq<Token>,
    text: Seq<u8>,
    id: DefId,
    pos: int,
    found: Seq<StatementView>,
) -> Result<Seq<StatementView>, int>
    decreases tokens.len() - pos,
{
    if kind_at(tokens, pos) == TokenKind::End {
        Ok(found)
    } else {
        match statement(tokens, text, id, pos) {
            Ok((s, next)) => if pos < next <= tokens.len() {
                program(tokens, text, id, next, found.push(s))
            } else {
                Err(pos)
            },
            Err(k) => Err(k),
        }
    }
}

/// The error that blames token `k`.
pub open spec fn error_at(tokens: Seq<Token>, k: int) -> ParseError {
    let start = tokens[k].start;
    ParseError {
        start,
        end: if tokens[k].kind == TokenKind::End {
            start
        } else {
            (start + 1) as usize
        },
    }
}

/// What parsing a token sequence gives: the statements in order, every span
/// counted from the start of the text and tagged `id`, or the one error.
pub open spec fn parsed(tokens: Seq<Token>, text: Seq<u8>, id: DefId) -> Result<
    Seq<StatementView>,
    ParseError,
> {
    match program(tokens, text, id, 0, Seq::empty()) {
        Ok(statements) => Ok(statements),
        Err(k) => Err(error_at(tokens, k)),
    }
}

/// The spans that lie in `floor..=len`, are tagged `id` and do not end before they start.
pub open spec fn inside(floor: int, len: int, id: DefId) -> spec_fn(Span) -> bool {
    |s: Span| floor <= s.start && s.wf() && s.end <= len && s.id == id
}

/// How the outcome of reading an expression from token `pos` relates to what
/// the grammar gives: on success the same tree and next position, with every span
/// satisfying `ok`; on failure the same offending token.
pub open spec fn expression_outcome(
    r: Result<(Expression, usize), usize>,
    expected: Result<(ExprView, int), int>,
    tokens: Seq<Token>,
    pos: int,
    ok: spec_fn(Span) -> bool,
) -> bool {
    match r {
        Ok((e, next)) => {
            &&& expected == Ok::<(ExprView, int), int>((e@, next as int))
            &&& pos < next < tokens.len()
            &&& expr_accepted(e@, ok)
        },
        Err(k) => expected == Err::<(ExprView, int), int>(k as int) && k < tokens.len(),
    }
}

fn additive_op(kind: TokenKind) -> (op: Option<Op>)
    ensures
        op == additive(kind),
{
    match kind {
        TokenKind::Plus => Some(Op::Add),
        TokenKind::Minus => Some(Op::Subtract),
        _ => None,
    }
}

fn multiplicative_op(kind: TokenKind) -> (op: Option<Op>)
    ensures
        op == multiplicative(kind),
{
    match kind {
        TokenKind::Star => Some(Op::Multiply),
        TokenKind::Slash => Some(Op::Divide),
        _ => None,
    }
}

fn parse_factor(tokens: &Vec<Token>, text: &[u8], id: DefId, pos: usize, Ghost(floor): Ghost<int>) -> (r:
    Result<(Expression, usize), usize>)
    requires
        well_formed(tokens@, text@),
        pos < tokens@.len(),
        floor <= tokens@[pos as int].start,
    ensures
        expression_outcome(
            r,
            factor(tokens@, text@, id, pos as int),
            tokens@,
            pos as int,
            inside(floor, text@.len() as int, id),
        ),
    decreases tokens@.len() - pos, 0nat,
{
    let n = tokens.len();
    let t = tokens[pos];
    match t.kind {
        TokenKind::Number => {
            proof {
                lemma_token_follows(tokens@, text@, pos as int);
            }
            let literal = ascii_string(text, t.start, t.end);
            Ok(
                (
                    Expression {
                        span: Span { id, start: t.start, end: t.end },
                        data: ExpressionData::Number(literal),
                    },
                    pos + 1,
                ),
            )
        },
        TokenKind::Identifier => {
            proof {
                lemma_token_follows(tokens@, text@, pos as int);
            }
            if tokens[pos + 1].kind == TokenKind::LeftParen {
                proof {
                    lemma_token_follows(tokens@, text@, pos + 1);
                    lemma_token_order(tokens@, text@, pos as int, pos + 2);
                }
                match parse_arguments(tokens, text, id, pos + 2, Ghost(floor)) {
                    Ok((args, next)) => {
                        if tokens[next].kind == TokenKind::RightParen {
                            proof {
                                lemma_token_follows(tokens@, text@, next as int);
                                lemma_token_order(tokens@, text@, pos as int, next as int);
                            }
                            let e = Expression {
                                span: Span { id, start: t.start, end: tokens[next].end },
                                data: ExpressionData::Call(FunctionId { index: t.symbol }, args),
                            };
                            proof {
                                assert(e@.data->Call_1 =~= exprs_view(args@));
                                assert(expr_data_accepted(
                                    e@.data,
                                    inside(floor, text@.len() as int, id),
                                ));
                            }
                            Ok((e, next + 1))
                        } else {
                            Err(next)
                        }
                    },
                    Err(k) => Err(k),
                }
            } else {
                Ok(
                    (
                        Expression {
                            span: Span { id, start: t.start, end: t.end },
                            data: ExpressionData::Variable(VariableId { index: t.symbol }),
                        },
                        pos + 1,
                    ),
                )
            }
        },
        TokenKind::LeftParen => {
            proof {
                lemma_token_follows(tokens@, text@, pos as int);
                lemma_token_order(tokens@, text@, pos as int, pos + 1);
            }
            match parse_expression(tokens, text, id, pos + 1, Ghost(floor)) {
                Ok((e, next)) => {
                    if tokens[next].kind == TokenKind::RightParen {
                        proof {
                            lemma_token_follows(tokens@, text@, next as int);
                        }
                        Ok((e, next + 1))
                    } else {
                        Err(next)
                    }
                },
                Err(k) => Err(k),
            }
        },
        _ => Err(pos),
    }
}

fn parse_arguments(
    tokens: &Vec<Token>,
    text: &[u8],
    id: DefId,
    pos: usize,
    Ghost(floor): Ghost<int>,
) -> (r: Result<(Vec<Expression>, usize), usize>)
    requires
        well_formed(tokens@, text@),
        pos < tokens@.len(),
        floor <= tokens@[pos as int].start,
    ensures
        match r {
            Ok((args, next)) => {
                &&& arguments(tokens@, text@, id, pos as int) == Ok::<(Seq<ExprView>, int), int>(
                    (exprs_view(args@), next as int),
                )
                &&& pos <= next < tokens@.len()
                &&& forall|i: int|
                    0 <= i < args@.len() ==> expr_accepted(
                        #[trigger] exprs_view(args@)[i],
                        inside(floor, text@.len() as int, id),
                    )
            },
            Err(k) => arguments(tokens@, text@, id, pos as int) == Err::<(Seq<ExprView>, int), int>(
                k as int,
            ) && k < tokens@.len(),
        },
    decreases tokens@.len() - pos, 4nat,
{
    let n = tokens.len();
    let mut found: Vec<Expression> = Vec::new();
    proof {
        assert(exprs_view(found@) =~= Seq::<ExprView>::empty());
    }
    if tokens[pos].kind == TokenKind::RightParen {
        return Ok((found, pos));
    }
    let mut at: usize = pos;
    loop
        invariant
            well_formed(tokens@, text@),
            n == tokens@.len(),
            pos <= at < n,
            floor <= tokens@[at as int].start,
            arguments(tokens@, text@, id, pos as int) == argument_list(
                tokens@,
                text@,
                id,
                at as int,
                exprs_view(found@),
            ),
            forall|i: int|
                0 <= i < found@.len() ==> expr_accepted(
                    #[trigger] exprs_view(found@)[i],
                    inside(floor, text@.len() as int, id),
                ),
        decreases n - at,
    {
        match parse_expression(tokens, text, id, at, Ghost(floor)) {
            Ok((e, next)) => {
                let ghost before = exprs_view(found@);
                let ghost ev = e@;
                found.push(e);
                proof {
                    assert(exprs_view(found@) =~= before.push(ev));
                }
                if tokens[next].kind == TokenKind::Comma {
                    proof {
                        lemma_token_follows(tokens@, text@, next as int);
                        lemma_token_order(tokens@, text@, at as int, next + 1);
                    }
                    at = next + 1;
                } else {
                    return Ok((found, next));
                }
            },
            Err(k) => {
                return Err(k);
            },
        }
    }
}

fn parse_expression(
    tokens: &Vec<Token>,
    text: &[u8],
    id: DefId,
    pos: usize,
    Ghost(floor): Ghost<int>,
) -> (r: Result<(Expression, usize), usize>)
    requires
        well_formed(tokens@, text@),
        pos < tokens@.len(),
        floor <= tokens@[pos as int].start,
    ensures
        expression_outcome(
            r,
            expression(tokens@, text@, id, pos as int),
            tokens@,
            pos as int,
            inside(floor, text@.len() as int, id),
        ),
    decreases tokens@.len() - pos, 2nat,
{
    let n = tokens.len();
    let (first, after) = match parse_term(tokens, text, id, pos, Ghost(floor)) {
        Ok(read) => read,
        Err(k) => {
            return Err(k);
        },
    };
    let mut left: Expression = first;
    let mut at: usize = after;
    loop
        invariant
            well_formed(tokens@, text@),
            n == tokens@.len(),
            pos < at < n,
            floor <= tokens@[pos as int].start,
            expression(tokens@, text@, id, pos as int) == expression_rest(
                tokens@,
                text@,
                id,
                pos as int,
                at as int,
                left@,
            ),
            expr_accepted(left@, inside(floor, text@.len() as int, id)),
        decreases n - at,
    {
        let op = match additive_op(tokens[at].kind) {
            Some(op) => op,
            None => {
                assert(additive(kind_at(tokens@, at as int)) is None);
                assert(expression_rest(tokens@, text@, id, pos as int, at as int, left@) == Ok::<
                    (ExprView, int),
                    int,
                >((left@, at as int)));
                return Ok((left, at));
            },
        };
        proof {
            assert(additive(kind_at(tokens@, at as int)) == Some(op));
            lemma_token_follows(tokens@, text@, at as int);
            lemma_token_order(tokens@, text@, pos as int, at + 1);
        }
        match parse_term(tokens, text, id, at + 1, Ghost(floor)) {
            Ok((right, next)) => {
                proof {
                    lemma_token_order(tokens@, text@, pos as int, next - 1);
                }
                let ghost lv = left@;
                left = Expression {
                    span: Span { id, start: tokens[pos].start, end: tokens[next - 1].end },
                    data: ExpressionData::Op(Box::new(left), op, Box::new(right)),
                };
                proof {
                    assert(left@ == binary(tokens@, id, pos as int, next as int, lv, op, right@));
                    assert(expr_data_accepted(left@.data, inside(floor, text@.len() as int, id)));
                }
                at = next;
            },
            Err(k) => {
                return Err(k);
            },
        }
    }
}

fn parse_term(tokens: &Vec<Token>, text: &[u8], id: DefId, pos: usize, Ghost(floor): Ghost<int>) -> (r:
    Result<(Expression, usize), usize>)
    requires
        well_formed(tokens@, text@),
        pos < tokens@.len(),
        floor <= tokens@[pos as int].start,
    ensures
        expression_outcome(
            r,
            term(tokens@, text@, id, pos as int),
            tokens@,
            pos as int,
            inside(floor, text@.len() as int, id),
        ),
    decreases tokens@.len() - pos, 1nat,
{
    let n = tokens.len();
    let (first, after) = match parse_factor(tokens, text, id, pos, Ghost(floor)) {
        Ok(read) => read,
        Err(k) => {
            return Err(k);
        },
    };
    let mut left: Expression = first;
    let mut at: usize = after;
    loop
        invariant
            well_formed(tokens@, text@),
            n == tokens@.len(),
            pos < at < n,
            floor <= tokens@[pos as int].start,
            term(tokens@, text@, id, pos as int) == term_rest(
                tokens@,
                text@,
                id,
                pos as int,
                at as int,
                left@,
            ),
            expr_accepted(left@, inside(floor, text@.len() as int, id)),
        decreases n - at,
    {
        let op = match multiplicative_op(tokens[at].kind) {
            Some(op) => op,
            None => {
                assert(multiplicative(kind_at(tokens@, at as int)) is None);
                assert(term_rest(tokens@, text@, id, pos as int, at as int, left@) == Ok::<
                    (ExprView, int),
                    int,
                >((left@, at as int)));
                return Ok((left, at));
            },
        };
        proof {
            assert(multiplicative(kind_at(tokens@, at as int)) == Some(op));
            lemma_token_follows(tokens@, text@, at as int);
            lemma_token_order(tokens@, text@, pos as int, at + 1);
        }
        match parse_factor(tokens, text, id, at + 1, Ghost(floor)) {
            Ok((right, next)) => {
                proof {
                    lemma_token_order(tokens@, text@, pos as int, next - 1);
                }
                let ghost lv = left@;
                left = Expression {
                    span: Span { id, start: tokens[pos].start, end: tokens[next - 1].end },
                    data: ExpressionData::Op(Box::new(left), op, Box::new(right)),
                };
                proof {
                    assert(left@ == binary(tokens@, id, pos as int, next as int, lv, op, right@));
                    assert(expr_data_accepted(left@.data, inside(floor, text@.len() as int, id)));
                }
                at = next;
            },
            Err(k) => {
                return Err(k);
            },
        }
    }
}

fn parse_parameters(tokens: &Vec<Token>, text: &[u8], pos: usize) -> (r: Result<
    (Vec<VariableId>, usize),
    usize,
>)
    requires
        well_formed(tokens@, text@),
        pos < tokens@.len(),
    ensures
        match r {
            Ok((args, next)) => parameters(tokens@, pos as int) == Ok::<(Seq<VariableId>, int), int>(
                (args@, next as int),
            ) && pos <= next < tokens@.len(),
            Err(k) => parameters(tokens@, pos as int) == Err::<(Seq<VariableId>, int), int>(
                k as int,
            ) && k < tokens@.len(),
        },
{
    let n = tokens.len();
    let mut found: Vec<VariableId> = Vec::new();
    if tokens[pos].kind == TokenKind::RightParen {
        return Ok((found, pos));
    }
    let mut at: usize = pos;
    loop
        invariant
            well_formed(tokens@, text@),
            n == tokens@.len(),
            pos <= at < n,
            parameters(tokens@, pos as int) == parameter_list(tokens@, at as int, found@),
        decreases n - at,
    {
        let t = tokens[at];
        if t.kind != TokenKind::Identifier {
            return Err(at);
        }
        proof {
            lemma_token_follows(tokens@, text@, at as int);
        }
        found.push(VariableId { index: t.symbol });
        if tokens[at + 1].kind == TokenKind::Comma {
            proof {
                lemma_token_follows(tokens@, text@, at + 1);
            }
            at = at + 2;
        } else {
            return Ok((found, at + 1));
        }
    }
}

/// How the outcome of reading a statement from token `pos` relates to what the
/// grammar gives. On success every span below the statement lies in the
/// statement's own span.
pub open spec fn statement_outcome(
    r: Result<(Statement, usize), usize>,
    expected: Result<(StatementView, int), int>,
    tokens: Seq<Token>,
    pos: int,
    len: int,
    id: DefId,
) -> bool {
    match r {
        Ok((s, next)) => {
            &&& expected == Ok::<(StatementView, int), int>((s@, next as int))
            &&& pos < next < tokens.len()
            &&& statement_in_text(s@, len, id)
        },
        Err(k) => expected == Err::<(StatementView, int), int>(k as int) && k < tokens.len(),
    }
}

/// The statement's span lies in a text of `len` bytes, and every span below it
/// lies in the statement's span and is tagged `id`.
pub open spec fn statement_in_text(s: StatementView, len: int, id: DefId) -> bool {
    &&& s.span.start <= s.span.end <= len
    &&& s.span.id == id
    &&& statement_data_accepted(s.data, inside(s.span.start as int, len, id))
}

fn parse_statement(tokens: &Vec<Token>, text: &[u8], id: DefId, pos: usize) -> (r: Result<
    (Statement, usize),
    usize,
>)
    requires
        well_formed(tokens@, text@),
        pos < tokens@.len(),
    ensures
        statement_outcome(
            r,
            statement(tokens@, text@, id, pos as int),
            tokens@,
            pos as int,
            text@.len() as int,
            id,
        ),
{
    let n = tokens.len();
    let t = tokens[pos];
    let ghost floor = t.start as int;
    match t.kind {
        TokenKind::Print => {
            proof {
                lemma_token_follows(tokens@, text@, pos as int);
                lemma_token_order(tokens@, text@, pos as int, pos + 1);
            }
            match parse_expression(tokens, text, id, pos + 1, Ghost(floor)) {
                Ok((e, next)) => {
                    if tokens[next].kind == TokenKind::Semicolon {
                        proof {
                            lemma_token_follows(tokens@, text@, next as int);
                            lemma_token_order(tokens@, text@, pos as int, next as int);
                        }
                        Ok(
                            (
                                Statement {
                                    span: Span { id, start: t.start, end: tokens[next].end },
                                    data: StatementData::Print(e),
                                },
                                next + 1,
                            ),
                        )
                    } else {
                        Err(next)
                    }
                },
                Err(k) => Err(k),
            }
        },
        TokenKind::Fn => {
            proof {
                lemma_token_follows(tokens@, text@, pos as int);
            }
            let name = tokens[pos + 1];
            if name.kind != TokenKind::Identifier {
                return Err(pos + 1);
            }
            proof {
                lemma_token_follows(tokens@, text@, pos + 1);
            }
            if tokens[pos + 2].kind != TokenKind::LeftParen {
                return Err(pos + 2);
            }
            proof {
                lemma_token_follows(tokens@, text@, pos + 2);
            }
            match parse_parameters(tokens, text, pos + 3) {
                Ok((args, close)) => {
                    if tokens[close].kind != TokenKind::RightParen {
                        return Err(close);
                    }
                    proof {
                        lemma_token_follows(tokens@, text@, close as int);
                    }
                    if tokens[close + 1].kind != TokenKind::Equals {
                        return Err(close + 1);
                    }
                    proof {
                        lemma_token_follows(tokens@, text@, close + 1);
                        lemma_token_order(tokens@, text@, pos as int, close + 2);
                    }
                    match parse_expression(tokens, text, id, close + 2, Ghost(floor)) {
                        Ok((body, next)) => {
                            if tokens[next].kind == TokenKind::Semicolon {
                                proof {
                                    lemma_token_follows(tokens@, text@, next as int);
                                    lemma_token_order(tokens@, text@, pos as int, next as int);
                                    lemma_token_order(tokens@, text@, pos as int, pos + 1);
                                }
                                Ok(
                                    (
                                        Statement {
                                            span: Span { id, start: t.start, end: tokens[next].end },
                                            data: StatementData::Function {
                                                name: FunctionId { index: name.symbol },
                                                data: FunctionData {
                                                    name_span: Span {
                                                        id,
                                                        start: name.start,
                                                        end: name.end,
                                                    },
                                                    args,
                                                    body,
                                                },
                                            },
                                        },
                                        next + 1,
                                    ),
                                )
                            } else {
                                Err(next)
                            }
                        },
                        Err(k) => Err(k),
                    }
                },
                Err(k) => Err(k),
            }
        },
        _ => Err(pos),
    }
}

fn error_for(tokens: &Vec<Token>, text: &[u8], k: usize) -> (e: ParseError)
    requires
        well_formed(tokens@, text@),
        k < tokens@.len(),
    ensures
        e == error_at(tokens@, k as int),
        e.start <= e.end <= text@.len(),
{
    let t = tokens[k];
    proof {
        lemma_token_order(tokens@, text@, k as int, k as int);
    }
    match t.kind {
        TokenKind::End => ParseError { start: t.start, end: t.start },
        _ => {
            proof {
                lemma_token_order(tokens@, text@, k as int, k as int);
                if t.kind != TokenKind::Invalid {
                    lemma_token_follows(tokens@, text@, k as int);
                } else {
                    lemma_invalid_token(tokens@, text@, k as int);
                }
            }
            ParseError { start: t.start, end: t.start + 1 }
        },
    }
}

/// Reads a whole program from its tokens: all statements in order, or the one
/// error at the first token that cannot continue the program. `id` tags every span.
pub fn parse(tokens: &Vec<Token>, text: &[u8], id: DefId) -> (r: Result<Vec<Statement>, ParseError>)
    requires
        well_formed(tokens@, text@),
    ensures
        match r {
            Ok(statements) => {
                &&& parsed(tokens@, text@, id) == Ok::<Seq<StatementView>, ParseError>(
                    statements_view(statements@),
                )
                &&& forall|i: int|
                    0 <= i < statements@.len() ==> statement_in_text(
                        #[trigger] statements_view(statements@)[i],
                        text@.len() as int,
                        id,
                    )
            },
            Err(e) => parsed(tokens@, text@, id) == Err::<Seq<StatementView>, ParseError>(e)
                && e.start <= e.end <= text@.len(),
        },
{
    let n = tokens.len();
    proof {
        lemma_tokens_not_empty(tokens@, text@);
    }
    let mut found: Vec<Statement> = Vec::new();
    let mut at: usize = 0;
    proof {
        assert(statements_view(found@) =~= Seq::<StatementView>::empty());
    }
    loop
        invariant
            well_formed(tokens@, text@),
            n == tokens@.len(),
            at < n,
            program(tokens@, text@, id, 0, Seq::empty()) == program(
                tokens@,
                text@,
                id,
                at as int,
                statements_view(found@),
            ),
            forall|i: int|
                0 <= i < found@.len() ==> statement_in_text(
                    #[trigger] statements_view(found@)[i],
                    text@.len() as int,
                    id,
                ),
        decreases n - at,
    {
        if tokens[at].kind == TokenKind::End {
            return Ok(found);
        }
        match parse_statement(tokens, text, id, at) {
            Ok((s, next)) => {
                let ghost before = statements_view(found@);
                let ghost sv = s@;
                found.push(s);
                proof {
                    assert(statements_view(found@) =~= before.push(sv));
                }
                at = next;
            },
            Err(k) => {
                return Err(error_for(tokens, text, k));
            },
        }
    }
}

} // verus!
