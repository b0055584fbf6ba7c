//! What does not change when text moves: the tokens of a piece of text, and
//! the statements read from them, are the same wherever the piece stands, but for
//! the places that they name.

use vstd::prelude::*;
use crate::grammar::{
    additive, argument_list, arguments, binary, error_at, expression, expression_rest, factor,
    definition, definition_body, kind_at, multiplicative, parameter_list, parameters,
    print_statement, program, span_over, statement, term, term_rest, ParseError,
};
use crate::ir::{
    DefId, DefIdData, ExprDataView, ExprView, FunctionId, Span, StatementDataView,
    StatementView, VariableId,
};
use crate::parser::{
    def_of, definition_of, definitions, program_of, relocate, unknown_def, DefinitionView,
};
use crate::lexer::{
    digits_end, is_digit, is_last, is_letter, is_space, lexed, number_end, skip_spaces, token_at,
    resolved, token_text, tokens_of, word_end, Token, TokenKind,
};
use crate::visit::{
    expr_accepted, expr_rewritten, statement_data_accepted, statement_data_rewritten,
};

verus! {

/// The text `u` from `pu` on is the text `v` from `pv` on.
pub open spec fn same_from(u: Seq<u8>, pu: int, v: Seq<u8>, pv: int) -> bool {
    &&& 0 <= pu <= u.len() <= usize::MAX
    &&& 0 <= pv <= v.len() <= usize::MAX
    &&& u.len() - pu == v.len() - pv
    &&& forall|i: int| 0 <= i < u.len() - pu ==> #[trigger] u[pu + i] == v[pv + i]
}

/// A token `d` bytes later in the text.
pub open spec fn moved_token(t: Token, d: int) -> Token {
    Token { kind: t.kind, start: (t.start + d) as usize, end: (t.end + d) as usize, symbol: t.symbol }
}

/// Tokens `d` bytes later in the text.
pub open spec fn moved_tokens(tokens: Seq<Token>, d: int) -> Seq<Token> {
    Seq::new(tokens.len(), |k: int| moved_token(tokens[k], d))
}

/// White space ends at the same place of a piece of text wherever the piece stands.
pub proof fn lemma_skip_spaces_moved(u: Seq<u8>, pu: int, v: Seq<u8>, pv: int, p: int)
    requires
        same_from(u, pu, v, pv),
        0 <= p <= u.len() - pu,
    ensures
        skip_spaces(u, pu + p) - pu == skip_spaces(v, pv + p) - pv,
        p <= skip_spaces(u, pu + p) - pu <= u.len() - pu,
    decreases u.len() - pu - p,
{
    if p < u.len() - pu {
        assert(u[pu + p] == v[pv + p]);
        if is_space(u[pu + p]) {
            lemma_skip_spaces_moved(u, pu, v, pv, p + 1);
        }
    }
}

/// A word ends at the same place of a piece of text wherever the piece stands.
pub proof fn lemma_word_end_moved(u: Seq<u8>, pu: int, v: Seq<u8>, pv: int, p: int)
    requires
        same_from(u, pu, v, pv),
        0 <= p <= u.len() - pu,
    ensures
        word_end(u, pu + p) - pu == word_end(v, pv + p) - pv,
        p <= word_end(u, pu + p) - pu <= u.len() - pu,
    decreases u.len() - pu - p,
{
    if p < u.len() - pu {
        assert(u[pu + p] == v[pv + p]);
        if is_letter(u[pu + p]) || is_digit(u[pu + p]) {
            lemma_word_end_moved(u, pu, v, pv, p + 1);
        }
    }
}

/// Digits end at the same place of a piece of text wherever the piece stands.
pub proof fn lemma_digits_end_moved(u: Seq<u8>, pu: int, v: Seq<u8>, pv: int, p: int)
    requires
        same_from(u, pu, v, pv),
        0 <= p <= u.len() - pu,
    ensures
        digits_end(u, pu + p) - pu == digits_end(v, pv + p) - pv,
        p <= digits_end(u, pu + p) - pu <= u.len() - pu,
    decreases u.len() - pu - p,
{
    if p < u.len() - pu {
        assert(u[pu + p] == v[pv + p]);
        if is_digit(u[pu + p]) {
            lemma_digits_end_moved(u, pu, v, pv, p + 1);
        }
    }
}

/// A number ends at the same place of a piece of text wherever the piece stands.
pub proof fn lemma_number_end_moved(u: Seq<u8>, pu: int, v: Seq<u8>, pv: int, p: int)
    requires
        same_from(u, pu, v, pv),
        0 <= p <= u.len() - pu,
    ensures
        number_end(u, pu + p) - pu == number_end(v, pv + p) - pv,
        p <= number_end(u, pu + p) - pu <= u.len() - pu,
{
    lemma_digits_end_moved(u, pu, v, pv, p);
    let e = digits_end(u, pu + p) - pu;
    if e + 1 < u.len() - pu {
        assert(u[pu + e] == v[pv + e]);
        assert(u[pu + (e + 1)] == v[pv + (e + 1)]);
        lemma_digits_end_moved(u, pu, v, pv, e + 1);
    }
}

/// The bytes of a stretch of a piece of text are the same wherever the piece stands.
pub proof fn lemma_stretch_moved(u: Seq<u8>, pu: int, v: Seq<u8>, pv: int, a: int, b: int)
    requires
        same_from(u, pu, v, pv),
        0 <= a <= b <= u.len() - pu,
    ensures
        u.subrange(pu + a, pu + b) == v.subrange(pv + a, pv + b),
{
    let left = u.subrange(pu + a, pu + b);
    let right = v.subrange(pv + a, pv + b);
    assert forall|i: int| 0 <= i < b - a implies #[trigger] left[i] == right[i] by {
        assert(u[pu + (a + i)] == v[pv + (a + i)]);
    }
    assert(u.subrange(pu + a, pu + b) =~= v.subrange(pv + a, pv + b));
}

/// The token at a place of a piece of text is the same wherever the piece
/// stands, but for where it lies; and its text is the same.
pub proof fn lemma_token_moved(u: Seq<u8>, pu: int, v: Seq<u8>, pv: int, p: int)
    requires
        same_from(u, pu, v, pv),
        0 <= p <= u.len() - pu,
    ensures
        token_at(u, pu + p) == moved_token(token_at(v, pv + p), pu - pv),
        token_at(u, pu + p).start - pu == token_at(v, pv + p).start - pv,
        token_at(u, pu + p).end - pu == token_at(v, pv + p).end - pv,
        token_text(u, token_at(u, pu + p)) == token_text(v, token_at(v, pv + p)),
        pu + p <= token_at(u, pu + p).start <= token_at(u, pu + p).end <= u.len(),
        !is_last(token_at(u, pu + p).kind) ==> pu + p < token_at(u, pu + p).end,
        token_at(u, pu + p).kind != TokenKind::End ==> token_at(u, pu + p).start < token_at(
            u,
            pu + p,
        ).end,
{
    let tu = token_at(u, pu + p);
    let tv = token_at(v, pv + p);
    if p < u.len() - pu {
        assert(u[pu + p] == v[pv + p]);
        if is_letter(u[pu + p]) {
            lemma_word_end_moved(u, pu, v, pv, p);
            lemma_word_end_moved(u, pu, v, pv, p + 1);
            assert(word_end(u, pu + p) == word_end(u, pu + (p + 1)));
            let e = word_end(u, pu + p) - pu;
            lemma_stretch_moved(u, pu, v, pv, p, e);
        } else if is_digit(u[pu + p]) {
            lemma_number_end_moved(u, pu, v, pv, p);
            lemma_digits_end_moved(u, pu, v, pv, p);
            lemma_digits_end_moved(u, pu, v, pv, p + 1);
            assert(digits_end(u, pu + p) == digits_end(u, pu + (p + 1)));
            let d = digits_end(u, pu + p) - pu;
            if number_end(u, pu + p) != digits_end(u, pu + p) {
                lemma_digits_end_moved(u, pu, v, pv, d + 1);
            }
            let e = number_end(u, pu + p) - pu;
            lemma_stretch_moved(u, pu, v, pv, p, e);
        } else {
            lemma_stretch_moved(u, pu, v, pv, p, p + 1);
        }
    } else {
        lemma_stretch_moved(u, pu, v, pv, p, p);
    }
}

/// Token for token, the tokens `lu` of the text `u` are the tokens `lv` of the
/// text `v`, `d` bytes later; and `lv` lies in `v` and ends with its last token.
pub open spec fn tokens_alike(lu: Seq<Token>, u: Seq<u8>, lv: Seq<Token>, v: Seq<u8>, d: int) -> bool {
    &&& lu.len() == lv.len()
    &&& lv.len() > 0
    &&& is_last(lv[lv.len() - 1].kind)
    &&& forall|k: int|
        0 <= k < lv.len() ==> {
            &&& (#[trigger] lv[k]).kind == lu[k].kind
            &&& lv[k].symbol == lu[k].symbol
            &&& lv[k].start + d == lu[k].start
            &&& lv[k].end + d == lu[k].end
            &&& token_text(v, lv[k]) == token_text(u, lu[k])
            &&& lv[k].start <= lv[k].end <= v.len()
            &&& lv[k].kind != TokenKind::End ==> lv[k].start < lv[k].end
        }
}

/// The tokens of a piece of text are the same wherever the piece stands, but
/// for where they lie.
pub proof fn lemma_lexed_moved(u: Seq<u8>, pu: int, v: Seq<u8>, pv: int, p: int)
    requires
        same_from(u, pu, v, pv),
        0 <= p <= u.len() - pu,
    ensures
        lexed(u, pu + p) == moved_tokens(lexed(v, pv + p), pu - pv),
        tokens_alike(lexed(u, pu + p), u, lexed(v, pv + p), v, pu - pv),
    decreases u.len() - pu - p,
{
    lemma_skip_spaces_moved(u, pu, v, pv, p);
    let q = skip_spaces(u, pu + p) - pu;
    lemma_token_moved(u, pu, v, pv, q);
    let tu = token_at(u, pu + q);
    let tv = token_at(v, pv + q);
    assert(skip_spaces(v, pv + p) == pv + q);
    assert(lexed(u, pu + p) == if is_last(tu.kind) || tu.end <= pu + p || tu.end > u.len() {
        seq![tu]
    } else {
        seq![tu] + lexed(u, tu.end as int)
    });
    assert(lexed(v, pv + p) == if is_last(tv.kind) || tv.end <= pv + p || tv.end > v.len() {
        seq![tv]
    } else {
        seq![tv] + lexed(v, tv.end as int)
    });
    lemma_token_moved(v, pv, v, pv, q);
    if is_last(tu.kind) || tu.end <= pu + p || tu.end > u.len() {
        assert(lexed(u, pu + p) =~= moved_tokens(lexed(v, pv + p), pu - pv));
    } else {
        lemma_lexed_moved(u, pu, v, pv, tu.end - pu);
        assert(pv + (tu.end - pu) == tv.end);
        assert(lexed(u, pu + p) =~= moved_tokens(lexed(v, pv + p), pu - pv));
        let lu = lexed(u, pu + p);
        let lv = lexed(v, pv + p);
        let ru = lexed(u, tu.end as int);
        let rv = lexed(v, tv.end as int);
        assert forall|k: int| 0 <= k < lv.len() implies {
            &&& (#[trigger] lv[k]).kind == lu[k].kind
            &&& lv[k].symbol == lu[k].symbol
            &&& lv[k].start + (pu - pv) == lu[k].start
            &&& lv[k].end + (pu - pv) == lu[k].end
            &&& token_text(v, lv[k]) == token_text(u, lu[k])
            &&& lv[k].start <= lv[k].end <= v.len()
            &&& lv[k].kind != TokenKind::End ==> lv[k].start < lv[k].end
        } by {
            if k > 0 {
                assert(lv[k] == rv[k - 1]);
                assert(lu[k] == ru[k - 1]);
            }
        }
        assert(lv[lv.len() - 1] == rv[rv.len() - 1]);
    }
}

/// The text `v` is the beginning of the text `u`.
pub open spec fn begins(u: Seq<u8>, v: Seq<u8>) -> bool {
    &&& v.len() <= u.len() <= usize::MAX
    &&& forall|i: int| 0 <= i < v.len() ==> #[trigger] u[i] == v[i]
}

/// No token that starts in the text can go on behind its end: the text is
/// empty, or its last byte is a semicolon or white space.
pub open spec fn closed(v: Seq<u8>) -> bool {
    v.len() == 0 || v[v.len() - 1] == 59 || is_space(v[v.len() - 1])
}

/// White space of a text ends where it ends in every text that begins with
/// the text, if it ends in the text at all; else it goes on behind the text.
pub proof fn lemma_skip_spaces_front(u: Seq<u8>, v: Seq<u8>, p: int)
    requires
        begins(u, v),
        0 <= p <= v.len(),
    ensures
        p <= skip_spaces(v, p) <= v.len(),
        skip_spaces(v, p) < v.len() ==> skip_spaces(u, p) == skip_spaces(v, p),
        skip_spaces(v, p) == v.len() ==> skip_spaces(u, p) == skip_spaces(u, v.len() as int),
    decreases v.len() - p,
{
    if p < v.len() {
        assert(u[p] == v[p]);
        if is_space(v[p]) {
            lemma_skip_spaces_front(u, v, p + 1);
        }
    }
}

/// A word does not go on behind a byte that is no part of a word.
pub proof fn lemma_word_end_stops(v: Seq<u8>, p: int, stop: int)
    requires
        0 <= p <= stop < v.len(),
        !(is_letter(v[stop]) || is_digit(v[stop])),
    ensures
        p <= word_end(v, p) <= stop,
    decreases stop - p,
{
    if p < stop && (is_letter(v[p]) || is_digit(v[p])) {
        lemma_word_end_stops(v, p + 1, stop);
    }
}

/// Digits do not go on behind a byte that is no digit.
pub proof fn lemma_digits_end_stops(v: Seq<u8>, p: int, stop: int)
    requires
        0 <= p <= stop < v.len(),
        !is_digit(v[stop]),
    ensures
        p <= digits_end(v, p) <= stop,
    decreases stop - p,
{
    if p < stop && is_digit(v[p]) {
        lemma_digits_end_stops(v, p + 1, stop);
    }
}

/// A word of a text that ends in the text ends there in every text that
/// begins with the text.
pub proof fn lemma_word_end_front(u: Seq<u8>, v: Seq<u8>, p: int)
    requires
        begins(u, v),
        0 <= p <= v.len(),
        word_end(v, p) < v.len(),
    ensures
        word_end(u, p) == word_end(v, p),
    decreases v.len() - p,
{
    if p < v.len() {
        assert(u[p] == v[p]);
        if is_letter(v[p]) || is_digit(v[p]) {
            lemma_word_end_front(u, v, p + 1);
        }
    }
}

/// Digits of a text that end in the text end there in every text that begins
/// with the text.
pub proof fn lemma_digits_end_front(u: Seq<u8>, v: Seq<u8>, p: int)
    requires
        begins(u, v),
        0 <= p <= v.len(),
        digits_end(v, p) < v.len(),
    ensures
        digits_end(u, p) == digits_end(v, p),
    decreases v.len() - p,
{
    if p < v.len() {
        assert(u[p] == v[p]);
        if is_digit(v[p]) {
            lemma_digits_end_front(u, v, p + 1);
        }
    }
}

/// A token of a closed text is a token of every text that begins with the
/// text, and it has the same text there.
pub proof fn lemma_token_front(u: Seq<u8>, v: Seq<u8>, q: int)
    requires
        begins(u, v),
        closed(v),
        0 <= q < v.len(),
    ensures
        token_at(u, q) == token_at(v, q),
        token_at(v, q).kind != TokenKind::End,
        q == token_at(v, q).start < token_at(v, q).end <= v.len(),
        token_text(u, token_at(u, q)) == token_text(v, token_at(v, q)),
{
    let k = v.len() as int;
    assert(u[q] == v[q]);
    let stop = k - 1;
    if is_letter(v[q]) {
        lemma_word_end_stops(v, q, stop);
        lemma_word_end_front(u, v, q);
        assert(word_end(v, q) == word_end(v, q + 1));
        lemma_word_end_stops(v, q + 1, stop);
    } else if is_digit(v[q]) {
        lemma_digits_end_stops(v, q, stop);
        lemma_digits_end_front(u, v, q);
        assert(digits_end(v, q) == digits_end(v, q + 1));
        lemma_digits_end_stops(v, q + 1, stop);
        let e = digits_end(v, q);
        assert(u[e] == v[e]);
        if e + 1 < k {
            assert(u[e + 1] == v[e + 1]);
            if v[e] == 46 && is_digit(v[e + 1]) {
                lemma_digits_end_stops(v, e + 1, stop);
                lemma_digits_end_front(u, v, e + 1);
            }
        }
    }
    let t = token_at(v, q);
    assert(u.subrange(t.start as int, t.end as int) =~= v.subrange(t.start as int, t.end as int));
}

/// The tokens of a closed text without bad bytes, but for the end, are the
/// first tokens of every text that begins with the text; the tokens from the end
/// of the text on follow them.
pub proof fn lemma_lexed_front(u: Seq<u8>, v: Seq<u8>, p: int)
    requires
        begins(u, v),
        closed(v),
        0 <= p <= v.len(),
        lexed(v, p).last().kind == TokenKind::End,
    ensures
        lexed(u, p) == lexed(v, p).drop_last() + lexed(u, v.len() as int),
        forall|i: int|
            0 <= i < lexed(v, p).len() - 1 ==> {
                &&& !is_last((#[trigger] lexed(v, p)[i]).kind)
                &&& lexed(v, p)[i].start < lexed(v, p)[i].end <= v.len()
                &&& token_text(u, lexed(v, p)[i]) == token_text(v, lexed(v, p)[i])
            },
    decreases v.len() - p,
{
    let k = v.len() as int;
    lemma_skip_spaces_front(u, v, p);
    let q = skip_spaces(v, p);
    if q == k {
        assert(lexed(v, p) =~= seq![token_at(v, q)]);
        assert(same_from(u, 0, u, 0));
        lemma_skip_spaces_moved(u, 0, u, 0, k);
        lemma_token_moved(u, 0, u, 0, skip_spaces(u, k));
        assert(lexed(v, p).drop_last() =~= Seq::<Token>::empty());
        assert(lexed(u, p) == lexed(u, k));
    } else {
        lemma_token_front(u, v, q);
        let t = token_at(v, q);
        if is_last(t.kind) || t.end <= p || t.end > v.len() {
            assert(lexed(v, p) =~= seq![t]);
        } else {
            let rest = lexed(v, t.end as int);
            assert(lexed(v, p) =~= seq![t] + rest);
            assert(same_from(v, 0, v, 0));
            lemma_lexed_moved(v, 0, v, 0, t.end as int);
            assert(rest.len() > 0);
            assert(lexed(v, p).last() == rest.last());
            lemma_lexed_front(u, v, t.end as int);
            assert(lexed(u, p) =~= seq![t] + lexed(u, t.end as int));
            assert(lexed(v, p).drop_last() =~= seq![t] + rest.drop_last());
            assert(lexed(u, p) =~= lexed(v, p).drop_last() + lexed(u, k));
            assert forall|i: int| 0 <= i < lexed(v, p).len() - 1 implies {
                &&& !is_last((#[trigger] lexed(v, p)[i]).kind)
                &&& lexed(v, p)[i].start < lexed(v, p)[i].end <= v.len()
                &&& token_text(u, lexed(v, p)[i]) == token_text(v, lexed(v, p)[i])
            } by {
                if i > 0 {
                    assert(lexed(v, p)[i] == rest[i - 1]);
                }
            }
        }
    }
}

/// The sequence ends with a token that ends a sequence.
pub open spec fn ended(b: Seq<Token>) -> bool {
    b.len() > 0 && is_last(b[b.len() - 1].kind)
}

/// The `w` tokens of `a` from number `m` on are the `w` tokens of `b` from
/// number `n` on, `d` bytes later in the text `x` than they are in the text `y`.
pub open spec fn tokens_moved(
    a: Seq<Token>,
    m: int,
    x: Seq<u8>,
    b: Seq<Token>,
    n: int,
    y: Seq<u8>,
    w: int,
    d: int,
) -> bool {
    &&& 0 <= m
    &&& 0 <= n
    &&& 0 <= w
    &&& m + w <= a.len()
    &&& n + w <= b.len()
    &&& ended(b)
    &&& forall|i: int|
        n <= i < n + w ==> {
            &&& (#[trigger] b[i]).kind == a[i - n + m].kind
            &&& b[i].symbol == a[i - n + m].symbol
            &&& b[i].start + d == a[i - n + m].start
            &&& b[i].end + d == a[i - n + m].end
            &&& token_text(y, b[i]) == token_text(x, a[i - n + m])
        }
}

/// A span `d` bytes later in the text.
pub open spec fn later(d: int) -> spec_fn(Span) -> Span {
    |s: Span| Span { id: s.id, start: (s.start + d) as usize, end: (s.end + d) as usize }
}

/// The spans that can lie `d` bytes later in the text.
pub open spec fn movable_by(d: int) -> spec_fn(Span) -> bool {
    |s: Span| 0 <= s.start + d <= usize::MAX && 0 <= s.end + d <= usize::MAX
}

/// Every one of the expressions can lie `d` bytes later in the text.
pub open spec fn all_movable_by(s: Seq<ExprView>, d: int) -> bool {
    forall|i: int| 0 <= i < s.len() ==> expr_accepted(#[trigger] s[i], movable_by(d))
}

/// Expressions `d` bytes later in the text.
pub open spec fn later_all(s: Seq<ExprView>, d: int) -> Seq<ExprView> {
    Seq::new(s.len(), |i: int| expr_rewritten(s[i], later(d)))
}

/// What reading an expression gives, `d` bytes later in the text and `by` tokens later.
pub open spec fn moved_expression(r: Result<(ExprView, int), int>, d: int, by: int) -> Result<
    (ExprView, int),
    int,
> {
    match r {
        Ok((e, next)) => Ok((expr_rewritten(e, later(d)), next + by)),
        Err(k) => Err(k + by),
    }
}

/// What reading a list of expressions gives, `d` bytes later in the text and
/// `by` tokens later.
pub open spec fn moved_expressions(r: Result<(Seq<ExprView>, int), int>, d: int, by: int) -> Result<
    (Seq<ExprView>, int),
    int,
> {
    match r {
        Ok((s, next)) => Ok((later_all(s, d), next + by)),
        Err(k) => Err(k + by),
    }
}

/// The last token that reading looked at: the one behind what was read, or
/// the one that could not be read.
pub open spec fn reach<T>(r: Result<(T, int), int>) -> int {
    match r {
        Ok((_, next)) => next,
        Err(k) => k,
    }
}

/// Reading from token `pos` took at least one token and reached a token of
/// the sequence.
pub open spec fn read_on<T>(r: Result<(T, int), int>, pos: int, len: int) -> bool {
    match r {
        Ok((_, next)) => pos < next < len,
        Err(k) => pos <= k < len,
    }
}

/// Reading from token `pos` reached a token of the sequence.
pub open spec fn read_to<T>(r: Result<(T, int), int>, pos: int, len: int) -> bool {
    pos <= reach(r) < len
}

/// A token that does not end the sequence has another token after it.
pub proof fn lemma_not_last(b: Seq<Token>, pos: int)
    requires
        ended(b),
        0 <= pos < b.len(),
        !is_last(b[pos].kind),
    ensures
        pos + 1 < b.len(),
{
}

/// Reading a factor reaches a token of the sequence.
pub proof fn lemma_factor_reach(
    b: Seq<Token>,
    y: Seq<u8>,
    id: DefId,
    pos: int,
)
    requires
        ended(b),
        0 <= pos < b.len(),
    ensures
        read_on(factor(b, y, id, pos), pos, b.len() as int),
    decreases b.len() - pos, 0nat,
{
    match b[pos].kind {
        TokenKind::Number => {
            lemma_not_last(b, pos);
        },
        TokenKind::Identifier => {
            lemma_not_last(b, pos);
            if kind_at(b, pos + 1) == TokenKind::LeftParen {
                lemma_not_last(b, pos + 1);
                lemma_arguments_reach(b, y, id, pos + 2);
                match arguments(b, y, id, pos + 2) {
                    Ok((_, next)) => {
                        if kind_at(b, next) == TokenKind::RightParen {
                            lemma_not_last(b, next);
                        }
                    },
                    Err(_) => {},
                }
            }
        },
        TokenKind::LeftParen => {
            lemma_not_last(b, pos);
            lemma_expression_reach(b, y, id, pos + 1);
            match expression(b, y, id, pos + 1) {
                Ok((_, next)) => {
                    if kind_at(b, next) == TokenKind::RightParen {
                        lemma_not_last(b, next);
                    }
                },
                Err(_) => {},
            }
        },
        _ => {},
    }
}

/// Reading arguments reaches a token of the sequence.
pub proof fn lemma_arguments_reach(
    b: Seq<Token>,
    y: Seq<u8>,
    id: DefId,
    pos: int,
)
    requires
        ended(b),
        0 <= pos < b.len(),
    ensures
        read_to(arguments(b, y, id, pos), pos, b.len() as int),
    decreases b.len() - pos, 4nat,
{
    if kind_at(b, pos) != TokenKind::RightParen {
        lemma_argument_list_reach(b, y, id, pos, Seq::empty());
    }
}

/// Reading a list of expressions reaches a token of the sequence.
pub proof fn lemma_argument_list_reach(
    b: Seq<Token>,
    y: Seq<u8>,
    id: DefId,
    pos: int,
    found: Seq<ExprView>,
)
    requires
        ended(b),
        0 <= pos < b.len(),
    ensures
        read_on(argument_list(b, y, id, pos, found), pos, b.len() as int),
    decreases b.len() - pos, 3nat,
{
    lemma_expression_reach(b, y, id, pos);
    match expression(b, y, id, pos) {
        Ok((e, next)) => {
            if kind_at(b, next) == TokenKind::Comma {
                lemma_not_last(b, next);
                lemma_argument_list_reach(b, y, id, next + 1, found.push(e));
            }
        },
        Err(_) => {},
    }
}

/// Reading an expression reaches a token of the sequence.
pub proof fn lemma_expression_reach(
    b: Seq<Token>,
    y: Seq<u8>,
    id: DefId,
    pos: int,
)
    requires
        ended(b),
        0 <= pos < b.len(),
    ensures
        read_on(expression(b, y, id, pos), pos, b.len() as int),
    decreases b.len() - pos, 2nat,
{
    lemma_term_reach(b, y, id, pos);
    match term(b, y, id, pos) {
        Ok((left, next)) => {
            lemma_expression_rest_reach(b, y, id, pos, next, left);
        },
        Err(_) => {},
    }
}

/// Reading on behind the first terms of an expression reaches a token of the sequence.
pub proof fn lemma_expression_rest_reach(
    b: Seq<Token>,
    y: Seq<u8>,
    id: DefId,
    first: int,
    pos: int,
    left: ExprView,
)
    requires
        ended(b),
        0 <= first < pos < b.len(),
    ensures
        read_to(expression_rest(b, y, id, first, pos, left), pos, b.len() as int),
    decreases b.len() - pos, 0nat,
{
    match additive(kind_at(b, pos)) {
        Some(op) => {
            lemma_not_last(b, pos);
            lemma_term_reach(b, y, id, pos + 1);
            match term(b, y, id, pos + 1) {
                Ok((right, next)) => {
                    lemma_expression_rest_reach(
                        b,
                        y,
                        id,
                        first,
                        next,
                        binary(b, id, first, next, left, op, right),
                    );
                },
                Err(_) => {},
            }
        },
        None => {},
    }
}

/// Reading a term reaches a token of the sequence.
pub proof fn lemma_term_reach(
    b: Seq<Token>,
    y: Seq<u8>,
    id: DefId,
    pos: int,
)
    requires
        ended(b),
        0 <= pos < b.len(),
    ensures
        read_on(term(b, y, id, pos), pos, b.len() as int),
    decreases b.len() - pos, 1nat,
{
    lemma_factor_reach(b, y, id, pos);
    match factor(b, y, id, pos) {
        Ok((left, next)) => {
            lemma_term_rest_reach(b, y, id, pos, next, left);
        },
        Err(_) => {},
    }
}

/// Reading on behind the first factors of a term reaches a token of the sequence.
pub proof fn lemma_term_rest_reach(
    b: Seq<Token>,
    y: Seq<u8>,
    id: DefId,
    first: int,
    pos: int,
    left: ExprView,
)
    requires
        ended(b),
        0 <= first < pos < b.len(),
    ensures
        read_to(term_rest(b, y, id, first, pos, left), pos, b.len() as int),
    decreases b.len() - pos, 0nat,
{
    match multiplicative(kind_at(b, pos)) {
        Some(op) => {
            lemma_not_last(b, pos);
            lemma_factor_reach(b, y, id, pos + 1);
            match factor(b, y, id, pos + 1) {
                Ok((right, next)) => {
                    lemma_term_rest_reach(
                        b,
                        y,
                        id,
                        first,
                        next,
                        binary(b, id, first, next, left, op, right),
                    );
                },
                Err(_) => {},
            }
        },
        None => {},
    }
}

/// Moved tokens have the kinds that they had.
pub proof fn lemma_kind_moved(
    a: Seq<Token>,
    m: int,
    x: Seq<u8>,
    b: Seq<Token>,
    n: int,
    y: Seq<u8>,
    w: int,
    d: int,
    pos: int,
)
    requires
        tokens_moved(a, m, x, b, n, y, w, d),
        n <= pos < n + w,
    ensures
        kind_at(a, pos - n + m) == kind_at(b, pos),
        kind_at(b, pos) == b[pos].kind,
{
    assert(b[pos].kind == a[pos - n + m].kind);
}

/// A span over moved tokens is the span over the tokens, moved.
pub proof fn lemma_span_moved(
    a: Seq<Token>,
    m: int,
    x: Seq<u8>,
    b: Seq<Token>,
    n: int,
    y: Seq<u8>,
    w: int,
    d: int,
    id: DefId,
    first: int,
    next: int,
)
    requires
        tokens_moved(a, m, x, b, n, y, w, d),
        n <= first < next <= n + w,
    ensures
        span_over(a, id, first - n + m, next - n + m) == later(d)(span_over(b, id, first, next)),
        movable_by(d)(span_over(b, id, first, next)),
{
    assert(b[first].start + d == a[first - n + m].start);
    assert(b[next - 1].end + d == a[next - 1 - n + m].end);
}

/// A factor read from moved tokens is the factor, moved.
pub proof fn lemma_factor_moved(
    a: Seq<Token>,
    m: int,
    x: Seq<u8>,
    b: Seq<Token>,
    n: int,
    y: Seq<u8>,
    w: int,
    d: int,
    id: DefId,
    pos: int,
)
    requires
        tokens_moved(a, m, x, b, n, y, w, d),
        n <= pos,
        reach(factor(b, y, id, pos)) < n + w,
    ensures
        factor(a, x, id, pos - n + m) == moved_expression(factor(b, y, id, pos), d, m - n),
        factor(b, y, id, pos) matches Ok((e, _)) ==> expr_accepted(e, movable_by(d)),
    decreases b.len() - pos, 1nat,
{
    lemma_factor_reach(b, y, id, pos);
    let t = b[pos];
    let u = a[pos - n + m];
    assert(t.kind == u.kind && t.symbol == u.symbol);
    assert(token_text(y, t) == token_text(x, u));
    lemma_kind_moved(a, m, x, b, n, y, w, d, pos);
    lemma_span_moved(a, m, x, b, n, y, w, d, id, pos, pos + 1);
    match t.kind {
        TokenKind::Number => {},
        TokenKind::Identifier => {
            lemma_call_moved(a, m, x, b, n, y, w, d, id, pos);
        },
        TokenKind::LeftParen => {
            lemma_bracket_moved(a, m, x, b, n, y, w, d, id, pos);
        },
        _ => {},
    }
}

/// A variable or a call read from moved tokens is the variable or the call, moved.
pub proof fn lemma_call_moved(
    a: Seq<Token>,
    m: int,
    x: Seq<u8>,
    b: Seq<Token>,
    n: int,
    y: Seq<u8>,
    w: int,
    d: int,
    id: DefId,
    pos: int,
)
    requires
        tokens_moved(a, m, x, b, n, y, w, d),
        n <= pos < b.len(),
        b[pos].kind == TokenKind::Identifier,
        reach(factor(b, y, id, pos)) < n + w,
    ensures
        factor(a, x, id, pos - n + m) == moved_expression(factor(b, y, id, pos), d, m - n),
        factor(b, y, id, pos) matches Ok((e, _)) ==> expr_accepted(e, movable_by(d)),
    decreases b.len() - pos, 0nat,
{
    let t = b[pos];
    let u = a[pos - n + m];
    lemma_not_last(b, pos);
    if kind_at(b, pos + 1) == TokenKind::LeftParen {
        lemma_not_last(b, pos + 1);
        lemma_arguments_reach(b, y, id, pos + 2);
    }
    assert(reach(factor(b, y, id, pos)) >= pos + 1);
    assert(t.kind == u.kind && t.symbol == u.symbol);
    lemma_kind_moved(a, m, x, b, n, y, w, d, pos);
    lemma_kind_moved(a, m, x, b, n, y, w, d, pos + 1);
    lemma_span_moved(a, m, x, b, n, y, w, d, id, pos, pos + 1);
    if kind_at(b, pos + 1) == TokenKind::LeftParen {
        let r = arguments(b, y, id, pos + 2);
        assert(reach(r) <= reach(factor(b, y, id, pos)));
        lemma_arguments_moved(a, m, x, b, n, y, w, d, id, pos + 2);
        match r {
            Ok((args, next)) => {
                lemma_kind_moved(a, m, x, b, n, y, w, d, next);
                if kind_at(b, next) == TokenKind::RightParen {
                    lemma_span_moved(a, m, x, b, n, y, w, d, id, pos, next + 1);
                    let call = ExprView {
                        span: span_over(b, id, pos, next + 1),
                        data: ExprDataView::Call(FunctionId { index: t.symbol }, args),
                    };
                    assert(expr_rewritten(call, later(d)).data->Call_1 =~= later_all(args, d));
                }
            },
            Err(_) => {},
        }
    }
}

/// An expression in brackets read from moved tokens is the expression, moved.
pub proof fn lemma_bracket_moved(
    a: Seq<Token>,
    m: int,
    x: Seq<u8>,
    b: Seq<Token>,
    n: int,
    y: Seq<u8>,
    w: int,
    d: int,
    id: DefId,
    pos: int,
)
    requires
        tokens_moved(a, m, x, b, n, y, w, d),
        n <= pos < b.len(),
        b[pos].kind == TokenKind::LeftParen,
        reach(factor(b, y, id, pos)) < n + w,
    ensures
        factor(a, x, id, pos - n + m) == moved_expression(factor(b, y, id, pos), d, m - n),
        factor(b, y, id, pos) matches Ok((e, _)) ==> expr_accepted(e, movable_by(d)),
    decreases b.len() - pos, 0nat,
{
    lemma_not_last(b, pos);
    lemma_expression_reach(b, y, id, pos + 1);
    let r = expression(b, y, id, pos + 1);
    assert(reach(r) <= reach(factor(b, y, id, pos)));
    lemma_kind_moved(a, m, x, b, n, y, w, d, pos);
    lemma_expression_moved(a, m, x, b, n, y, w, d, id, pos + 1);
    match r {
        Ok((_, next)) => {
            lemma_kind_moved(a, m, x, b, n, y, w, d, next);
        },
        Err(_) => {},
    }
}

/// The arguments read from moved tokens are the arguments, moved.
pub proof fn lemma_arguments_moved(
    a: Seq<Token>,
    m: int,
    x: Seq<u8>,
    b: Seq<Token>,
    n: int,
    y: Seq<u8>,
    w: int,
    d: int,
    id: DefId,
    pos: int,
)
    requires
        tokens_moved(a, m, x, b, n, y, w, d),
        n <= pos < b.len(),
        reach(arguments(b, y, id, pos)) < n + w,
    ensures
        arguments(a, x, id, pos - n + m) == moved_expressions(arguments(b, y, id, pos), d, m - n),
        arguments(b, y, id, pos) matches Ok((s, _)) ==> all_movable_by(s, d),
    decreases b.len() - pos, 5nat,
{
    lemma_arguments_reach(b, y, id, pos);
    lemma_kind_moved(a, m, x, b, n, y, w, d, pos);
    assert(later_all(Seq::<ExprView>::empty(), d) =~= Seq::<ExprView>::empty());
    if kind_at(b, pos) != TokenKind::RightParen {
        lemma_argument_list_moved(a, m, x, b, n, y, w, d, id, pos, Seq::empty());
    }
}

/// A list of expressions read from moved tokens is the list, moved.
pub proof fn lemma_argument_list_moved(
    a: Seq<Token>,
    m: int,
    x: Seq<u8>,
    b: Seq<Token>,
    n: int,
    y: Seq<u8>,
    w: int,
    d: int,
    id: DefId,
    pos: int,
    found: Seq<ExprView>,
)
    requires
        tokens_moved(a, m, x, b, n, y, w, d),
        n <= pos < b.len(),
        all_movable_by(found, d),
        reach(argument_list(b, y, id, pos, found)) < n + w,
    ensures
        argument_list(a, x, id, pos - n + m, later_all(found, d)) == moved_expressions(
            argument_list(b, y, id, pos, found),
            d,
            m - n,
        ),
        argument_list(b, y, id, pos, found) matches Ok((s, _)) ==> all_movable_by(s, d),
    decreases b.len() - pos, 4nat,
{
    lemma_expression_reach(b, y, id, pos);
    match expression(b, y, id, pos) {
        Ok((e, next)) => {
            if kind_at(b, next) == TokenKind::Comma {
                lemma_not_last(b, next);
                lemma_argument_list_reach(b, y, id, next + 1, found.push(e));
            }
            lemma_expression_moved(a, m, x, b, n, y, w, d, id, pos);
            lemma_kind_moved(a, m, x, b, n, y, w, d, next);
            assert(later_all(found.push(e), d) =~= later_all(found, d).push(
                expr_rewritten(e, later(d)),
            ));
            assert(all_movable_by(found.push(e), d)) by {
                assert forall|i: int| 0 <= i < found.len() + 1 implies expr_accepted(
                    #[trigger] found.push(e)[i],
                    movable_by(d),
                ) by {
                    if i < found.len() {
                        assert(found.push(e)[i] == found[i]);
                    }
                }
            }
            if kind_at(b, next) == TokenKind::Comma {
                lemma_argument_list_moved(a, m, x, b, n, y, w, d, id, next + 1, found.push(e));
            }
        },
        Err(_) => {
            lemma_expression_moved(a, m, x, b, n, y, w, d, id, pos);
        },
    }
}

/// An expression read from moved tokens is the expression, moved.
pub proof fn lemma_expression_moved(
    a: Seq<Token>,
    m: int,
    x: Seq<u8>,
    b: Seq<Token>,
    n: int,
    y: Seq<u8>,
    w: int,
    d: int,
    id: DefId,
    pos: int,
)
    requires
        tokens_moved(a, m, x, b, n, y, w, d),
        n <= pos < b.len(),
        reach(expression(b, y, id, pos)) < n + w,
    ensures
        expression(a, x, id, pos - n + m) == moved_expression(expression(b, y, id, pos), d, m - n),
        expression(b, y, id, pos) matches Ok((e, _)) ==> expr_accepted(e, movable_by(d)),
    decreases b.len() - pos, 3nat,
{
    lemma_term_reach(b, y, id, pos);
    match term(b, y, id, pos) {
        Ok((left, next)) => {
            lemma_expression_rest_reach(b, y, id, pos, next, left);
            lemma_term_moved(a, m, x, b, n, y, w, d, id, pos);
            lemma_expression_rest_moved(a, m, x, b, n, y, w, d, id, pos, next, left);
        },
        Err(_) => {
            lemma_term_moved(a, m, x, b, n, y, w, d, id, pos);
        },
    }
}

/// What follows the first terms of an expression read from moved tokens is
/// what follows them, moved.
pub proof fn lemma_expression_rest_moved(
    a: Seq<Token>,
    m: int,
    x: Seq<u8>,
    b: Seq<Token>,
    n: int,
    y: Seq<u8>,
    w: int,
    d: int,
    id: DefId,
    first: int,
    pos: int,
    left: ExprView,
)
    requires
        tokens_moved(a, m, x, b, n, y, w, d),
        n <= first < pos < b.len(),
        expr_accepted(left, movable_by(d)),
        reach(expression_rest(b, y, id, first, pos, left)) < n + w,
    ensures
        expression_rest(a, x, id, first - n + m, pos - n + m, expr_rewritten(left, later(d)))
            == moved_expression(expression_rest(b, y, id, first, pos, left), d, m - n),
        expression_rest(b, y, id, first, pos, left) matches Ok((e, _)) ==> expr_accepted(
            e,
            movable_by(d),
        ),
    decreases b.len() - pos, 0nat,
{
    lemma_expression_rest_reach(b, y, id, first, pos, left);
    lemma_kind_moved(a, m, x, b, n, y, w, d, pos);
    match additive(kind_at(b, pos)) {
        Some(op) => {
            lemma_not_last(b, pos);
            lemma_term_reach(b, y, id, pos + 1);
            match term(b, y, id, pos + 1) {
                Ok((right, next)) => {
                    let both = binary(b, id, first, next, left, op, right);
                    lemma_expression_rest_reach(b, y, id, first, next, both);
                    lemma_term_moved(a, m, x, b, n, y, w, d, id, pos + 1);
                    lemma_span_moved(a, m, x, b, n, y, w, d, id, first, next);
                    lemma_expression_rest_moved(a, m, x, b, n, y, w, d, id, first, next, both);
                },
                Err(_) => {
                    lemma_term_moved(a, m, x, b, n, y, w, d, id, pos + 1);
                },
            }
        },
        None => {},
    }
}

/// A term read from moved tokens is the term, moved.
pub proof fn lemma_term_moved(
    a: Seq<Token>,
    m: int,
    x: Seq<u8>,
    b: Seq<Token>,
    n: int,
    y: Seq<u8>,
    w: int,
    d: int,
    id: DefId,
    pos: int,
)
    requires
        tokens_moved(a, m, x, b, n, y, w, d),
        n <= pos < b.len(),
        reach(term(b, y, id, pos)) < n + w,
    ensures
        term(a, x, id, pos - n + m) == moved_expression(term(b, y, id, pos), d, m - n),
        term(b, y, id, pos) matches Ok((e, _)) ==> expr_accepted(e, movable_by(d)),
    decreases b.len() - pos, 2nat,
{
    lemma_factor_reach(b, y, id, pos);
    match factor(b, y, id, pos) {
        Ok((left, next)) => {
            lemma_term_rest_reach(b, y, id, pos, next, left);
            lemma_factor_moved(a, m, x, b, n, y, w, d, id, pos);
            lemma_term_rest_moved(a, m, x, b, n, y, w, d, id, pos, next, left);
        },
        Err(_) => {
            lemma_factor_moved(a, m, x, b, n, y, w, d, id, pos);
        },
    }
}

/// What follows the first factors of a term read from moved tokens is what
/// follows them, moved.
pub proof fn lemma_term_rest_moved(
    a: Seq<Token>,
    m: int,
    x: Seq<u8>,
    b: Seq<Token>,
    n: int,
    y: Seq<u8>,
    w: int,
    d: int,
    id: DefId,
    first: int,
    pos: int,
    left: ExprView,
)
    requires
        tokens_moved(a, m, x, b, n, y, w, d),
        n <= first < pos < b.len(),
        expr_accepted(left, movable_by(d)),
        reach(term_rest(b, y, id, first, pos, left)) < n + w,
    ensures
        term_rest(a, x, id, first - n + m, pos - n + m, expr_rewritten(left, later(d)))
            == moved_expression(term_rest(b, y, id, first, pos, left), d, m - n),
        term_rest(b, y, id, first, pos, left) matches Ok((e, _)) ==> expr_accepted(
            e,
            movable_by(d),
        ),
    decreases b.len() - pos, 0nat,
{
    lemma_term_rest_reach(b, y, id, first, pos, left);
    lemma_kind_moved(a, m, x, b, n, y, w, d, pos);
    match multiplicative(kind_at(b, pos)) {
        Some(op) => {
            lemma_not_last(b, pos);
            lemma_factor_reach(b, y, id, pos + 1);
            match factor(b, y, id, pos + 1) {
                Ok((right, next)) => {
                    let both = binary(b, id, first, next, left, op, right);
                    lemma_term_rest_reach(b, y, id, first, next, both);
                    lemma_factor_moved(a, m, x, b, n, y, w, d, id, pos + 1);
                    lemma_span_moved(a, m, x, b, n, y, w, d, id, first, next);
                    lemma_term_rest_moved(a, m, x, b, n, y, w, d, id, first, next, both);
                },
                Err(_) => {
                    lemma_factor_moved(a, m, x, b, n, y, w, d, id, pos + 1);
                },
            }
        },
        None => {},
    }
}

/// A statement `d` bytes later in the text.
pub open spec fn later_statement(s: StatementView, d: int) -> StatementView {
    StatementView { span: later(d)(s.span), data: statement_data_rewritten(s.data, later(d)) }
}

/// Statements `d` bytes later in the text.
pub open spec fn later_statements(s: Seq<StatementView>, d: int) -> Seq<StatementView> {
    Seq::new(s.len(), |i: int| later_statement(s[i], d))
}

/// The statement can lie `d` bytes later in the text.
pub open spec fn statement_movable(s: StatementView, d: int) -> bool {
    movable_by(d)(s.span) && statement_data_accepted(s.data, movable_by(d))
}

/// Every one of the statements can lie `d` bytes later in the text.
pub open spec fn statements_movable(s: Seq<StatementView>, d: int) -> bool {
    forall|i: int| 0 <= i < s.len() ==> statement_movable(#[trigger] s[i], d)
}

/// What reading parameters gives, `by` tokens later.
pub open spec fn moved_parameters(r: Result<(Seq<VariableId>, int), int>, by: int) -> Result<
    (Seq<VariableId>, int),
    int,
> {
    match r {
        Ok((s, next)) => Ok((s, next + by)),
        Err(k) => Err(k + by),
    }
}

/// What reading a statement gives, `d` bytes later in the text and `by` tokens later.
pub open spec fn moved_statement(r: Result<(StatementView, int), int>, d: int, by: int) -> Result<
    (StatementView, int),
    int,
> {
    match r {
        Ok((s, next)) => Ok((later_statement(s, d), next + by)),
        Err(k) => Err(k + by),
    }
}

/// What reading a program gives, `d` bytes later in the text and `by` tokens later.
pub open spec fn moved_program(r: Result<Seq<StatementView>, int>, d: int, by: int) -> Result<
    Seq<StatementView>,
    int,
> {
    match r {
        Ok(s) => Ok(later_statements(s, d)),
        Err(k) => Err(k + by),
    }
}

/// The last token that reading a statement looked at: its last token, or the
/// one that could not be read.
pub open spec fn looked(r: Result<(StatementView, int), int>) -> int {
    match r {
        Ok((_, next)) => next - 1,
        Err(k) => k,
    }
}

/// Reading names reaches a token of the sequence.
pub proof fn lemma_parameter_list_reach(b: Seq<Token>, pos: int, found: Seq<VariableId>)
    requires
        ended(b),
        0 <= pos < b.len(),
    ensures
        read_on(parameter_list(b, pos, found), pos, b.len() as int),
    decreases b.len() - pos,
{
    if kind_at(b, pos) == TokenKind::Identifier {
        lemma_not_last(b, pos);
        if kind_at(b, pos + 1) == TokenKind::Comma {
            lemma_not_last(b, pos + 1);
            lemma_parameter_list_reach(b, pos + 2, found.push(VariableId { index: b[pos].symbol }));
        }
    }
}

/// Reading a print statement reaches a token of the sequence.
pub proof fn lemma_print_reach(
    b: Seq<Token>,
    y: Seq<u8>,
    id: DefId,
    pos: int,
)
    requires
        ended(b),
        0 <= pos < b.len(),
        b[pos].kind == TokenKind::Print,
    ensures
        read_on(print_statement(b, y, id, pos), pos, b.len() as int),
        pos + 1 <= looked(print_statement(b, y, id, pos)),
{
    lemma_not_last(b, pos);
    lemma_expression_reach(b, y, id, pos + 1);
    match expression(b, y, id, pos + 1) {
        Ok((_, next)) => {
            if kind_at(b, next) == TokenKind::Semicolon {
                lemma_not_last(b, next);
            }
        },
        Err(_) => {},
    }
}

/// Reading the rest of a definition reaches a token of the sequence.
pub proof fn lemma_body_reach(
    b: Seq<Token>,
    y: Seq<u8>,
    id: DefId,
    pos: int,
    args: Seq<VariableId>,
    close: int,
)
    requires
        ended(b),
        0 <= pos < close < b.len(),
    ensures
        read_on(definition_body(b, y, id, pos, args, close), close - 1, b.len() as int),
        close <= looked(definition_body(b, y, id, pos, args, close)),
{
    if kind_at(b, close) == TokenKind::RightParen {
        lemma_not_last(b, close);
        if kind_at(b, close + 1) == TokenKind::Equals {
            lemma_not_last(b, close + 1);
            lemma_expression_reach(b, y, id, close + 2);
            match expression(b, y, id, close + 2) {
                Ok((_, next)) => {
                    if kind_at(b, next) == TokenKind::Semicolon {
                        lemma_not_last(b, next);
                    }
                },
                Err(_) => {},
            }
        }
    }
}

/// Reading a definition reaches a token of the sequence.
pub proof fn lemma_definition_reach(
    b: Seq<Token>,
    y: Seq<u8>,
    id: DefId,
    pos: int,
)
    requires
        ended(b),
        0 <= pos < b.len(),
        b[pos].kind == TokenKind::Fn,
    ensures
        read_on(definition(b, y, id, pos), pos, b.len() as int),
        pos + 1 <= looked(definition(b, y, id, pos)),
{
    lemma_not_last(b, pos);
    if kind_at(b, pos + 1) == TokenKind::Identifier {
        lemma_not_last(b, pos + 1);
        if kind_at(b, pos + 2) == TokenKind::LeftParen {
            lemma_not_last(b, pos + 2);
            if kind_at(b, pos + 3) != TokenKind::RightParen {
                lemma_parameter_list_reach(b, pos + 3, Seq::empty());
            }
            match parameters(b, pos + 3) {
                Ok((args, close)) => {
                    lemma_body_reach(b, y, id, pos, args, close);
                },
                Err(_) => {},
            }
        }
    }
}

/// Reading a statement reaches a token of the sequence, and a statement that
/// was read ends before the last token.
pub proof fn lemma_statement_reach(
    b: Seq<Token>,
    y: Seq<u8>,
    id: DefId,
    pos: int,
)
    requires
        ended(b),
        0 <= pos < b.len(),
    ensures
        read_on(statement(b, y, id, pos), pos, b.len() as int),
        pos <= looked(statement(b, y, id, pos)),
{
    match kind_at(b, pos) {
        TokenKind::Print => {
            lemma_print_reach(b, y, id, pos);
        },
        TokenKind::Fn => {
            lemma_definition_reach(b, y, id, pos);
        },
        _ => {},
    }
}

/// Names read from moved tokens are the names.
pub proof fn lemma_parameter_list_moved(
    a: Seq<Token>,
    m: int,
    x: Seq<u8>,
    b: Seq<Token>,
    n: int,
    y: Seq<u8>,
    w: int,
    d: int,
    pos: int,
    found: Seq<VariableId>,
)
    requires
        tokens_moved(a, m, x, b, n, y, w, d),
        n <= pos < b.len(),
        reach(parameter_list(b, pos, found)) < n + w,
    ensures
        parameter_list(a, pos - n + m, found) == moved_parameters(
            parameter_list(b, pos, found),
            m - n,
        ),
    decreases b.len() - pos,
{
    lemma_parameter_list_reach(b, pos, found);
    lemma_kind_moved(a, m, x, b, n, y, w, d, pos);
    if kind_at(b, pos) == TokenKind::Identifier {
        assert(b[pos].symbol == a[pos - n + m].symbol);
        lemma_not_last(b, pos);
        let more = found.push(VariableId { index: b[pos].symbol });
        if kind_at(b, pos + 1) == TokenKind::Comma {
            lemma_not_last(b, pos + 1);
            lemma_parameter_list_reach(b, pos + 2, more);
        }
        lemma_kind_moved(a, m, x, b, n, y, w, d, pos + 1);
        if kind_at(b, pos + 1) == TokenKind::Comma {
            lemma_parameter_list_moved(a, m, x, b, n, y, w, d, pos + 2, more);
        }
    }
}

/// A print statement read from moved tokens is the statement, moved.
pub proof fn lemma_print_moved(
    a: Seq<Token>,
    m: int,
    x: Seq<u8>,
    b: Seq<Token>,
    n: int,
    y: Seq<u8>,
    w: int,
    d: int,
    id: DefId,
    pos: int,
)
    requires
        tokens_moved(a, m, x, b, n, y, w, d),
        n <= pos < b.len(),
        b[pos].kind == TokenKind::Print,
        looked(print_statement(b, y, id, pos)) < n + w,
    ensures
        print_statement(a, x, id, pos - n + m) == moved_statement(
            print_statement(b, y, id, pos),
            d,
            m - n,
        ),
        print_statement(b, y, id, pos) matches Ok((s, _)) ==> statement_movable(s, d),
{
    lemma_print_reach(b, y, id, pos);
    lemma_not_last(b, pos);
    lemma_expression_reach(b, y, id, pos + 1);
    let r = expression(b, y, id, pos + 1);
    assert(reach(r) <= looked(print_statement(b, y, id, pos)));
    lemma_expression_moved(a, m, x, b, n, y, w, d, id, pos + 1);
    match r {
        Ok((_, next)) => {
            lemma_kind_moved(a, m, x, b, n, y, w, d, next);
            if kind_at(b, next) == TokenKind::Semicolon {
                lemma_span_moved(a, m, x, b, n, y, w, d, id, pos, next + 1);
            }
        },
        Err(_) => {},
    }
}

/// The rest of a definition read from moved tokens is the rest, moved.
pub proof fn lemma_body_moved(
    a: Seq<Token>,
    m: int,
    x: Seq<u8>,
    b: Seq<Token>,
    n: int,
    y: Seq<u8>,
    w: int,
    d: int,
    id: DefId,
    pos: int,
    args: Seq<VariableId>,
    close: int,
)
    requires
        tokens_moved(a, m, x, b, n, y, w, d),
        n <= pos,
        pos + 3 <= close < b.len(),
        close < n + w,
        b[pos + 1].symbol == a[pos + 1 - n + m].symbol,
        looked(definition_body(b, y, id, pos, args, close)) < n + w,
    ensures
        definition_body(a, x, id, pos - n + m, args, close - n + m) == moved_statement(
            definition_body(b, y, id, pos, args, close),
            d,
            m - n,
        ),
        definition_body(b, y, id, pos, args, close) matches Ok((s, _)) ==> statement_movable(s, d),
{
    lemma_body_reach(b, y, id, pos, args, close);
    lemma_kind_moved(a, m, x, b, n, y, w, d, close);
    if kind_at(b, close) == TokenKind::RightParen {
        lemma_not_last(b, close);
        if kind_at(b, close + 1) == TokenKind::Equals {
            lemma_not_last(b, close + 1);
            lemma_expression_reach(b, y, id, close + 2);
        }
        assert(close + 1 <= looked(definition_body(b, y, id, pos, args, close)));
        lemma_kind_moved(a, m, x, b, n, y, w, d, close + 1);
        if kind_at(b, close + 1) == TokenKind::Equals {
            let r = expression(b, y, id, close + 2);
            assert(reach(r) <= looked(definition_body(b, y, id, pos, args, close)));
            lemma_expression_moved(a, m, x, b, n, y, w, d, id, close + 2);
            match r {
                Ok((_, next)) => {
                    lemma_kind_moved(a, m, x, b, n, y, w, d, next);
                    if kind_at(b, next) == TokenKind::Semicolon {
                        lemma_span_moved(a, m, x, b, n, y, w, d, id, pos, next + 1);
                        lemma_span_moved(a, m, x, b, n, y, w, d, id, pos + 1, pos + 2);
                    }
                },
                Err(_) => {},
            }
        }
    }
}

/// A definition read from moved tokens is the definition, moved.
pub proof fn lemma_definition_moved(
    a: Seq<Token>,
    m: int,
    x: Seq<u8>,
    b: Seq<Token>,
    n: int,
    y: Seq<u8>,
    w: int,
    d: int,
    id: DefId,
    pos: int,
)
    requires
        tokens_moved(a, m, x, b, n, y, w, d),
        n <= pos < b.len(),
        b[pos].kind == TokenKind::Fn,
        looked(definition(b, y, id, pos)) < n + w,
    ensures
        definition(a, x, id, pos - n + m) == moved_statement(definition(b, y, id, pos), d, m - n),
        definition(b, y, id, pos) matches Ok((s, _)) ==> statement_movable(s, d),
{
    lemma_definition_reach(b, y, id, pos);
    lemma_not_last(b, pos);
    lemma_kind_moved(a, m, x, b, n, y, w, d, pos + 1);
    if kind_at(b, pos + 1) == TokenKind::Identifier {
        assert(b[pos + 1].symbol == a[pos + 1 - n + m].symbol);
        lemma_not_last(b, pos + 1);
        if kind_at(b, pos + 2) == TokenKind::LeftParen {
            lemma_not_last(b, pos + 2);
            if kind_at(b, pos + 3) != TokenKind::RightParen {
                lemma_parameter_list_reach(b, pos + 3, Seq::empty());
            }
            match parameters(b, pos + 3) {
                Ok((args, close)) => {
                    lemma_body_reach(b, y, id, pos, args, close);
                },
                Err(_) => {},
            }
        }
        assert(pos + 2 <= looked(definition(b, y, id, pos)));
        lemma_kind_moved(a, m, x, b, n, y, w, d, pos + 2);
        if kind_at(b, pos + 2) == TokenKind::LeftParen {
            let ps = parameters(b, pos + 3);
            assert(pos + 3 <= reach(ps) <= looked(definition(b, y, id, pos)));
            lemma_kind_moved(a, m, x, b, n, y, w, d, pos + 3);
            if kind_at(b, pos + 3) != TokenKind::RightParen {
                lemma_parameter_list_moved(a, m, x, b, n, y, w, d, pos + 3, Seq::empty());
            }
            match ps {
                Ok((args, close)) => {
                    lemma_body_moved(a, m, x, b, n, y, w, d, id, pos, args, close);
                },
                Err(_) => {},
            }
        }
    }
}

/// A statement read from moved tokens is the statement, moved.
pub proof fn lemma_statement_moved(
    a: Seq<Token>,
    m: int,
    x: Seq<u8>,
    b: Seq<Token>,
    n: int,
    y: Seq<u8>,
    w: int,
    d: int,
    id: DefId,
    pos: int,
)
    requires
        tokens_moved(a, m, x, b, n, y, w, d),
        n <= pos < b.len(),
        looked(statement(b, y, id, pos)) < n + w,
    ensures
        statement(a, x, id, pos - n + m) == moved_statement(statement(b, y, id, pos), d, m - n),
        statement(b, y, id, pos) matches Ok((s, _)) ==> statement_movable(s, d),
{
    lemma_statement_reach(b, y, id, pos);
    lemma_kind_moved(a, m, x, b, n, y, w, d, pos);
    match kind_at(b, pos) {
        TokenKind::Print => {
            lemma_print_moved(a, m, x, b, n, y, w, d, id, pos);
        },
        TokenKind::Fn => {
            lemma_definition_moved(a, m, x, b, n, y, w, d, id, pos);
        },
        _ => {},
    }
}

/// The statements read from moved tokens, up to the end of both sequences,
/// are the statements, moved.
pub proof fn lemma_program_moved(
    a: Seq<Token>,
    m: int,
    x: Seq<u8>,
    b: Seq<Token>,
    n: int,
    y: Seq<u8>,
    w: int,
    d: int,
    id: DefId,
    pos: int,
    found: Seq<StatementView>,
)
    requires
        tokens_moved(a, m, x, b, n, y, w, d),
        n + w == b.len(),
        m + w == a.len(),
        n <= pos < b.len(),
        statements_movable(found, d),
    ensures
        program(a, x, id, pos - n + m, later_statements(found, d)) == moved_program(
            program(b, y, id, pos, found),
            d,
            m - n,
        ),
        match program(b, y, id, pos, found) {
            Ok(s) => statements_movable(s, d),
            Err(k) => pos <= k < b.len(),
        },
    decreases b.len() - pos,
{
    lemma_kind_moved(a, m, x, b, n, y, w, d, pos);
    if kind_at(b, pos) != TokenKind::End {
        lemma_statement_reach(b, y, id, pos);
        lemma_statement_moved(a, m, x, b, n, y, w, d, id, pos);
        match statement(b, y, id, pos) {
            Ok((s, next)) => {
                assert(later_statements(found.push(s), d) =~= later_statements(found, d).push(
                    later_statement(s, d),
                ));
                assert(statements_movable(found.push(s), d)) by {
                    assert forall|i: int| 0 <= i < found.len() + 1 implies statement_movable(
                        #[trigger] found.push(s)[i],
                        d,
                    ) by {
                        if i < found.len() {
                            assert(found.push(s)[i] == found[i]);
                        }
                    }
                }
                lemma_program_moved(a, m, x, b, n, y, w, d, id, next, found.push(s));
            },
            Err(_) => {},
        }
    }
}

/// An expression `d` bytes later has, counted from a start that is `d` bytes
/// later, the spans that it had.
pub proof fn lemma_relocated_later(e: ExprView, d: int, offset: usize, def: DefId)
    requires
        expr_accepted(e, movable_by(d)),
        0 <= offset + d <= usize::MAX,
    ensures
        expr_rewritten(expr_rewritten(e, later(d)), relocate((offset + d) as usize, def))
            == expr_rewritten(e, relocate(offset, def)),
    decreases e,
{
    match e.data {
        ExprDataView::Op(l, _, r) => {
            lemma_relocated_later(*l, d, offset, def);
            lemma_relocated_later(*r, d, offset, def);
        },
        ExprDataView::Number(_) => {},
        ExprDataView::Variable(_) => {},
        ExprDataView::Call(_, args) => {
            let moved = expr_rewritten(e, later(d)).data->Call_1;
            let twice = expr_rewritten(
                expr_rewritten(e, later(d)),
                relocate((offset + d) as usize, def),
            ).data->Call_1;
            let once = expr_rewritten(e, relocate(offset, def)).data->Call_1;
            assert forall|i: int| 0 <= i < args.len() implies twice[i] == once[i] by {
                lemma_relocated_later(args[i], d, offset, def);
                assert(moved[i] == expr_rewritten(args[i], later(d)));
            }
            assert(twice =~= once);
        },
    }
}

/// A definition that starts `d` bytes later in the text.
pub open spec fn later_definition(v: DefinitionView, d: int) -> DefinitionView {
    DefinitionView { name: v.name, offset: (v.offset + d) as usize, data: v.data }
}

/// Definitions that start `d` bytes later in the text.
pub open spec fn later_definitions(s: Seq<DefinitionView>, d: int) -> Seq<DefinitionView> {
    Seq::new(s.len(), |i: int| later_definition(s[i], d))
}

/// Span relativity: where a definition stands in the text has no part in its
/// data. The definitions of statements that stand `d` bytes later have the names
/// and the data that they had, and start `d` bytes later.
pub proof fn lemma_definitions_moved(statements: Seq<StatementView>, d: int, identities: Seq<DefIdData>)
    requires
        statements_movable(statements, d),
    ensures
        definitions(later_statements(statements, d), identities) == later_definitions(
            definitions(statements, identities),
            d,
        ),
    decreases statements.len(),
{
    let after = later_statements(statements, d);
    if statements.len() == 0 {
        assert(later_definitions(definitions(statements, identities), d) =~= Seq::<
            DefinitionView,
        >::empty());
    } else {
        let front = statements.drop_last();
        let last = statements.last();
        assert(statements_movable(front, d)) by {
            assert forall|i: int| 0 <= i < front.len() implies statement_movable(
                #[trigger] front[i],
                d,
            ) by {
                assert(front[i] == statements[i]);
            }
        }
        lemma_definitions_moved(front, d, identities);
        assert(after.drop_last() =~= later_statements(front, d));
        assert(after.last() == later_statement(last, d));
        assert(statement_movable(statements[statements.len() - 1], d));
        match last.data {
            StatementDataView::Function { name, data } => {
                let def = def_of(identities, name);
                lemma_relocated_later(data.body, d, last.span.start, def);
                let before = definitions(front, identities);
                let one = definition_of(last, identities)->Some_0;
                assert(definition_of(later_statement(last, d), identities) == Some(
                    later_definition(one, d),
                ));
                assert(later_definitions(before.push(one), d) =~= later_definitions(before, d).push(
                    later_definition(one, d),
                ));
            },
            StatementDataView::Print(_) => {},
        }
    }
}

/// Lexing a text from its start is lexing it from behind the white space that it begins with.
pub proof fn lemma_spaces_skipped(text: Seq<u8>, k: int)
    requires
        0 <= k <= text.len() <= usize::MAX,
        forall|i: int| 0 <= i < k ==> is_space(#[trigger] text[i]),
    ensures
        lexed(text, 0) == lexed(text, k),
    decreases k,
{
    if k > 0 {
        lemma_spaces_skipped(text, k - 1);
        assert(is_space(text[k - 1]));
        assert(skip_spaces(text, k - 1) == skip_spaces(text, k));
        assert(same_from(text, 0, text, 0));
        lemma_skip_spaces_moved(text, 0, text, 0, k);
        lemma_token_moved(text, 0, text, 0, skip_spaces(text, k));
    }
}

/// An error `d` bytes later in the text.
pub open spec fn later_error(e: ParseError, d: int) -> ParseError {
    ParseError { start: (e.start + d) as usize, end: (e.end + d) as usize }
}

/// What a text means, `d` bytes later.
pub open spec fn later_program(r: Result<Seq<DefinitionView>, ParseError>, d: int) -> Result<
    Seq<DefinitionView>,
    ParseError,
> {
    match r {
        Ok(defs) => Ok(later_definitions(defs, d)),
        Err(e) => Err(later_error(e, d)),
    }
}

/// Tokens with the handles that their texts have in `names`.
pub open spec fn resolved_all(tokens: Seq<Token>, text: Seq<u8>, names: Seq<Seq<char>>) -> Seq<
    Token,
> {
    Seq::new(tokens.len(), |k: int| resolved(tokens[k], text, names))
}

/// Tokens that are alike stay alike when their identifiers get their handles.
pub proof fn lemma_resolved_moved(
    lu: Seq<Token>,
    u: Seq<u8>,
    lv: Seq<Token>,
    v: Seq<u8>,
    d: int,
    names: Seq<Seq<char>>,
)
    requires
        tokens_alike(lu, u, lv, v, d),
    ensures
        tokens_moved(
            resolved_all(lu, u, names),
            0,
            u,
            resolved_all(lv, v, names),
            0,
            v,
            lv.len() as int,
            d,
        ),
{
    let a = resolved_all(lu, u, names);
    let b = resolved_all(lv, v, names);
    assert forall|i: int| 0 <= i < 0 + lv.len() implies {
        &&& (#[trigger] b[i]).kind == a[i - 0 + 0].kind
        &&& b[i].symbol == a[i - 0 + 0].symbol
        &&& b[i].start + d == a[i - 0 + 0].start
        &&& b[i].end + d == a[i - 0 + 0].end
        &&& token_text(v, b[i]) == token_text(u, a[i - 0 + 0])
    } by {
        assert(lv[i].kind == lu[i].kind);
        assert(token_text(v, lv[i]) == token_text(u, lu[i]));
    }
    assert(lv[lv.len() - 1].kind == b[b.len() - 1].kind);
}

/// The error that blames a moved token is the error, moved.
pub proof fn lemma_error_moved(
    lu: Seq<Token>,
    u: Seq<u8>,
    lv: Seq<Token>,
    v: Seq<u8>,
    d: int,
    names: Seq<Seq<char>>,
    k: int,
)
    requires
        tokens_alike(lu, u, lv, v, d),
        v.len() <= usize::MAX,
        0 <= k < lv.len(),
    ensures
        error_at(resolved_all(lu, u, names), k) == later_error(
            error_at(resolved_all(lv, v, names), k),
            d,
        ),
{
    assert(lv[k].kind == lu[k].kind);
    assert(lv[k].start + d == lu[k].start);
    assert(lv[k].end + d == lu[k].end);
}

/// White space put before a text changes nothing in what the text means but
/// where things start: every function has the name and the data that it had, and
/// starts as many bytes later as were put before the text; a syntax error lies
/// as many bytes later.
pub proof fn lemma_padded_program(
    pad: Seq<u8>,
    text: Seq<u8>,
    names: Seq<Seq<char>>,
    identities: Seq<DefIdData>,
)
    requires
        forall|i: int| 0 <= i < pad.len() ==> is_space(#[trigger] pad[i]),
        pad.len() + text.len() <= usize::MAX,
    ensures
        program_of(pad + text, names, identities) == later_program(
            program_of(text, names, identities),
            pad.len() as int,
        ),
{
    let u = pad + text;
    let d = pad.len() as int;
    assert forall|i: int| 0 <= i < d implies is_space(#[trigger] u[i]) by {
        assert(u[i] == pad[i]);
    }
    lemma_spaces_skipped(u, d);
    assert(same_from(u, d, text, 0)) by {
        assert forall|i: int| 0 <= i < u.len() - d implies #[trigger] u[d + i] == text[0 + i] by {}
    }
    lemma_lexed_moved(u, d, text, 0, 0);
    let lu = lexed(u, 0);
    let lv = lexed(text, 0);
    let a = tokens_of(u, names);
    let b = tokens_of(text, names);
    assert(a =~= resolved_all(lu, u, names));
    assert(b =~= resolved_all(lv, text, names));
    lemma_resolved_moved(lu, u, lv, text, d, names);
    let id = unknown_def();
    assert(later_statements(Seq::<StatementView>::empty(), d) =~= Seq::<StatementView>::empty());
    lemma_program_moved(a, 0, u, b, 0, text, b.len() as int, d, id, 0, Seq::empty());
    match program(b, text, id, 0, Seq::empty()) {
        Ok(statements) => {
            lemma_definitions_moved(statements, d, identities);
        },
        Err(k) => {
            lemma_error_moved(lu, u, lv, text, d, names, k);
        },
    }
}

/// All tokens of a text but the last one do not end the sequence.
pub proof fn lemma_lexed_interior(v: Seq<u8>, p: int)
    ensures
        forall|i: int| 0 <= i < lexed(v, p).len() - 1 ==> !is_last(#[trigger] lexed(v, p)[i].kind),
    decreases v.len() - p,
{
    let t = token_at(v, skip_spaces(v, p));
    if !(is_last(t.kind) || t.end <= p || t.end > v.len() || p < 0) {
        lemma_lexed_interior(v, t.end as int);
        let rest = lexed(v, t.end as int);
        assert forall|i: int| 0 <= i < lexed(v, p).len() - 1 implies !is_last(
            #[trigger] lexed(v, p)[i].kind,
        ) by {
            if i > 0 {
                assert(lexed(v, p)[i] == rest[i - 1]);
            }
        }
    }
}

/// An expression that is moved by nothing is the expression.
pub proof fn lemma_later_zero(e: ExprView)
    ensures
        expr_rewritten(e, later(0)) == e,
    decreases e,
{
    match e.data {
        ExprDataView::Op(l, _, r) => {
            lemma_later_zero(*l);
            lemma_later_zero(*r);
        },
        ExprDataView::Number(_) => {},
        ExprDataView::Variable(_) => {},
        ExprDataView::Call(_, args) => {
            let same = expr_rewritten(e, later(0)).data->Call_1;
            assert forall|i: int| 0 <= i < args.len() implies same[i] == args[i] by {
                lemma_later_zero(args[i]);
            }
            assert(same =~= args);
        },
    }
}

/// A statement that is moved by nothing is the statement.
pub proof fn lemma_statement_zero(s: StatementView)
    ensures
        later_statement(s, 0) == s,
{
    match s.data {
        StatementDataView::Function { name, data } => {
            lemma_later_zero(data.body);
        },
        StatementDataView::Print(e) => {
            lemma_later_zero(e);
        },
    }
}

/// The statements that were read before have no part in what is read after them.
pub proof fn lemma_program_found(
    b: Seq<Token>,
    y: Seq<u8>,
    id: DefId,
    pos: int,
    found: Seq<StatementView>,
)
    ensures
        program(b, y, id, pos, found) == match program(b, y, id, pos, Seq::empty()) {
            Ok(s) => Ok::<Seq<StatementView>, int>(found + s),
            Err(k) => Err::<Seq<StatementView>, int>(k),
        },
    decreases b.len() - pos,
{
    if kind_at(b, pos) == TokenKind::End {
        assert(found + Seq::<StatementView>::empty() =~= found);
    } else {
        match statement(b, y, id, pos) {
            Ok((s, next)) => {
                if pos < next <= b.len() {
                    lemma_program_found(b, y, id, next, found.push(s));
                    lemma_program_found(b, y, id, next, Seq::empty().push(s));
                    match program(b, y, id, next, Seq::empty()) {
                        Ok(rest) => {
                            assert(found.push(s) + rest =~= found + (Seq::empty().push(s) + rest));
                        },
                        Err(_) => {},
                    }
                }
            },
            Err(_) => {},
        }
    }
}

/// The definitions of statements that follow one another follow one another.
pub proof fn lemma_definitions_joined(
    first: Seq<StatementView>,
    second: Seq<StatementView>,
    identities: Seq<DefIdData>,
)
    ensures
        definitions(first + second, identities) == definitions(first, identities) + definitions(
            second,
            identities,
        ),
    decreases second.len(),
{
    if second.len() == 0 {
        assert(first + second =~= first);
        assert(definitions(first, identities) + definitions(second, identities) =~= definitions(
            first,
            identities,
        ));
    } else {
        lemma_definitions_joined(first, second.drop_last(), identities);
        assert((first + second).drop_last() =~= first + second.drop_last());
        assert((first + second).last() == second.last());
        let front = definitions(first, identities);
        let back = definitions(second.drop_last(), identities);
        match definition_of(second.last(), identities) {
            Some(one) => {
                assert((front + back).push(one) =~= front + back.push(one));
            },
            None => {},
        }
    }
}

/// A program that has no syntax error ends at the end of its text.
pub proof fn lemma_program_ends(
    b: Seq<Token>,
    y: Seq<u8>,
    id: DefId,
    pos: int,
    found: Seq<StatementView>,
)
    requires
        ended(b),
        forall|i: int| 0 <= i < b.len() - 1 ==> !is_last(#[trigger] b[i].kind),
        0 <= pos < b.len(),
        program(b, y, id, pos, found) is Ok,
    ensures
        b[b.len() - 1].kind == TokenKind::End,
    decreases b.len() - pos,
{
    if kind_at(b, pos) == TokenKind::End {
        if pos < b.len() - 1 {
            assert(!is_last(b[pos].kind));
        }
    } else {
        lemma_statement_reach(b, y, id, pos);
        match statement(b, y, id, pos) {
            Ok((s, next)) => {
                lemma_program_ends(b, y, id, next, found.push(s));
            },
            Err(_) => {},
        }
    }
}

/// The statements of a text are the first statements of every text that
/// begins with its tokens: reading them from the longer text leads to the token
/// behind them.
pub proof fn lemma_program_front(
    c: Seq<Token>,
    x: Seq<u8>,
    b: Seq<Token>,
    y: Seq<u8>,
    id: DefId,
    pos: int,
    found: Seq<StatementView>,
)
    requires
        tokens_moved(c, 0, x, b, 0, y, b.len() - 1, 0),
        forall|i: int| 0 <= i < b.len() - 1 ==> !is_last(#[trigger] b[i].kind),
        b[b.len() - 1].kind == TokenKind::End,
        0 <= pos < b.len(),
        program(b, y, id, pos, found) is Ok,
    ensures
        program(c, x, id, pos, found) == program(
            c,
            x,
            id,
            b.len() - 1,
            program(b, y, id, pos, found)->Ok_0,
        ),
    decreases b.len() - pos,
{
    let last = b.len() - 1;
    if pos < last {
        assert(!is_last(b[pos].kind));
        lemma_kind_moved(c, 0, x, b, 0, y, last, 0, pos);
        lemma_statement_reach(b, y, id, pos);
        match statement(b, y, id, pos) {
            Ok((s, next)) => {
                lemma_statement_moved(c, 0, x, b, 0, y, last, 0, id, pos);
                lemma_statement_zero(s);
                lemma_program_front(c, x, b, y, id, next, found.push(s));
            },
            Err(_) => {},
        }
    }
}

/// The tokens of a text without syntax error end with the end of the text,
/// and no other token of it ends the sequence.
pub proof fn lemma_tokens_end(text: Seq<u8>, names: Seq<Seq<char>>)
    requires
        text.len() <= usize::MAX,
        program(tokens_of(text, names), text, unknown_def(), 0, Seq::empty()) is Ok,
    ensures
        lexed(text, 0).len() == tokens_of(text, names).len(),
        lexed(text, 0).last().kind == TokenKind::End,
        tokens_of(text, names).last().kind == TokenKind::End,
        forall|i: int|
            0 <= i < tokens_of(text, names).len() - 1 ==> !is_last(
                #[trigger] tokens_of(text, names)[i].kind,
            ),
{
    let l = lexed(text, 0);
    let b = tokens_of(text, names);
    assert(same_from(text, 0, text, 0));
    lemma_lexed_moved(text, 0, text, 0, 0);
    lemma_lexed_interior(text, 0);
    assert(is_last(b[b.len() - 1].kind)) by {
        assert(b[b.len() - 1].kind == l[l.len() - 1].kind);
    }
    assert forall|i: int| 0 <= i < b.len() - 1 implies !is_last(#[trigger] b[i].kind) by {
        assert(!is_last(l[i].kind));
    }
    lemma_program_ends(b, text, unknown_def(), 0, Seq::empty());
    assert(b[b.len() - 1].kind == l[l.len() - 1].kind);
}

/// The tokens of a text that follows a closed text: first the tokens of the
/// closed text but for its end, then the tokens of the text itself, as many bytes
/// later as the closed text is long.
pub proof fn lemma_tokens_behind(prefix: Seq<u8>, text: Seq<u8>, names: Seq<Seq<char>>)
    requires
        closed(prefix),
        prefix.len() + text.len() <= usize::MAX,
        lexed(prefix, 0).last().kind == TokenKind::End,
        tokens_of(prefix, names).len() > 0,
    ensures
        tokens_of(prefix + text, names).len() == tokens_of(prefix, names).len() - 1 + tokens_of(
            text,
            names,
        ).len(),
        tokens_moved(
            tokens_of(prefix + text, names),
            0,
            prefix + text,
            tokens_of(prefix, names),
            0,
            prefix,
            tokens_of(prefix, names).len() - 1,
            0,
        ),
        tokens_moved(
            tokens_of(prefix + text, names),
            tokens_of(prefix, names).len() - 1,
            prefix + text,
            tokens_of(text, names),
            0,
            text,
            tokens_of(text, names).len() as int,
            prefix.len() as int,
        ),
        forall|e: int|
            0 <= e < tokens_of(text, names).len() ==> error_at(
                tokens_of(prefix + text, names),
                tokens_of(prefix, names).len() - 1 + e,
            ) == later_error(#[trigger] error_at(tokens_of(text, names), e), prefix.len() as int),
{
    let u = prefix + text;
    let k = prefix.len() as int;
    let lp = lexed(prefix, 0);
    let lt = lexed(text, 0);
    let lu = lexed(u, 0);
    let lk = lexed(u, k);
    let bp = tokens_of(prefix, names);
    let bt = tokens_of(text, names);
    let c = tokens_of(u, names);
    let ck = resolved_all(lk, u, names);
    let last = lp.len() - 1;
    assert(begins(u, prefix)) by {
        assert forall|i: int| 0 <= i < prefix.len() implies #[trigger] u[i] == prefix[i] by {}
    }
    assert(same_from(u, k, text, 0)) by {
        assert forall|i: int| 0 <= i < u.len() - k implies #[trigger] u[k + i] == text[0 + i] by {}
    }
    lemma_lexed_front(u, prefix, 0);
    lemma_lexed_moved(u, k, text, 0, 0);
    lemma_resolved_moved(lk, u, lt, text, k, names);
    assert(bt =~= resolved_all(lt, text, names));
    assert(lu.len() == last + lk.len());
    assert forall|i: int| 0 <= i < lk.len() implies c[last + i] == #[trigger] ck[i] by {
        assert(lu[last + i] == lk[i]);
    }
    assert(ended(bp)) by {
        assert(bp[last].kind == lp[last].kind);
    }
    assert(tokens_moved(c, 0, u, bp, 0, prefix, last, 0)) by {
        assert forall|i: int| 0 <= i < 0 + last implies {
            &&& (#[trigger] bp[i]).kind == c[i - 0 + 0].kind
            &&& bp[i].symbol == c[i - 0 + 0].symbol
            &&& bp[i].start + 0 == c[i - 0 + 0].start
            &&& bp[i].end + 0 == c[i - 0 + 0].end
            &&& token_text(prefix, bp[i]) == token_text(u, c[i - 0 + 0])
        } by {
            assert(lu[i] == lp[i]);
            assert(token_text(u, lp[i]) == token_text(prefix, lp[i]));
        }
    }
    assert(tokens_moved(c, last, u, bt, 0, text, bt.len() as int, k)) by {
        assert forall|i: int| 0 <= i < 0 + bt.len() implies {
            &&& (#[trigger] bt[i]).kind == c[i - 0 + last].kind
            &&& bt[i].symbol == c[i - 0 + last].symbol
            &&& bt[i].start + k == c[i - 0 + last].start
            &&& bt[i].end + k == c[i - 0 + last].end
            &&& token_text(text, bt[i]) == token_text(u, c[i - 0 + last])
        } by {
            assert(c[last + i] == ck[i]);
            assert(bt[i].kind == ck[i - 0 + 0].kind);
        }
    }
    assert forall|e: int| 0 <= e < bt.len() implies error_at(c, last + e) == later_error(
        #[trigger] error_at(bt, e),
        k,
    ) by {
        lemma_error_moved(lk, u, lt, text, k, names, e);
        assert(c[last + e] == ck[e]);
    }
}

/// The statements of a text that follows a text without syntax error: first
/// the statements of that text, then the statements of the text itself, moved.
pub proof fn lemma_statements_behind(
    c: Seq<Token>,
    u: Seq<u8>,
    bp: Seq<Token>,
    prefix: Seq<u8>,
    bt: Seq<Token>,
    text: Seq<u8>,
    k: int,
    id: DefId,
)
    requires
        bp.len() > 0,
        bt.len() > 0,
        c.len() == bp.len() - 1 + bt.len(),
        tokens_moved(c, 0, u, bp, 0, prefix, bp.len() - 1, 0),
        tokens_moved(c, bp.len() - 1, u, bt, 0, text, bt.len() as int, k),
        forall|i: int| 0 <= i < bp.len() - 1 ==> !is_last(#[trigger] bp[i].kind),
        bp[bp.len() - 1].kind == TokenKind::End,
        program(bp, prefix, id, 0, Seq::empty()) is Ok,
    ensures
        program(c, u, id, 0, Seq::empty()) == match program(bt, text, id, 0, Seq::empty()) {
            Ok(st) => Ok::<Seq<StatementView>, int>(
                program(bp, prefix, id, 0, Seq::empty())->Ok_0 + later_statements(st, k),
            ),
            Err(e) => Err::<Seq<StatementView>, int>(e + (bp.len() - 1)),
        },
        match program(bt, text, id, 0, Seq::empty()) {
            Ok(st) => statements_movable(st, k),
            Err(e) => 0 <= e < bt.len(),
        },
{
    let last = bp.len() - 1;
    let sp = program(bp, prefix, id, 0, Seq::empty())->Ok_0;
    lemma_program_front(c, u, bp, prefix, id, 0, Seq::empty());
    lemma_program_found(c, u, id, last, sp);
    assert(later_statements(Seq::<StatementView>::empty(), k) =~= Seq::<StatementView>::empty());
    lemma_program_moved(c, last, u, bt, 0, text, bt.len() as int, k, id, 0, Seq::empty());
}

/// Span relativity, of texts: what stands before a function has no part in
/// the function's data.
///
/// Let `prefix` be a closed text without syntax error. The text that `text`
/// follows `prefix` in has the functions of `prefix` and then those of `text`,
/// each with the name and the data that it has in `text` alone, and starting as
/// many bytes later as `prefix` is long. If `text` has a syntax error, the whole
/// has it, as many bytes later.
#[verifier::rlimit(40)]
pub proof fn lemma_program_behind(
    prefix: Seq<u8>,
    text: Seq<u8>,
    names: Seq<Seq<char>>,
    identities: Seq<DefIdData>,
)
    requires
        closed(prefix),
        prefix.len() + text.len() <= usize::MAX,
        program_of(prefix, names, identities) is Ok,
    ensures
        program_of(prefix + text, names, identities) == match program_of(text, names, identities) {
            Ok(defs) => Ok::<Seq<DefinitionView>, ParseError>(
                program_of(prefix, names, identities)->Ok_0 + later_definitions(
                    defs,
                    prefix.len() as int,
                ),
            ),
            Err(e) => Err::<Seq<DefinitionView>, ParseError>(later_error(e, prefix.len() as int)),
        },
{
    let u = prefix + text;
    let k = prefix.len() as int;
    let id = unknown_def();
    let bp = tokens_of(prefix, names);
    let bt = tokens_of(text, names);
    let c = tokens_of(u, names);
    lemma_tokens_end(prefix, names);
    assert(bt.len() > 0) by {
        assert(same_from(text, 0, text, 0));
        lemma_lexed_moved(text, 0, text, 0, 0);
    }
    lemma_tokens_behind(prefix, text, names);
    lemma_statements_behind(c, u, bp, prefix, bt, text, k, id);
    let sp = program(bp, prefix, id, 0, Seq::empty())->Ok_0;
    match program(bt, text, id, 0, Seq::empty()) {
        Ok(st) => {
            lemma_definitions_joined(sp, later_statements(st, k), identities);
            lemma_definitions_moved(st, k, identities);
        },
        Err(e) => {
            assert(error_at(c, bp.len() - 1 + e) == later_error(error_at(bt, e), k));
        },
    }
}

} // verus!
