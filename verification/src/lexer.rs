//! Splitting source text into tokens, interning each identifier on the way.

use vstd::prelude::*;
use crate::interner::{lemma_position, lemma_position_extends, position, Interner};

verus! {

/// The kinds of token.
#[derive(Clone, Copy, Debug, PartialEq, Eq, Hash, Structural)]
pub enum TokenKind {
    Fn,
    Print,
    Identifier,
    Number,
    LeftParen,
    RightParen,
    Comma,
    Equals,
    Semicolon,
    Plus,
    Minus,
    Star,
    Slash,
    /// A byte that starts no token.
    Invalid,
    /// The end of the text.
    End,
}

/// A token: its kind, the bytes `start..end` it covers and, for an identifier,
/// the handle of its name.
#[derive(Clone, Copy, Debug, PartialEq, Eq, Hash, Structural)]
pub struct Token {
    pub kind: TokenKind,
    pub start: usize,
    pub end: usize,
    pub symbol: usize,
}

/// A blank, a tab, a line feed or a carriage return.
pub open spec fn is_space(b: u8) -> bool {
    b == 32 || b == 9 || b == 10 || b == 13
}

/// An ASCII letter or an underscore.
pub open spec fn is_letter(b: u8) -> bool {
    (97 <= b && b <= 122) || (65 <= b && b <= 90) || b == 95
}

/// An ASCII digit.
pub open spec fn is_digit(b: u8) -> bool {
    48 <= b && b <= 57
}

/// The first position from `pos` on that holds no white space.
pub open spec fn skip_spaces(text: Seq<u8>, pos: int) -> int
    decreases text.len() - pos,
{
    if 0 <= pos < text.len() && is_space(text[pos]) {
        skip_spaces(text, pos + 1)
    } else {
        pos
    }
}

/// The first position from `pos` on that holds neither a letter nor a digit.
pub open spec fn word_end(text: Seq<u8>, pos: int) -> int
    decreases text.len() - pos,
{
    if 0 <= pos < text.len() && (is_letter(text[pos]) || is_digit(text[pos])) {
        word_end(text, pos + 1)
    } else {
        pos
    }
}

/// The first position from `pos` on that holds no digit.
pub open spec fn digits_end(text: Seq<u8>, pos: int) -> int
    decreases text.len() - pos,
{
    if 0 <= pos < text.len() && is_digit(text[pos]) {
        digits_end(text, pos + 1)
    } else {
        pos
    }
}

/// Where the number that starts at `pos` ends: digits, then at most one point
/// that digits follow.
pub open spec fn number_end(text: Seq<u8>, pos: int) -> int {
    let e = digits_end(text, pos);
    if 0 <= e && e + 1 < text.len() && text[e] == 46 && is_digit(text[e + 1]) {
        digits_end(text, e + 1)
    } else {
        e
    }
}

/// The bytes of the word `fn`.
pub open spec fn keyword_fn() -> Seq<u8> {
    seq![102u8, 110u8]
}

/// The bytes of the word `print`.
pub open spec fn keyword_print() -> Seq<u8> {
    seq![112u8, 114u8, 105u8, 110u8, 116u8]
}

/// The kind of a word: one of the two keywords, or else an identifier.
pub open spec fn word_kind(word: Seq<u8>) -> TokenKind {
    if word == keyword_fn() {
        TokenKind::Fn
    } else if word == keyword_print() {
        TokenKind::Print
    } else {
        TokenKind::Identifier
    }
}

/// The kind of the token that a single byte makes; invalid if it makes none.
pub open spec fn byte_kind(b: u8) -> TokenKind {
    if b == 40 {
        TokenKind::LeftParen
    } else if b == 41 {
        TokenKind::RightParen
    } else if b == 44 {
        TokenKind::Comma
    } else if b == 61 {
        TokenKind::Equals
    } else if b == 59 {
        TokenKind::Semicolon
    } else if b == 43 {
        TokenKind::Plus
    } else if b == 45 {
        TokenKind::Minus
    } else if b == 42 {
        TokenKind::Star
    } else if b == 47 {
        TokenKind::Slash
    } else {
        TokenKind::Invalid
    }
}

/// The characters that ASCII bytes stand for.
pub open spec fn chars_of(bytes: Seq<u8>) -> Seq<char> {
    Seq::new(bytes.len(), |i: int| bytes[i] as char)
}

/// The text that a token covers.
pub open spec fn token_text(text: Seq<u8>, t: Token) -> Seq<char> {
    chars_of(text.subrange(t.start as int, t.end as int))
}

/// The token that starts at `pos`, where `pos` holds no white space; its handle is left zero.
pub open spec fn token_at(text: Seq<u8>, pos: int) -> Token {
    if !(0 <= pos < text.len()) {
        Token { kind: TokenKind::End, start: text.len() as usize, end: text.len() as usize, symbol: 0 }
    } else if is_letter(text[pos]) {
        let end = word_end(text, pos);
        Token {
            kind: word_kind(text.subrange(pos, end)),
            start: pos as usize,
            end: end as usize,
            symbol: 0,
        }
    } else if is_digit(text[pos]) {
        Token {
            kind: TokenKind::Number,
            start: pos as usize,
            end: number_end(text, pos) as usize,
            symbol: 0,
        }
    } else {
        Token { kind: byte_kind(text[pos]), start: pos as usize, end: (pos + 1) as usize, symbol: 0 }
    }
}

/// A token after which no other follows.
pub open spec fn is_last(kind: TokenKind) -> bool {
    kind == TokenKind::End || kind == TokenKind::Invalid
}

/// The tokens of `text` from `pos` on, handles left zero. The sequence stops at
/// the first byte that starts no token, or else at the end of the text, and names
/// that token last.
pub open spec fn lexed(text: Seq<u8>, pos: int) -> Seq<Token>
    decreases text.len() - pos,
{
    let t = token_at(text, skip_spaces(text, pos));
    if is_last(t.kind) || t.end <= pos || t.end > text.len() || pos < 0 {
        seq![t]
    } else {
        seq![t] + lexed(text, t.end as int)
    }
}

/// The token with the handle that its text has in `names`, if it is an identifier.
pub open spec fn resolved(t: Token, text: Seq<u8>, names: Seq<Seq<char>>) -> Token {
    if t.kind == TokenKind::Identifier {
        Token { symbol: position(names, token_text(text, t)) as usize, ..t }
    } else {
        t
    }
}

/// The tokens of a whole text, identifiers resolved in `names`.
pub open spec fn tokens_of(text: Seq<u8>, names: Seq<Seq<char>>) -> Seq<Token> {
    Seq::new(lexed(text, 0).len(), |k: int| resolved(lexed(text, 0)[k], text, names))
}

/// The names once the token `t` was read: an identifier that they do not
/// hold yet is added at their end.
pub open spec fn names_with(names: Seq<Seq<char>>, t: Token, text: Seq<u8>) -> Seq<Seq<char>> {
    if t.kind == TokenKind::Identifier && !names.contains(token_text(text, t)) {
        names.push(token_text(text, t))
    } else {
        names
    }
}

/// The names once the first `k` of `tokens` were read, one after another.
pub open spec fn names_after(names: Seq<Seq<char>>, tokens: Seq<Token>, text: Seq<u8>, k: int) -> Seq<
    Seq<char>,
>
    decreases k,
{
    if k <= 0 || k > tokens.len() {
        names
    } else {
        names_with(names_after(names, tokens, text, k - 1), tokens[k - 1], text)
    }
}

/// The names once a whole text was read.
pub open spec fn names_of_text(names: Seq<Seq<char>>, text: Seq<u8>) -> Seq<Seq<char>> {
    names_after(names, lexed(text, 0), text, lexed(text, 0).len() as int)
}

/// What the token sequence of `text` satisfies: the tokens lie in the text one
/// after another, none is empty but the end, only the last one ends the sequence,
/// and identifiers and numbers are made of ASCII bytes.
#[verifier::opaque]
pub open spec fn well_formed(tokens: Seq<Token>, text: Seq<u8>) -> bool {
    &&& tokens.len() > 0
    &&& is_last(tokens.last().kind)
    &&& forall|k: int| 0 <= k < tokens.len() - 1 ==> !is_last(#[trigger] tokens[k].kind)
    &&& forall|k: int|
        0 <= k < tokens.len() ==> (#[trigger] tokens[k]).start <= tokens[k].end <= text.len()
    &&& forall|k: int|
        0 <= k < tokens.len() && tokens[k].kind != TokenKind::End ==> (#[trigger] tokens[k]).start
            < tokens[k].end
    &&& forall|j: int, k: int|
        0 <= j < k < tokens.len() ==> (#[trigger] tokens[j]).end <= (#[trigger] tokens[k]).start
    &&& forall|k: int|
        0 <= k < tokens.len() && (tokens[k].kind == TokenKind::Identifier || tokens[k].kind
            == TokenKind::Number) ==> is_ascii_token(#[trigger] tokens[k], text)
}

/// The bytes that the token covers are ASCII.
pub open spec fn is_ascii_token(t: Token, text: Seq<u8>) -> bool {
    forall|i: int| t.start <= i < t.end ==> #[trigger] text[i] < 128
}

/// Tokens lie in the text in the order of their indices.
pub proof fn lemma_token_order(tokens: Seq<Token>, text: Seq<u8>, j: int, k: int)
    requires
        well_formed(tokens, text),
        0 <= j <= k < tokens.len(),
    ensures
        tokens[j].start <= tokens[j].end <= text.len(),
        tokens[k].start <= tokens[k].end <= text.len(),
        tokens[j].start <= tokens[k].start,
        tokens[j].end <= tokens[k].end,
        j < k ==> tokens[j].end <= tokens[k].start,
{
    reveal(well_formed);
}

/// A token that does not end the sequence is not empty, and another follows it.
pub proof fn lemma_token_follows(tokens: Seq<Token>, text: Seq<u8>, k: int)
    requires
        well_formed(tokens, text),
        0 <= k < tokens.len(),
        !is_last(tokens[k].kind),
    ensures
        k + 1 < tokens.len(),
        tokens[k].start < tokens[k].end <= text.len(),
        tokens[k].kind == TokenKind::Identifier || tokens[k].kind == TokenKind::Number
            ==> is_ascii_token(tokens[k], text),
{
    reveal(well_formed);
}

/// A token that stands for a byte that starts no token is not empty.
pub proof fn lemma_invalid_token(tokens: Seq<Token>, text: Seq<u8>, k: int)
    requires
        well_formed(tokens, text),
        0 <= k < tokens.len(),
        tokens[k].kind == TokenKind::Invalid,
    ensures
        tokens[k].start < tokens[k].end <= text.len(),
{
    reveal(well_formed);
}

/// A token sequence holds at least the token that ends it.
pub proof fn lemma_tokens_not_empty(tokens: Seq<Token>, text: Seq<u8>)
    requires
        well_formed(tokens, text),
    ensures
        tokens.len() > 0,
{
    reveal(well_formed);
}

/// Every identifier among `tokens` carries the handle that its text has in `names`.
pub open spec fn symbols_resolve(tokens: Seq<Token>, text: Seq<u8>, names: Seq<Seq<char>>) -> bool {
    forall|k: int|
        0 <= k < tokens.len() && (#[trigger] tokens[k]).kind == TokenKind::Identifier ==> {
            &&& tokens[k].symbol < names.len()
            &&& names[tokens[k].symbol as int] == token_text(text, tokens[k])
        }
}

fn is_space_byte(b: u8) -> (r: bool)
    ensures
        r == is_space(b),
{
    b == 32 || b == 9 || b == 10 || b == 13
}

fn is_letter_byte(b: u8) -> (r: bool)
    ensures
        r == is_letter(b),
{
    (97 <= b && b <= 122) || (65 <= b && b <= 90) || b == 95
}

fn is_digit_byte(b: u8) -> (r: bool)
    ensures
        r == is_digit(b),
{
    48 <= b && b <= 57
}

fn scan_spaces(text: &[u8], pos: usize) -> (r: usize)
    requires
        pos <= text@.len(),
    ensures
        r == skip_spaces(text@, pos as int),
        pos <= r <= text@.len(),
{
    let mut i: usize = pos;
    while i < text.len() && is_space_byte(text[i])
        invariant
            pos <= i <= text@.len(),
            skip_spaces(text@, pos as int) == skip_spaces(text@, i as int),
        decreases text@.len() - i,
    {
        i = i + 1;
    }
    i
}

fn scan_word(text: &[u8], pos: usize) -> (r: usize)
    requires
        pos <= text@.len(),
    ensures
        r == word_end(text@, pos as int),
        pos <= r <= text@.len(),
        forall|k: int| pos <= k < r ==> is_letter(text@[k]) || is_digit(text@[k]),
{
    let mut i: usize = pos;
    while i < text.len() && (is_letter_byte(text[i]) || is_digit_byte(text[i]))
        invariant
            pos <= i <= text@.len(),
            word_end(text@, pos as int) == word_end(text@, i as int),
            forall|k: int| pos <= k < i ==> is_letter(text@[k]) || is_digit(text@[k]),
        decreases text@.len() - i,
    {
        i = i + 1;
    }
    i
}

fn scan_digits(text: &[u8], pos: usize) -> (r: usize)
    requires
        pos <= text@.len(),
    ensures
        r == digits_end(text@, pos as int),
        pos <= r <= text@.len(),
        forall|k: int| pos <= k < r ==> is_digit(text@[k]),
{
    let mut i: usize = pos;
    while i < text.len() && is_digit_byte(text[i])
        invariant
            pos <= i <= text@.len(),
            digits_end(text@, pos as int) == digits_end(text@, i as int),
            forall|k: int| pos <= k < i ==> is_digit(text@[k]),
        decreases text@.len() - i,
    {
        i = i + 1;
    }
    i
}

fn scan_number(text: &[u8], pos: usize) -> (r: usize)
    requires
        pos <= text@.len(),
    ensures
        r == number_end(text@, pos as int),
        pos <= r <= text@.len(),
        forall|k: int| pos <= k < r ==> is_digit(text@[k]) || text@[k] == 46,
{
    let e = scan_digits(text, pos);
    if e < text.len() && text[e] == 46 && e + 1 < text.len() && is_digit_byte(text[e + 1]) {
        scan_digits(text, e + 1)
    } else {
        e
    }
}

fn kind_of_word(text: &[u8], start: usize, end: usize) -> (kind: TokenKind)
    requires
        start <= end <= text@.len(),
    ensures
        kind == word_kind(text@.subrange(start as int, end as int)),
{
    let ghost word = text@.subrange(start as int, end as int);
    if end - start == 2 && text[start] == 102 && text[start + 1] == 110 {
        proof {
            assert(word =~= keyword_fn());
        }
        TokenKind::Fn
    } else if end - start == 5 && text[start] == 112 && text[start + 1] == 114 && text[start + 2]
        == 105 && text[start + 3] == 110 && text[start + 4] == 116 {
        proof {
            assert(word =~= keyword_print());
        }
        TokenKind::Print
    } else {
        proof {
            if word == keyword_fn() {
                assert(word.len() == 2 && word[0] == 102 && word[1] == 110);
            }
            if word == keyword_print() {
                assert(word.len() == 5 && word[0] == 112 && word[1] == 114 && word[2] == 105
                    && word[3] == 110 && word[4] == 116);
            }
        }
        TokenKind::Identifier
    }
}

fn kind_of_byte(b: u8) -> (kind: TokenKind)
    ensures
        kind == byte_kind(b),
{
    if b == 40 {
        TokenKind::LeftParen
    } else if b == 41 {
        TokenKind::RightParen
    } else if b == 44 {
        TokenKind::Comma
    } else if b == 61 {
        TokenKind::Equals
    } else if b == 59 {
        TokenKind::Semicolon
    } else if b == 43 {
        TokenKind::Plus
    } else if b == 45 {
        TokenKind::Minus
    } else if b == 42 {
        TokenKind::Star
    } else if b == 47 {
        TokenKind::Slash
    } else {
        TokenKind::Invalid
    }
}

/// Appends one ASCII character to a string, by `String::push`: the string
/// afterwards is the string before with that character at its end.
#[verifier::external_body]
pub(crate) fn push_ascii(s: &mut String, b: u8)
    requires
        b < 128,
    ensures
        final(s)@ == old(s)@.push(b as char),
{
    s.push(b as char);
}

/// The bytes `start..end` of `text` as a string; they must be ASCII.
pub fn ascii_string(text: &[u8], start: usize, end: usize) -> (s: String)
    requires
        start <= end <= text@.len(),
        forall|k: int| start <= k < end ==> text@[k] < 128,
    ensures
        s@ == chars_of(text@.subrange(start as int, end as int)),
{
    let mut s = String::new();
    let mut i: usize = start;
    while i < end
        invariant
            start <= i <= end <= text@.len(),
            forall|k: int| start <= k < end ==> text@[k] < 128,
            s@ == chars_of(text@.subrange(start as int, i as int)),
        decreases end - i,
    {
        push_ascii(&mut s, text[i]);
        proof {
            assert(s@ =~= chars_of(text@.subrange(start as int, i + 1)));
        }
        i = i + 1;
    }
    s
}

/// Reads the token that follows `pos`, interning it if it is an identifier.
fn next_token(text: &[u8], pos: usize, interner: &mut Interner) -> (t: Token)
    requires
        pos <= text@.len(),
        old(interner).wf(),
    ensures
        final(interner).wf(),
        final(interner).grown_from(old(interner)),
        final(interner).identities() == old(interner).identities(),
        final(interner).names() == names_with(
            old(interner).names(),
            token_at(text@, skip_spaces(text@, pos as int)),
            text@,
        ),
        t == resolved(
            token_at(text@, skip_spaces(text@, pos as int)),
            text@,
            final(interner).names(),
        ),
        pos <= t.start <= t.end <= text@.len(),
        t.kind != TokenKind::End ==> t.start < t.end,
        t.kind == TokenKind::Identifier ==> t.symbol < final(interner).names().len()
            && final(interner).names()[t.symbol as int] == token_text(text@, t),
        t.kind == TokenKind::Identifier || t.kind == TokenKind::Number ==> is_ascii_token(
            t,
            text@,
        ),
{
    let start = scan_spaces(text, pos);
    if start >= text.len() {
        return Token { kind: TokenKind::End, start: text.len(), end: text.len(), symbol: 0 };
    }
    let b = text[start];
    if is_letter_byte(b) {
        let end = scan_word(text, start + 1);
        let kind = kind_of_word(text, start, end);
        match kind {
            TokenKind::Identifier => {
                let name = ascii_string(text, start, end);
                let symbol = interner.intern(name);
                proof {
                    lemma_position(interner.names(), symbol as int);
                }
                Token { kind, start, end, symbol }
            },
            _ => Token { kind, start, end, symbol: 0 },
        }
    } else if is_digit_byte(b) {
        let end = scan_number(text, start + 1);
        proof {
            assert(digits_end(text@, start as int) == digits_end(text@, start + 1));
        }
        Token { kind: TokenKind::Number, start, end, symbol: 0 }
    } else {
        Token { kind: kind_of_byte(b), start, end: start + 1, symbol: 0 }
    }
}

/// Splits `text` into its tokens and interns every identifier.
pub fn lex(text: &[u8], interner: &mut Interner) -> (tokens: Vec<Token>)
    requires
        old(interner).wf(),
    ensures
        final(interner).wf(),
        final(interner).grown_from(old(interner)),
        final(interner).identities() == old(interner).identities(),
        final(interner).names() == names_of_text(old(interner).names(), text@),
        tokens@ == tokens_of(text@, final(interner).names()),
        well_formed(tokens@, text@),
        symbols_resolve(tokens@, text@, final(interner).names()),
{
    let mut tokens: Vec<Token> = Vec::new();
    let mut pos: usize = 0;
    let ghost mut raw: Seq<Token> = Seq::empty();
    loop
        invariant
            pos <= text@.len(),
            interner.wf(),
            interner.grown_from(old(interner)),
            interner.identities() == old(interner).identities(),
            lexed(text@, 0) == raw + lexed(text@, pos as int),
            raw.len() == tokens@.len(),
            interner.names() == names_after(
                old(interner).names(),
                lexed(text@, 0),
                text@,
                raw.len() as int,
            ),
            forall|k: int|
                0 <= k < raw.len() ==> #[trigger] tokens@[k] == resolved(
                    raw[k],
                    text@,
                    interner.names(),
                ),
            forall|k: int| 0 <= k < tokens@.len() ==> !is_last(#[trigger] tokens@[k].kind),
            forall|k: int|
                0 <= k < tokens@.len() ==> (#[trigger] tokens@[k]).start < tokens@[k].end <= pos,
            forall|j: int, k: int|
                0 <= j < k < tokens@.len() ==> (#[trigger] tokens@[j]).end <= (
                #[trigger] tokens@[k]).start,
            symbols_resolve(tokens@, text@, interner.names()),
            forall|k: int|
                0 <= k < tokens@.len() && (tokens@[k].kind == TokenKind::Identifier
                    || tokens@[k].kind == TokenKind::Number) ==> is_ascii_token(
                    #[trigger] tokens@[k],
                    text@,
                ),
        decreases text@.len() - pos,
    {
        let ghost names = interner.names();
        let ghost found = token_at(text@, skip_spaces(text@, pos as int));
        let t = next_token(text, pos, interner);
        proof {
            let grown = interner.names();
            assert forall|k: int| 0 <= k < raw.len() implies #[trigger] tokens@[k] == resolved(
                raw[k],
                text@,
                grown,
            ) by {
                if raw[k].kind == TokenKind::Identifier {
                    assert(tokens@[k].kind == TokenKind::Identifier);
                    assert(names[tokens@[k].symbol as int] == token_text(text@, tokens@[k]));
                    assert(names.contains(token_text(text@, raw[k])));
                    lemma_position_extends(names, grown, token_text(text@, raw[k]));
                }
            }
            assert(symbols_resolve(tokens@, text@, grown));
        }
        tokens.push(t);
        proof {
            assert(lexed(text@, pos as int)[0] == found);
            assert(lexed(text@, 0)[raw.len() as int] == found);
            assert(lexed(text@, 0).len() > raw.len());
            raw = raw.push(found);
        }
        match t.kind {
            TokenKind::End | TokenKind::Invalid => {
                proof {
                    reveal(well_formed);
                    assert(lexed(text@, pos as int) =~= seq![found]);
                    assert(lexed(text@, 0) =~= raw);
                    assert(tokens@ =~= tokens_of(text@, interner.names()));
                }
                return tokens;
            },
            _ => {
                proof {
                    assert(lexed(text@, pos as int) =~= seq![found] + lexed(text@, t.end as int));
                    assert(lexed(text@, 0) =~= raw + lexed(text@, t.end as int));
                }
                pos = t.end;
            },
        }
    }
}

} // verus!
