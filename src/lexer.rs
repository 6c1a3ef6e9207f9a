use vstd::prelude::*;

use crate::commands::{command_operator, lookup_command};
use crate::error::{Error, ErrorKind};
use crate::span::Span;
use crate::text::{
    all_digit_chars, byte_offset, char_width, chars_of, digits_overflow, digits_value,
    overflow_threshold, is_alphabetic, is_ascii_digit, is_digit, is_letter,
    is_white_space, is_whitespace, lemma_byte_offset_full, lemma_byte_offset_mono,
    lemma_byte_offset_step, push_char, utf8_width,
};
use crate::token::{Token, TokenType};
use vstd::utf8::encode_utf8;

verus! {

/// Characters allowed in identifiers and command names.
pub open spec fn is_word_char(c: char) -> bool {
    is_letter(c) || c == '_'
}

/// Position of the first non-whitespace character at or after `i`.
pub open spec fn skip_ws(s: Seq<char>, i: int) -> int
    decreases s.len() - i,
{
    if 0 <= i < s.len() && is_white_space(s[i]) {
        skip_ws(s, i + 1)
    } else {
        i
    }
}

/// End of the longest run from `i` of digits and, unless one was already
/// taken, a single decimal point.
pub open spec fn number_end(s: Seq<char>, i: int, has_dot: bool) -> int
    decreases s.len() - i,
{
    if 0 <= i < s.len() && (is_digit(s[i]) || (s[i] == '.' && !has_dot)) {
        number_end(s, i + 1, has_dot || s[i] == '.')
    } else {
        i
    }
}

/// End of the longest run of word characters from `i`.
pub open spec fn word_end(s: Seq<char>, i: int) -> int
    decreases s.len() - i,
{
    if 0 <= i < s.len() && is_word_char(s[i]) {
        word_end(s, i + 1)
    } else {
        i
    }
}

pub open spec fn starts_number(c: char) -> bool {
    is_digit(c) || c == '.'
}

/// Operator or punctuation token for a single character.
pub open spec fn symbol_token(c: char) -> Option<TokenType> {
    if c == '+' {
        Some(TokenType::Plus)
    } else if c == '-' {
        Some(TokenType::Minus)
    } else if c == '*' {
        Some(TokenType::Mul)
    } else if c == '/' {
        Some(TokenType::Div)
    } else if c == '^' {
        Some(TokenType::Pow)
    } else if c == '(' {
        Some(TokenType::LParen)
    } else if c == ')' {
        Some(TokenType::RParen)
    } else if c == '{' {
        Some(TokenType::LBrace)
    } else if c == '}' {
        Some(TokenType::RBrace)
    } else if c == '=' {
        Some(TokenType::Equal)
    } else {
        None
    }
}

/// The digits before the decimal point of the number that starts at `k`.
pub open spec fn integer_digits(s: Seq<char>, k: int) -> Seq<char> {
    s.subrange(k, number_end(s, k, true))
}

/// Character index just past the lexeme that starts at `k` (`k < s.len()`).
pub open spec fn token_end(s: Seq<char>, k: int) -> int {
    let c = s[k];
    if starts_number(c) {
        number_end(s, k, false)
    } else if c == '\\' {
        word_end(s, k + 1)
    } else if is_letter(c) {
        word_end(s, k)
    } else {
        k + 1
    }
}

/// Whether scanning the lexeme that starts at `k` fails.
pub open spec fn scan_fails(s: Seq<char>, k: int) -> bool {
    let c = s[k];
    let e = token_end(s, k);
    if starts_number(c) {
        s.subrange(k, e) == seq!['.'] || digits_value(integer_digits(s, k)) >= overflow_threshold()
    } else if c == '\\' {
        command_operator(s.subrange(k + 1, e)) is None
    } else if is_letter(c) {
        false
    } else {
        symbol_token(c) is None
    }
}

/// `sp` covers the characters `a..b` of `s`, in bytes.
pub open spec fn covers(sp: Span, s: Seq<char>, a: int, b: int) -> bool {
    sp.start == byte_offset(s, a) && sp.end == byte_offset(s, b)
}

/// The token scanned at the non-blank position `k < s.len()`.
pub open spec fn token_at(s: Seq<char>, k: int, t: Token) -> bool {
    let c = s[k];
    let e = token_end(s, k);
    &&& covers(t.span, s, k, e)
    &&& if starts_number(c) {
        t.token_type matches TokenType::Number { text } && text@ == s.subrange(k, e)
    } else if c == '\\' {
        command_operator(s.subrange(k + 1, e)) == Some(t.token_type)
    } else if is_letter(c) {
        t.token_type matches TokenType::Identifier { name } && name@ == s.subrange(k, e)
    } else {
        symbol_token(c) == Some(t.token_type)
    }
}

/// The error reported when scanning fails at the non-blank position `k`.
pub open spec fn error_at(s: Seq<char>, k: int, err: Error) -> bool {
    let c = s[k];
    let e = token_end(s, k);
    &&& covers(err.span, s, k, e)
    &&& if starts_number(c) {
        err.kind is InvalidNumber
    } else if c == '\\' {
        err.kind matches ErrorKind::UnknownCommand(name) && name@ == s.subrange(k + 1, e)
    } else {
        err.kind == ErrorKind::UnexpectedCharacter(c)
    }
}

/// `r` is the outcome of scanning the lexeme at the non-blank position `k`.
pub open spec fn scanned(s: Seq<char>, k: int, r: Result<Token, Error>) -> bool {
    if scan_fails(s, k) {
        r matches Err(e) && error_at(s, k, e)
    } else {
        r matches Ok(t) && token_at(s, k, t)
    }
}

/// The end-of-input token at position `k`.
pub open spec fn end_token_at(s: Seq<char>, k: int, t: Token) -> bool {
    t.token_type is End && covers(t.span, s, k, k)
}

/// Scanning `s` from position `i` succeeds and yields exactly `toks`.
pub open spec fn lexes_from(s: Seq<char>, i: int, toks: Seq<Token>) -> bool
    decreases toks.len(),
{
    let k = skip_ws(s, i);
    if toks.len() == 0 {
        false
    } else if k >= s.len() {
        toks.len() == 1 && end_token_at(s, k, toks[0])
    } else {
        &&& !scan_fails(s, k)
        &&& token_at(s, k, toks[0])
        &&& lexes_from(s, token_end(s, k), toks.drop_first())
    }
}

/// Scanning `s` from position `i` fails, and `err` is the first error met.
pub open spec fn fails_from(s: Seq<char>, i: int, err: Error) -> bool
    decreases s.len() - i,
{
    let k = skip_ws(s, i);
    if k >= s.len() || k < i || i < 0 {
        false
    } else if scan_fails(s, k) {
        error_at(s, k, err)
    } else if token_end(s, k) <= k || token_end(s, k) > s.len() {
        false
    } else {
        fails_from(s, token_end(s, k), err)
    }
}

/// Scanning `s` from `i` yields the tokens `toks`, none of them the end, and
/// stops at position `j`.
pub open spec fn lexes_prefix(s: Seq<char>, i: int, toks: Seq<Token>, j: int) -> bool
    decreases toks.len(),
{
    if toks.len() == 0 {
        j == i
    } else {
        let k = skip_ws(s, i);
        &&& k < s.len()
        &&& !scan_fails(s, k)
        &&& token_at(s, k, toks[0])
        &&& lexes_prefix(s, token_end(s, k), toks.drop_first(), j)
    }
}

proof fn lemma_skip_ws_bounds(s: Seq<char>, i: int)
    requires
        0 <= i <= s.len(),
    ensures
        i <= skip_ws(s, i) <= s.len(),
    decreases s.len() - i,
{
    if 0 <= i < s.len() && is_white_space(s[i]) {
        lemma_skip_ws_bounds(s, i + 1);
    }
}

proof fn lemma_number_end_bounds(s: Seq<char>, i: int, d: bool)
    requires
        0 <= i <= s.len(),
    ensures
        i <= number_end(s, i, d) <= s.len(),
    decreases s.len() - i,
{
    if 0 <= i < s.len() && (is_digit(s[i]) || (s[i] == '.' && !d)) {
        lemma_number_end_bounds(s, i + 1, d || s[i] == '.');
    }
}

proof fn lemma_word_end_bounds(s: Seq<char>, i: int)
    requires
        0 <= i <= s.len(),
    ensures
        i <= word_end(s, i) <= s.len(),
    decreases s.len() - i,
{
    if 0 <= i < s.len() && is_word_char(s[i]) {
        lemma_word_end_bounds(s, i + 1);
    }
}

/// Every lexeme is at least one character long and lies inside the text.
pub proof fn lemma_token_end_bounds(s: Seq<char>, k: int)
    requires
        0 <= k < s.len(),
    ensures
        k < token_end(s, k) <= s.len(),
{
    let c = s[k];
    if starts_number(c) {
        lemma_number_end_bounds(s, k + 1, c == '.');
    } else if c == '\\' {
        lemma_word_end_bounds(s, k + 1);
    } else if is_letter(c) {
        lemma_word_end_bounds(s, k + 1);
    }
}

proof fn lemma_prefix_push(s: Seq<char>, i: int, toks: Seq<Token>, j: int, t: Token)
    requires
        lexes_prefix(s, i, toks, j),
        skip_ws(s, j) < s.len(),
        !scan_fails(s, skip_ws(s, j)),
        token_at(s, skip_ws(s, j), t),
    ensures
        lexes_prefix(s, i, toks.push(t), token_end(s, skip_ws(s, j))),
    decreases toks.len(),
{
    if toks.len() == 0 {
        let e = token_end(s, skip_ws(s, j));
        assert(toks.push(t).drop_first() =~= Seq::<Token>::empty());
        assert(toks.push(t)[0] == t);
        assert(lexes_prefix(s, e, Seq::<Token>::empty(), e));
    } else {
        let k = skip_ws(s, i);
        assert(toks.push(t).drop_first() =~= toks.drop_first().push(t));
        assert(toks.push(t)[0] == toks[0]);
        lemma_prefix_push(s, token_end(s, k), toks.drop_first(), j, t);
    }
}

proof fn lemma_prefix_then_lexes(s: Seq<char>, i: int, toks: Seq<Token>, j: int, rest: Seq<Token>)
    requires
        lexes_prefix(s, i, toks, j),
        lexes_from(s, j, rest),
    ensures
        lexes_from(s, i, toks + rest),
    decreases toks.len(),
{
    if toks.len() == 0 {
        assert(toks + rest =~= rest);
    } else {
        let k = skip_ws(s, i);
        assert((toks + rest).drop_first() =~= toks.drop_first() + rest);
        lemma_prefix_then_lexes(s, token_end(s, k), toks.drop_first(), j, rest);
    }
}

proof fn lemma_prefix_then_fails(s: Seq<char>, i: int, toks: Seq<Token>, j: int, e: Error)
    requires
        0 <= i <= s.len(),
        lexes_prefix(s, i, toks, j),
        fails_from(s, j, e),
    ensures
        fails_from(s, i, e),
    decreases toks.len(),
{
    if toks.len() > 0 {
        let k = skip_ws(s, i);
        lemma_skip_ws_bounds(s, i);
        lemma_token_end_bounds(s, k);
        lemma_prefix_then_fails(s, token_end(s, k), toks.drop_first(), j, e);
    }
}

/// Shape of every successful scan: one end token, last and zero-width; each
/// span ordered and inside `lo..=hi`; starts never decrease along the stream.
pub open spec fn token_stream_shape(toks: Seq<Token>, lo: int, hi: int) -> bool {
    &&& toks.len() >= 1
    &&& toks.last().token_type is End
    &&& toks.last().span.start == toks.last().span.end
    &&& forall|j: int| 0 <= j < toks.len() - 1 ==> !(#[trigger] toks[j].token_type is End)
    &&& forall|j: int|
        0 <= j < toks.len() ==> lo <= #[trigger] toks[j].span.start <= toks[j].span.end <= hi
    &&& forall|a: int, b: int|
        0 <= a <= b < toks.len() ==> #[trigger] toks[a].span.start <= #[trigger] toks[b].span.start
}

/// Whatever the text, a successful scan from position `i` ends with exactly
/// one end-of-input token of zero width, and every token's byte span lies
/// between the starting offset and the length of the encoded text, with
/// starts in non-decreasing order.
pub proof fn lemma_lex_shape(s: Seq<char>, i: int, toks: Seq<Token>)
    requires
        0 <= i <= s.len(),
        lexes_from(s, i, toks),
    ensures
        token_stream_shape(toks, byte_offset(s, i) as int, encode_utf8(s).len() as int),
    decreases toks.len(),
{
    let k = skip_ws(s, i);
    let hi = encode_utf8(s).len() as int;
    lemma_skip_ws_bounds(s, i);
    lemma_byte_offset_mono(s, i, k);
    lemma_byte_offset_mono(s, k, s.len() as int);
    lemma_byte_offset_full(s);
    if k < s.len() {
        let e = token_end(s, k);
        let rest = toks.drop_first();
        lemma_token_end_bounds(s, k);
        lemma_byte_offset_mono(s, k, e);
        lemma_lex_shape(s, e, rest);
        let t0 = toks[0];
        assert(!(t0.token_type is End));
        assert(toks.last() == rest.last());
        assert forall|j: int| 0 <= j < toks.len() - 1 implies !(#[trigger] toks[j].token_type is End) by {
            if j > 0 {
                assert(toks[j] == rest[j - 1]);
            }
        }
        assert forall|j: int| 0 <= j < toks.len() implies byte_offset(s, i) <= #[trigger] toks[j].span.start
            <= toks[j].span.end <= hi by {
            if j > 0 {
                assert(toks[j] == rest[j - 1]);
            }
        }
        assert forall|a: int, b: int| 0 <= a <= b < toks.len() implies #[trigger] toks[a].span.start
            <= #[trigger] toks[b].span.start by {
            if b > 0 {
                assert(toks[b] == rest[b - 1]);
                if a > 0 {
                    assert(toks[a] == rest[a - 1]);
                } else {
                    assert(rest[0].span.start <= rest[b - 1].span.start);
                }
            }
        }
    }
}

/// A text that scans successfully from `i` has no first error there: the
/// outcome of a scan is decided by the text alone.
pub proof fn lemma_lex_outcome_unique(s: Seq<char>, i: int, toks: Seq<Token>, err: Error)
    requires
        0 <= i <= s.len(),
        lexes_from(s, i, toks),
    ensures
        !fails_from(s, i, err),
    decreases toks.len(),
{
    let k = skip_ws(s, i);
    lemma_skip_ws_bounds(s, i);
    if k < s.len() {
        lemma_token_end_bounds(s, k);
        lemma_lex_outcome_unique(s, token_end(s, k), toks.drop_first(), err);
    }
}

/// Scanner over a source string. It walks the characters and keeps the byte
/// offset of the current one.
pub struct Lexer {
    input: String,
    chars: Vec<char>,
    pos: usize,
    byte_pos: usize,
}

impl Lexer {
    pub closed spec fn text(&self) -> Seq<char> {
        self.chars@
    }

    pub closed spec fn position(&self) -> int {
        self.pos as int
    }

    pub closed spec fn wf(&self) -> bool {
        &&& self.chars@ == self.input@
        &&& self.pos <= self.chars@.len()
        &&& self.byte_pos == byte_offset(self.chars@, self.pos as int)
        &&& encode_utf8(self.chars@).len() <= usize::MAX
    }

    pub fn new(input: &str) -> (r: Lexer)
        ensures
            r.wf(),
            r.text() == input@,
            r.position() == 0,
    {
        // The byte length is a usize, which bounds every byte offset below.
        let byte_len = input.as_bytes().len();
        let chars = chars_of(input);
        proof {
            assert(byte_len == encode_utf8(chars@).len());
            assert(chars@.take(0) =~= Seq::<char>::empty());
        }
        Lexer { input: input.to_owned(), chars, pos: 0, byte_pos: 0 }
    }

    pub fn source(&self) -> (r: &str)
        requires
            self.wf(),
        ensures
            r@ == self.text(),
    {
        self.input.as_str()
    }

    /// The character under the cursor, or NUL past the end.
    fn current(&self) -> (c: char)
        requires
            self.wf(),
        ensures
            self.pos < self.chars@.len() ==> c == self.chars@[self.pos as int],
    {
        if self.pos < self.chars.len() {
            self.chars[self.pos]
        } else {
            '\0'
        }
    }

    /// Moves the cursor one character on; at the end of the text the cursor
    /// and its byte offset stay where they are.
    fn advance(&mut self)
        requires
            old(self).wf(),
        ensures
            final(self).wf(),
            final(self).input == old(self).input,
            final(self).chars == old(self).chars,
            old(self).pos < old(self).chars@.len() ==> final(self).pos == old(self).pos + 1,
            old(self).pos < old(self).chars@.len() ==> final(self).byte_pos == old(self).byte_pos
                + char_width(old(self).chars@[old(self).pos as int]),
            old(self).pos >= old(self).chars@.len() ==> *final(self) == *old(self),
    {
        if self.pos >= self.chars.len() {
            return;
        }
        let c = self.chars[self.pos];
        let n = self.chars.len();
        assert(self.pos < n);
        proof {
            lemma_byte_offset_step(self.chars@, self.pos as int);
            lemma_byte_offset_mono(self.chars@, self.pos + 1, self.chars@.len() as int);
            lemma_byte_offset_full(self.chars@);
        }
        self.byte_pos = self.byte_pos + utf8_width(c);
        self.pos = self.pos + 1;
    }

    fn skip_whitespace(&mut self)
        requires
            old(self).wf(),
        ensures
            final(self).wf(),
            final(self).input == old(self).input,
            final(self).chars == old(self).chars,
            final(self).pos == skip_ws(old(self).chars@, old(self).pos as int),
    {
        while self.pos < self.chars.len() && is_whitespace(self.chars[self.pos])
            invariant
                self.wf(),
                self.input == old(self).input,
                self.chars == old(self).chars,
                skip_ws(self.chars@, self.pos as int) == skip_ws(
                    old(self).chars@,
                    old(self).pos as int,
                ),
            decreases self.chars@.len() - self.pos,
        {
            self.advance();
        }
    }

    /// Tokenizes the rest of the input: every token up to and including the
    /// end of input, or the first error met.
    pub fn lex(&mut self) -> (r: Result<Vec<Token>, Error>)
        requires
            old(self).wf(),
        ensures
            final(self).wf(),
            final(self).text() == old(self).text(),
            match r {
                Ok(toks) => lexes_from(old(self).text(), old(self).position(), toks@),
                Err(e) => fails_from(old(self).text(), old(self).position(), e),
            },
            r is Ok ==> token_stream_shape(
                r->Ok_0@,
                byte_offset(old(self).text(), old(self).position()) as int,
                encode_utf8(old(self).text()).len() as int,
            ),
    {
        let ghost s = self.chars@;
        let ghost origin = self.pos as int;
        let mut tokens: Vec<Token> = Vec::new();
        loop
            invariant
                self.wf(),
                self.input == old(self).input,
                self.chars == old(self).chars,
                s == self.chars@,
                origin == old(self).pos,
                lexes_prefix(s, origin, tokens@, self.pos as int),
            decreases self.chars@.len() - self.pos,
        {
            let ghost p = self.pos as int;
            proof {
                lemma_skip_ws_bounds(s, p);
            }
            match self.next_token() {
                Ok(token) => {
                    if matches!(token.token_type, TokenType::End) {
                        let ghost before = tokens@;
                        let ghost rest = seq![token];
                        proof {
                            assert(rest.drop_first() =~= Seq::<Token>::empty());
                            lemma_prefix_then_lexes(s, origin, before, p, rest);
                        }
                        tokens.push(token);
                        assert(tokens@ =~= before + rest);
                        proof {
                            lemma_lex_shape(s, origin, tokens@);
                        }
                        return Ok(tokens);
                    }
                    proof {
                        lemma_token_end_bounds(s, skip_ws(s, p));
                        lemma_prefix_push(s, origin, tokens@, p, token);
                    }
                    tokens.push(token);
                },
                Err(e) => {
                    proof {
                        lemma_prefix_then_fails(s, origin, tokens@, p, e);
                    }
                    return Err(e);
                },
            }
        }
    }

    fn next_token(&mut self) -> (r: Result<Token, Error>)
        requires
            old(self).wf(),
        ensures
            final(self).wf(),
            final(self).input == old(self).input,
            final(self).chars == old(self).chars,
            ({
                let s = old(self).chars@;
                let k = skip_ws(s, old(self).pos as int);
                if k >= s.len() {
                    (r matches Ok(t) && end_token_at(s, k, t))
                } else {
                    &&& scanned(s, k, r)
                    &&& final(self).pos == token_end(s, k)
                    &&& (r matches Ok(t) ==> !(t.token_type is End))
                }
            }),
    {
        self.skip_whitespace();
        let start = self.byte_pos;
        if self.pos >= self.chars.len() {
            return Ok(Token { token_type: TokenType::End, span: Span::new(start, start) });
        }
        let c = self.current();
        if is_ascii_digit(c) || c == '.' {
            self.lex_number()
        } else if c == '\\' {
            self.lex_command()
        } else if is_alphabetic(c) {
            Ok(self.lex_identifier())
        } else {
            match self.lex_symbol() {
                Some(token) => Ok(token),
                None => {
                    self.advance();
                    let end = self.byte_pos;
                    Err(Error { kind: ErrorKind::UnexpectedCharacter(c), span: Span::new(start, end) })
                },
            }
        }
    }

    fn lex_number(&mut self) -> (r: Result<Token, Error>)
        requires
            old(self).wf(),
            old(self).pos < old(self).chars@.len(),
            starts_number(old(self).chars@[old(self).pos as int]),
        ensures
            final(self).wf(),
            final(self).input == old(self).input,
            final(self).chars == old(self).chars,
            scanned(old(self).chars@, old(self).pos as int, r),
            final(self).pos == token_end(old(self).chars@, old(self).pos as int),
    {
        let ghost s = self.chars@;
        let start_pos = self.pos;
        let start = self.byte_pos;
        let mut text = String::new();
        while self.pos < self.chars.len() && is_ascii_digit(self.chars[self.pos])
            invariant
                self.wf(),
                self.input == old(self).input,
                self.chars == old(self).chars,
                s == self.chars@,
                start_pos <= self.pos,
                start == byte_offset(s, start_pos as int),
                text@ == s.subrange(start_pos as int, self.pos as int),
                number_end(s, self.pos as int, false) == number_end(s, start_pos as int, false),
                number_end(s, self.pos as int, true) == number_end(s, start_pos as int, true),
                all_digit_chars(s.subrange(start_pos as int, self.pos as int)),
            decreases self.chars@.len() - self.pos,
        {
            push_char(&mut text, self.chars[self.pos]);
            self.advance();
            assert(text@ =~= s.subrange(start_pos as int, self.pos as int));
            assert forall|i: int| 0 <= i < self.pos - start_pos implies is_digit(
                #[trigger] s.subrange(start_pos as int, self.pos as int)[i],
            ) by {
                if i < self.pos - 1 - start_pos {
                    assert(s.subrange(start_pos as int, self.pos as int)[i] == s.subrange(
                        start_pos as int,
                        self.pos - 1,
                    )[i]);
                }
            }
        }
        let int_end = self.pos;
        let mut has_dot = false;
        while self.pos < self.chars.len() && (is_ascii_digit(self.chars[self.pos]) || (
        self.chars[self.pos] == '.' && !has_dot))
            invariant
                self.wf(),
                self.input == old(self).input,
                self.chars == old(self).chars,
                s == self.chars@,
                start_pos <= self.pos,
                start == byte_offset(s, start_pos as int),
                text@ == s.subrange(start_pos as int, self.pos as int),
                number_end(s, self.pos as int, has_dot) == number_end(s, start_pos as int, false),
                start_pos <= int_end <= self.pos,
                int_end == number_end(s, start_pos as int, true),
                all_digit_chars(s.subrange(start_pos as int, int_end as int)),
            decreases self.chars@.len() - self.pos,
        {
            let c = self.chars[self.pos];
            if c == '.' {
                has_dot = true;
            }
            push_char(&mut text, c);
            self.advance();
            assert(text@ =~= s.subrange(start_pos as int, self.pos as int));
        }
        let end = self.byte_pos;
        if self.pos == start_pos + 1 && self.chars[start_pos] == '.' {
            assert(s.subrange(start_pos as int, self.pos as int) =~= seq!['.']);
            return Err(Error { kind: ErrorKind::InvalidNumber, span: Span::new(start, end) });
        }
        proof {
            if s.subrange(start_pos as int, self.pos as int) == seq!['.'] {
                assert(s.subrange(start_pos as int, self.pos as int)[0] == s[start_pos as int]);
            }
        }
        // A literal whose integer part reaches the overflow threshold would be
        // infinite as a double; any other literal is kept as written.
        if digits_overflow(&self.chars, start_pos, int_end) {
            return Err(Error { kind: ErrorKind::InvalidNumber, span: Span::new(start, end) });
        }
        Ok(Token { token_type: TokenType::Number { text }, span: Span::new(start, end) })
    }

    fn lex_word(&mut self) -> (r: String)
        requires
            old(self).wf(),
        ensures
            final(self).wf(),
            final(self).input == old(self).input,
            final(self).chars == old(self).chars,
            final(self).pos == word_end(old(self).chars@, old(self).pos as int),
            r@ == old(self).chars@.subrange(old(self).pos as int, final(self).pos as int),
    {
        let ghost s = self.chars@;
        let start_pos = self.pos;
        let mut word = String::new();
        while self.pos < self.chars.len() && (is_alphabetic(self.chars[self.pos])
            || self.chars[self.pos] == '_')
            invariant
                self.wf(),
                self.input == old(self).input,
                self.chars == old(self).chars,
                s == self.chars@,
                start_pos <= self.pos,
                word@ == s.subrange(start_pos as int, self.pos as int),
                word_end(s, self.pos as int) == word_end(s, start_pos as int),
            decreases self.chars@.len() - self.pos,
        {
            push_char(&mut word, self.chars[self.pos]);
            self.advance();
            assert(word@ =~= s.subrange(start_pos as int, self.pos as int));
        }
        word
    }

    fn lex_command(&mut self) -> (r: Result<Token, Error>)
        requires
            old(self).wf(),
            old(self).pos < old(self).chars@.len(),
            old(self).chars@[old(self).pos as int] == '\\',
        ensures
            final(self).wf(),
            final(self).input == old(self).input,
            final(self).chars == old(self).chars,
            scanned(old(self).chars@, old(self).pos as int, r),
            final(self).pos == token_end(old(self).chars@, old(self).pos as int),
    {
        let start = self.byte_pos;
        self.advance();
        let name = self.lex_word();
        let end = self.byte_pos;
        match lookup_command(&name) {
            Some(token_type) => Ok(Token { token_type, span: Span::new(start, end) }),
            None => Err(Error { kind: ErrorKind::UnknownCommand(name), span: Span::new(start, end) }),
        }
    }

    fn lex_identifier(&mut self) -> (t: Token)
        requires
            old(self).wf(),
            old(self).pos < old(self).chars@.len(),
            is_letter(old(self).chars@[old(self).pos as int]),
            !starts_number(old(self).chars@[old(self).pos as int]),
            old(self).chars@[old(self).pos as int] != '\\',
        ensures
            final(self).wf(),
            final(self).input == old(self).input,
            final(self).chars == old(self).chars,
            token_at(old(self).chars@, old(self).pos as int, t),
            final(self).pos == token_end(old(self).chars@, old(self).pos as int),
    {
        let start = self.byte_pos;
        let name = self.lex_word();
        let end = self.byte_pos;
        Token { token_type: TokenType::Identifier { name }, span: Span::new(start, end) }
    }

    fn lex_symbol(&mut self) -> (r: Option<Token>)
        requires
            old(self).wf(),
            old(self).pos < old(self).chars@.len(),
        ensures
            final(self).wf(),
            final(self).input == old(self).input,
            final(self).chars == old(self).chars,
            match r {
                Some(t) => {
                    &&& symbol_token(old(self).chars@[old(self).pos as int]) == Some(t.token_type)
                    &&& covers(t.span, old(self).chars@, old(self).pos as int, old(self).pos + 1)
                    &&& final(self).pos == old(self).pos + 1
                },
                None => {
                    &&& symbol_token(old(self).chars@[old(self).pos as int]) is None
                    &&& *final(self) == *old(self)
                },
            },
    {
        let start = self.byte_pos;
        let token_type = match self.current() {
            '+' => TokenType::Plus,
            '-' => TokenType::Minus,
            '*' => TokenType::Mul,
            '/' => TokenType::Div,
            '^' => TokenType::Pow,
            '(' => TokenType::LParen,
            ')' => TokenType::RParen,
            '{' => TokenType::LBrace,
            '}' => TokenType::RBrace,
            '=' => TokenType::Equal,
            _ => {
                return None;
            },
        };
        self.advance();
        let end = self.byte_pos;
        Some(Token { token_type, span: Span::new(start, end) })
    }
}

} // verus!
