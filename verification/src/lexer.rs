//! Turning an input string into tokens.
use vstd::prelude::*;
use vstd::utf8::{encode_utf8, encode_scalar};
use crate::token::{Token, TokenView, tokens_view, string_from_chars};
use crate::error::{ParseError, ParseErrorView};

verus! {

/// Whitespace that separates tokens.
pub open spec fn is_space(c: char) -> bool {
    c == ' ' || c == '\t' || c == '\n' || c == '\r'
}

/// An ASCII decimal digit.
pub open spec fn is_digit(c: char) -> bool {
    '0' <= c && c <= '9'
}

/// A character that may start an identifier.
pub open spec fn is_ident_start(c: char) -> bool {
    ('a' <= c && c <= 'z') || ('A' <= c && c <= 'Z') || c == '_'
}

/// A character that may continue an identifier.
pub open spec fn is_ident_char(c: char) -> bool {
    is_ident_start(c) || is_digit(c)
}

/// The token that a single character stands for, if it stands for one by itself.
pub open spec fn punct_token(c: char) -> Option<TokenView> {
    if c == '+' {
        Some(TokenView::Plus)
    } else if c == '-' {
        Some(TokenView::Minus)
    } else if c == '*' {
        Some(TokenView::Star)
    } else if c == '/' {
        Some(TokenView::Slash)
    } else if c == '^' {
        Some(TokenView::Caret)
    } else if c == ',' {
        Some(TokenView::Comma)
    } else if c == '(' {
        Some(TokenView::LParen)
    } else if c == ')' {
        Some(TokenView::RParen)
    } else if c == 'd' || c == 'D' {
        Some(TokenView::D)
    } else {
        None
    }
}

/// Where a numeral that has reached position `i` ends: it takes digits,
/// and one `.` unless it has taken one already.
pub open spec fn numeral_end(s: Seq<char>, i: int, seen_dot: bool) -> int
    decreases s.len() - i,
{
    if 0 <= i < s.len() && is_digit(s[i]) {
        numeral_end(s, i + 1, seen_dot)
    } else if 0 <= i < s.len() && s[i] == '.' && !seen_dot {
        numeral_end(s, i + 1, true)
    } else {
        i
    }
}

/// Where an identifier that has reached position `i` ends.
pub open spec fn ident_end(s: Seq<char>, i: int) -> int
    decreases s.len() - i,
{
    if 0 <= i < s.len() && is_ident_char(s[i]) {
        ident_end(s, i + 1)
    } else {
        i
    }
}

/// The byte offset, in the UTF-8 encoding of `s`, of the character at position `i`
/// (the length of the whole encoding when `i` is at the end), capped at `usize::MAX`.
pub open spec fn byte_offset(s: Seq<char>, i: int) -> usize {
    let n = encode_utf8(s.take(i)).len();
    if n <= usize::MAX {
        n as usize
    } else {
        usize::MAX
    }
}

/// `ts` followed by the tokens of `r`, or the error of `r`.
pub open spec fn prepend_tokens(
    ts: Seq<TokenView>,
    r: Result<Seq<TokenView>, ParseErrorView>,
) -> Result<Seq<TokenView>, ParseErrorView> {
    match r {
        Ok(rest) => Ok(ts + rest),
        Err(e) => Err(e),
    }
}

/// A numeral ends no earlier than it starts and no later than the input.
pub proof fn lemma_numeral_end(s: Seq<char>, i: int, seen_dot: bool)
    requires
        0 <= i <= s.len(),
    ensures
        i <= numeral_end(s, i, seen_dot) <= s.len(),
    decreases s.len() - i,
{
    if i < s.len() && (is_digit(s[i]) || (s[i] == '.' && !seen_dot)) {
        lemma_numeral_end(s, i + 1, if is_digit(s[i]) { seen_dot } else { true });
    }
}

/// An identifier ends no earlier than it starts and no later than the input.
pub proof fn lemma_ident_end(s: Seq<char>, i: int)
    requires
        0 <= i <= s.len(),
    ensures
        i <= ident_end(s, i) <= s.len(),
    decreases s.len() - i,
{
    if i < s.len() && is_ident_char(s[i]) {
        lemma_ident_end(s, i + 1);
    }
}

/// The tokens of `s` from position `i` on, ending with `Eof`, or the first lexical error.
pub open spec fn tokenize_from(s: Seq<char>, i: int) -> Result<Seq<TokenView>, ParseErrorView>
    decreases s.len() - i,
{
    if i < 0 || i >= s.len() {
        Ok(seq![TokenView::Eof])
    } else if is_space(s[i]) {
        tokenize_from(s, i + 1)
    } else if punct_token(s[i]) is Some {
        prepend_tokens(seq![punct_token(s[i])->0], tokenize_from(s, i + 1))
    } else if is_digit(s[i]) || s[i] == '.' {
        let j = numeral_end(s, i, false);
        proof {
            lemma_numeral_end(s, i + 1, s[i] == '.');
        }
        if j == i + 1 && s[i] == '.' {
            Err(ParseErrorView::UnexpectedChar { ch: '.', index: byte_offset(s, i) })
        } else {
            prepend_tokens(seq![TokenView::Number(s.subrange(i, j))], tokenize_from(s, j))
        }
    } else if is_ident_start(s[i]) {
        let j = ident_end(s, i + 1);
        proof {
            lemma_ident_end(s, i + 1);
        }
        prepend_tokens(seq![TokenView::Ident(s.subrange(i, j))], tokenize_from(s, j))
    } else {
        Err(ParseErrorView::UnexpectedChar { ch: s[i], index: byte_offset(s, i) })
    }
}

/// Prepending two runs of tokens one after the other is prepending them joined.
proof fn lemma_prepend_tokens_assoc(
    a: Seq<TokenView>,
    b: Seq<TokenView>,
    r: Result<Seq<TokenView>, ParseErrorView>,
)
    ensures
        prepend_tokens(a, prepend_tokens(b, r)) == prepend_tokens(a + b, r),
{
    if let Ok(rest) = r {
        assert(a + (b + rest) =~= (a + b) + rest);
    }
}

/// A numeral as the lexer reads it: digits and at most one `.`, and not a lone `.`.
pub open spec fn is_numeral(n: Seq<char>) -> bool {
    &&& n.len() >= 1
    &&& n != seq!['.']
    &&& forall|k: int| 0 <= k < n.len() ==> is_digit(#[trigger] n[k]) || n[k] == '.'
    &&& forall|k1: int, k2: int|
        0 <= k1 < k2 < n.len() && #[trigger] n[k1] == '.' ==> #[trigger] n[k2] != '.'
}

/// An identifier: a letter or `_`, then letters, digits and `_`.
pub open spec fn is_identifier(x: Seq<char>) -> bool {
    &&& x.len() >= 1
    &&& is_ident_start(x[0])
    &&& forall|k: int| 0 <= k < x.len() ==> is_ident_char(#[trigger] x[k])
}

/// A well-formed token stream: exactly one `Eof`, at the end, and well-formed numerals and names.
pub open spec fn is_token_stream(ts: Seq<TokenView>) -> bool {
    &&& ts.len() >= 1
    &&& ts.last() is Eof
    &&& forall|j: int| 0 <= j < ts.len() - 1 ==> !(#[trigger] ts[j] is Eof)
    &&& forall|j: int| 0 <= j < ts.len() ==> (#[trigger] ts[j] matches TokenView::Number(n) ==> is_numeral(n))
    &&& forall|j: int| 0 <= j < ts.len() ==> (#[trigger] ts[j] matches TokenView::Ident(x) ==> is_identifier(x))
}

/// The characters of a numeral are digits and at most one `.`.
proof fn lemma_numeral_chars(s: Seq<char>, i: int, seen_dot: bool)
    requires
        0 <= i <= s.len(),
    ensures
        forall|k: int| i <= k < numeral_end(s, i, seen_dot) ==> is_digit(#[trigger] s[k]) || s[k] == '.',
        seen_dot ==> forall|k: int| i <= k < numeral_end(s, i, seen_dot) ==> #[trigger] s[k] != '.',
        forall|k1: int, k2: int|
            i <= k1 < k2 < numeral_end(s, i, seen_dot) && #[trigger] s[k1] == '.' ==> #[trigger] s[k2] != '.',
    decreases s.len() - i,
{
    lemma_numeral_end(s, i, seen_dot);
    if i < s.len() && is_digit(s[i]) {
        lemma_numeral_chars(s, i + 1, seen_dot);
    } else if i < s.len() && s[i] == '.' && !seen_dot {
        lemma_numeral_chars(s, i + 1, true);
    }
}

/// The characters of an identifier after its first are letters, digits and `_`.
proof fn lemma_ident_chars(s: Seq<char>, i: int)
    requires
        0 <= i <= s.len(),
    ensures
        forall|k: int| i <= k < ident_end(s, i) ==> is_ident_char(#[trigger] s[k]),
    decreases s.len() - i,
{
    if i < s.len() && is_ident_char(s[i]) {
        lemma_ident_chars(s, i + 1);
    }
}

/// A token other than `Eof` in front of a well-formed stream makes a well-formed stream.
proof fn lemma_stream_cons(t: TokenView, rest: Seq<TokenView>)
    requires
        is_token_stream(rest),
        !(t is Eof),
        t matches TokenView::Number(n) ==> is_numeral(n),
        t matches TokenView::Ident(x) ==> is_identifier(x),
    ensures
        is_token_stream(seq![t] + rest),
{
    let ts = seq![t] + rest;
    assert(ts.last() == rest.last());
    assert forall|j: int| 0 <= j < ts.len() implies (#[trigger] ts[j] matches TokenView::Number(n) ==> is_numeral(n)) by {
        if j > 0 {
            assert(ts[j] == rest[j - 1]);
        }
    }
    assert forall|j: int| 0 <= j < ts.len() implies (#[trigger] ts[j] matches TokenView::Ident(x) ==> is_identifier(x)) by {
        if j > 0 {
            assert(ts[j] == rest[j - 1]);
        }
    }
    assert forall|j: int| 0 <= j < ts.len() - 1 implies !(#[trigger] ts[j] is Eof) by {
        if j > 0 {
            assert(ts[j] == rest[j - 1]);
        }
    }
}

/// Whatever the lexer produces is a well-formed token stream: it ends with the only `Eof`,
/// every numeral is digits with at most one `.`, and every name is an identifier.
pub proof fn lemma_tokenize_shape(s: Seq<char>, i: int)
    ensures
        tokenize_from(s, i) matches Ok(ts) ==> is_token_stream(ts),
    decreases s.len() - i,
{
    if i < 0 || i >= s.len() {
        assert(is_token_stream(seq![TokenView::Eof]));
    } else if is_space(s[i]) {
        lemma_tokenize_shape(s, i + 1);
    } else if punct_token(s[i]) is Some {
        lemma_tokenize_shape(s, i + 1);
        if let Ok(rest) = tokenize_from(s, i + 1) {
            lemma_stream_cons(punct_token(s[i])->0, rest);
        }
    } else if is_digit(s[i]) || s[i] == '.' {
        let j = numeral_end(s, i, false);
        lemma_numeral_end(s, i + 1, s[i] == '.');
        if !(j == i + 1 && s[i] == '.') {
            lemma_tokenize_shape(s, j);
            lemma_numeral_chars(s, i, false);
            let n = s.subrange(i, j);
            assert forall|k: int| 0 <= k < n.len() implies is_digit(#[trigger] n[k]) || n[k] == '.' by {
                assert(n[k] == s[i + k]);
            }
            assert forall|k1: int, k2: int|
                0 <= k1 < k2 < n.len() && #[trigger] n[k1] == '.' implies #[trigger] n[k2] != '.' by {
                assert(n[k1] == s[i + k1]);
                assert(n[k2] == s[i + k2]);
            }
            if n == seq!['.'] {
                assert(n.len() == 1);
                assert(n[0] == s[i]);
            }
            if let Ok(rest) = tokenize_from(s, j) {
                lemma_stream_cons(TokenView::Number(n), rest);
            }
        }
    } else if is_ident_start(s[i]) {
        let j = ident_end(s, i + 1);
        lemma_ident_end(s, i + 1);
        lemma_ident_chars(s, i + 1);
        lemma_tokenize_shape(s, j);
        let x = s.subrange(i, j);
        assert forall|k: int| 0 <= k < x.len() implies is_ident_char(#[trigger] x[k]) by {
            assert(x[k] == s[i + k]);
        }
        if let Ok(rest) = tokenize_from(s, j) {
            lemma_stream_cons(TokenView::Ident(x), rest);
        }
    }
}

/// The tokens of a whole string, ending with `Eof`, or the first lexical error.
pub open spec fn spec_tokenize(s: Seq<char>) -> Result<Seq<TokenView>, ParseErrorView> {
    tokenize_from(s, 0)
}

/// The view of what the lexer returns.
pub open spec fn lex_result_view(r: Result<Vec<Token>, ParseError>) -> Result<
    Seq<TokenView>,
    ParseErrorView,
> {
    match r {
        Ok(v) => Ok(tokens_view(v@)),
        Err(e) => Err(e@),
    }
}

/// The UTF-8 encoding of a sequence split in two is the two encodings one after the other.
pub proof fn lemma_encode_utf8_concat(a: Seq<char>, b: Seq<char>)
    ensures
        encode_utf8(a + b) == encode_utf8(a) + encode_utf8(b),
    decreases a.len(),
{
    if a.len() == 0 {
        assert(a + b =~= b);
        assert(encode_utf8(a) =~= Seq::<u8>::empty());
        assert(encode_utf8(a) + encode_utf8(b) =~= encode_utf8(b));
    } else {
        lemma_encode_utf8_concat(a.drop_first(), b);
        assert((a + b).drop_first() =~= a.drop_first() + b);
        assert((a + b)[0] == a[0]);
        assert(encode_utf8(a + b) =~= encode_scalar(a[0] as u32) + encode_utf8(a.drop_first() + b));
        assert(encode_utf8(a) + encode_utf8(b) =~= encode_scalar(a[0] as u32) + (encode_utf8(
            a.drop_first(),
        ) + encode_utf8(b)));
    }
}

/// The number of bytes in the UTF-8 encoding of `c`.
fn char_utf8_len(c: char) -> (n: usize)
    ensures
        n == encode_scalar(c as u32).len(),
{
    let v = c as u32;
    if v <= 0x7f {
        1
    } else if v <= 0x7ff {
        2
    } else if v <= 0xffff {
        proof {
            vstd::utf8::char_is_scalar(c);
        }
        3
    } else {
        4
    }
}

/// Turns an input string into tokens.
pub struct Lexer<'a> {
    input: &'a str,
    chars: Vec<char>,
    index: usize,
}

impl<'a> Lexer<'a> {
    #[verifier::type_invariant]
    spec fn inv(self) -> bool {
        &&& self.chars@ == self.input@
        &&& self.index <= self.chars.len()
    }

    /// The characters of the input.
    pub closed spec fn source(self) -> Seq<char> {
        self.input@
    }

    /// The position, in characters, that the lexer has reached.
    pub closed spec fn position(self) -> int {
        self.index as int
    }

    /// A lexer at the start of `input`.
    pub fn new(input: &'a str) -> (l: Self)
        ensures
            l.source() == input@,
            l.position() == 0,
    {
        broadcast use vstd::string::group_string_axioms;

        let mut chars: Vec<char> = Vec::new();
        for c in it: input.chars()
            invariant
                chars@ == it.seq().take(it.index()),
        {
            chars.push(c);
        }
        assert(chars@ =~= input@);
        Self { input, chars, index: 0 }
    }

    /// The tokens of the input from the lexer's position on, ending with `Eof`,
    /// or the first lexical error.
    pub fn tokenize(self) -> (r: Result<Vec<Token>, ParseError>)
        ensures
            lex_result_view(r) == tokenize_from(self.source(), self.position()),
    {
        let mut lexer = self;
        proof {
            use_type_invariant(&lexer);
        }
        let ghost s = lexer.chars@;
        let ghost p0 = lexer.index as int;
        let mut tokens: Vec<Token> = Vec::new();
        assert(tokens_view(tokens@) =~= Seq::<TokenView>::empty());
        assert(prepend_tokens(Seq::<TokenView>::empty(), tokenize_from(s, p0)) =~= tokenize_from(s, p0));

        loop
            invariant
                s == lexer.source(),
                s == self.source(),
                p0 == self.position(),
                p0 <= lexer.index <= s.len(),
                tokenize_from(s, p0) == prepend_tokens(tokens_view(tokens@), tokenize_from(s, lexer.index as int)),
            ensures
                lexer.index == s.len(),
                tokenize_from(s, p0) == prepend_tokens(tokens_view(tokens@), tokenize_from(s, lexer.index as int)),
            decreases s.len() - lexer.index,
        {
            proof {
                use_type_invariant(&lexer);
            }
            assert(lexer.chars.len() == s.len());
            let i = lexer.index;
            let ch = match lexer.peek() {
                None => break,
                Some(ch) => ch,
            };
            let ghost before = tokens_view(tokens@);
            if ch == ' ' || ch == '\t' || ch == '\n' || ch == '\r' {
                lexer.index = i + 1;
            } else if ch == '+' || ch == '-' || ch == '*' || ch == '/' || ch == '^' || ch == ','
                || ch == '(' || ch == ')' || ch == 'd' || ch == 'D' {
                let t = if ch == '+' {
                    Token::Plus
                } else if ch == '-' {
                    Token::Minus
                } else if ch == '*' {
                    Token::Star
                } else if ch == '/' {
                    Token::Slash
                } else if ch == '^' {
                    Token::Caret
                } else if ch == ',' {
                    Token::Comma
                } else if ch == '(' {
                    Token::LParen
                } else if ch == ')' {
                    Token::RParen
                } else {
                    Token::D
                };
                lexer.index = i + 1;
                tokens.push(t);
                assert(tokens_view(tokens@) =~= before + seq![t@]);
                proof {
                    use_type_invariant(&lexer);
                    lemma_numeral_end(s, i + 1, false);
                    lemma_numeral_end(s, i + 1, true);
                    lemma_ident_end(s, i + 1);
                    lemma_prepend_tokens_assoc(before, seq![t@], tokenize_from(s, lexer.index as int));
                }
            } else if ('0' <= ch && ch <= '9') || ch == '.' {
                let t = match lexer.lex_number() {
                    Ok(t) => t,
                    Err(e) => return Err(e),
                };
                tokens.push(t);
                assert(tokens_view(tokens@) =~= before + seq![t@]);
                proof {
                    use_type_invariant(&lexer);
                    lemma_numeral_end(s, i + 1, false);
                    lemma_numeral_end(s, i + 1, true);
                    lemma_ident_end(s, i + 1);
                    lemma_prepend_tokens_assoc(before, seq![t@], tokenize_from(s, lexer.index as int));
                }
            } else if ('a' <= ch && ch <= 'z') || ('A' <= ch && ch <= 'Z') || ch == '_' {
                let t = lexer.lex_ident();
                tokens.push(t);
                assert(tokens_view(tokens@) =~= before + seq![t@]);
                proof {
                    use_type_invariant(&lexer);
                    lemma_numeral_end(s, i + 1, false);
                    lemma_numeral_end(s, i + 1, true);
                    lemma_ident_end(s, i + 1);
                    lemma_prepend_tokens_assoc(before, seq![t@], tokenize_from(s, lexer.index as int));
                }
            } else {
                let index = lexer.byte_index();
                assert(punct_token(ch) is None);
                assert(tokenize_from(s, i as int) == Err::<Seq<TokenView>, ParseErrorView>(ParseErrorView::UnexpectedChar { ch, index }));
                let e = ParseError::UnexpectedChar { ch, index };
                assert(tokenize_from(s, p0) == Err::<Seq<TokenView>, ParseErrorView>(e@));
                return Err(e);
            }
        }
        let ghost before = tokens_view(tokens@);
        tokens.push(Token::Eof);
        assert(tokens_view(tokens@) =~= before + seq![TokenView::Eof]);
        Ok(tokens)
    }

    /// Reads a numeral: digits with at most one `.`. A lone `.` is an error at the `.`.
    fn lex_number(&mut self) -> (r: Result<Token, ParseError>)
        requires
            old(self).position() < old(self).source().len(),
            is_digit(old(self).source()[old(self).position()]) || old(self).source()[old(
                self,
            ).position()] == '.',
        ensures
            final(self).source() == old(self).source(),
            ({
                let s = old(self).source();
                let i = old(self).position();
                let j = numeral_end(s, i, false);
                if j == i + 1 && s[i] == '.' {
                    r is Err && r->Err_0@ == ParseErrorView::UnexpectedChar {
                        ch: '.',
                        index: byte_offset(s, i),
                    }
                } else {
                    r is Ok && r->Ok_0@ == TokenView::Number(s.subrange(i, j))
                        && final(self).position() == j
                }
            }),
    {
        proof {
            use_type_invariant(&*self);
        }
        let ghost s = self.chars@;
        let start = self.index;
        let mut seen_dot = false;
        let mut text: Vec<char> = Vec::new();
        loop
            invariant
                s == self.chars@,
                s == self.source(),
                s.len() == self.chars.len(),
                start <= self.index <= s.len(),
                start < s.len(),
                numeral_end(s, start as int, false) == numeral_end(s, self.index as int, seen_dot),
                text@ == s.subrange(start as int, self.index as int),
            ensures
                s == self.chars@,
                s == self.source(),
                s.len() == self.chars.len(),
                start <= self.index <= s.len(),
                numeral_end(s, start as int, false) == self.index,
                text@ == s.subrange(start as int, self.index as int),
            decreases s.len() - self.index,
        {
            proof {
                use_type_invariant(&*self);
            }
            let i = self.index;
            match self.peek() {
                Some(ch) => {
                    if '0' <= ch && ch <= '9' {
                        self.index = i + 1;
                        text.push(ch);
                    } else if ch == '.' && !seen_dot {
                        seen_dot = true;
                        self.index = i + 1;
                        text.push(ch);
                    } else {
                        break;
                    }
                },
                None => break,
            }
            assert(text@ =~= s.subrange(start as int, self.index as int));
        }
        proof {
            use_type_invariant(&*self);
        }
        if self.index == start + 1 && self.chars[start] == '.' {
            self.index = start;
            return Err(ParseError::UnexpectedChar { ch: '.', index: self.byte_index() });
        }
        Ok(Token::Number(string_from_chars(&text)))
    }

    /// Reads an identifier: a letter or `_`, then letters, digits and `_`.
    fn lex_ident(&mut self) -> (t: Token)
        requires
            old(self).position() < old(self).source().len(),
            is_ident_start(old(self).source()[old(self).position()]),
        ensures
            final(self).source() == old(self).source(),
            ({
                let s = old(self).source();
                let i = old(self).position();
                let j = ident_end(s, i + 1);
                t@ == TokenView::Ident(s.subrange(i, j)) && final(self).position() == j
            }),
    {
        proof {
            use_type_invariant(&*self);
        }
        let ghost s = self.chars@;
        let start = self.index;
        let mut text: Vec<char> = Vec::new();
        assert(start < self.chars.len());
        text.push(self.chars[start]);
        self.index = start + 1;
        assert(text@ =~= s.subrange(start as int, self.index as int));
        loop
            invariant
                s == self.chars@,
                s == self.source(),
                s.len() == self.chars.len(),
                start < self.index <= s.len(),
                ident_end(s, start + 1) == ident_end(s, self.index as int),
                text@ == s.subrange(start as int, self.index as int),
            ensures
                s == self.chars@,
                s == self.source(),
                start < self.index <= s.len(),
                ident_end(s, start + 1) == self.index,
                text@ == s.subrange(start as int, self.index as int),
            decreases s.len() - self.index,
        {
            proof {
                use_type_invariant(&*self);
            }
            let i = self.index;
            match self.peek() {
                Some(ch) => {
                    if ('a' <= ch && ch <= 'z') || ('A' <= ch && ch <= 'Z') || ch == '_' || ('0'
                        <= ch && ch <= '9') {
                        self.index = i + 1;
                        text.push(ch);
                    } else {
                        break;
                    }
                },
                None => break,
            }
            assert(text@ =~= s.subrange(start as int, self.index as int));
        }
        Token::Ident(string_from_chars(&text))
    }

    /// The character at the lexer's position, if the input has not ended.
    pub fn peek(&self) -> (c: Option<char>)
        ensures
            c == (if self.position() < self.source().len() {
                Some(self.source()[self.position()])
            } else {
                None
            }),
    {
        proof {
            use_type_invariant(self);
        }
        if self.index < self.chars.len() {
            Some(self.chars[self.index])
        } else {
            None
        }
    }

    /// The byte offset in the input of the lexer's position.
    pub fn byte_index(&self) -> (n: usize)
        ensures
            n == byte_offset(self.source(), self.position()),
    {
        proof {
            use_type_invariant(self);
        }
        let ghost s = self.chars@;
        let mut total: usize = 0;
        let mut k: usize = 0;
        assert(s.take(0) =~= Seq::<char>::empty());
        while k < self.index
            invariant
                s == self.chars@,
                k <= self.index <= s.len(),
                total == byte_offset(s, k as int),
            decreases self.index - k,
        {
            let c = self.chars[k];
            let w = char_utf8_len(c);
            proof {
                lemma_encode_utf8_concat(s.take(k as int), seq![c]);
                assert(s.take(k + 1) =~= s.take(k as int) + seq![c]);
                assert(seq![c].drop_first() =~= Seq::<char>::empty());
                assert(encode_utf8(seq![c]) =~= encode_scalar(c as u32) + encode_utf8(Seq::<char>::empty()));
            }
            total = total.saturating_add(w);
            k = k + 1;
        }
        total
    }
}

} // verus!

verus! {

/// `b` reads as `a` does but for spacing: each character is the same, or both are whitespace,
/// and `b` may go on with whitespace after `a` ends.
pub open spec fn same_but_spacing(a: Seq<char>, b: Seq<char>) -> bool {
    &&& a.len() <= b.len()
    &&& forall|k: int| 0 <= k < a.len() ==> (#[trigger] a[k] == b[k] || (is_space(a[k]) && is_space(b[k])))
    &&& forall|k: int| a.len() <= k < b.len() ==> is_space(#[trigger] b[k])
}

/// Sequences that differ only in which whitespace characters they hold have encodings of one length.
proof fn lemma_spacing_encoding_len(x: Seq<char>, y: Seq<char>)
    requires
        x.len() == y.len(),
        forall|k: int| 0 <= k < x.len() ==> (#[trigger] x[k] == y[k] || (is_space(x[k]) && is_space(y[k]))),
    ensures
        encode_utf8(x).len() == encode_utf8(y).len(),
    decreases x.len(),
{
    if x.len() > 0 {
        assert forall|k: int| 0 <= k < x.drop_first().len() implies (#[trigger] x.drop_first()[k] == y.drop_first()[k]
            || (is_space(x.drop_first()[k]) && is_space(y.drop_first()[k]))) by {
            assert(x.drop_first()[k] == x[k + 1]);
            assert(y.drop_first()[k] == y[k + 1]);
        }
        lemma_spacing_encoding_len(x.drop_first(), y.drop_first());
        if x[0] != y[0] {
            assert(encode_scalar(x[0] as u32).len() == 1);
            assert(encode_scalar(y[0] as u32).len() == 1);
        }
    }
}

/// Numerals end at the same place in both.
proof fn lemma_numeral_end_spacing(a: Seq<char>, b: Seq<char>, i: int, seen_dot: bool)
    requires
        same_but_spacing(a, b),
        0 <= i <= a.len(),
    ensures
        numeral_end(a, i, seen_dot) == numeral_end(b, i, seen_dot),
    decreases a.len() - i,
{
    if i < a.len() {
        assert(a[i] == b[i] || (is_space(a[i]) && is_space(b[i])));
        if is_digit(a[i]) {
            lemma_numeral_end_spacing(a, b, i + 1, seen_dot);
        } else if a[i] == '.' && !seen_dot {
            lemma_numeral_end_spacing(a, b, i + 1, true);
        }
    } else if i < b.len() {
        assert(is_space(b[i]));
    }
}

/// Identifiers end at the same place in both.
proof fn lemma_ident_end_spacing(a: Seq<char>, b: Seq<char>, i: int)
    requires
        same_but_spacing(a, b),
        0 <= i <= a.len(),
    ensures
        ident_end(a, i) == ident_end(b, i),
    decreases a.len() - i,
{
    if i < a.len() {
        assert(a[i] == b[i] || (is_space(a[i]) && is_space(b[i])));
        if is_ident_char(a[i]) {
            lemma_ident_end_spacing(a, b, i + 1);
        }
    } else if i < b.len() {
        assert(is_space(b[i]));
    }
}

/// Byte offsets up to position `i` agree in both.
proof fn lemma_byte_offset_spacing(a: Seq<char>, b: Seq<char>, i: int)
    requires
        same_but_spacing(a, b),
        0 <= i <= a.len(),
    ensures
        byte_offset(a, i) == byte_offset(b, i),
{
    assert forall|k: int| 0 <= k < a.take(i).len() implies (#[trigger] a.take(i)[k] == b.take(i)[k] || (
    is_space(a.take(i)[k]) && is_space(b.take(i)[k]))) by {
        assert(a[k] == b[k] || (is_space(a[k]) && is_space(b[k])));
    }
    lemma_spacing_encoding_len(a.take(i), b.take(i));
}

/// Lexing from position `i` on gives the same in both.
proof fn lemma_tokenize_from_spacing(a: Seq<char>, b: Seq<char>, i: int)
    requires
        same_but_spacing(a, b),
        0 <= i,
    ensures
        tokenize_from(a, i) == tokenize_from(b, i),
    decreases b.len() - i,
{
    if i >= b.len() {
    } else if i >= a.len() {
        assert(is_space(b[i]));
        lemma_tokenize_from_spacing(a, b, i + 1);
    } else {
        assert(a[i] == b[i] || (is_space(a[i]) && is_space(b[i])));
        if is_space(a[i]) {
            lemma_tokenize_from_spacing(a, b, i + 1);
        } else if punct_token(a[i]) is Some {
            lemma_tokenize_from_spacing(a, b, i + 1);
        } else if is_digit(a[i]) || a[i] == '.' {
            let j = numeral_end(a, i, false);
            lemma_numeral_end_spacing(a, b, i, false);
            lemma_numeral_end(a, i, false);
            lemma_byte_offset_spacing(a, b, i);
            lemma_numeral_chars(a, i, false);
            assert forall|k: int| i <= k < j implies a[k] == b[k] by {
                assert(is_digit(a[k]) || a[k] == '.');
                assert(a[k] == b[k] || (is_space(a[k]) && is_space(b[k])));
            }
            assert(a.subrange(i, j) =~= b.subrange(i, j));
            if !(j == i + 1 && a[i] == '.') {
                lemma_numeral_end(a, i + 1, a[i] == '.');
                lemma_tokenize_from_spacing(a, b, j);
            }
        } else if is_ident_start(a[i]) {
            let j = ident_end(a, i + 1);
            lemma_ident_end_spacing(a, b, i + 1);
            lemma_ident_end(a, i + 1);
            lemma_ident_chars(a, i + 1);
            assert forall|k: int| i <= k < j implies a[k] == b[k] by {
                if k > i {
                    assert(is_ident_char(a[k]));
                }
                assert(a[k] == b[k] || (is_space(a[k]) && is_space(b[k])));
            }
            assert(a.subrange(i, j) =~= b.subrange(i, j));
            lemma_tokenize_from_spacing(a, b, j);
        } else {
            lemma_byte_offset_spacing(a, b, i);
        }
    }
}

/// Spacing does not change what the lexer reads: replacing whitespace characters by other
/// whitespace characters, or adding whitespace at the end, gives the same tokens or the same
/// error, with the same character and byte offset.
pub proof fn lemma_tokenize_spacing(a: Seq<char>, b: Seq<char>)
    requires
        same_but_spacing(a, b),
    ensures
        spec_tokenize(a) == spec_tokenize(b),
{
    lemma_tokenize_from_spacing(a, b, 0);
}

} // verus!

verus! {

/// Lexing from position `i` gives at most one token for each character left, and the `Eof`.
pub proof fn lemma_tokenize_len(s: Seq<char>, i: int)
    requires
        0 <= i <= s.len(),
    ensures
        tokenize_from(s, i) matches Ok(ts) ==> ts.len() <= s.len() - i + 1,
    decreases s.len() - i,
{
    if i < s.len() {
        if is_space(s[i]) || punct_token(s[i]) is Some {
            lemma_tokenize_len(s, i + 1);
        } else if is_digit(s[i]) || s[i] == '.' {
            let j = numeral_end(s, i, false);
            lemma_numeral_end(s, i + 1, s[i] == '.');
            lemma_tokenize_len(s, j);
        } else if is_ident_start(s[i]) {
            let j = ident_end(s, i + 1);
            lemma_ident_end(s, i + 1);
            lemma_tokenize_len(s, j);
        }
    }
}

/// The lexer gives at most one token more than the input has characters.
pub proof fn lemma_token_count(s: Seq<char>)
    ensures
        spec_tokenize(s) matches Ok(ts) ==> 1 <= ts.len() <= s.len() + 1,
{
    lemma_tokenize_len(s, 0);
    lemma_tokenize_shape(s, 0);
}

} // verus!

verus! {

/// A punctuation character is read as the token it writes (`+ - * / ^ , ( )`, and `d` or `D`
/// for a roll), and whitespace is skipped.
pub proof fn lemma_punctuation_tokens(s: Seq<char>, i: int)
    requires
        0 <= i < s.len(),
    ensures
        tokenize_from(s, i) matches Ok(ts) ==> {
            &&& s[i] == '+' ==> ts[0] == TokenView::Plus
            &&& s[i] == '-' ==> ts[0] == TokenView::Minus
            &&& s[i] == '*' ==> ts[0] == TokenView::Star
            &&& s[i] == '/' ==> ts[0] == TokenView::Slash
            &&& s[i] == '^' ==> ts[0] == TokenView::Caret
            &&& s[i] == ',' ==> ts[0] == TokenView::Comma
            &&& s[i] == '(' ==> ts[0] == TokenView::LParen
            &&& s[i] == ')' ==> ts[0] == TokenView::RParen
            &&& (s[i] == 'd' || s[i] == 'D') ==> ts[0] == TokenView::D
        },
        (s[i] == ' ' || s[i] == '\t' || s[i] == '\n' || s[i] == '\r') ==> tokenize_from(s, i)
            == tokenize_from(s, i + 1),
{
    if let Ok(ts) = tokenize_from(s, i) {
        if punct_token(s[i]) is Some {
            if let Ok(rest) = tokenize_from(s, i + 1) {
                assert(ts == seq![punct_token(s[i])->0] + rest);
                assert(ts[0] == punct_token(s[i])->0);
            }
        }
    }
}

} // verus!
