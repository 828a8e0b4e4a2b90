//! The scanner: a cursor over the input's characters that hands out one
//! token per call.
use vstd::prelude::*;

use crate::chars::{
    alphabetic, char_is_alphabetic, char_is_digit, char_is_space, digit_value, is_digit,
    is_space,
};
use crate::token::{word_token, Tok, Token};

verus! {

/// The character at index `i`, or the null sentinel past the end.
pub open spec fn char_at(s: Seq<char>, i: int) -> char {
    if 0 <= i < s.len() {
        s[i]
    } else {
        '\0'
    }
}

/// The position one character on, which stays at the end once it is reached.
pub open spec fn advance(s: Seq<char>, i: nat) -> nat {
    if i < s.len() {
        i + 1
    } else {
        s.len()
    }
}

/// The first position at or after `i` that does not hold whitespace.
pub open spec fn skip_space(s: Seq<char>, i: nat) -> nat
    decreases s.len() - i,
{
    if i < s.len() && is_space(s[i as int]) {
        skip_space(s, i + 1)
    } else {
        i
    }
}

/// The end of the maximal run of alphabetic characters that starts at `i`.
pub open spec fn word_end(s: Seq<char>, i: nat) -> nat
    decreases s.len() - i,
{
    if i < s.len() && alphabetic(s[i as int]) {
        word_end(s, i + 1)
    } else {
        i
    }
}

/// The end of the maximal run of decimal digits that starts at `i`.
pub open spec fn digits_end(s: Seq<char>, i: nat) -> nat
    decreases s.len() - i,
{
    if i < s.len() && is_digit(s[i as int]) {
        digits_end(s, i + 1)
    } else {
        i
    }
}

/// The first position at or after `i` that holds a `"` or a null character,
/// or the end of the input.
pub open spec fn quote_end(s: Seq<char>, i: nat) -> nat
    decreases s.len() - i,
{
    if i < s.len() && s[i as int] != '"' && s[i as int] != '\0' {
        quote_end(s, i + 1)
    } else {
        i
    }
}

/// The base-10 value of a sequence of digits.
pub open spec fn decimal_value(d: Seq<char>) -> int
    decreases d.len(),
{
    if d.len() == 0 {
        0
    } else {
        decimal_value(d.drop_last()) * 10 + digit_value(d.last())
    }
}

/// A token chosen by one character of lookahead: `two` when the character
/// after position `q` is `=` (and both are consumed), else `one`.
pub open spec fn with_equals(s: Seq<char>, q: nat, two: Tok, one: Tok) -> (Tok, nat) {
    if char_at(s, q + 1 as int) == '=' {
        (two, advance(s, advance(s, q)))
    } else {
        (one, advance(s, q))
    }
}

/// The token of a character that stands alone, if it is one.
pub open spec fn single_char_token(c: char) -> Option<Tok> {
    if c == ':' {
        Some(Tok::Colon)
    } else if c == ',' {
        Some(Tok::Comma)
    } else if c == '{' {
        Some(Tok::LBrace)
    } else if c == '}' {
        Some(Tok::RBrace)
    } else if c == '(' {
        Some(Tok::LParen)
    } else if c == ')' {
        Some(Tok::RParen)
    } else if c == '+' {
        Some(Tok::Plus)
    } else if c == '-' {
        Some(Tok::Minus)
    } else if c == ']' {
        Some(Tok::RBracket)
    } else if c == '[' {
        Some(Tok::LBracket)
    } else if c == ';' {
        Some(Tok::Semicolon)
    } else if c == '*' {
        Some(Tok::Asterisk)
    } else if c == '/' {
        Some(Tok::Slash)
    } else if c == '\0' {
        Some(Tok::Eof)
    } else {
        None
    }
}

/// One call of the scanner on input `s` with the cursor at `p`: the token it
/// returns and where the cursor is left.
pub open spec fn lex_step(s: Seq<char>, p: nat) -> (Tok, nat) {
    let q = skip_space(s, p);
    let c = char_at(s, q as int);
    if c == '"' {
        let e = quote_end(s, q + 1);
        (Tok::Str(s.subrange(q + 1 as int, e as int)), advance(s, e))
    } else if c == '=' {
        with_equals(s, q, Tok::Eq, Tok::Assign)
    } else if c == '!' {
        with_equals(s, q, Tok::NotEq, Tok::Bang)
    } else if c == '<' {
        with_equals(s, q, Tok::Lte, Tok::Lt)
    } else if c == '>' {
        with_equals(s, q, Tok::Gte, Tok::Gt)
    } else if single_char_token(c) is Some {
        (single_char_token(c)->0, advance(s, q))
    } else if alphabetic(c) {
        let e = word_end(s, q);
        (word_token(s.subrange(q as int, e as int)), e)
    } else if is_digit(c) {
        let e = digits_end(s, q);
        (Tok::Integer(decimal_value(s.subrange(q as int, e as int))), e)
    } else {
        (Tok::Illegal, advance(s, q))
    }
}

/// Whether the next token can be represented: an integer literal must fit
/// in an `i32`.
pub open spec fn next_fits(s: Seq<char>, p: nat) -> bool {
    match lex_step(s, p).0 {
        Tok::Integer(n) => n <= i32::MAX,
        _ => true,
    }
}

/// The scanner's state: the input as characters and a cursor into it.
pub struct Lexer {
    input: Vec<char>,
    position: usize,
    read_position: usize,
    ch: char,
}

impl Lexer {
    /// The input, as a sequence of characters.
    pub closed spec fn text(&self) -> Seq<char> {
        self.input@
    }

    /// The index of the current character.
    pub closed spec fn pos(&self) -> nat {
        self.position as nat
    }

    /// The cursor lies within the input or at its end, the lookahead index
    /// is one past the cursor (at the end it stays there), and the current
    /// character is the one at the cursor, or the sentinel at the end.
    pub closed spec fn wf(&self) -> bool {
        &&& self.position <= self.input.len()
        &&& self.read_position == (if self.position < self.input.len() {
            self.position + 1
        } else {
            self.position as int
        })
        &&& self.ch == char_at(self.input@, self.position as int)
    }
}

/// The characters of `s`, in order.
fn chars_of(s: &str) -> (r: Vec<char>)
    ensures
        r@ == s@,
{
    let mut v: Vec<char> = Vec::new();
    for c in it: s.chars()
        invariant
            v@ == it.seq().take(it.index() as int),
    {
        v.push(c);
    }
    assert(v@ =~= s@);
    v
}

/// Relies on collecting a `char` slice into a `String`: the same characters, in order.
#[verifier::external_body]
fn string_from_chars(cs: &[char]) -> (r: String)
    ensures
        r@ == cs@,
{
    cs.iter().collect()
}

/// A scanner over `input`, primed at its first character.
pub fn new_lexer(input: &str) -> (r: Lexer)
    ensures
        r.wf(),
        r.text() == input@,
        r.pos() == 0,
{
    let mut lexer = Lexer { input: chars_of(input), position: 0, read_position: 0, ch: '\0' };
    lexer.read_char();
    lexer
}

impl Lexer {
    /// Moves the cursor to the lookahead index; at the end it stays there.
    fn read_char(&mut self)
        requires
            old(self).read_position <= old(self).input.len(),
        ensures
            final(self).wf(),
            final(self).input == old(self).input,
            final(self).position == (if old(self).read_position < old(self).input.len() {
                old(self).read_position
            } else {
                old(self).input.len()
            }),
    {
        if self.read_position >= self.input.len() {
            self.ch = '\0';
            self.position = self.input.len();
            self.read_position = self.input.len();
        } else {
            self.ch = self.input[self.read_position];
            self.position = self.read_position;
            self.read_position = self.position + 1;
        }
    }

    /// The character after the current one, or the sentinel past the end.
    fn peek_char(&self) -> (r: char)
        requires
            self.wf(),
        ensures
            r == char_at(self.input@, self.position + 1),
    {
        if self.read_position >= self.input.len() {
            '\0'
        } else {
            self.input[self.read_position]
        }
    }

    /// Moves the cursor past any whitespace.
    fn skip_whitespace(&mut self)
        requires
            old(self).wf(),
        ensures
            final(self).wf(),
            final(self).input == old(self).input,
            final(self).position == skip_space(old(self).input@, old(self).position as nat),
    {
        while char_is_space(self.ch)
            invariant
                self.wf(),
                self.input == old(self).input,
                skip_space(self.input@, self.position as nat) == skip_space(
                    old(self).input@,
                    old(self).position as nat,
                ),
            decreases self.input.len() - self.position,
        {
            self.read_char();
        }
    }
}

/// Each scan stays within the input and does not move backwards.
pub proof fn lemma_scan_bounds(s: Seq<char>, i: nat)
    requires
        i <= s.len(),
    ensures
        i <= skip_space(s, i) <= s.len(),
        i <= word_end(s, i) <= s.len(),
        i <= digits_end(s, i) <= s.len(),
        i <= quote_end(s, i) <= s.len(),
        forall|j: int| i <= j < digits_end(s, i) ==> is_digit(#[trigger] s[j]),
        forall|j: int| i <= j < quote_end(s, i) ==> #[trigger] s[j] != '"' && s[j] != '\0',
    decreases s.len() - i,
{
    if i < s.len() {
        lemma_scan_bounds(s, i + 1);
    }
}

/// A decimal value is never negative.
pub proof fn lemma_decimal_nonneg(d: Seq<char>)
    requires
        forall|j: int| 0 <= j < d.len() ==> is_digit(#[trigger] d[j]),
    ensures
        decimal_value(d) >= 0,
    decreases d.len(),
{
    if d.len() > 0 {
        lemma_decimal_nonneg(d.drop_last());
    }
}

/// The value of a prefix of digits is at most the value of the whole.
pub proof fn lemma_decimal_prefix(d: Seq<char>, i: int)
    requires
        0 <= i <= d.len(),
        forall|j: int| 0 <= j < d.len() ==> is_digit(#[trigger] d[j]),
    ensures
        decimal_value(d.take(i)) <= decimal_value(d),
    decreases d.len(),
{
    if i < d.len() {
        let init = d.drop_last();
        assert(init.take(i) =~= d.take(i));
        lemma_decimal_prefix(init, i);
        lemma_decimal_nonneg(init);
    } else {
        assert(d.take(i) =~= d);
    }
}

/// The value of a run of digits, when it fits in an `i32`.
fn decimal_of(d: &[char]) -> (r: Option<i32>)
    requires
        forall|j: int| 0 <= j < d@.len() ==> is_digit(#[trigger] d@[j]),
    ensures
        r == (if decimal_value(d@) <= i32::MAX {
            Some(decimal_value(d@) as i32)
        } else {
            None
        }),
{
    let mut acc: i32 = 0;
    let mut i: usize = 0;
    while i < d.len()
        invariant
            i <= d@.len(),
            acc == decimal_value(d@.take(i as int)),
            forall|j: int| 0 <= j < d@.len() ==> is_digit(#[trigger] d@[j]),
        decreases d@.len() - i,
    {
        let ghost prev = d@.take(i as int);
        let ghost next = d@.take(i + 1);
        assert(next.drop_last() =~= prev);
        assert(next.last() == d@[i as int]);
        proof {
            lemma_decimal_nonneg(prev);
        }
        let digit: i64 = (d[i] as u32 - '0' as u32) as i64;
        let wide: i64 = acc as i64 * 10 + digit;
        if wide > i32::MAX as i64 {
            proof {
                lemma_decimal_prefix(d@, i + 1);
            }
            return None;
        }
        acc = wide as i32;
        i = i + 1;
    }
    assert(d@.take(i as int) =~= d@);
    Some(acc)
}

/// Whether the characters of `w` are those of `k`.
fn same_chars(w: &[char], k: &[char]) -> (r: bool)
    ensures
        r == (w@ == k@),
{
    if w.len() != k.len() {
        return false;
    }
    let mut i: usize = 0;
    while i < w.len()
        invariant
            w@.len() == k@.len(),
            i <= w@.len(),
            forall|j: int| 0 <= j < i ==> w@[j] == k@[j],
        decreases w@.len() - i,
    {
        if w[i] != k[i] {
            return false;
        }
        i = i + 1;
    }
    assert(w@ =~= k@);
    true
}

/// The keyword token that a word stands for, or an identifier carrying it.
fn word_token_of(w: &[char]) -> (r: Token)
    ensures
        r@ == word_token(w@),
{
    if same_chars(w, &['v', 'a', 'r']) {
        Token::Var
    } else if same_chars(w, &['f', 'u', 'n', 'c', 't', 'i', 'o', 'n']) {
        Token::Function
    } else if same_chars(w, &['t', 'r', 'u', 'e']) {
        Token::Boolean(true)
    } else if same_chars(w, &['f', 'a', 'l', 's', 'e']) {
        Token::Boolean(false)
    } else if same_chars(w, &['i', 'f']) {
        Token::If
    } else if same_chars(w, &['e', 'l', 's', 'e']) {
        Token::Else
    } else if same_chars(w, &['r', 'e', 't', 'u', 'r', 'n']) {
        Token::Return
    } else {
        Token::Ident(string_from_chars(w))
    }
}

impl Lexer {
    /// Scans a string literal whose opening `"` is the current character, up
    /// to the closing `"` or the end of the input; returns the text between.
    fn read_string(&mut self) -> (r: String)
        requires
            old(self).wf(),
            old(self).position < old(self).input.len(),
        ensures
            final(self).wf(),
            final(self).input == old(self).input,
            final(self).position == quote_end(old(self).input@, (old(self).position + 1) as nat),
            r@ == old(self).input@.subrange(
                old(self).position + 1,
                final(self).position as int,
            ),
    {
        let initial_position = self.position + 1;
        self.read_char();
        proof {
            lemma_scan_bounds(self.input@, initial_position as nat);
        }
        while self.ch != '\0' && self.ch != '"'
            invariant
                self.wf(),
                self.input == old(self).input,
                initial_position <= self.position,
                quote_end(self.input@, self.position as nat) == quote_end(
                    self.input@,
                    initial_position as nat,
                ),
            decreases self.input.len() - self.position,
        {
            self.read_char();
        }
        string_from_chars(&self.input.as_slice()[initial_position..self.position])
    }

    /// Scans the maximal run of alphabetic characters at the cursor and
    /// classifies it as a keyword or an identifier.
    fn read_identifier(&mut self) -> (r: Token)
        requires
            old(self).wf(),
        ensures
            final(self).wf(),
            final(self).input == old(self).input,
            final(self).position == word_end(old(self).input@, old(self).position as nat),
            r@ == word_token(
                old(self).input@.subrange(old(self).position as int, final(self).position as int),
            ),
    {
        let initial_position = self.position;
        proof {
            lemma_scan_bounds(self.input@, initial_position as nat);
        }
        while self.position < self.input.len() && char_is_alphabetic(self.ch)
            invariant
                self.wf(),
                self.input == old(self).input,
                initial_position <= self.position,
                word_end(self.input@, self.position as nat) == word_end(
                    self.input@,
                    initial_position as nat,
                ),
            decreases self.input.len() - self.position,
        {
            self.read_char();
        }
        word_token_of(&self.input.as_slice()[initial_position..self.position])
    }

    /// Scans the maximal run of decimal digits at the cursor; returns its
    /// value, or `None` when that does not fit in an `i32`.
    fn read_number(&mut self) -> (r: Option<i32>)
        requires
            old(self).wf(),
        ensures
            final(self).wf(),
            final(self).input == old(self).input,
            final(self).position == digits_end(old(self).input@, old(self).position as nat),
            ({
                let v = decimal_value(
                    old(self).input@.subrange(
                        old(self).position as int,
                        final(self).position as int,
                    ),
                );
                &&& 0 <= v
                &&& r == (if v <= i32::MAX {
                    Some(v as i32)
                } else {
                    None
                })
            }),
    {
        let initial_position = self.position;
        proof {
            lemma_scan_bounds(self.input@, initial_position as nat);
        }
        while char_is_digit(self.ch)
            invariant
                self.wf(),
                self.input == old(self).input,
                initial_position <= self.position,
                digits_end(self.input@, self.position as nat) == digits_end(
                    self.input@,
                    initial_position as nat,
                ),
            decreases self.input.len() - self.position,
        {
            self.read_char();
        }
        let digits = &self.input.as_slice()[initial_position..self.position];
        proof {
            lemma_scan_bounds(self.input@, initial_position as nat);
            assert forall|j: int| 0 <= j < digits@.len() implies is_digit(#[trigger] digits@[j]) by {
                assert(digits@[j] == self.input@[initial_position + j]);
            }
            lemma_decimal_nonneg(digits@);
        }
        decimal_of(digits)
    }
}

impl Lexer {
    /// Returns the next token, or `None` when it is an integer literal that
    /// does not fit in an `i32`. Either way the cursor ends where the scan of
    /// that token ends.
    pub fn try_next_token(&mut self) -> (r: Option<Token>)
        requires
            old(self).wf(),
        ensures
            final(self).wf(),
            final(self).text() == old(self).text(),
            final(self).pos() == lex_step(old(self).text(), old(self).pos()).1,
            r is Some <==> next_fits(old(self).text(), old(self).pos()),
            r matches Some(t) ==> t@ == lex_step(old(self).text(), old(self).pos()).0,
    {
        self.skip_whitespace();
        proof {
            lemma_scan_bounds(self.input@, old(self).position as nat);
        }
        let token: Token;
        match self.ch {
            '"' => {
                let text = self.read_string();
                token = Token::String(text);
            },
            '=' => {
                if self.peek_char() == '=' {
                    self.read_char();
                    token = Token::Eq;
                } else {
                    token = Token::Assign;
                }
            },
            '!' => {
                if self.peek_char() == '=' {
                    self.read_char();
                    token = Token::NotEq;
                } else {
                    token = Token::Bang;
                }
            },
            '<' => {
                if self.peek_char() == '=' {
                    self.read_char();
                    token = Token::Lte;
                } else {
                    token = Token::Lt;
                }
            },
            '>' => {
                if self.peek_char() == '=' {
                    self.read_char();
                    token = Token::Gte;
                } else {
                    token = Token::Gt;
                }
            },
            ':' => token = Token::Colon,
            ',' => token = Token::Comma,
            '{' => token = Token::LBrace,
            '}' => token = Token::RBrace,
            '(' => token = Token::LParen,
            ')' => token = Token::RParen,
            '+' => token = Token::Plus,
            '-' => token = Token::Minus,
            ']' => token = Token::RBracket,
            '[' => token = Token::LBracket,
            ';' => token = Token::Semicolon,
            '*' => token = Token::Asterisk,
            '/' => token = Token::Slash,
            '\0' => token = Token::EOF,
            c => {
                if char_is_alphabetic(c) {
                    return Some(self.read_identifier());
                } else if char_is_digit(c) {
                    return match self.read_number() {
                        Some(n) => Some(Token::Integer(n)),
                        None => None,
                    };
                } else {
                    token = Token::Illegal;
                }
            },
        }
        self.read_char();
        Some(token)
    }

    /// Returns the next token and moves the cursor past it. Once the input
    /// is exhausted every call returns `EOF`.
    pub fn next_token(&mut self) -> (r: Token)
        requires
            old(self).wf(),
            next_fits(old(self).text(), old(self).pos()),
        ensures
            final(self).wf(),
            final(self).text() == old(self).text(),
            (r@, final(self).pos()) == lex_step(old(self).text(), old(self).pos()),
    {
        match self.try_next_token() {
            Some(t) => t,
            None => Token::Illegal,
        }
    }
}

/// Whitespace up to the end of the input is skipped entirely.
proof fn lemma_blank_tail(s: Seq<char>, i: nat)
    requires
        i <= s.len(),
        forall|j: int| i <= j < s.len() ==> is_space(#[trigger] s[j]),
    ensures
        skip_space(s, i) == s.len(),
    decreases s.len() - i,
{
    if i < s.len() {
        lemma_blank_tail(s, i + 1);
    }
}

/// On an input made only of whitespace, the first token is the end-of-input
/// marker, and the cursor is left at the end.
pub proof fn lemma_blank_input_is_end(s: Seq<char>)
    requires
        forall|j: int| 0 <= j < s.len() ==> is_space(#[trigger] s[j]),
    ensures
        lex_step(s, 0) == (Tok::Eof, s.len()),
{
    lemma_blank_tail(s, 0);
}

/// Once the end-of-input marker has been returned on an input without null
/// characters, the cursor is at the end, and every further call returns the
/// marker again and leaves the cursor where it is.
pub proof fn lemma_end_of_input_is_stable(s: Seq<char>, p: nat)
    requires
        p <= s.len(),
        forall|j: int| 0 <= j < s.len() ==> #[trigger] s[j] != '\0',
        lex_step(s, p).0 == Tok::Eof,
    ensures
        lex_step(s, p).1 == s.len(),
        lex_step(s, s.len()) == (Tok::Eof, s.len()),
{
    lemma_scan_bounds(s, p);
    let q = skip_space(s, p);
    let c = char_at(s, q as int);
    if c != '\0' {
        if alphabetic(c) && single_char_token(c) is None {
            let w = s.subrange(q as int, word_end(s, q) as int);
            assert(word_token(w) != Tok::Eof);
        }
        assert(false);
    }
    assert(q == s.len());
}

} // verus!
