//! The source text of tokens, and the law that scanning rendered tokens
//! gives them back.
use vstd::prelude::*;

use crate::chars::{alphabetic, digit_value, is_digit, is_space};
use crate::lexer::{
    advance, char_at, decimal_value, digits_end, lemma_scan_bounds, lex_step, quote_end,
    skip_space, word_end,
};
use crate::token::{keyword, word_token, Tok};

verus! {

/// The tokens that repeated calls of the scanner return from position `p`,
/// up to and including the first end-of-input marker.
pub open spec fn lex_from(s: Seq<char>, p: nat) -> Seq<Tok>
    decreases s.len() - p,
{
    let (t, q) = lex_step(s, p);
    if t == Tok::Eof || q <= p || q > s.len() {
        seq![t]
    } else {
        seq![t] + lex_from(s, q)
    }
}

/// A call of the scanner stays within the input, and every token but the
/// end-of-input marker consumes at least one character.
pub proof fn lemma_step_progress(s: Seq<char>, p: nat)
    requires
        p <= s.len(),
    ensures
        lex_step(s, p).1 <= s.len(),
        lex_step(s, p).0 != Tok::Eof ==> lex_step(s, p).1 > p,
{
    lemma_scan_bounds(s, p);
    let q = skip_space(s, p);
    if q < s.len() {
        lemma_scan_bounds(s, q);
        lemma_scan_bounds(s, q + 1);
        lemma_scan_bounds(s, advance(s, q));
    }
}

/// The scans on `x + y` from a position within `y` are those on `y`, shifted.
proof fn lemma_scans_shift(x: Seq<char>, y: Seq<char>, k: nat)
    requires
        k <= y.len(),
    ensures
        skip_space(x + y, x.len() + k) == x.len() + skip_space(y, k),
        word_end(x + y, x.len() + k) == x.len() + word_end(y, k),
        digits_end(x + y, x.len() + k) == x.len() + digits_end(y, k),
        quote_end(x + y, x.len() + k) == x.len() + quote_end(y, k),
    decreases y.len() - k,
{
    let z = x + y;
    if k < y.len() {
        assert(z[x.len() + k as int] == y[k as int]);
        lemma_scans_shift(x, y, k + 1);
    }
}

/// A call of the scanner on `x + y` from a position within `y` returns what
/// it returns on `y`, with the cursor shifted.
proof fn lemma_step_shift(x: Seq<char>, y: Seq<char>, k: nat)
    requires
        k <= y.len(),
    ensures
        lex_step(x + y, x.len() + k) == (lex_step(y, k).0, x.len() + lex_step(y, k).1),
{
    let z = x + y;
    let n = x.len() as int;
    lemma_scan_bounds(y, k);
    lemma_scans_shift(x, y, k);
    let q = skip_space(y, k) as int;
    assert(char_at(z, n + q) == char_at(y, q));
    assert(char_at(z, n + q + 1) == char_at(y, q + 1));
    if q < y.len() {
        lemma_scans_shift(x, y, q as nat);
        lemma_scans_shift(x, y, (q + 1) as nat);
        lemma_scan_bounds(y, q as nat);
        lemma_scan_bounds(y, (q + 1) as nat);
        let e = quote_end(y, (q + 1) as nat) as int;
        assert(z.subrange(n + q + 1, n + e) =~= y.subrange(q + 1, e));
        let w = word_end(y, q as nat) as int;
        assert(z.subrange(n + q, n + w) =~= y.subrange(q, w));
        let d = digits_end(y, q as nat) as int;
        assert(z.subrange(n + q, n + d) =~= y.subrange(q, d));
    }
}

/// Scanning `x + y` from a position within `y` gives what scanning `y` does.
pub proof fn lemma_lex_from_shift(x: Seq<char>, y: Seq<char>, k: nat)
    requires
        k <= y.len(),
    ensures
        lex_from(x + y, x.len() + k) == lex_from(y, k),
    decreases y.len() - k,
{
    lemma_step_shift(x, y, k);
    lemma_step_progress(y, k);
    let (t, q) = lex_step(y, k);
    if t != Tok::Eof {
        lemma_lex_from_shift(x, y, q);
    }
}

/// The digit character of a value below ten.
pub open spec fn digit_char(m: nat) -> char {
    if m == 0 {
        '0'
    } else if m == 1 {
        '1'
    } else if m == 2 {
        '2'
    } else if m == 3 {
        '3'
    } else if m == 4 {
        '4'
    } else if m == 5 {
        '5'
    } else if m == 6 {
        '6'
    } else if m == 7 {
        '7'
    } else if m == 8 {
        '8'
    } else {
        '9'
    }
}

/// The base-10 digits of `n`, without leading zeros.
pub open spec fn decimal_digits(n: nat) -> Seq<char>
    decreases n,
{
    if n < 10 {
        seq![digit_char(n)]
    } else {
        decimal_digits(n / 10).push(digit_char(n % 10))
    }
}

/// The source text of a token: an identifier's own text, an integer's
/// decimal digits, a string's text between quotes, and the spelling of every
/// keyword and operator. The end-of-input and illegal markers have none.
pub open spec fn token_text(t: Tok) -> Seq<char> {
    match t {
        Tok::Ident(w) => w,
        Tok::Integer(n) => decimal_digits(n as nat),
        Tok::Boolean(b) => if b {
            seq!['t', 'r', 'u', 'e']
        } else {
            seq!['f', 'a', 'l', 's', 'e']
        },
        Tok::Str(w) => seq!['"'] + w + seq!['"'],
        Tok::Var => seq!['v', 'a', 'r'],
        Tok::Function => seq!['f', 'u', 'n', 'c', 't', 'i', 'o', 'n'],
        Tok::If => seq!['i', 'f'],
        Tok::Else => seq!['e', 'l', 's', 'e'],
        Tok::Return => seq!['r', 'e', 't', 'u', 'r', 'n'],
        Tok::Assign => seq!['='],
        Tok::Eq => seq!['=', '='],
        Tok::Bang => seq!['!'],
        Tok::NotEq => seq!['!', '='],
        Tok::Lt => seq!['<'],
        Tok::Lte => seq!['<', '='],
        Tok::Gt => seq!['>'],
        Tok::Gte => seq!['>', '='],
        Tok::Plus => seq!['+'],
        Tok::Minus => seq!['-'],
        Tok::Asterisk => seq!['*'],
        Tok::Slash => seq!['/'],
        Tok::Colon => seq![':'],
        Tok::Comma => seq![','],
        Tok::Semicolon => seq![';'],
        Tok::LBrace => seq!['{'],
        Tok::RBrace => seq!['}'],
        Tok::LParen => seq!['('],
        Tok::RParen => seq![')'],
        Tok::LBracket => seq!['['],
        Tok::RBracket => seq![']'],
        Tok::Eof => seq![],
        Tok::Illegal => seq![],
    }
}

/// The tokens that the scanner can hand out and that their text stands for
/// alone: an identifier is a non-empty run of alphabetic characters that does
/// not start with whitespace and is no keyword; an integer is not negative; a
/// string holds no `"` and no null character. The end-of-input and illegal
/// markers are left out.
pub open spec fn has_text(t: Tok) -> bool {
    match t {
        Tok::Ident(w) => {
            &&& w.len() > 0
            &&& !is_space(w[0])
            &&& keyword(w) is None
            &&& forall|j: int| 0 <= j < w.len() ==> alphabetic(#[trigger] w[j])
        },
        Tok::Integer(n) => n >= 0,
        Tok::Str(w) => forall|j: int| 0 <= j < w.len() ==> #[trigger] w[j] != '"' && w[j] != '\0',
        Tok::Eof => false,
        Tok::Illegal => false,
        _ => true,
    }
}

/// The texts of the tokens, each followed by one space.
pub open spec fn render(ts: Seq<Tok>) -> Seq<char>
    decreases ts.len(),
{
    if ts.len() == 0 {
        seq![]
    } else {
        token_text(ts[0]) + seq![' '] + render(ts.drop_first())
    }
}

/// The digits of `n` are digits, and their value is `n`.
proof fn lemma_decimal_digits(n: nat)
    ensures
        decimal_digits(n).len() > 0,
        forall|j: int| 0 <= j < decimal_digits(n).len() ==> is_digit(#[trigger] decimal_digits(n)[j]),
        decimal_value(decimal_digits(n)) == n,
    decreases n,
{
    let d = decimal_digits(n);
    assert(digit_value(digit_char(n % 10)) == n % 10);
    if n >= 10 {
        lemma_decimal_digits(n / 10);
        assert(d.drop_last() =~= decimal_digits(n / 10));
        assert((n / 10) * 10 + n % 10 == n);
    } else {
        assert(d.drop_last() =~= Seq::<char>::empty());
        assert(decimal_value(Seq::<char>::empty()) == 0);
    }
}

/// A run of characters that pass a scan ends where the scan stops.
proof fn lemma_runs_end(s: Seq<char>, i: nat, m: nat)
    requires
        i <= m < s.len(),
    ensures
        (forall|j: int| i <= j < m ==> alphabetic(#[trigger] s[j])) && !alphabetic(s[m as int])
            ==> word_end(s, i) == m,
        (forall|j: int| i <= j < m ==> is_digit(#[trigger] s[j])) && !is_digit(s[m as int])
            ==> digits_end(s, i) == m,
        (forall|j: int| i <= j < m ==> #[trigger] s[j] != '"' && s[j] != '\0') && s[m as int]
            == '"' ==> quote_end(s, i) == m,
    decreases m - i,
{
    if i < m {
        lemma_runs_end(s, i + 1, m);
    }
}

/// A word followed by a space scans as its keyword or identifier.
proof fn lemma_word_token(w: Seq<char>, rest: Seq<char>)
    requires
        w.len() > 0,
        !is_space(w[0]),
        forall|j: int| 0 <= j < w.len() ==> alphabetic(#[trigger] w[j]),
    ensures
        lex_step(w + seq![' '] + rest, 0) == (word_token(w), w.len()),
{
    let s = w + seq![' '] + rest;
    assert(s[0] == w[0]);
    assert(s[w.len() as int] == ' ');
    assert forall|j: int| 0 <= j < w.len() implies alphabetic(#[trigger] s[j]) by {
        assert(s[j] == w[j]);
    }
    lemma_runs_end(s, 0, w.len());
    assert(s.subrange(0, w.len() as int) =~= w);
    let c = w[0];
    assert(alphabetic(c));
}

/// A token's text followed by a space scans as that token, with the cursor
/// left on the space.
proof fn lemma_token_text(t: Tok, rest: Seq<char>)
    requires
        has_text(t),
    ensures
        lex_step(token_text(t) + seq![' '] + rest, 0) == (t, token_text(t).len()),
{
    let x = token_text(t);
    let s = x + seq![' '] + rest;
    assert(s[x.len() as int] == ' ');
    match t {
        Tok::Ident(w) => {
            lemma_word_token(w, rest);
        },
        Tok::Integer(n) => {
            lemma_decimal_digits(n as nat);
            assert forall|j: int| 0 <= j < x.len() implies is_digit(#[trigger] s[j]) by {
                assert(s[j] == x[j]);
            }
            lemma_runs_end(s, 0, x.len());
            assert(s.subrange(0, x.len() as int) =~= x);
            assert(is_digit(s[0]));
        },
        Tok::Str(w) => {
            assert forall|j: int| 1 <= j < x.len() - 1 implies #[trigger] s[j] != '"' && s[j] != '\0' by {
                assert(s[j] == w[j - 1]);
            }
            lemma_runs_end(s, 1, (x.len() - 1) as nat);
            assert(s.subrange(1, x.len() - 1) =~= w);
        },
        Tok::Boolean(b) => {
            lemma_word_token(x, rest);
        },
        Tok::Var => {
            lemma_word_token(x, rest);
        },
        Tok::Function => {
            lemma_word_token(x, rest);
        },
        Tok::If => {
            lemma_word_token(x, rest);
        },
        Tok::Else => {
            lemma_word_token(x, rest);
        },
        Tok::Return => {
            lemma_word_token(x, rest);
        },
        _ => {
            assert(s[0] == x[0]);
            if x.len() == 2 {
                assert(s[1] == x[1]);
            }
        },
    }
}

/// Scanning the rendered text of tokens that have a text gives back exactly
/// those tokens, payloads included, followed by the end-of-input marker.
pub proof fn lemma_relex_rendered(ts: Seq<Tok>)
    requires
        forall|i: int| 0 <= i < ts.len() ==> has_text(#[trigger] ts[i]),
    ensures
        lex_from(render(ts), 0) == ts.push(Tok::Eof),
    decreases ts.len(),
{
    if ts.len() == 0 {
        assert(ts.push(Tok::Eof) =~= seq![Tok::Eof]);
    } else {
        let t = ts[0];
        let tail = ts.drop_first();
        let x = token_text(t);
        let rest = render(tail);
        let spaced = seq![' '] + rest;
        let s = render(ts);
        assert(s =~= x + spaced);
        assert(s =~= x + seq![' '] + rest);
        lemma_token_text(t, rest);
        lemma_lex_from_shift(x, spaced, 0);
        lemma_step_progress(spaced, 1);
        lemma_lex_from_shift(seq![' '], rest, 0);
        assert(seq![' '] + rest =~= spaced);
        assert(lex_step(spaced, 0) == lex_step(spaced, 1));
        assert(lex_from(spaced, 0) == lex_from(spaced, 1));
        lemma_relex_rendered(tail);
        assert(ts.push(Tok::Eof) =~= seq![t] + tail.push(Tok::Eof));
    }
}

} // verus!
