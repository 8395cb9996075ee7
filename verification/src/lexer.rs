//! The lexer: source characters to tokens.
//!
//! A run of identifier characters is one token — a number where it spells
//! an infinity, a NaN, or a decimal literal, an identifier otherwise.
//! Parentheses, braces, the quote mark and the lone dot are their own
//! tokens; `#t` and `#f` are the booleans; everything else is skipped.

use vstd::prelude::*;

use crate::error::LispError;
use crate::num;

verus! {

/// A lexical token. A number is carried as the bits of its double.
pub enum Token {
    LPER,
    RPER,
    LBRACE,
    RBRACE,
    QUOTE,
    DOT,
    BOOL(bool),
    IDENT(String),
    NUM(u64),
}

/// The model of a token.
#[verifier::ext_equal]
pub enum TokenM {
    LPER,
    RPER,
    LBRACE,
    RBRACE,
    QUOTE,
    DOT,
    BOOL(bool),
    IDENT(Seq<char>),
    NUM(u64),
}

impl View for Token {
    type V = TokenM;

    open spec fn view(&self) -> TokenM {
        match *self {
            Token::LPER => TokenM::LPER,
            Token::RPER => TokenM::RPER,
            Token::LBRACE => TokenM::LBRACE,
            Token::RBRACE => TokenM::RBRACE,
            Token::QUOTE => TokenM::QUOTE,
            Token::DOT => TokenM::DOT,
            Token::BOOL(b) => TokenM::BOOL(b),
            Token::IDENT(ref s) => TokenM::IDENT(s@),
            Token::NUM(n) => TokenM::NUM(n),
        }
    }
}

/// The models of a sequence of tokens, token by token.
pub open spec fn tokens_model(s: Seq<Token>) -> Seq<TokenM>
    decreases s,
{
    if s.len() == 0 {
        Seq::empty()
    } else {
        tokens_model(s.drop_last()).push(s.last()@)
    }
}

/// A tokens model has one model per token.
pub proof fn lemma_tokens_model_index(s: Seq<Token>)
    ensures
        tokens_model(s).len() == s.len(),
        forall|i: int| 0 <= i < s.len() ==> tokens_model(s)[i] == s[i]@,
    decreases s,
{
    if s.len() > 0 {
        lemma_tokens_model_index(s.drop_last());
    }
}

/// An extended identifier character:
/// letters, digits, and ```! $ % & * + - . / : < = > ? @ ^ _ ~```.
pub open spec fn ident_char(c: char) -> bool {
    ||| ('a' <= c && c <= 'z')
    ||| ('A' <= c && c <= 'Z')
    ||| ('-' <= c && c <= ':')
    ||| ('<' <= c && c <= '@')
    ||| c == '_'
    ||| c == '*'
    ||| c == '+'
    ||| c == '!'
    ||| c == '$'
    ||| c == '%'
    ||| c == '&'
    ||| c == '^'
    ||| c == '~'
}

/// Decides `ident_char`.
pub fn is_identifier_char(ch: char) -> (r: bool)
    ensures
        r == ident_char(ch),
{
    ('a' <= ch && ch <= 'z') || ('A' <= ch && ch <= 'Z') || ('-' <= ch && ch <= ':') || ('<' <= ch
        && ch <= '@') || ch == '_' || ch == '*' || ch == '+' || ch == '!' || ch == '$' || ch == '%'
        || ch == '&' || ch == '^' || ch == '~'
}

/// Either case of a letter.
pub open spec fn letter_ci(c: char, lo: char, up: char) -> bool {
    c == lo || c == up
}

/// The position after an optional leading sign.
pub open spec fn sign_start(s: Seq<char>) -> int {
    if s.len() > 0 && (s[0] == '+' || s[0] == '-') {
        1
    } else {
        0
    }
}

/// An infinity spelling: an optional sign, then `inf` or `infinity` in any
/// case.
pub open spec fn inf_text(s: Seq<char>) -> bool {
    let i = sign_start(s);
    ||| (s.len() - i == 3 && letter_ci(s[i], 'i', 'I') && letter_ci(s[i + 1], 'n', 'N')
        && letter_ci(s[i + 2], 'f', 'F'))
    ||| (s.len() - i == 8 && letter_ci(s[i], 'i', 'I') && letter_ci(s[i + 1], 'n', 'N')
        && letter_ci(s[i + 2], 'f', 'F') && letter_ci(s[i + 3], 'i', 'I') && letter_ci(
        s[i + 4],
        'n',
        'N',
    ) && letter_ci(s[i + 5], 'i', 'I') && letter_ci(s[i + 6], 't', 'T') && letter_ci(
        s[i + 7],
        'y',
        'Y',
    ))
}

/// A NaN spelling: an optional sign, then `nan` in any case.
pub open spec fn nan_text(s: Seq<char>) -> bool {
    let i = sign_start(s);
    s.len() - i == 3 && letter_ci(s[i], 'n', 'N') && letter_ci(s[i + 1], 'a', 'A') && letter_ci(
        s[i + 2],
        'n',
        'N',
    )
}

/// A decimal literal: an optional sign; digits with an optional point and
/// optional fraction, or a point with digits; then an optional exponent
/// part, a sign and at least one digit after `e` or `E`.
pub open spec fn number_text(s: Seq<char>) -> bool {
    let i = sign_start(s);
    let a = crate::decimal::scan_digits(s, i);
    let has_pt = a < s.len() && s[a] == '.';
    let b = if has_pt {
        crate::decimal::scan_digits(s, a + 1)
    } else {
        a
    };
    let mantissa_ok = a > i || (has_pt && b > a + 1);
    if !mantissa_ok {
        false
    } else if b == s.len() {
        true
    } else if s[b] == 'e' || s[b] == 'E' {
        let e0: int = if b + 1 < s.len() && (s[b + 1] == '+' || s[b + 1] == '-') {
            b + 2
        } else {
            b + 1
        };
        let c = crate::decimal::scan_digits(s, e0);
        c == s.len() && c > e0
    } else {
        false
    }
}

/// The bits an infinity spelling reads as.
pub open spec fn inf_bits_of(s: Seq<char>) -> u64 {
    if s.len() > 0 && s[0] == '-' {
        0xFFF0_0000_0000_0000
    } else {
        0x7FF0_0000_0000_0000
    }
}

/// The bits a NaN spelling reads as: the quiet NaN, with the spelled sign.
pub open spec fn nan_bits_of(s: Seq<char>) -> u64 {
    if s.len() > 0 && s[0] == '-' {
        0xFFF8_0000_0000_0000
    } else {
        0x7FF8_0000_0000_0000
    }
}

/// The token a finished identifier run reads as: an infinity or NaN
/// spelling is that number, a decimal literal is what the numeric reader
/// makes of it, and anything else is an identifier.
pub open spec fn run_token(buf: Seq<char>) -> TokenM {
    if inf_text(buf) {
        TokenM::NUM(inf_bits_of(buf))
    } else if nan_text(buf) {
        TokenM::NUM(nan_bits_of(buf))
    } else if number_text(buf) {
        match num::bits_of_text(buf) {
            Some(n) => TokenM::NUM(n),
            None => TokenM::IDENT(buf),
        }
    } else {
        TokenM::IDENT(buf)
    }
}

/// What one scan from `pos` yields: a token and the position after it, a
/// lexical error and the position after it, or the end of the input.
pub enum LexOut {
    Tok(TokenM, int),
    Bad(int),
    End,
}

/// One scan step. `buf` holds the identifier characters read so far in the
/// current run; a run ends at the first position whose successor is no
/// identifier character, and reads as `run_token` says: a number exactly
/// where the run is an infinity or NaN spelling or a decimal literal.
pub open spec fn lex_next(cs: Seq<char>, pos: int, buf: Seq<char>) -> LexOut
    decreases cs.len() - pos,
{
    if pos < 0 || pos >= cs.len() {
        LexOut::End
    } else {
        let ch = cs[pos];
        let buf2 = if ident_char(ch) {
            buf.push(ch)
        } else {
            buf
        };
        let more = pos + 1 < cs.len();
        if ch == '(' {
            LexOut::Tok(TokenM::LPER, pos + 1)
        } else if ch == ')' {
            LexOut::Tok(TokenM::RPER, pos + 1)
        } else if ch == '{' {
            LexOut::Tok(TokenM::LBRACE, pos + 1)
        } else if ch == '}' {
            LexOut::Tok(TokenM::RBRACE, pos + 1)
        } else if ch == '\'' {
            LexOut::Tok(TokenM::QUOTE, pos + 1)
        } else if ch == '.' && (!more || !ident_char(cs[pos + 1])) {
            LexOut::Tok(TokenM::DOT, pos + 1)
        } else if ch == '#' && more {
            if cs[pos + 1] == 't' {
                LexOut::Tok(TokenM::BOOL(true), pos + 2)
            } else if cs[pos + 1] == 'f' {
                LexOut::Tok(TokenM::BOOL(false), pos + 2)
            } else {
                LexOut::Bad(pos + 2)
            }
        } else if ident_char(ch) {
            if more && ident_char(cs[pos + 1]) {
                lex_next(cs, pos + 1, buf2)
            } else {
                LexOut::Tok(run_token(buf2), pos + 1)
            }
        } else {
            lex_next(cs, pos + 1, buf2)
        }
    }
}

/// A scan only moves forward, and never past the end.
pub proof fn lemma_lex_next_advances(cs: Seq<char>, pos: int, buf: Seq<char>)
    requires
        0 <= pos,
    ensures
        match lex_next(cs, pos, buf) {
            LexOut::Tok(_, p2) => pos < p2 <= cs.len(),
            LexOut::Bad(p2) => pos < p2 <= cs.len(),
            LexOut::End => true,
        },
    decreases cs.len() - pos,
{
    if pos < cs.len() {
        lemma_lex_next_advances(cs, pos + 1, if ident_char(cs[pos]) {
            buf.push(cs[pos])
        } else {
            buf
        });
    }
}

/// The whole token stream read from `pos` on, or the first lexical error.
pub open spec fn lex_all(cs: Seq<char>, pos: int) -> Result<Seq<TokenM>, LispError>
    decreases cs.len() - pos,
{
    match lex_next(cs, pos, Seq::empty()) {
        LexOut::End => Ok(Seq::empty()),
        LexOut::Bad(_) => Err(LispError::LexError),
        LexOut::Tok(t, p2) => if pos < p2 <= cs.len() {
            match lex_all(cs, p2) {
                Ok(ts) => Ok(seq![t] + ts),
                Err(e) => Err(e),
            }
        } else {
            Err(LispError::LexError)
        },
    }
}

/// Every character of a printed number is an identifier character.
pub proof fn lemma_numeric_is_ident(c: char)
    requires
        num::numeric_text_char(c),
    ensures
        ident_char(c),
{
}

/// Scanning a run of identifier characters that ends the run — the next
/// position is past the end or holds no identifier character — yields one
/// token covering the whole run: a number where the numeric reader accepts
/// the text, an identifier otherwise. The run must not end in a point,
/// which would scan as the dot token instead.
pub proof fn lemma_lex_run(cs: Seq<char>, pos: int, k: int, buf: Seq<char>)
    requires
        0 <= pos < k <= cs.len(),
        forall|i: int| pos <= i < k ==> ident_char(cs[i]),
        k < cs.len() ==> !ident_char(cs[k]),
        cs[k - 1] != '.',
    ensures
        lex_next(cs, pos, buf) == LexOut::Tok(run_token(buf + cs.subrange(pos, k)), k),
    decreases k - pos,
{
    let ch = cs[pos];
    assert(ident_char(ch));
    let buf2 = buf.push(ch);
    if pos + 1 < k {
        lemma_lex_run(cs, pos + 1, k, buf2);
        assert(buf2 + cs.subrange(pos + 1, k) =~= buf + cs.subrange(pos, k));
    } else {
        assert(buf2 =~= buf + cs.subrange(pos, k));
    }
}

/// A space is skipped without touching the run in hand.
pub proof fn lemma_lex_all_skip(cs: Seq<char>, pos: int)
    requires
        0 <= pos < cs.len(),
        cs[pos] == ' ',
    ensures
        lex_all(cs, pos) == lex_all(cs, pos + 1),
{
    lemma_lex_next_advances(cs, pos + 1, Seq::empty());
    assert(lex_next(cs, pos, Seq::empty()) == lex_next(cs, pos + 1, Seq::empty()));
}

/// One scanned token extends the stream read after it.
pub proof fn lemma_lex_all_step(cs: Seq<char>, pos: int, t: TokenM, p2: int)
    requires
        0 <= pos,
        lex_next(cs, pos, Seq::empty()) == LexOut::Tok(t, p2),
        pos < p2 <= cs.len(),
    ensures
        lex_all(cs, pos) == (match lex_all(cs, p2) {
            Ok(r) => Ok::<Seq<TokenM>, LispError>(seq![t] + r),
            Err(e) => Err::<Seq<TokenM>, LispError>(e),
        }),
{
}

/// A decimal literal spells neither an infinity nor a NaN: its first
/// unsigned character is a digit or the point.
pub proof fn lemma_number_not_special(s: Seq<char>)
    requires
        number_text(s),
    ensures
        !inf_text(s),
        !nan_text(s),
{
    let i = sign_start(s);
    let a = crate::decimal::scan_digits(s, i);
    if a > i {
        assert(crate::decimal::digit(s[i]));
    } else {
        assert(s[a] == '.');
    }
}

/// A positional rendering of a digit string is a decimal literal.
pub proof fn lemma_render_number_text(neg: bool, ds: Seq<char>, e: int)
    requires
        ds.len() > 0,
        forall|i: int| 0 <= i < ds.len() ==> crate::decimal::digit(ds[i]),
    ensures
        number_text(crate::decimal::render(neg, ds, e)),
{
    crate::decimal::lemma_zeros_chars(e - ds.len());
    crate::decimal::lemma_zeros_chars(-e);
    let s = crate::decimal::render(neg, ds, e);
    let off: int = if neg {
        1
    } else {
        0
    };
    let body = if e >= ds.len() {
        ds + crate::decimal::zeros(e - ds.len())
    } else if e >= 1 {
        ds.take(e) + seq!['.'] + ds.skip(e)
    } else {
        seq!['0', '.'] + crate::decimal::zeros(-e) + ds
    };
    assert(s.len() == off + body.len());
    assert(forall|j: int| 0 <= j < body.len() ==> s[off + j] == body[j]);
    assert(sign_start(s) == off) by {
        if neg {
            assert(s[0] == '-');
        } else {
            assert(s[0] == body[0]);
            assert(crate::decimal::digit(body[0]) || body[0] == '0');
        }
    }
    if e >= ds.len() {
        assert forall|x: int| off <= x < s.len() implies crate::decimal::digit(s[x]) by {
            assert(s[x] == body[x - off]);
            if x - off < ds.len() {
                assert(body[x - off] == ds[x - off]);
            } else {
                assert(body[x - off] == crate::decimal::zeros(e - ds.len())[x - off
                    - ds.len()]);
            }
        }
        crate::decimal::lemma_scan_digits_stops(s, off, s.len() as int);
    } else if e >= 1 {
        assert forall|x: int| off <= x < off + e implies crate::decimal::digit(s[x]) by {
            assert(s[x] == body[x - off]);
            assert(body[x - off] == ds.take(e)[x - off]);
        }
        assert(s[off + e] == body[e]);
        assert(body[e] == '.');
        crate::decimal::lemma_scan_digits_stops(s, off, off + e);
        assert forall|x: int| off + e + 1 <= x < s.len() implies crate::decimal::digit(
            s[x],
        ) by {
            assert(s[x] == body[x - off]);
            assert(body[x - off] == ds.skip(e)[x - off - e - 1]);
        }
        crate::decimal::lemma_scan_digits_stops(s, off + e + 1, s.len() as int);
    } else {
        assert(s[off + 0] == body[0]);
        assert(s[off + 1] == body[1]);
        crate::decimal::lemma_scan_digits_stops(s, off, off + 1);
        assert forall|x: int| off + 2 <= x < s.len() implies crate::decimal::digit(s[x]) by {
            assert(s[x] == body[x - off]);
            if x - off < 2 + crate::decimal::zeros(-e).len() {
                assert(body[x - off] == crate::decimal::zeros(-e)[x - off - 2]);
            } else {
                assert(body[x - off] == ds[x - off - 2 - crate::decimal::zeros(-e).len()]);
            }
        }
        crate::decimal::lemma_scan_digits_stops(s, off + 2, s.len() as int);
    }
}

/// Decides `inf_text`.
fn is_inf_text(v: &Vec<char>) -> (r: bool)
    ensures
        r == inf_text(v@),
{
    let n = v.len();
    let i: usize = if n > 0 && (v[0] == '+' || v[0] == '-') {
        1
    } else {
        0
    };
    (n >= i && n - i == 3 && (v[i] == 'i' || v[i] == 'I') && (v[i + 1] == 'n' || v[i + 1] == 'N')
        && (v[i + 2] == 'f' || v[i + 2] == 'F')) || (n >= i && n - i == 8 && (v[i] == 'i'
        || v[i] == 'I') && (v[i + 1] == 'n' || v[i + 1] == 'N') && (v[i + 2] == 'f'
        || v[i + 2] == 'F') && (v[i + 3] == 'i' || v[i + 3] == 'I') && (v[i + 4] == 'n'
        || v[i + 4] == 'N') && (v[i + 5] == 'i' || v[i + 5] == 'I') && (v[i + 6] == 't'
        || v[i + 6] == 'T') && (v[i + 7] == 'y' || v[i + 7] == 'Y'))
}

/// Decides `nan_text`.
fn is_nan_text(v: &Vec<char>) -> (r: bool)
    ensures
        r == nan_text(v@),
{
    let n = v.len();
    let i: usize = if n > 0 && (v[0] == '+' || v[0] == '-') {
        1
    } else {
        0
    };
    n >= i && n - i == 3 && (v[i] == 'n' || v[i] == 'N') && (v[i + 1] == 'a' || v[i + 1] == 'A')
        && (v[i + 2] == 'n' || v[i + 2] == 'N')
}

/// Decides `number_text`.
fn is_number_text(v: &Vec<char>) -> (r: bool)
    ensures
        r == number_text(v@),
{
    let n = v.len();
    let i: usize = if n > 0 && (v[0] == '+' || v[0] == '-') {
        1
    } else {
        0
    };
    let a = crate::decimal::scan(v, i);
    let has_pt = a < n && v[a] == '.';
    let b = if has_pt {
        crate::decimal::scan(v, a + 1)
    } else {
        a
    };
    let mantissa_ok = a > i || (has_pt && b > a + 1);
    if !mantissa_ok {
        false
    } else if b == n {
        true
    } else if v[b] == 'e' || v[b] == 'E' {
        let e0 = if b + 1 < n && (v[b + 1] == '+' || v[b + 1] == '-') {
            b + 2
        } else {
            b + 1
        };
        let c = crate::decimal::scan(v, e0);
        c == n && c > e0
    } else {
        false
    }
}

/// Computes `run_token`.
fn finish_run(buf: Vec<char>) -> (r: Token)
    ensures
        r@ == run_token(buf@),
{
    if is_inf_text(&buf) {
        if buf.len() > 0 && buf[0] == '-' {
            Token::NUM(0xFFF0_0000_0000_0000)
        } else {
            Token::NUM(0x7FF0_0000_0000_0000)
        }
    } else if is_nan_text(&buf) {
        if buf.len() > 0 && buf[0] == '-' {
            Token::NUM(0xFFF8_0000_0000_0000)
        } else {
            Token::NUM(0x7FF8_0000_0000_0000)
        }
    } else if is_number_text(&buf) {
        let text = num::chars_to_string(&buf);
        match num::num_parse(&text) {
            Some(n) => Token::NUM(n),
            None => Token::IDENT(text),
        }
    } else {
        Token::IDENT(num::chars_to_string(&buf))
    }
}

/// The lexer: the source characters and the position of the next scan.
pub struct Lexer {
    pub chars: Vec<char>,
    pub pos: usize,
}

impl Lexer {
    /// A lexer over `reader`, about to scan its first character.
    pub fn new(reader: Vec<char>) -> (r: Lexer)
        ensures
            r.chars@ == reader@,
            r.pos == 0,
    {
        Lexer { chars: reader, pos: 0 }
    }

    /// Scan one token: the token, a lexical error, or nothing at the end of
    /// the input.
    pub fn next_token(&mut self) -> (r: Option<Result<Token, LispError>>)
        requires
            old(self).pos <= old(self).chars@.len(),
        ensures
            final(self).chars@ == old(self).chars@,
            final(self).pos <= final(self).chars@.len(),
            match r {
                None => lex_next(old(self).chars@, old(self).pos as int, Seq::empty())
                    is End && final(self).pos == final(self).chars@.len(),
                Some(Ok(t)) => lex_next(old(self).chars@, old(self).pos as int, Seq::empty())
                    == LexOut::Tok(t@, final(self).pos as int) && old(self).pos
                    < final(self).pos,
                Some(Err(e)) => e == LispError::LexError && lex_next(
                    old(self).chars@,
                    old(self).pos as int,
                    Seq::empty(),
                ) == LexOut::Bad(final(self).pos as int) && old(self).pos < final(self).pos,
            },
    {
        let len = self.chars.len();
        let mut buf: Vec<char> = Vec::new();
        while self.pos < len
            invariant
                len == self.chars@.len(),
                self.pos <= len,
                self.chars@ == old(self).chars@,
                lex_next(old(self).chars@, old(self).pos as int, Seq::empty()) == lex_next(
                    self.chars@,
                    self.pos as int,
                    buf@,
                ),
                old(self).pos <= self.pos,
            decreases len - self.pos,
        {
            let ch = self.chars[self.pos];
            if is_identifier_char(ch) {
                buf.push(ch);
            }
            let more = self.pos + 1 < len;
            if ch == '(' {
                self.pos = self.pos + 1;
                return Some(Ok(Token::LPER));
            } else if ch == ')' {
                self.pos = self.pos + 1;
                return Some(Ok(Token::RPER));
            } else if ch == '{' {
                self.pos = self.pos + 1;
                return Some(Ok(Token::LBRACE));
            } else if ch == '}' {
                self.pos = self.pos + 1;
                return Some(Ok(Token::RBRACE));
            } else if ch == '\'' {
                self.pos = self.pos + 1;
                return Some(Ok(Token::QUOTE));
            } else if ch == '.' && (!more || !is_identifier_char(self.chars[self.pos + 1])) {
                self.pos = self.pos + 1;
                return Some(Ok(Token::DOT));
            } else if ch == '#' && more {
                let nx = self.chars[self.pos + 1];
                self.pos = self.pos + 2;
                if nx == 't' {
                    return Some(Ok(Token::BOOL(true)));
                } else if nx == 'f' {
                    return Some(Ok(Token::BOOL(false)));
                } else {
                    return Some(Err(LispError::LexError));
                }
            } else if is_identifier_char(ch) {
                if more && is_identifier_char(self.chars[self.pos + 1]) {
                    self.pos = self.pos + 1;
                } else {
                    self.pos = self.pos + 1;
                    return Some(Ok(finish_run(buf)));
                }
            } else {
                self.pos = self.pos + 1;
            }
        }
        None
    }
}

/// Read the whole token stream of `chars`, or report its first lexical
/// error.
pub fn tokenize(chars: &Vec<char>) -> (r: Result<Vec<Token>, LispError>)
    ensures
        match r {
            Ok(ts) => lex_all(chars@, 0) == Ok::<Seq<TokenM>, LispError>(tokens_model(ts@)),
            Err(e) => lex_all(chars@, 0) == Err::<Seq<TokenM>, LispError>(e),
        },
{
    let copy = chars.clone();
    proof {
        assert forall|i: int| 0 <= i < chars@.len() implies copy@[i] == chars@[i] by {
            assert(vstd::pervasive::cloned::<char>(chars@[i], copy@[i]));
        }
        assert(copy@ =~= chars@);
    }
    let mut lexer = Lexer::new(copy);
    let mut out: Vec<Token> = Vec::new();
    loop
        invariant
            lexer.chars@ == chars@,
            lexer.pos <= lexer.chars@.len(),
            ({
                let rest = lex_all(chars@, lexer.pos as int);
                let full = lex_all(chars@, 0);
                match rest {
                    Ok(ts) => full == Ok::<Seq<TokenM>, LispError>(tokens_model(out@) + ts),
                    Err(e) => full == Err::<Seq<TokenM>, LispError>(e),
                }
            }),
        decreases lexer.chars@.len() - lexer.pos,
    {
        let ghost pos0 = lexer.pos as int;
        proof {
            lemma_lex_next_advances(chars@, pos0, Seq::empty());
            lemma_tokens_model_index(out@);
        }
        match lexer.next_token() {
            None => {
                proof {
                    assert(tokens_model(out@) + Seq::<TokenM>::empty() =~= tokens_model(out@));
                }
                return Ok(out);
            },
            Some(Err(e)) => {
                return Err(e);
            },
            Some(Ok(t)) => {
                let ghost prev = out@;
                out.push(t);
                proof {
                    assert(out@.drop_last() =~= prev);
                    lemma_tokens_model_index(out@);
                    assert(tokens_model(out@) =~= tokens_model(prev).push(t@));
                    let rest0 = lex_all(chars@, pos0);
                    let rest1 = lex_all(chars@, lexer.pos as int);
                    match rest1 {
                        Ok(ts) => {
                            assert(rest0 == Ok::<Seq<TokenM>, LispError>(seq![t@] + ts));
                            assert(tokens_model(prev) + (seq![t@] + ts) =~= tokens_model(out@)
                                + ts);
                        },
                        Err(_) => {},
                    }
                }
            },
        }
    }
}

} // verus!
