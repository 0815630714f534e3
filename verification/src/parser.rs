//! SMT-LIB 2 input: a lexer over characters and a recursive-descent parser for commands,
//! sorts and terms.
use vstd::prelude::*;
use vstd::arithmetic::power2::{pow2, lemma_pow2_unfold, lemma_pow2_strictly_increases, lemma2_to64, lemma2_to64_rest};
use crate::ast::{Expr, SExpr, Type, clone_exprs, exprs_view, lemma_exprs_view};
use crate::ast::fp::FloatSort;
use crate::render::{dec_digits, digit_char, int_text};

verus! {

broadcast use vstd::std_specs::vec::group_vec_axioms;

/// `str::chars`: the characters of `s`, in order.
#[verifier::external_body]
pub(crate) fn chars_of(s: &str) -> (r: Vec<char>)
    ensures
        r@ == s@,
{
    s.chars().collect()
}

/// `String::from_iter`: the string made of the characters of `v`.
#[verifier::external_body]
pub(crate) fn string_from_chars(v: &Vec<char>) -> (r: String)
    ensures
        r@ == v@,
{
    v.iter().collect()
}

/// Whether a character has the Unicode `Alphabetic` property, as `char::is_alphabetic`
/// tells.
pub uninterp spec fn alphabetic(c: char) -> bool;

/// `char::is_alphabetic`; on ASCII it holds exactly of the letters.
#[verifier::external_body]
fn char_is_alphabetic(c: char) -> (r: bool)
    ensures
        r == alphabetic(c),
        (c as u32) < 128 ==> r == (('a' <= c && c <= 'z') || ('A' <= c && c <= 'Z')),
{
    c.is_alphabetic()
}

/// Whether a character has the Unicode `White_Space` property, as `char::is_whitespace`
/// tells.
pub uninterp spec fn white_space(c: char) -> bool;

/// `char::is_whitespace`; on ASCII it holds exactly of tab, line feed, vertical tab, form
/// feed, carriage return and space.
#[verifier::external_body]
pub(crate) fn char_is_whitespace(c: char) -> (r: bool)
    ensures
        r == white_space(c),
        (c as u32) < 128 ==> r == (c == ' ' || ('\t' <= c && c <= '\r')),
{
    c.is_whitespace()
}

/// Whether `c` is an ASCII digit.
pub open spec fn is_digit(c: char) -> bool {
    '0' <= c && c <= '9'
}

/// The punctuation that may occur in a symbol.
pub open spec fn is_symbol_punct(c: char) -> bool {
    c == '~' || c == '!' || c == '@' || c == '$' || c == '%' || c == '^' || c == '&' || c == '*'
        || c == '_' || c == '-' || c == '+' || c == '=' || c == '<' || c == '>' || c == '.' || c == '?'
        || c == '/'
}

/// Whether a symbol may start with `c`: a letter or one of `~!@$%^&*_-+=<>.?/`.
pub open spec fn symbol_char(c: char) -> bool {
    alphabetic(c) || is_symbol_punct(c)
}

/// Whether `c` may occur in a symbol: a letter or one of `~!@$%^&*_-+=<>.?/`.
fn is_symbol_char(c: char) -> (r: bool)
    ensures
        r == symbol_char(c),
        (c as u32) < 128 ==> r == (('a' <= c && c <= 'z') || ('A' <= c && c <= 'Z') || is_symbol_punct(c)),
        is_symbol_punct(c) ==> r,
{
    char_is_alphabetic(c) || c == '~' || c == '!' || c == '@' || c == '$' || c == '%' || c == '^'
        || c == '&' || c == '*' || c == '_' || c == '-' || c == '+' || c == '=' || c == '<' || c == '>'
        || c == '.' || c == '?' || c == '/'
}

/// The value of a run of decimal digits.
pub open spec fn digits_int(s: Seq<char>) -> int
    decreases s.len(),
{
    if s.len() == 0 {
        0
    } else {
        digits_int(s.drop_last()) * 10 + (s.last() as int - '0' as int)
    }
}

/// `chars[b..e]` is a whole symbol: a symbol character, then symbol characters or digits, up
/// to one that is neither.
pub open spec fn symbol_run(chars: Seq<char>, b: int, e: int) -> bool {
    &&& 0 <= b < e <= chars.len()
    &&& symbol_char(chars[b])
    &&& forall|i: int| b < i < e ==> symbol_char(#[trigger] chars[i]) || is_digit(chars[i])
    &&& e == chars.len() || !(symbol_char(chars[e]) || is_digit(chars[e]))
}

/// `chars[b..e]` is a whole keyword: `:` and the characters up to white space or a
/// parenthesis.
pub open spec fn keyword_run(chars: Seq<char>, b: int, e: int) -> bool {
    &&& 0 <= b < e <= chars.len()
    &&& chars[b] == ':'
    &&& forall|i: int| b < i < e ==> !(white_space(#[trigger] chars[i]) || chars[i] == '(' || chars[i] == ')')
    &&& e == chars.len() || white_space(chars[e]) || chars[e] == '(' || chars[e] == ')'
}

/// `chars[b..e]` is a whole numeral: a digit, or `-` and a digit, then digits and dots.
pub open spec fn numeral_run(chars: Seq<char>, b: int, e: int) -> bool {
    &&& 0 <= b < e <= chars.len()
    &&& is_digit(chars[b]) || (chars[b] == '-' && b + 1 < e && is_digit(chars[b + 1]))
    &&& forall|i: int| b < i < e ==> is_digit(#[trigger] chars[i]) || chars[i] == '.'
    &&& e == chars.len() || !(is_digit(chars[e]) || chars[e] == '.')
}

/// The value of a run of binary digits.
pub open spec fn bits_value(s: Seq<char>) -> int
    decreases s.len(),
{
    if s.len() == 0 {
        0
    } else {
        bits_value(s.drop_last()) * 2 + if s.last() == '1' { 1int } else { 0int }
    }
}

/// `chars[b..e]` is a whole binary literal: `#b` and the binary digits that follow.
pub open spec fn bitvec_run(chars: Seq<char>, b: int, e: int) -> bool {
    &&& 0 <= b && b + 2 < e <= chars.len()
    &&& chars[b] == '#' && chars[b + 1] == 'b'
    &&& forall|i: int| b + 2 <= i < e ==> (#[trigger] chars[i] == '0' || chars[i] == '1')
    &&& e == chars.len() || !(chars[e] == '0' || chars[e] == '1')
}

/// `chars[b..e]` is a string literal: `"`, its body `chars[b+1..q]` without `"`, and the
/// closing `"` at `q` (or the end of the input at `q`).
pub open spec fn string_run(chars: Seq<char>, b: int, q: int, e: int) -> bool {
    &&& 0 <= b < q <= chars.len()
    &&& chars[b] == '"'
    &&& forall|i: int| b < i < q ==> #[trigger] chars[i] != '"'
    &&& (q < chars.len() && chars[q] == '"' && e == q + 1) || (q == chars.len() && e == q)
}

/// What `next_token` states of a token that ends at `e` and was read from `p` on: the
/// characters it was read from, and its value.
pub open spec fn token_read(chars: Seq<char>, p: int, e: int, t: Token) -> bool {
    match t {
        Token::LParen => p < e && chars[e - 1] == '(',
        Token::RParen => p < e && chars[e - 1] == ')',
        Token::Symbol(s) => p <= e - s@.len() && symbol_run(chars, e - s@.len(), e) && s@ == chars.subrange(e - s@.len(), e),
        Token::Keyword(s) => p <= e - s@.len() && keyword_run(chars, e - s@.len(), e) && s@ == chars.subrange(e - s@.len(), e),
        Token::Real(s) => p <= e - s@.len() && numeral_run(chars, e - s@.len(), e) && s@ == chars.subrange(e - s@.len(), e)
            && s@.contains('.'),
        Token::Int(v) => exists|b: int| p <= b && numeral_run(chars, b, e)
            && !chars.subrange(b, e).contains('.')
            && v == (if i64::MIN <= signed_digits_value(chars.subrange(b, e)) <= i64::MAX {
                signed_digits_value(chars.subrange(b, e))
            } else {
                0
            }),
        Token::BitVec(v, w) => p <= e - w - 2 && bitvec_run(chars, e - w - 2, e)
            && (w <= 64 ==> v == bits_value(chars.subrange(e - w, e))),
        Token::String(s) => exists|b: int, q: int| p <= b && string_run(chars, b, q, e) && s@ == chars.subrange(b + 1, q),
    }
}

/// A token.
#[derive(Debug, PartialEq)]
pub enum Token {
    LParen,
    RParen,
    Symbol(String),
    Keyword(String),
    Int(i64),
    /// A decimal numeral, as written.
    Real(String),
    /// Bit-vector value and width.
    BitVec(u64, usize),
    String(String),
}

/// The position just past the `;` comment whose body starts at `i`: past its line's end, or
/// the end of the text.
pub open spec fn comment_end(chars: Seq<char>, i: int) -> int
    decreases chars.len() - i,
{
    if i < 0 || i >= chars.len() {
        chars.len() as int
    } else if chars[i] == '\n' {
        i + 1
    } else {
        comment_end(chars, i + 1)
    }
}

/// A comment ends after its start.
pub proof fn lemma_comment_end(chars: Seq<char>, i: int)
    requires
        0 <= i,
    ensures
        comment_end(chars, i) > i || (i >= chars.len() && comment_end(chars, i) == chars.len()),
        comment_end(chars, i) <= chars.len() || i > chars.len(),
        i <= chars.len() ==> comment_end(chars, i) >= i,
    decreases chars.len() - i,
{
    if i < chars.len() && chars[i] != '\n' {
        lemma_comment_end(chars, i + 1);
    }
}

/// Whether `#` at `p` starts a binary literal (`#b` and a binary digit).
pub open spec fn binary_start(chars: Seq<char>, p: int) -> bool {
    p + 2 < chars.len() && chars[p + 1] == 'b' && (chars[p + 2] == '0' || chars[p + 2] == '1')
}

/// Whether the characters from `p` to `e` are what the lexer passes over between tokens:
/// white space, `;` comments to the end of their line, a `#` with the character after it
/// where no binary literal follows, and a `#` that ends the text.
pub open spec fn skippable(chars: Seq<char>, p: int, e: int) -> bool
    decreases e - p,
{
    if p >= e {
        p == e
    } else if p < 0 || e > chars.len() {
        false
    } else if white_space(chars[p]) {
        skippable(chars, p + 1, e)
    } else if chars[p] == ';' {
        proof {
            lemma_comment_end(chars, p + 1);
        }
        comment_end(chars, p + 1) <= e && skippable(chars, comment_end(chars, p + 1), e)
    } else if chars[p] == '#' && p + 1 == chars.len() {
        e == p + 1
    } else if chars[p] == '#' && !binary_start(chars, p) && p + 2 <= e {
        skippable(chars, p + 2, e)
    } else if starts_no_token(chars, p) {
        skippable(chars, p + 1, e)
    } else {
        false
    }
}

/// Whether the character at `p` begins no token: no parenthesis, `:`, `"`, `#`, digit,
/// negative numeral or symbol character.
pub open spec fn starts_no_token(chars: Seq<char>, p: int) -> bool {
    let c = chars[p];
    !(c == '(' || c == ')' || c == ':' || c == '"' || c == '#' || is_digit(c) || symbol_char(c)
        || (c == '-' && p + 1 < chars.len() && is_digit(chars[p + 1])))
}

/// Skippable stretches join.
proof fn lemma_skippable_join(chars: Seq<char>, a: int, b: int, c: int)
    requires
        skippable(chars, a, b),
        skippable(chars, b, c),
    ensures
        skippable(chars, a, c),
    decreases b - a,
{
    if a < b {
        if white_space(chars[a]) {
            lemma_skippable_join(chars, a + 1, b, c);
        } else if chars[a] == ';' {
            lemma_comment_end(chars, a + 1);
            lemma_skippable_join(chars, comment_end(chars, a + 1), b, c);
        } else if chars[a] == '#' && a + 1 == chars.len() {
            assert(b == a + 1);
            assert(c == b);
        } else if chars[a] == '#' && !binary_start(chars, a) && a + 2 <= b {
            lemma_skippable_join(chars, a + 2, b, c);
        } else {
            lemma_skippable_join(chars, a + 1, b, c);
        }
    }
}

/// The lexer: the input's characters and the position of the next one.
pub struct Lexer {
    pub chars: Vec<char>,
    pub pos: usize,
}

impl Lexer {
    pub fn new(input: &str) -> (r: Lexer)
        ensures
            r.chars@ == input@,
            r.pos == 0,
    {
        Lexer { chars: chars_of(input), pos: 0 }
    }

    /// How many characters are left.
    pub open spec fn remaining(&self) -> int {
        self.chars@.len() - self.pos
    }

    pub open spec fn wf(&self) -> bool {
        self.pos <= self.chars@.len()
    }

    /// Skips whitespace and `;` comments (to the end of the line).
    #[verifier::loop_isolation(false)]
    pub fn skip_whitespace(&mut self)
        requires
            old(self).wf(),
        ensures
            final(self).wf(),
            final(self).chars@ == old(self).chars@,
            final(self).pos >= old(self).pos,
            final(self).pos < final(self).chars@.len() ==> final(self).chars@[final(self).pos as int] != ';',
            final(self).pos < final(self).chars@.len() ==> !white_space(final(self).chars@[final(self).pos as int]),
            skippable(final(self).chars@, old(self).pos as int, final(self).pos as int),
    {
        while self.pos < self.chars.len()
            invariant
                self.wf(),
                self.chars@ == old(self).chars@,
                self.pos >= old(self).pos,
                skippable(self.chars@, old(self).pos as int, self.pos as int),
            decreases self.chars@.len() - self.pos,
        {
            let c = self.chars[self.pos];
            let ghost p0 = self.pos as int;
            if char_is_whitespace(c) {
                self.pos += 1;
                proof {
                    assert(skippable(self.chars@, p0 + 1, p0 + 1));
                    assert(white_space(self.chars@[p0]));
                    assert(skippable(self.chars@, p0, p0 + 1));
                    lemma_skippable_join(self.chars@, old(self).pos as int, p0, p0 + 1);
                }
            } else if c == ';' {
                self.pos += 1;
                while self.pos < self.chars.len()
                    invariant
                        self.wf(),
                        self.chars@ == old(self).chars@,
                        self.pos > p0,
                        self.pos >= old(self).pos,
                        comment_end(self.chars@, p0 + 1) == comment_end(self.chars@, self.pos as int),
                    decreases self.chars@.len() - self.pos,
                {
                    let n = self.chars[self.pos];
                    self.pos += 1;
                    if n == '\n' {
                        break;
                    }
                }
                proof {
                    lemma_comment_end(self.chars@, p0 + 1);
                    assert(skippable(self.chars@, self.pos as int, self.pos as int));
                    assert(skippable(self.chars@, p0, self.pos as int));
                    lemma_skippable_join(self.chars@, old(self).pos as int, p0, self.pos as int);
                }
            } else {
                break;
            }
        }
    }

    /// The characters from `start` up to the current position.
    fn slice_from(&self, start: usize) -> (r: Vec<char>)
        requires
            self.wf(),
            start <= self.pos,
        ensures
            r@ == self.chars@.subrange(start as int, self.pos as int),
    {
        let mut out: Vec<char> = Vec::new();
        let mut i = start;
        while i < self.pos
            invariant
                self.wf(),
                start <= i <= self.pos,
                out@ == self.chars@.subrange(start as int, i as int),
            decreases self.pos - i,
        {
            out.push(self.chars[i]);
            i += 1;
            assert(out@ =~= self.chars@.subrange(start as int, i as int));
        }
        out
    }

    /// The next token; unknown characters, and `#` not followed by a binary numeral, are
    /// skipped. A numeral with a `.` is a decimal; an integer numeral beyond `i64` reads as 0.
    pub fn next_token(&mut self) -> (r: Option<Token>)
        requires
            old(self).wf(),
        ensures
            final(self).wf(),
            final(self).chars@ == old(self).chars@,
            final(self).pos >= old(self).pos,
            r is Some ==> final(self).pos > old(self).pos,
            r is None ==> final(self).pos == final(self).chars@.len(),
            r matches Some(t) ==> token_read(final(self).chars@, old(self).pos as int, final(self).pos as int, t),
            r is None ==> skippable(final(self).chars@, old(self).pos as int, final(self).chars@.len() as int),
            r matches Some(t) ==> exists|s: int| old(self).pos <= s
                && #[trigger] skippable(final(self).chars@, old(self).pos as int, s)
                && token_read(final(self).chars@, s, final(self).pos as int, t),
    {
        loop
            invariant
                self.wf(),
                self.chars@ == old(self).chars@,
                self.pos >= old(self).pos,
                skippable(self.chars@, old(self).pos as int, self.pos as int),
            decreases self.chars@.len() - self.pos,
        {
            let ghost before_skip = self.pos as int;
            self.skip_whitespace();
            proof {
                lemma_skippable_join(self.chars@, old(self).pos as int, before_skip, self.pos as int);
            }
            if self.pos >= self.chars.len() {
                return None;
            }
            let start = self.pos;
            assert(skippable(self.chars@, old(self).pos as int, start as int));
            let c = self.chars[self.pos];
            self.pos += 1;
            if c == '(' {
                return Some(Token::LParen);
            }
            if c == ')' {
                return Some(Token::RParen);
            }
            if c == ':' {
                while self.pos < self.chars.len() && !char_is_whitespace(self.chars[self.pos])
                    && self.chars[self.pos] != '(' && self.chars[self.pos] != ')'
                    invariant
                        self.wf(),
                        self.chars@ == old(self).chars@,
                        self.pos > start,
                        start >= old(self).pos,
                        self.chars@[start as int] == ':',
                        forall|i: int| start < i < self.pos ==> !(white_space(#[trigger] self.chars@[i])
                            || self.chars@[i] == '(' || self.chars@[i] == ')'),
                    decreases self.chars@.len() - self.pos,
                {
                    self.pos += 1;
                }
                let s = self.slice_from(start);
                let t = string_from_chars(&s);
                proof {
                    assert(t@.len() == self.pos - start);
                }
                return Some(Token::Keyword(t));
            }
            if c == '"' {
                let body = self.pos;
                while self.pos < self.chars.len() && self.chars[self.pos] != '"'
                    invariant
                        self.wf(),
                        self.chars@ == old(self).chars@,
                        body <= self.pos,
                        body == start + 1,
                        start >= old(self).pos,
                        self.chars@[start as int] == '"',
                        forall|i: int| start < i < self.pos ==> #[trigger] self.chars@[i] != '"',
                    decreases self.chars@.len() - self.pos,
                {
                    self.pos += 1;
                }
                let end = self.pos;
                if self.pos < self.chars.len() {
                    self.pos += 1;
                }
                let mut s: Vec<char> = Vec::new();
                let mut i = body;
                while i < end
                    invariant
                        self.wf(),
                        body <= i <= end,
                        end <= self.chars@.len(),
                        s@ == self.chars@.subrange(body as int, i as int),
                    decreases end - i,
                {
                    s.push(self.chars[i]);
                    i += 1;
                    assert(s@ =~= self.chars@.subrange(body as int, i as int));
                }
                let t = string_from_chars(&s);
                proof {
                    assert(string_run(self.chars@, start as int, end as int, self.pos as int));
                }
                return Some(Token::String(t));
            }
            if c == '#' {
                if self.pos >= self.chars.len() {
                    proof {
                        assert(skippable(self.chars@, start as int, start + 1));
                        lemma_skippable_join(self.chars@, old(self).pos as int, start as int, start + 1);
                    }
                    return None;
                }
                let base = self.chars[self.pos];
                self.pos += 1;
                if base == 'b' {
                    let mut value: u64 = 0;
                    let mut width: usize = 0;
                    proof {
                        lemma2_to64();
                        assert(self.chars@.subrange(start + 2, self.pos as int) =~= Seq::<char>::empty());
                    }
                    while self.pos < self.chars.len() && (self.chars[self.pos] == '0' || self.chars[self.pos] == '1')
                        invariant
                            self.wf(),
                            self.chars@ == old(self).chars@,
                            start >= old(self).pos,
                            self.pos == start + 2 + width,
                            self.chars@[start as int] == '#',
                            self.chars@[start + 1] == 'b',
                            forall|i: int| start + 2 <= i < self.pos ==> (#[trigger] self.chars@[i] == '0' || self.chars@[i] == '1'),
                            width <= 64 ==> value == bits_value(self.chars@.subrange(start + 2, self.pos as int))
                                && bits_value(self.chars@.subrange(start + 2, self.pos as int)) < pow2(width as nat),
                        decreases self.chars@.len() - self.pos,
                    {
                        let ghost prev = self.chars@.subrange(start + 2, self.pos as int);
                        let bit: u64 = if self.chars[self.pos] == '1' { 1 } else { 0 };
                        proof {
                            let next = self.chars@.subrange(start + 2, self.pos + 1);
                            assert(next.drop_last() =~= prev);
                            assert(next.last() == self.chars@[self.pos as int]);
                            if width + 1 <= 64 {
                                lemma_pow2_unfold((width + 1) as nat);
                                lemma2_to64();
                                lemma2_to64_rest();
                                if width < 63 {
                                    lemma_pow2_strictly_increases(width as nat, 63);
                                }
                                assert(value < 0x8000_0000_0000_0000);
                                assert((value << 1u64) | bit == value * 2 + bit) by (bit_vector)
                                    requires value < 0x8000_0000_0000_0000, bit <= 1;
                            }
                        }
                        value = (value << 1u64) | bit;
                        width += 1;
                        self.pos += 1;
                    }
                    if width > 0 {
                        return Some(Token::BitVec(value, width));
                    }
                }
                proof {
                    assert(self.pos == start + 2);
                    assert(!binary_start(self.chars@, start as int));
                    assert(skippable(self.chars@, start + 2, start + 2));
                    assert(skippable(self.chars@, start as int, start + 2));
                    lemma_skippable_join(self.chars@, old(self).pos as int, start as int, start + 2);
                }
                continue;
            }
            let neg_num = c == '-' && self.pos < self.chars.len() && is_digit_char(self.chars[self.pos]);
            if is_digit_char(c) || neg_num {
                let mut dots: usize = 0;
                while self.pos < self.chars.len() && (is_digit_char(self.chars[self.pos]) || self.chars[self.pos] == '.')
                    invariant
                        self.wf(),
                        self.chars@ == old(self).chars@,
                        self.pos > start,
                        start >= old(self).pos,
                        dots <= self.pos,
                        is_digit(self.chars@[start as int]) || (self.chars@[start as int] == '-' && start + 1 < self.chars@.len()
                            && is_digit(self.chars@[start + 1])),
                        forall|i: int| start < i < self.pos ==> is_digit(#[trigger] self.chars@[i]) || self.chars@[i] == '.',
                        dots == 0 ==> forall|i: int| start < i < self.pos ==> is_digit(#[trigger] self.chars@[i]),
                        dots > 0 ==> self.chars@.subrange(start as int, self.pos as int).contains('.'),
                    decreases self.chars@.len() - self.pos,
                {
                    if self.chars[self.pos] == '.' {
                        dots += 1;
                        assert(self.chars@.subrange(start as int, self.pos + 1)[self.pos - start] == '.');
                    } else {
                        proof {
                            if dots > 0 {
                                let k = choose|k: int| 0 <= k < self.chars@.subrange(start as int, self.pos as int).len()
                                    && self.chars@.subrange(start as int, self.pos as int)[k] == '.';
                                assert(self.chars@.subrange(start as int, self.pos + 1)[k] == '.');
                            }
                        }
                    }
                    self.pos += 1;
                }
                let s = self.slice_from(start);
                if dots > 0 {
                    let t = string_from_chars(&s);
                    proof {
                        assert(t@.len() == self.pos - start);
                    }
                    return Some(Token::Real(t));
                }
                proof {
                    assert(!s@.contains('.')) by {
                        if s@.contains('.') {
                            let k = choose|k: int| 0 <= k < s@.len() && s@[k] == '.';
                            assert(self.chars@[start + k] == '.');
                        }
                    }
                    if s@[0] == '-' {
                        assert(s@.drop_first() =~= self.chars@.subrange(start + 1, self.pos as int));
                        assert forall|k: int| 0 <= k < s@.drop_first().len() implies is_digit(#[trigger] s@.drop_first()[k]) by {
                            assert(s@.drop_first()[k] == self.chars@[start + 1 + k]);
                        }
                    } else {
                        assert forall|k: int| 0 <= k < s@.len() implies is_digit(#[trigger] s@[k]) by {
                            assert(s@[k] == self.chars@[start + k]);
                        }
                    }
                    assert(signed_digits(s@));
                }
                let v = match parse_i64(&s) {
                    Some(v) => v,
                    None => 0,
                };
                proof {
                    let b = start as int;
                    let e = self.pos as int;
                    assert(s@ =~= self.chars@.subrange(b, e));
                    assert(numeral_run(self.chars@, b, e));
                    assert(v == (if i64::MIN <= signed_digits_value(self.chars@.subrange(b, e)) <= i64::MAX {
                        signed_digits_value(self.chars@.subrange(b, e))
                    } else {
                        0
                    }));
                    assert(token_read(self.chars@, old(self).pos as int, e, Token::Int(v)));
                }
                return Some(Token::Int(v));
            }
            if is_symbol_char(c) {
                while self.pos < self.chars.len() && (is_symbol_char(self.chars[self.pos]) || is_digit_char(self.chars[self.pos]))
                    invariant
                        self.wf(),
                        self.chars@ == old(self).chars@,
                        self.pos > start,
                        start >= old(self).pos,
                        symbol_char(self.chars@[start as int]),
                        forall|i: int| start < i < self.pos ==> symbol_char(#[trigger] self.chars@[i]) || is_digit(self.chars@[i]),
                    decreases self.chars@.len() - self.pos,
                {
                    self.pos += 1;
                }
                let s = self.slice_from(start);
                let t = string_from_chars(&s);
                proof {
                    assert(t@.len() == self.pos - start);
                }
                return Some(Token::Symbol(t));
            }
            proof {
                assert(starts_no_token(self.chars@, start as int));
                assert(skippable(self.chars@, start + 1, start + 1));
                assert(skippable(self.chars@, start as int, start + 1));
                lemma_skippable_join(self.chars@, old(self).pos as int, start as int, start + 1);
            }
        }
    }
}

/// Whether `c` is an ASCII digit.
fn is_digit_char(c: char) -> (r: bool)
    ensures
        r == is_digit(c),
{
    '0' <= c && c <= '9'
}

/// Whether every character of `s` is a digit.
pub open spec fn all_digits(s: Seq<char>) -> bool {
    forall|i: int| 0 <= i < s.len() ==> is_digit(#[trigger] s[i])
}

/// The value of an optionally negative run of digits.
pub open spec fn signed_digits_value(s: Seq<char>) -> int {
    if s.len() > 0 && s[0] == '-' { -digits_int(s.drop_first()) } else { digits_int(s) }
}

/// Whether `s` is an optional `-` and at least one digit.
pub open spec fn signed_digits(s: Seq<char>) -> bool {
    if s.len() > 0 && s[0] == '-' { s.len() > 1 && all_digits(s.drop_first()) } else { s.len() > 0 && all_digits(s) }
}

proof fn lemma_digits_int_nonneg(s: Seq<char>)
    requires
        all_digits(s),
    ensures
        digits_int(s) >= 0,
    decreases s.len(),
{
    if s.len() > 0 {
        lemma_digits_int_nonneg(s.drop_last());
    }
}

/// A run of digits is worth at least any of its prefixes.
proof fn lemma_digits_int_prefix(s: Seq<char>, k: int)
    requires
        all_digits(s),
        0 <= k <= s.len(),
    ensures
        digits_int(s.subrange(0, k)) <= digits_int(s),
    decreases s.len() - k,
{
    if k < s.len() {
        lemma_digits_int_prefix(s, k + 1);
        let t = s.subrange(0, k + 1);
        assert(t.drop_last() =~= s.subrange(0, k));
        lemma_digits_int_nonneg(s.subrange(0, k));
    } else {
        assert(s.subrange(0, k) =~= s);
    }
}

/// When the digits of `s` read up to `i` already overflow `i64` with the next digit, the
/// whole run does.
proof fn lemma_overflow_out_of_range(s: Seq<char>, digits: Seq<char>, off: int, i: int, neg: bool)
    requires
        s.len() > 0,
        neg == (s[0] == '-'),
        off == (if neg { 1int } else { 0int }),
        off <= i < s.len(),
        digits == s.subrange(off, s.len() as int),
        is_digit(s[i]),
        neg ==> digits_int(digits.subrange(0, i - off)) * 10 + (s[i] as int - '0' as int) > 0x8000_0000_0000_0000
            || digits_int(digits.subrange(0, i - off)) * 10 > 0x8000_0000_0000_0000,
        !neg ==> digits_int(digits.subrange(0, i - off)) * 10 + (s[i] as int - '0' as int) > 0x7fff_ffff_ffff_ffff
            || digits_int(digits.subrange(0, i - off)) * 10 > 0x7fff_ffff_ffff_ffff,
    ensures
        signed_digits(s) ==> !(i64::MIN <= signed_digits_value(s) <= i64::MAX),
{
    if signed_digits(s) {
        if neg {
            assert(digits =~= s.drop_first());
        } else {
            assert(digits =~= s);
        }
        let pre = digits.subrange(0, i + 1 - off);
        assert(pre.drop_last() =~= digits.subrange(0, i - off));
        assert(pre.last() == s[i]);
        lemma_digits_int_prefix(digits, i + 1 - off);
        lemma_digits_int_nonneg(digits.subrange(0, i - off));
    }
}

/// The value of an optionally negative run of digits, when it fits in `i64`.
fn parse_i64(s: &Vec<char>) -> (r: Option<i64>)
    ensures
        r matches Some(v) ==> s@.len() > 0 && (
            (s@[0] == '-' && v == -digits_int(s@.drop_first()))
            || (s@[0] != '-' && v == digits_int(s@))),
        signed_digits(s@) ==> (r is Some <==> i64::MIN <= signed_digits_value(s@) <= i64::MAX),
{
    if s.len() == 0 {
        return None;
    }
    let neg = s[0] == '-';
    let mut i: usize = if neg { 1 } else { 0 };
    if i >= s.len() {
        return None;
    }
    let ghost digits = if neg { s@.drop_first() } else { s@ };
    let ghost off: int = if neg { 1 } else { 0 };
    let mut acc: i64 = 0;
    proof {
        assert(digits =~= s@.subrange(off, s@.len() as int));
    }
    while i < s.len()
        invariant
            off <= i <= s@.len(),
            digits == s@.subrange(off, s@.len() as int),
            off == (if neg { 1int } else { 0int }),
            neg == (s@[0] == '-'),
            s@.len() > 0,
            neg ==> acc <= 0 && acc == -digits_int(digits.subrange(0, i - off)),
            !neg ==> acc >= 0 && acc == digits_int(digits.subrange(0, i - off)),
        decreases s@.len() - i,
    {
        let c = s[i];
        if !is_digit_char(c) {
            proof {
                assert(!all_digits(digits)) by {
                    assert(digits[i - off] == c);
                }
            }
            return None;
        }
        let d: i64 = (c as u32 - '0' as u32) as i64;
        proof {
            assert(digits.subrange(0, i + 1 - off).drop_last() =~= digits.subrange(0, i - off));
            assert(digits.subrange(0, i + 1 - off).last() == c);
        }
        let m = match acc.checked_mul(10) {
            Some(m) => m,
            None => {
                proof {
                    lemma_overflow_out_of_range(s@, digits, off, i as int, neg);
                }
                return None;
            },
        };
        let next = if neg { m.checked_sub(d) } else { m.checked_add(d) };
        acc = match next {
            Some(v) => v,
            None => {
                proof {
                    lemma_overflow_out_of_range(s@, digits, off, i as int, neg);
                }
                return None;
            },
        };
        i += 1;
    }
    proof {
        assert(digits.subrange(0, s@.len() - off) =~= digits);
        if neg {
            assert(digits =~= s@.drop_first());
        }
    }
    Some(acc)
}

/// Whether `s` spells `lit`.
fn is_word(s: &String, lit: &str) -> (r: bool)
    ensures
        r == (s@ == lit@),
{
    *s == lit.to_owned()
}

/// The decimal digits of `n` (without sign).
fn u64_digits(n: u64) -> (r: Vec<char>)
    ensures
        r@ == dec_digits(n as nat),
{
    let mut out: Vec<char> = Vec::new();
    let mut m = n;
    loop
        invariant_except_break
            dec_digits(n as nat) == dec_digits(m as nat) + out@,
        ensures
            dec_digits(n as nat) == out@,
        decreases m,
    {
        let d = (m % 10) as u32;
        let c: char = if d == 0 { '0' } else if d == 1 { '1' } else if d == 2 { '2' } else if d == 3 { '3' }
            else if d == 4 { '4' } else if d == 5 { '5' } else if d == 6 { '6' } else if d == 7 { '7' }
            else if d == 8 { '8' } else { '9' };
        let ghost before = out@;
        out.insert(0, c);
        proof {
            assert(c == digit_char((m % 10) as int));
            assert(out@ =~= seq![c] + before);
            if m >= 10 {
                assert(dec_digits(m as nat) == dec_digits((m / 10) as nat).push(c));
                assert(dec_digits((m / 10) as nat).push(c) + before =~= dec_digits((m / 10) as nat) + out@);
            } else {
                assert(dec_digits(m as nat) == seq![c]);
                assert(dec_digits(n as nat) =~= out@);
            }
        }
        m = m / 10;
        if m == 0 {
            break;
        }
    }
    out
}

/// The decimal rendering of an integer.
fn i64_text(v: i64) -> (r: String)
    ensures
        r@ == int_text(v as int),
{
    let mut out: Vec<char> = Vec::new();
    let mag: u64 = if v < 0 {
        if v == i64::MIN { 9223372036854775808u64 } else { (-v) as u64 }
    } else {
        v as u64
    };
    if v < 0 {
        out.push('-');
    }
    let mut d = u64_digits(mag);
    out.append(&mut d);
    proof {
        if v < 0 {
            assert(out@ =~= seq!['-'] + dec_digits((-v) as nat));
        } else {
            assert(out@ =~= dec_digits(v as nat));
        }
    }
    string_from_chars(&out)
}

/// The binary digit of `value` at place `k` (0 at 64 and beyond).
pub open spec fn bit_char(value: u64, k: int) -> char {
    if 0 <= k < 64 && ((value >> (k as u64)) & 1) == 1 { '1' } else { '0' }
}

/// The `width` low binary digits of `value`, most significant first.
pub open spec fn binary_digits(value: u64, width: nat) -> Seq<char> {
    Seq::new(width, |j: int| bit_char(value, width - 1 - j))
}

/// `#b` followed by the `width` low bits of `value`, most significant first (more bits
/// than 64 read as zero).
fn binary_text(value: u64, width: usize) -> (r: String)
    ensures
        r@ == seq!['#', 'b'] + binary_digits(value, width as nat),
{
    let mut out: Vec<char> = Vec::new();
    out.push('#');
    out.push('b');
    let mut i = width;
    proof {
        assert(out@ =~= seq!['#', 'b'] + Seq::new((width - i) as nat, |j: int| bit_char(value, width - 1 - j)));
    }
    while i > 0
        invariant
            i <= width,
            out@ == seq!['#', 'b'] + Seq::new((width - i) as nat, |j: int| bit_char(value, width - 1 - j)),
        decreases i,
    {
        i -= 1;
        let bit = if i < 64 { (value >> (i as u64)) & 1 } else { 0 };
        out.push(if bit == 1 { '1' } else { '0' });
        proof {
            assert((if bit == 1 { '1' } else { '0' }) == bit_char(value, i as int));
            assert(out@ =~= seq!['#', 'b'] + Seq::new((width - i) as nat, |j: int| bit_char(value, width - 1 - j)));
        }
    }
    string_from_chars(&out)
}

/// The index of the first character at or after `i` that is not a digit (the length where
/// digits run to the end).
pub open spec fn digit_run_end(s: Seq<char>, i: int) -> int
    decreases s.len() - i,
{
    if i < 0 || i >= s.len() || !is_digit(s[i]) { i } else { digit_run_end(s, i + 1) }
}

/// `s` without its leading `0`s.
pub open spec fn strip_leading_zeros(s: Seq<char>) -> Seq<char>
    decreases s.len(),
{
    if s.len() > 0 && s[0] == '0' { strip_leading_zeros(s.drop_first()) } else { s }
}

/// `s` without its trailing `0`s.
pub open spec fn strip_trailing_zeros(s: Seq<char>) -> Seq<char>
    decreases s.len(),
{
    if s.len() > 0 && s.last() == '0' { strip_trailing_zeros(s.drop_last()) } else { s }
}

/// The parts of a decimal numeral `[-]digits.digits`: its sign, its integer digits without
/// leading zeros and its fractional digits without trailing zeros; `None` for other text.
pub open spec fn decimal_split(t: Seq<char>) -> Option<(bool, Seq<char>, Seq<char>)> {
    if t.len() == 0 {
        None
    } else {
        let neg = t[0] == '-';
        let start: int = if neg { 1 } else { 0 };
        let k = digit_run_end(t, start);
        if k >= t.len() || t[k] != '.' {
            None
        } else if exists|j: int| k < j < t.len() && !is_digit(#[trigger] t[j]) {
            None
        } else {
            Some((neg, strip_leading_zeros(t.subrange(start, k)), strip_trailing_zeros(t.subrange(k + 1, t.len() as int))))
        }
    }
}

/// Stripping the leading zeros of `s` with one more character.
proof fn lemma_strip_leading_push(s: Seq<char>, c: char)
    ensures
        strip_leading_zeros(s.push(c)) == if strip_leading_zeros(s).len() == 0 && c == '0' {
            Seq::<char>::empty()
        } else {
            strip_leading_zeros(s).push(c)
        },
    decreases s.len(),
{
    if s.len() > 0 && s[0] == '0' {
        assert(s.push(c).drop_first() == s.drop_first().push(c));
        lemma_strip_leading_push(s.drop_first(), c);
    } else if s.len() == 0 {
        assert(s.push(c).drop_first() == Seq::<char>::empty());
        assert(strip_leading_zeros(Seq::<char>::empty()) == Seq::<char>::empty());
    }
}

/// The end of a run of digits is the same from any place inside it.
proof fn lemma_digit_run_end_step(s: Seq<char>, i: int)
    requires
        0 <= i < s.len(),
        is_digit(s[i]),
    ensures
        digit_run_end(s, i) == digit_run_end(s, i + 1),
{
}

/// The parts of a decimal numeral with one `.`: its sign, its integer digits without
/// leading zeros, and its fractional digits without trailing zeros; `None` for any other
/// text.
fn decimal_parts(text: &Vec<char>) -> (r: Option<(bool, Vec<char>, Vec<char>)>)
    ensures
        r matches Some(p) ==> forall|i: int| 0 <= i < p.1@.len() ==> is_digit(#[trigger] p.1@[i]),
        r matches Some(p) ==> forall|i: int| 0 <= i < p.2@.len() ==> is_digit(#[trigger] p.2@[i]),
        r is Some <==> decimal_split(text@) is Some,
        r matches Some(p) ==> decimal_split(text@) == Some((p.0, p.1@, p.2@)),
{
    let n = text.len();
    if n == 0 {
        return None;
    }
    let neg = text[0] == '-';
    let mut i: usize = if neg { 1 } else { 0 };
    let ghost start: int = i as int;
    let mut int_part: Vec<char> = Vec::new();
    while i < n && is_digit_char(text[i])
        invariant
            start <= i <= n,
            n == text@.len(),
            start == (if text@[0] == '-' { 1int } else { 0int }),
            forall|q: int| 0 <= q < int_part@.len() ==> is_digit(#[trigger] int_part@[q]),
            int_part@ == strip_leading_zeros(text@.subrange(start, i as int)),
            digit_run_end(text@, start) == digit_run_end(text@, i as int),
        decreases n - i,
    {
        proof {
            lemma_strip_leading_push(text@.subrange(start, i as int), text@[i as int]);
            assert(text@.subrange(start, i + 1) == text@.subrange(start, i as int).push(text@[i as int]));
            lemma_digit_run_end_step(text@, i as int);
        }
        if !(int_part.len() == 0 && text[i] == '0') {
            int_part.push(text[i]);
        }
        i += 1;
    }
    let ghost k: int = i as int;
    assert(digit_run_end(text@, k) == k);
    if i >= n || text[i] != '.' {
        return None;
    }
    i += 1;
    let mut frac: Vec<char> = Vec::new();
    while i < n
        invariant
            k + 1 <= i <= n,
            n == text@.len(),
            n > 0,
            k < n,
            text@[k] == '.',
            start == (if text@[0] == '-' { 1int } else { 0int }),
            digit_run_end(text@, start) == k,
            frac@.len() == i - k - 1,
            forall|q: int| 0 <= q < frac@.len() ==> #[trigger] frac@[q] == text@[k + 1 + q],
            forall|q: int| 0 <= q < frac@.len() ==> is_digit(#[trigger] frac@[q]),
        decreases n - i,
    {
        if !is_digit_char(text[i]) {
            assert(!is_digit(text@[i as int]));
            return None;
        }
        frac.push(text[i]);
        i += 1;
    }
    assert(!exists|j: int| k < j < text@.len() && !is_digit(#[trigger] text@[j])) by {
        assert forall|j: int| k < j < text@.len() implies is_digit(#[trigger] text@[j]) by {
            assert(frac@[j - k - 1] == text@[j]);
        }
    }
    assert(frac@ == text@.subrange(k + 1, text@.len() as int));
    let ghost full = frac@;
    while frac.len() > 0 && frac[frac.len() - 1] == '0'
        invariant
            forall|q: int| 0 <= q < frac@.len() ==> is_digit(#[trigger] frac@[q]),
            strip_trailing_zeros(frac@) == strip_trailing_zeros(full),
        decreases frac@.len(),
    {
        frac.pop();
    }
    Some((neg, int_part, frac))
}

/// One step of reading a decimal digit `d` into `acc`, saturating at the bound of the sign.
pub open spec fn saturating_digit_step(acc: i64, d: int, neg: bool) -> i64 {
    let bound: i64 = if neg { i64::MIN } else { i64::MAX };
    let m = acc * 10;
    if m < i64::MIN || m > i64::MAX {
        bound
    } else {
        let v = if neg { m - d } else { m + d };
        if v < i64::MIN || v > i64::MAX { bound } else { v as i64 }
    }
}

/// The digits of `s` read as a number with the given sign, saturating.
pub open spec fn saturating_digits(s: Seq<char>, neg: bool) -> i64
    decreases s.len(),
{
    if s.len() == 0 {
        0
    } else {
        saturating_digit_step(saturating_digits(s.drop_last(), neg), s.last() as int - '0' as int, neg)
    }
}

/// The value of a decimal numeral as a term `mantissa / 10^scale`, with trailing zeros of
/// the fraction dropped: `1.25` is `Real(125, 2)`, `10.0` is `Real(10, 0)`; text that is not
/// a numeral gives zero, and a mantissa beyond `i64` saturates.
fn decimal_term(text: &String) -> (r: Expr)
    ensures
        r is Real,
        decimal_split(text@) is None ==> r == Expr::Real(0, 0),
        decimal_split(text@) matches Some((neg, ip, fp)) ==> r == Expr::Real(
            saturating_digits(ip + fp, neg),
            if fp.len() > u32::MAX { u32::MAX } else { fp.len() as u32 },
        ),
{
    let chars = chars_of(text.as_str());
    match decimal_parts(&chars) {
        None => Expr::Real(0, 0),
        Some((neg, int_part, frac)) => {
            let scale: u32 = if frac.len() > 4294967295 { 4294967295 } else { frac.len() as u32 };
            let mut digits = int_part;
            let ghost ip = digits@;
            let mut fr = frac;
            let ghost fp = fr@;
            digits.append(&mut fr);
            assert forall|t: int| 0 <= t < digits@.len() implies is_digit(#[trigger] digits@[t]) by {
                if t < ip.len() {
                    assert(digits@[t] == ip[t]);
                } else {
                    assert(digits@[t] == fp[t - ip.len()]);
                }
            }
            assert(digits@ == ip + fp);
            let mut acc: i64 = 0;
            let mut q: usize = 0;
            while q < digits.len()
                invariant
                    q <= digits@.len(),
                    forall|t: int| 0 <= t < digits@.len() ==> is_digit(#[trigger] digits@[t]),
                    acc == saturating_digits(digits@.take(q as int), neg),
                decreases digits@.len() - q,
            {
                assert(digits@.take(q + 1).drop_last() == digits@.take(q as int));
                let c = digits[q];
                let d: i64 = (c as u32 - '0' as u32) as i64;
                let bound: i64 = if neg { i64::MIN } else { i64::MAX };
                acc = match acc.checked_mul(10) {
                    Some(m) => match if neg { m.checked_sub(d) } else { m.checked_add(d) } {
                        Some(v) => v,
                        None => bound,
                    },
                    None => bound,
                };
                q += 1;
            }
            assert(digits@.take(digits@.len() as int) == digits@);
            Expr::Real(acc, scale)
        },
    }
}

/// The shortest rendering of the decimal numeral `t` (`0` for text that is not one).
pub open spec fn decimal_render(t: Seq<char>) -> Seq<char> {
    match decimal_split(t) {
        None => seq!['0'],
        Some((neg, ip, fp)) => (if neg { seq!['-'] } else { Seq::<char>::empty() })
            + (if ip.len() == 0 { seq!['0'] } else { ip })
            + (if fp.len() > 0 { seq!['.'] + fp } else { Seq::<char>::empty() }),
    }
}

/// The shortest rendering of a decimal numeral: no leading zeros, no trailing fractional
/// zeros, no `.` when the fraction is zero (`2.60` is `2.6`, `1.0` is `1`); text that is not
/// a numeral renders as `0`.
fn decimal_text(text: &String) -> (r: String)
    ensures
        r@ == decimal_render(text@),
{
    let chars = chars_of(text.as_str());
    let mut out: Vec<char> = Vec::new();
    match decimal_parts(&chars) {
        None => {
            out.push('0');
        },
        Some((neg, int_part, frac)) => {
            if neg {
                out.push('-');
            }
            let ghost lead = out@;
            assert(lead == (if neg { seq!['-'] } else { Seq::<char>::empty() }));
            let ghost ipv = int_part@;
            if int_part.len() == 0 {
                out.push('0');
            } else {
                let mut ip = int_part;
                out.append(&mut ip);
            }
            let ghost mid = out@;
            assert(mid == lead + (if ipv.len() == 0 { seq!['0'] } else { ipv }));
            let ghost fpv = frac@;
            if frac.len() > 0 {
                out.push('.');
                let mut fp = frac;
                out.append(&mut fp);
                assert(out@ == mid + (seq!['.'] + fpv));
            } else {
                assert(out@ == mid + Seq::<char>::empty());
            }
        },
    }
    string_from_chars(&out)
}

/// A command.
#[derive(Debug, PartialEq)]
pub enum Command {
    SetLogic(String),
    SetOption(String, String),
    /// Name, parameter sorts, result sort.
    DeclareFun(String, Vec<Type>, Type),
    /// Name, parameters, result sort, body.
    DefineFun(String, Vec<(String, Type)>, Type, Expr),
    Assert(Expr),
    CheckSat,
    GetModel,
    GetValue(Vec<Expr>),
    Push(usize),
    Pop(usize),
    Exit,
    SetInfo(String, String),
}

/// The sort that a symbol names, if it names one.
pub open spec fn simple_sort_of(s: Seq<char>) -> Option<Type> {
    if s == "Bool"@ {
        Some(Type::Bool)
    } else if s == "Int"@ {
        Some(Type::Int)
    } else if s == "Real"@ {
        Some(Type::Real)
    } else {
        None
    }
}

/// Whether `op` is one of the comparisons `<=`, `>=`, `<`, `>`, `=`.
pub open spec fn comparison_word(op: Seq<char>) -> bool {
    op == "<="@ || op == ">="@ || op == "<"@ || op == ">"@ || op == "="@
}

/// The term that operator `op` makes of `args`: a connective, sum, product, comparison
/// (of the first two arguments) or `ite` (of the first three) for the operators that have
/// one, an application otherwise; none where a comparison or `ite` lacks arguments, or
/// `not` has none.
pub open spec fn term_of(op: Seq<char>, args: Seq<SExpr>) -> Option<SExpr> {
    let n = args.len();
    if op == "and"@ {
        Some(SExpr::And(args))
    } else if op == "or"@ {
        Some(SExpr::Or(args))
    } else if op == "not"@ {
        if n >= 1 { Some(SExpr::Not(Box::new(args[0]))) } else { None }
    } else if op == "+"@ {
        Some(SExpr::Add(args))
    } else if op == "*"@ {
        Some(SExpr::Mul(args))
    } else if comparison_word(op) {
        if n < 2 {
            None
        } else {
            let a = Box::new(args[0]);
            let b = Box::new(args[1]);
            if op == "<="@ {
                Some(SExpr::Le(a, b))
            } else if op == ">="@ {
                Some(SExpr::Ge(a, b))
            } else if op == "<"@ {
                Some(SExpr::Lt(a, b))
            } else if op == ">"@ {
                Some(SExpr::Gt(a, b))
            } else {
                Some(SExpr::Eq(a, b))
            }
        }
    } else if op == "ite"@ {
        if n < 3 { None } else { Some(SExpr::Ite(Box::new(args[0]), Box::new(args[1]), Box::new(args[2]))) }
    } else {
        Some(SExpr::App(op, args))
    }
}

/// The word that opens a command.
pub open spec fn command_word(c: Command) -> Seq<char> {
    match c {
        Command::SetLogic(_) => "set-logic"@,
        Command::SetOption(..) => "set-option"@,
        Command::DeclareFun(..) => "declare-fun"@,
        Command::DefineFun(..) => "define-fun"@,
        Command::Assert(_) => "assert"@,
        Command::CheckSat => "check-sat"@,
        Command::GetModel => "get-model"@,
        Command::GetValue(_) => "get-value"@,
        Command::Push(_) => "push"@,
        Command::Pop(_) => "pop"@,
        Command::Exit => "exit"@,
        Command::SetInfo(..) => "set-info"@,
    }
}

/// `w` stands in `chars` as a whole symbol that begins at `p` or later.
pub open spec fn symbol_read_after(chars: Seq<char>, p: int, w: Seq<char>) -> bool {
    exists|b: int| p <= b && #[trigger] symbol_run(chars, b, b + w.len()) && chars.subrange(b, b + w.len()) == w
}

/// The symbol that a term is written with: its operator, its name, or `true`/`false`; none
/// for a numeral or literal.
pub open spec fn head_word(e: SExpr) -> Option<Seq<char>> {
    match e {
        SExpr::Bool(b) => Some(if b { "true"@ } else { "false"@ }),
        SExpr::Var(name, _) => Some(name),
        SExpr::And(_) => Some("and"@),
        SExpr::Or(_) => Some("or"@),
        SExpr::Not(_) => Some("not"@),
        SExpr::Add(_) => Some("+"@),
        SExpr::Mul(_) => Some("*"@),
        SExpr::Le(..) => Some("<="@),
        SExpr::Ge(..) => Some(">="@),
        SExpr::Lt(..) => Some("<"@),
        SExpr::Gt(..) => Some(">"@),
        SExpr::Eq(..) => Some("="@),
        SExpr::Ite(..) => Some("ite"@),
        SExpr::App(op, _) => Some(op),
        _ => None,
    }
}

/// The symbol that a sort is written with.
pub open spec fn sort_word(t: Type) -> Seq<char> {
    match t {
        Type::Bool => "Bool"@,
        Type::Int => "Int"@,
        Type::Real => "Real"@,
        Type::BitVec(_) => "BitVec"@,
        Type::Float(_) => "FloatingPoint"@,
        _ => seq![],
    }
}

/// The parser: a lexer and one token of lookahead.
pub struct Parser {
    pub lexer: Lexer,
    pub peeked: Option<Token>,
    /// Where the reading of the peeked token began.
    pub peek_start: Ghost<int>,
}

impl Parser {
    pub fn new(input: &str) -> (r: Parser)
        ensures
            r.wf(),
            r.lexer.chars@ == input@,
            r.lexer.pos == 0,
            r.peeked is None,
    {
        Parser { lexer: Lexer::new(input), peeked: None, peek_start: Ghost(0) }
    }

    pub open spec fn wf(&self) -> bool {
        &&& self.lexer.wf()
        &&& self.peeked matches Some(t) ==> 0 <= self.peek_start@ <= self.lexer.pos
            && token_read(self.lexer.chars@, self.peek_start@, self.lexer.pos as int, t)
    }

    /// Where the reading of the next token begins: at the peeked token, or at the lexer.
    pub open spec fn read_from(&self) -> int {
        if self.peeked is Some {
            self.peek_start@
        } else {
            self.lexer.pos as int
        }
    }

    /// This parser reads the same input as `before`, from no earlier a place.
    pub open spec fn advanced_from(&self, before: Parser) -> bool {
        self.lexer.chars@ == before.lexer.chars@ && self.read_from() >= before.read_from()
    }

    /// The input left to read: twice the characters, plus one for a peeked token.
    pub open spec fn measure(&self) -> int {
        2 * self.lexer.remaining() + if self.peeked is Some { 1int } else { 0int }
    }

    fn next_token(&mut self) -> (r: Option<Token>)
        requires
            old(self).wf(),
        ensures
            final(self).wf(),
            final(self).measure() <= old(self).measure(),
            r is Some ==> final(self).measure() < old(self).measure(),
            r is None ==> final(self).measure() == 0,
            final(self).peeked is None,
            final(self).advanced_from(*old(self)),
            r matches Some(t) ==> token_read(final(self).lexer.chars@, old(self).read_from(), final(self).read_from(), t),
    {
        let p = self.peeked.take();
        match p {
            Some(t) => Some(t),
            None => self.lexer.next_token(),
        }
    }

    /// Reads the next token into the lookahead slot.
    fn fill(&mut self)
        requires
            old(self).wf(),
        ensures
            final(self).wf(),
            final(self).measure() <= old(self).measure(),
            old(self).peeked is Some ==> *final(self) == *old(self),
            final(self).peeked is None ==> final(self).lexer.pos == final(self).lexer.chars@.len(),
            final(self).advanced_from(*old(self)),
            final(self).peeked is Some ==> final(self).read_from() == old(self).read_from(),
    {
        if self.peeked.is_none() {
            let ghost start = self.lexer.pos as int;
            self.peeked = self.lexer.next_token();
            self.peek_start = Ghost(start);
        }
    }

    /// Whether the next token is `)`, without consuming it.
    fn peek_is_rparen(&mut self) -> (r: bool)
        requires
            old(self).wf(),
        ensures
            final(self).wf(),
            final(self).measure() <= old(self).measure(),
            final(self).advanced_from(*old(self)),
            r == (final(self).peeked matches Some(Token::RParen)),
            final(self).peeked is Some ==> final(self).read_from() == old(self).read_from(),
            final(self).peeked is None ==> final(self).measure() == 0,
    {
        self.fill();
        match &self.peeked {
            Some(Token::RParen) => true,
            _ => false,
        }
    }

    /// Whether there is no token left.
    fn peek_is_end(&mut self) -> (r: bool)
        requires
            old(self).wf(),
        ensures
            final(self).wf(),
            final(self).measure() <= old(self).measure(),
            final(self).advanced_from(*old(self)),
            r ==> final(self).measure() == 0,
            !r ==> final(self).peeked is Some,
    {
        self.fill();
        self.peeked.is_none()
    }

    /// The next token, if it is an integer numeral, consumed.
    fn take_int(&mut self) -> (r: Option<i64>)
        requires
            old(self).wf(),
        ensures
            final(self).wf(),
            final(self).measure() <= old(self).measure(),
            final(self).advanced_from(*old(self)),
            r matches Some(v) ==> final(self).peeked is None
                && token_read(final(self).lexer.chars@, old(self).read_from(), final(self).read_from(), Token::Int(v)),
            r is None ==> (final(self).peeked matches Some(t) ==> !(t is Int)),
            r is None && final(self).peeked is Some ==> final(self).read_from() == old(self).read_from(),
            r is None && final(self).peeked is None ==> final(self).measure() == 0,
    {
        self.fill();
        let v = match &self.peeked {
            Some(Token::Int(i)) => Some(*i),
            _ => None,
        };
        if v.is_some() {
            self.peeked = None;
        }
        v
    }

    /// The rest of an indexed sort after `(_`: `BitVec w)` or `FloatingPoint e s)`; exactly one
    /// `)` is consumed.
    fn parse_indexed_sort(&mut self) -> (r: Option<Type>)
        requires
            old(self).wf(),
        ensures
            final(self).wf(),
            final(self).measure() <= old(self).measure(),
            final(self).advanced_from(*old(self)),
            r matches Some(t) ==> t is BitVec || t is Float,
            r matches Some(t) ==> symbol_read_after(final(self).lexer.chars@, old(self).read_from(), sort_word(t)),
    {
        let op = match self.next_token() {
            Some(Token::Symbol(s)) => s,
            _ => {
                return None;
            },
        };
        proof {
            let e = self.read_from();
            let b = e - op@.len();
            assert(symbol_run(self.lexer.chars@, b, b + op@.len()));
        }
        if is_word(&op, "BitVec") {
            if let Some(Token::Int(w)) = self.next_token() {
                self.next_token();
                return Some(Type::BitVec(w as usize));
            }
        } else if is_word(&op, "FloatingPoint") {
            let e = self.next_token();
            let sg = self.next_token();
            if let (Some(Token::Int(ebits)), Some(Token::Int(sbits))) = (e, sg) {
                self.next_token();
                return Some(Type::Float(FloatSort { exponent_bits: ebits as u16, significand_bits: sbits as u16 }));
            }
        }
        None
    }

    /// The sort named by a symbol: `Bool`, `Int` or `Real`.
    fn simple_sort(s: &String) -> (r: Option<Type>)
        ensures
            r == simple_sort_of(s@),
    {
        if is_word(s, "Bool") {
            Some(Type::Bool)
        } else if is_word(s, "Int") {
            Some(Type::Int)
        } else if is_word(s, "Real") {
            Some(Type::Real)
        } else {
            None
        }
    }

    /// A sort: `Bool`, `Int`, `Real`, `(_ BitVec w)` or `(_ FloatingPoint e s)`.
    pub fn parse_type(&mut self) -> (r: Option<Type>)
        requires
            old(self).wf(),
        ensures
            final(self).wf(),
            final(self).measure() <= old(self).measure(),
            final(self).advanced_from(*old(self)),
            r is Some ==> final(self).measure() < old(self).measure(),
            r matches Some(t) ==> t is Bool || t is Int || t is Real || t is BitVec || t is Float,
            r matches Some(t) ==> symbol_read_after(final(self).lexer.chars@, old(self).read_from(), sort_word(t)),
    {
        match self.next_token() {
            Some(Token::Symbol(s)) => {
                proof {
                    let e = self.read_from();
                    let b = e - s@.len();
                    assert(symbol_run(self.lexer.chars@, b, b + s@.len()));
                }
                Self::simple_sort(&s)
            },
            Some(Token::LParen) => {
                match self.next_token() {
                    Some(Token::Symbol(h)) => {
                        if is_word(&h, "_") {
                            self.parse_indexed_sort()
                        } else {
                            None
                        }
                    },
                    _ => None,
                }
            },
            _ => None,
        }
    }

    /// A term. Numerals, bit-vector literals, `true`, `false` and other symbols (as real
    /// variables) are atoms; `(op args…)` is a connective, comparison, sum, product or `ite`
    /// for the operators that have one, and an application otherwise. A comparison with fewer
    /// than two arguments, or an `ite` with fewer than three, is not a term.
    pub fn parse_expr(&mut self) -> (r: Option<Expr>)
        requires
            old(self).wf(),
        ensures
            final(self).wf(),
            final(self).measure() <= old(self).measure(),
            final(self).advanced_from(*old(self)),
            r is Some ==> final(self).measure() < old(self).measure(),
            final(self).measure() < old(self).measure() || final(self).measure() == 0,
            r matches Some(e) ==> (head_word(e@) is Some ==> symbol_read_after(final(self).lexer.chars@, old(self).read_from(), head_word(e@)->0)),
            r matches Some(Expr::Var(_, t)) ==> t is Real,
        decreases old(self).measure(),
    {
        let token = match self.next_token() {
            Some(t) => t,
            None => {
                return None;
            },
        };
        match token {
            Token::Int(i) => Some(Expr::Int(i)),
            Token::BitVec(v, w) => Some(Expr::BvConst(v, w)),
            Token::Real(text) => Some(decimal_term(&text)),
            Token::Symbol(s) => {
                proof {
                    let e = self.read_from();
                    let b = e - s@.len();
                    assert(symbol_run(self.lexer.chars@, b, b + s@.len()));
                }
                if is_word(&s, "true") {
                    Some(Expr::Bool(true))
                } else if is_word(&s, "false") {
                    Some(Expr::Bool(false))
                } else {
                    Some(Expr::Var(s, Type::Real))
                }
            },
            Token::LParen => {
                let op = match self.next_token() {
                    Some(Token::Symbol(s)) => s,
                    _ => {
                        return None;
                    },
                };
                proof {
                    let e = self.read_from();
                    let b = e - op@.len();
                    assert(symbol_run(self.lexer.chars@, b, b + op@.len()));
                }
                let ghost m0 = self.measure();
                let mut args: Vec<Expr> = Vec::new();
                loop
                    invariant
                        self.wf(),
                        self.measure() <= m0,
                        self.advanced_from(*old(self)),
                        m0 < old(self).measure(),
                    decreases self.measure(),
                {
                    if self.peek_is_rparen() {
                        break;
                    }
                    let ghost before = self.measure();
                    match self.parse_expr() {
                        Some(a) => args.push(a),
                        None => {
                            break;
                        },
                    }
                    assert(self.measure() < before);
                }
                self.next_token();
                Self::build_term(op, args)
            },
            _ => None,
        }
    }

    /// The term for operator `op` applied to `args`.
    fn build_term(op: String, args: Vec<Expr>) -> (r: Option<Expr>)
        ensures
            r is Some == term_of(op@, exprs_view(args@)) is Some,
            r matches Some(e) ==> Some(e@) == term_of(op@, exprs_view(args@)),
    {
        proof {
            lemma_exprs_view(args@);
        }
        let n = args.len();
        if is_word(&op, "and") {
            Some(Expr::And(args))
        } else if is_word(&op, "or") {
            Some(Expr::Or(args))
        } else if is_word(&op, "not") {
            if n >= 1 {
                Some(Expr::Not(Box::new(args[0].clone())))
            } else {
                None
            }
        } else if is_word(&op, "+") {
            Some(Expr::Add(args))
        } else if is_word(&op, "*") {
            Some(Expr::Mul(args))
        } else if is_word(&op, "<=") || is_word(&op, ">=") || is_word(&op, "<") || is_word(&op, ">") || is_word(&op, "=") {
            if n < 2 {
                return None;
            }
            let a = Box::new(args[0].clone());
            let b = Box::new(args[1].clone());
            if is_word(&op, "<=") {
                Some(Expr::Le(a, b))
            } else if is_word(&op, ">=") {
                Some(Expr::Ge(a, b))
            } else if is_word(&op, "<") {
                Some(Expr::Lt(a, b))
            } else if is_word(&op, ">") {
                Some(Expr::Gt(a, b))
            } else {
                Some(Expr::Eq(a, b))
            }
        } else if is_word(&op, "ite") {
            if n < 3 {
                return None;
            }
            Some(Expr::Ite(Box::new(args[0].clone()), Box::new(args[1].clone()), Box::new(args[2].clone())))
        } else {
            Some(Expr::App(op, args))
        }
    }

    /// The text of an option or attribute value: a symbol or string as is, a numeral in its
    /// shortest decimal form, a bit-vector literal in binary.
    fn value_text(t: Token) -> (r: Option<String>)
        ensures
            r is Some <==> !(t is LParen || t is RParen || t is Keyword),
            t matches Token::Symbol(x) ==> r matches Some(y) && y@ == x@,
            t matches Token::String(x) ==> r matches Some(y) && y@ == x@,
            t matches Token::Int(i) ==> r matches Some(y) && y@ == int_text(i as int),
            t matches Token::BitVec(v, w) ==> r matches Some(y) && y@ == seq!['#', 'b'] + binary_digits(v, w as nat),
    {
        match t {
            Token::Symbol(s) => Some(s),
            Token::Int(i) => Some(i64_text(i)),
            Token::Real(text) => Some(decimal_text(&text)),
            Token::BitVec(v, w) => Some(binary_text(v, w)),
            Token::String(s) => Some(s),
            _ => None,
        }
    }

    /// The optional count of `push` or `pop` (1 when absent) and the closing `)`.
    fn parse_count(&mut self) -> (r: usize)
        requires
            old(self).wf(),
        ensures
            final(self).wf(),
            final(self).measure() <= old(self).measure(),
            final(self).advanced_from(*old(self)),
    {
        let n = match self.take_int() {
            Some(i) => i as usize,
            None => 1,
        };
        self.next_token();
        n
    }

    /// A parameter list of `declare-fun`: `(` then sorts, each a symbol, an indexed sort or
    /// a `(name sort)` pair, then `)`.
    #[verifier::loop_isolation(false)]
    fn parse_param_sorts(&mut self) -> (r: Option<Vec<Type>>)
        requires
            old(self).wf(),
        ensures
            final(self).wf(),
            final(self).measure() <= old(self).measure(),
            final(self).advanced_from(*old(self)),
    {
        let mut params: Vec<Type> = Vec::new();
        match self.next_token() {
            Some(Token::LParen) => {},
            _ => {
                return Some(params);
            },
        }
        loop
            invariant
                self.wf(),
                self.measure() <= old(self).measure(),
                self.advanced_from(*old(self)),
            decreases self.measure(),
        {
            if self.peek_is_rparen() {
                break;
            }
            match self.next_token() {
                Some(Token::Symbol(s)) => {
                    match Self::simple_sort(&s) {
                        Some(t) => params.push(t),
                        None => {
                            return None;
                        },
                    }
                },
                Some(Token::LParen) => {
                    match self.next_token() {
                        Some(Token::Symbol(h)) => {
                            if is_word(&h, "_") {
                                match self.parse_indexed_sort() {
                                    Some(t) => params.push(t),
                                    None => {
                                        return None;
                                    },
                                }
                            } else {
                                match self.parse_type() {
                                    Some(t) => params.push(t),
                                    None => {
                                        return None;
                                    },
                                }
                                self.next_token();
                            }
                        },
                        _ => {
                            return None;
                        },
                    }
                },
                Some(_) => {},
                None => {
                    return None;
                },
            }
        }
        self.next_token();
        Some(params)
    }

    /// A parameter list of `define-fun`: `(` then `(name sort)` pairs, then `)`.
    #[verifier::loop_isolation(false)]
    fn parse_params(&mut self) -> (r: Option<Vec<(String, Type)>>)
        requires
            old(self).wf(),
        ensures
            final(self).wf(),
            final(self).measure() <= old(self).measure(),
            final(self).advanced_from(*old(self)),
    {
        let mut params: Vec<(String, Type)> = Vec::new();
        match self.next_token() {
            Some(Token::LParen) => {},
            _ => {
                return Some(params);
            },
        }
        loop
            invariant
                self.wf(),
                self.measure() <= old(self).measure(),
                self.advanced_from(*old(self)),
            decreases self.measure(),
        {
            if self.peek_is_rparen() {
                break;
            }
            match self.next_token() {
                Some(Token::LParen) => {
                    let name = match self.next_token() {
                        Some(Token::Symbol(s)) => s,
                        _ => {
                            return None;
                        },
                    };
                    let ty = match self.parse_type() {
                        Some(t) => t,
                        None => {
                            return None;
                        },
                    };
                    self.next_token();
                    params.push((name, ty));
                },
                Some(_) => {},
                None => {
                    return None;
                },
            }
        }
        self.next_token();
        Some(params)
    }

    /// A command: `set-logic`, `set-option`, `set-info`, `declare-fun`, `define-fun`,
    /// `assert`, `check-sat`, `get-model`, `get-value`, `push`, `pop` or `exit`.
    #[verifier::loop_isolation(false)]
    pub fn parse_command(&mut self) -> (r: Option<Command>)
        requires
            old(self).wf(),
        ensures
            final(self).wf(),
            final(self).measure() <= old(self).measure(),
            final(self).advanced_from(*old(self)),
            r is Some ==> final(self).measure() < old(self).measure(),
            r matches Some(c) ==> symbol_read_after(final(self).lexer.chars@, old(self).read_from(), command_word(c)),
            r matches Some(Command::SetLogic(n)) ==> symbol_read_after(final(self).lexer.chars@, old(self).read_from(), n@),
            r matches Some(Command::DeclareFun(n, _, _)) ==> symbol_read_after(final(self).lexer.chars@, old(self).read_from(), n@),
            r matches Some(Command::DefineFun(n, _, _, _)) ==> symbol_read_after(final(self).lexer.chars@, old(self).read_from(), n@),
    {
        match self.next_token() {
            Some(Token::LParen) => {},
            _ => {
                return None;
            },
        }
        let op = match self.next_token() {
            Some(Token::Symbol(s)) => s,
            _ => {
                return None;
            },
        };
        proof {
            let e = self.read_from();
            let b = e - op@.len();
            assert(symbol_run(self.lexer.chars@, b, b + op@.len()));
            assert(symbol_read_after(self.lexer.chars@, old(self).read_from(), op@));
        }
        if is_word(&op, "set-logic") {
            let logic = match self.next_token() {
                Some(Token::Symbol(s)) => s,
                _ => {
                    return None;
                },
            };
            proof {
                let e = self.read_from();
                let b = e - logic@.len();
                assert(symbol_run(self.lexer.chars@, b, b + logic@.len()));
            }
            self.next_token();
            Some(Command::SetLogic(logic))
        } else if is_word(&op, "set-option") || is_word(&op, "set-info") {
            let key = match self.next_token() {
                Some(Token::Keyword(s)) => s,
                _ => {
                    return None;
                },
            };
            let value = match self.next_token() {
                Some(t) => match Self::value_text(t) {
                    Some(v) => v,
                    None => {
                        return None;
                    },
                },
                None => {
                    return None;
                },
            };
            self.next_token();
            if is_word(&op, "set-option") {
                Some(Command::SetOption(key, value))
            } else {
                Some(Command::SetInfo(key, value))
            }
        } else if is_word(&op, "get-value") {
            match self.next_token() {
                Some(Token::LParen) => {},
                _ => {
                    return None;
                },
            }
            let mut exprs: Vec<Expr> = Vec::new();
            loop
                invariant
                    self.wf(),
                    self.measure() <= old(self).measure(),
                    self.advanced_from(*old(self)),
                self.advanced_from(*old(self)),
                decreases self.measure(),
            {
                if self.peek_is_rparen() || self.peek_is_end() {
                    break;
                }
                match self.parse_expr() {
                    Some(e) => exprs.push(e),
                    None => {},
                }
            }
            self.next_token();
            self.next_token();
            Some(Command::GetValue(exprs))
        } else if is_word(&op, "push") {
            Some(Command::Push(self.parse_count()))
        } else if is_word(&op, "pop") {
            Some(Command::Pop(self.parse_count()))
        } else if is_word(&op, "declare-fun") {
            let name = match self.next_token() {
                Some(Token::Symbol(s)) => s,
                _ => {
                    return None;
                },
            };
            proof {
                let e = self.read_from();
                let b = e - name@.len();
                assert(symbol_run(self.lexer.chars@, b, b + name@.len()));
            }
            let params = match self.parse_param_sorts() {
                Some(p) => p,
                None => {
                    return None;
                },
            };
            let ret = match self.parse_type() {
                Some(t) => t,
                None => {
                    return None;
                },
            };
            self.next_token();
            Some(Command::DeclareFun(name, params, ret))
        } else if is_word(&op, "define-fun") {
            let name = match self.next_token() {
                Some(Token::Symbol(s)) => s,
                _ => {
                    return None;
                },
            };
            proof {
                let e = self.read_from();
                let b = e - name@.len();
                assert(symbol_run(self.lexer.chars@, b, b + name@.len()));
            }
            let params = match self.parse_params() {
                Some(p) => p,
                None => {
                    return None;
                },
            };
            let ret = match self.parse_type() {
                Some(t) => t,
                None => {
                    return None;
                },
            };
            let body = match self.parse_expr() {
                Some(e) => e,
                None => {
                    return None;
                },
            };
            self.next_token();
            Some(Command::DefineFun(name, params, ret, body))
        } else if is_word(&op, "assert") {
            let e = match self.parse_expr() {
                Some(e) => e,
                None => {
                    return None;
                },
            };
            self.next_token();
            Some(Command::Assert(e))
        } else if is_word(&op, "check-sat") {
            self.next_token();
            Some(Command::CheckSat)
        } else if is_word(&op, "get-model") {
            self.next_token();
            Some(Command::GetModel)
        } else if is_word(&op, "exit") {
            self.next_token();
            Some(Command::Exit)
        } else {
            None
        }
    }
}

} // verus!
