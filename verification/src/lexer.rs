//! The scanner: a single forward pass over the source bytes that emits
//! exactly the token sequence described by `model::tokens_of`.

use crate::model::{
    dec_val, digits_end, float_digits, ident_end, ident_token, is_digit, is_ident_cont,
    is_ident_start, is_skip, lemma_dec_val_push, lemma_digits_end, lemma_digits_end_is,
    lemma_ident_end_is, lemma_newline_end_is, lemma_skip_end_is, newline_end, number_end,
    number_token, op_kind, scan_from, skip_end, tokens_of, DIGIT_NINE, DIGIT_ZERO, DOT,
    EQUALS_SIGN, LOWER_A, LOWER_L, LOWER_R, LOWER_V, LOWER_Z, MINUS, NEWLINE, PERCENT, PLUS,
    SLASH, SPACE, STAR, TAB, UNDERSCORE, UPPER_A, UPPER_Z,
};
use crate::token::{Kind, NewlineMode, Token};
use vstd::prelude::*;

verus! {

/// Consumes the maximal run of skipped whitespace that begins at `i` and
/// returns the position of the first character after it.  No token is
/// emitted for the run.
fn skip_run(src: &[u8], mode: NewlineMode, i: usize) -> (next: usize)
    requires
        i < src@.len(),
        is_skip(mode, src@[i as int]),
    ensures
        next as int == skip_end(src@, mode, i as int + 1),
        i < next <= src@.len(),
{
    let ghost s: Seq<u8> = src@;
    let n: usize = src.len();
    let insig: bool = mode == NewlineMode::Insignificant;
    let mut j: usize = i + 1;
    while j < n && (src[j] == SPACE || src[j] == TAB || (insig && src[j] == NEWLINE))
        invariant
            src@ == s,
            n == s.len(),
            i + 1 <= j <= n,
            insig == (mode == NewlineMode::Insignificant),
            forall|k: int| i + 1 <= k < j ==> is_skip(mode, #[trigger] s[k]),
        decreases n - j,
    {
        j = j + 1;
    }
    proof {
        lemma_skip_end_is(s, mode, i as int + 1, j as int);
    }
    j
}

/// Consumes the maximal run of `\n` characters that begins at `i` and
/// returns its Newline token together with the position after the run.
fn newline_run(src: &[u8], i: usize) -> (r: (Token, usize))
    requires
        i < src@.len(),
        src@[i as int] == NEWLINE,
    ensures
        r.1 as int == newline_end(src@, i as int + 1),
        i < r.1 <= src@.len(),
        r.0 == (Token { kind: Kind::Newline, start: i, end: (r.1 - 1) as usize }),
{
    let ghost s: Seq<u8> = src@;
    let n: usize = src.len();
    let mut j: usize = i + 1;
    while j < n && src[j] == NEWLINE
        invariant
            src@ == s,
            n == s.len(),
            i + 1 <= j <= n,
            forall|k: int| i + 1 <= k < j ==> #[trigger] s[k] == NEWLINE,
        decreases n - j,
    {
        j = j + 1;
    }
    proof {
        lemma_newline_end_is(s, i as int + 1, j as int);
    }
    (Token { kind: Kind::Newline, start: i, end: j - 1 }, j)
}

/// Consumes the identifier run that begins at `i`, reclassifies an exact
/// keyword match, and returns the token together with the position after
/// the run.
fn scan_ident(src: &[u8], i: usize) -> (r: (Token, usize))
    requires
        i < src@.len(),
        is_ident_start(src@[i as int]),
    ensures
        r.1 as int == ident_end(src@, i as int + 1),
        i < r.1 <= src@.len(),
        r.0 == ident_token(src@, i as int),
{
    let ghost s: Seq<u8> = src@;
    let n: usize = src.len();
    let mut j: usize = i + 1;
    while j < n && ((LOWER_A <= src[j] && src[j] <= LOWER_Z) || (UPPER_A <= src[j] && src[j]
        <= UPPER_Z) || (DIGIT_ZERO <= src[j] && src[j] <= DIGIT_NINE))
        invariant
            src@ == s,
            n == s.len(),
            i + 1 <= j <= n,
            forall|k: int| i + 1 <= k < j ==> is_ident_cont(#[trigger] s[k]),
        decreases n - j,
    {
        j = j + 1;
    }
    proof {
        lemma_ident_end_is(s, i as int + 1, j as int);
    }
    let kind = if j - i == 3 && src[i] == LOWER_V && src[i + 1] == LOWER_A && (src[i + 2]
        == LOWER_L || src[i + 2] == LOWER_R) {
        if src[i + 2] == LOWER_L {
            Kind::ValKeyword
        } else {
            Kind::VarKeyword
        }
    } else {
        Kind::Identifier
    };
    (Token { kind, start: i, end: j - 1 }, j)
}

/// Consumes one maximal run of digits starting at `j`, extending the
/// accumulated decimal value of the digits already consumed.  `digits`
/// names those digits; on return it has grown by the run.  The value is
/// tracked exactly while it fits `u64`; once it cannot, `over` records
/// that the literal's value is out of range for every carrier type.
fn digit_run(
    src: &[u8],
    j: usize,
    acc0: u64,
    over0: bool,
    Ghost(digits): Ghost<Seq<u8>>,
) -> (r: (usize, u64, bool))
    requires
        j <= src@.len(),
        !over0 ==> acc0 as nat == dec_val(digits),
        over0 ==> dec_val(digits) > u64::MAX,
    ensures
        r.0 as int == digits_end(src@, j as int),
        j <= r.0 <= src@.len(),
        !r.2 ==> r.1 as nat == dec_val(digits + src@.subrange(j as int, r.0 as int)),
        r.2 ==> dec_val(digits + src@.subrange(j as int, r.0 as int)) > u64::MAX,
        over0 ==> r.2,
{
    let ghost s: Seq<u8> = src@;
    let n: usize = src.len();
    let mut k: usize = j;
    let mut acc: u64 = acc0;
    let mut over: bool = over0;
    proof {
        assert(digits + s.subrange(j as int, j as int) =~= digits);
    }
    while k < n && DIGIT_ZERO <= src[k] && src[k] <= DIGIT_NINE
        invariant
            src@ == s,
            n == s.len(),
            j <= k <= n,
            forall|t: int| j <= t < k ==> is_digit(#[trigger] s[t]),
            !over ==> acc as nat == dec_val(digits + s.subrange(j as int, k as int)),
            over ==> dec_val(digits + s.subrange(j as int, k as int)) > u64::MAX,
            over0 ==> over,
        decreases n - k,
    {
        let d: u8 = src[k] - DIGIT_ZERO;
        proof {
            assert(digits + s.subrange(j as int, k + 1) =~= (digits + s.subrange(
                j as int,
                k as int,
            )).push(s[k as int]));
            lemma_dec_val_push(digits + s.subrange(j as int, k as int), s[k as int]);
        }
        if !over {
            if acc <= (u64::MAX - d as u64) / 10 {
                acc = acc * 10 + d as u64;
            } else {
                proof {
                    vstd::arithmetic::div_mod::lemma_fundamental_div_mod(
                        u64::MAX - d as u64 as int,
                        10,
                    );
                    assert(acc * 10 + d as u64 > u64::MAX);
                }
                over = true;
            }
        }
        k = k + 1;
    }
    proof {
        lemma_digits_end_is(s, j as int, k as int);
    }
    (k, acc, over)
}

/// Consumes the numeric literal that begins at `i`: a maximal digit run,
/// extended past at most one decimal point by a second maximal digit run.
/// Returns the literal's token together with the position after it.
fn scan_number(src: &[u8], i: usize) -> (r: (Token, usize))
    requires
        i < src@.len(),
        is_digit(src@[i as int]),
    ensures
        r.1 as int == number_end(src@, i as int),
        i < r.1 <= src@.len(),
        r.0 == number_token(src@, i as int),
{
    let ghost s: Seq<u8> = src@;
    let n: usize = src.len();
    let c: u8 = src[i];
    proof {
        assert(Seq::<u8>::empty() + s.subrange(i as int, i as int + 1) =~= Seq::<
            u8,
        >::empty().push(s[i as int]));
        lemma_dec_val_push(Seq::<u8>::empty(), s[i as int]);
    }
    let first = digit_run(
        src,
        i,
        0,
        false,
        Ghost(Seq::<u8>::empty()),
    );
    let j: usize = first.0;
    proof {
        lemma_digits_end(s, i as int + 1);
        assert(digits_end(s, i as int) == digits_end(s, i as int + 1));
        assert(Seq::<u8>::empty() + s.subrange(i as int, j as int) =~= s.subrange(
            i as int,
            j as int,
        ));
    }
    if j < n && src[j] == DOT {
        let frac = digit_run(
            src,
            j + 1,
            first.1,
            first.2,
            Ghost(s.subrange(i as int, j as int)),
        );
        let k: usize = frac.0;
        let scale: u64 = ((k - j) - 1) as u64;
        let kind = if !frac.2 {
            Kind::Float { mantissa: frac.1, scale }
        } else {
            Kind::NumberError
        };
        proof {
            assert(s.subrange(i as int, j as int) + s.subrange(j + 1, k as int) == float_digits(
                s,
                i as int,
                j as int,
                k as int,
            ));
        }
        (Token { kind, start: i, end: k - 1 }, k)
    } else {
        let kind = if !first.2 && first.1 <= i32::MAX as u64 {
            Kind::Integer(first.1 as i32)
        } else {
            Kind::NumberError
        };
        (Token { kind, start: i, end: j - 1 }, j)
    }
}

/// The scanner.  It borrows the source text immutably for its whole
/// lifetime and owns the emitted token buffer; identifier tokens refer back
/// into the borrowed source through their spans.
pub struct Lexer<'a> {
    /// Source text.
    pub source: &'a [u8],
    /// How newline characters are treated.
    pub mode: NewlineMode,
    /// Emitted tokens.
    pub tokens: Vec<Token>,
}

impl<'a> Lexer<'a> {
    pub fn new(source: &'a [u8], mode: NewlineMode) -> (l: Lexer<'a>)
        ensures
            l.source == source,
            l.mode == mode,
            l.tokens@ == Seq::<Token>::empty(),
    {
        Lexer { source, mode, tokens: Vec::new() }
    }

    /// Emits one token spanning the single character at `offset`.
    fn char_token(&mut self, kind: Kind, offset: usize)
        ensures
            final(self).source == old(self).source,
            final(self).mode == old(self).mode,
            final(self).tokens@ == old(self).tokens@.push(
                Token { kind, start: offset, end: offset },
            ),
    {
        self.tokens.push(Token { kind, start: offset, end: offset });
    }

    /// Scans the whole source, appending one token per recognized lexeme to
    /// `self.tokens`: the result is exactly the sequence that
    /// `model::tokens_of` describes.  Every character is consumed; no input
    /// stops the scan early.
    #[verifier::rlimit(50)]
    pub fn scan_tokens(&mut self)
        ensures
            final(self).source == old(self).source,
            final(self).mode == old(self).mode,
            final(self).tokens@ == old(self).tokens@ + tokens_of(
                old(self).source@,
                old(self).mode,
            ),
    {
        let src: &'a [u8] = self.source;
        let n: usize = src.len();
        let insig: bool = self.mode == NewlineMode::Insignificant;
        let ghost s: Seq<u8> = src@;
        let ghost m: NewlineMode = self.mode;
        let ghost t0: Seq<Token> = self.tokens@;
        let mut i: usize = 0;
        while i < n
            invariant
                self.source == old(self).source,
                self.mode == old(self).mode,
                src@ == s,
                s == old(self).source@,
                m == old(self).mode,
                t0 == old(self).tokens@,
                n == s.len(),
                i <= n,
                insig == (m == NewlineMode::Insignificant),
                self.tokens@ + scan_from(s, m, i as int) == t0 + tokens_of(s, m),
            decreases n - i,
        {
            let ghost i0: int = i as int;
            let ghost prev: Seq<Token> = self.tokens@;
            let c: u8 = src[i];
            if c == PLUS || c == MINUS || c == SLASH || c == PERCENT || c == EQUALS_SIGN {
                let kind = if c == PLUS {
                    Kind::Plus
                } else if c == MINUS {
                    Kind::Minus
                } else if c == SLASH {
                    Kind::Divide
                } else if c == PERCENT {
                    Kind::Modulus
                } else {
                    Kind::Equals
                };
                self.char_token(kind, i);
                proof {
                    let tok = Token { kind: op_kind(c), start: i as usize, end: i as usize };
                    assert(scan_from(s, m, i0) == seq![tok] + scan_from(s, m, i0 + 1));
                    assert(prev.push(tok) + scan_from(s, m, i0 + 1) =~= prev + scan_from(
                        s,
                        m,
                        i0,
                    ));
                }
                i = i + 1;
            } else if c == STAR {
                if i + 1 < n && src[i + 1] == STAR {
                    let tok = Token { kind: Kind::Power, start: i, end: i + 1 };
                    self.tokens.push(tok);
                    proof {
                        assert(scan_from(s, m, i0) == seq![tok] + scan_from(s, m, i0 + 2));
                        assert(prev.push(tok) + scan_from(s, m, i0 + 2) =~= prev + scan_from(
                            s,
                            m,
                            i0,
                        ));
                    }
                    i = i + 2;
                } else {
                    self.char_token(Kind::Multiply, i);
                    proof {
                        let tok = Token { kind: Kind::Multiply, start: i as usize, end: i as usize };
                        assert(scan_from(s, m, i0) == seq![tok] + scan_from(s, m, i0 + 1));
                        assert(prev.push(tok) + scan_from(s, m, i0 + 1) =~= prev + scan_from(
                            s,
                            m,
                            i0,
                        ));
                    }
                    i = i + 1;
                }
            } else if c == SPACE || c == TAB || (insig && c == NEWLINE) {
                let next = skip_run(src, self.mode, i);
                proof {
                    assert(scan_from(s, m, i0) == scan_from(s, m, next as int));
                }
                i = next;
            } else if c == NEWLINE {
                let r = newline_run(src, i);
                self.tokens.push(r.0);
                proof {
                    assert(scan_from(s, m, i0) == seq![r.0] + scan_from(s, m, r.1 as int));
                    assert(prev.push(r.0) + scan_from(s, m, r.1 as int) =~= prev + scan_from(
                        s,
                        m,
                        i0,
                    ));
                }
                i = r.1;
            } else if (LOWER_A <= c && c <= LOWER_Z) || (UPPER_A <= c && c <= UPPER_Z) || c
                == UNDERSCORE {
                let r = scan_ident(src, i);
                self.tokens.push(r.0);
                proof {
                    assert(scan_from(s, m, i0) == seq![r.0] + scan_from(s, m, r.1 as int));
                    assert(prev.push(r.0) + scan_from(s, m, r.1 as int) =~= prev + scan_from(
                        s,
                        m,
                        i0,
                    ));
                }
                i = r.1;
            } else if DIGIT_ZERO <= c && c <= DIGIT_NINE {
                let r = scan_number(src, i);
                self.tokens.push(r.0);
                proof {
                    assert(scan_from(s, m, i0) == seq![r.0] + scan_from(s, m, r.1 as int));
                    assert(prev.push(r.0) + scan_from(s, m, r.1 as int) =~= prev + scan_from(
                        s,
                        m,
                        i0,
                    ));
                }
                i = r.1;
            } else {
                self.char_token(Kind::Invalid, i);
                proof {
                    let tok = Token { kind: Kind::Invalid, start: i as usize, end: i as usize };
                    assert(scan_from(s, m, i0) == seq![tok] + scan_from(s, m, i0 + 1));
                    assert(prev.push(tok) + scan_from(s, m, i0 + 1) =~= prev + scan_from(
                        s,
                        m,
                        i0,
                    ));
                }
                i = i + 1;
            }
        }
        proof {
            assert(self.tokens@ + scan_from(s, m, n as int) =~= self.tokens@);
        }
    }
}

/// Scans a whole source text in one call and hands back the token sequence.
pub fn scan(source: &[u8], mode: NewlineMode) -> (tokens: Vec<Token>)
    ensures
        tokens@ == tokens_of(source@, mode),
{
    let mut lexer = Lexer::new(source, mode);
    lexer.scan_tokens();
    lexer.tokens
}

} // verus!
