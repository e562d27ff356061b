//! The mathematical description of the scan: a recursive function from the
//! source bytes to the exact token sequence the scanner emits.

use crate::token::{Kind, NewlineMode, Token};
use vstd::prelude::*;

verus! {

// ----- byte values of the characters the scanner recognizes -----

pub const SPACE: u8 = 32;

pub const TAB: u8 = 9;

pub const NEWLINE: u8 = 10;

pub const PLUS: u8 = 43;

pub const MINUS: u8 = 45;

pub const STAR: u8 = 42;

pub const SLASH: u8 = 47;

pub const PERCENT: u8 = 37;

pub const EQUALS_SIGN: u8 = 61;

pub const DOT: u8 = 46;

pub const UNDERSCORE: u8 = 95;

pub const DIGIT_ZERO: u8 = 48;

pub const DIGIT_NINE: u8 = 57;

pub const UPPER_A: u8 = 65;

pub const UPPER_Z: u8 = 90;

pub const LOWER_A: u8 = 97;

pub const LOWER_Z: u8 = 122;

/// The bytes of the keywords `val` and `var`.
pub const LOWER_V: u8 = 118;

pub const LOWER_L: u8 = 108;

pub const LOWER_R: u8 = 114;

// ----- character classes -----

pub open spec fn is_digit(c: u8) -> bool {
    DIGIT_ZERO <= c <= DIGIT_NINE
}

pub open spec fn is_letter(c: u8) -> bool {
    (LOWER_A <= c <= LOWER_Z) || (UPPER_A <= c <= UPPER_Z)
}

/// A character that may open an identifier.
pub open spec fn is_ident_start(c: u8) -> bool {
    is_letter(c) || c == UNDERSCORE
}

/// A character that may continue an identifier run: alphanumeric only,
/// so an underscore ends the run it did not open.
pub open spec fn is_ident_cont(c: u8) -> bool {
    is_letter(c) || is_digit(c)
}

/// A character the scanner consumes without emitting a token.
pub open spec fn is_skip(mode: NewlineMode, c: u8) -> bool {
    c == SPACE || c == TAB || (mode == NewlineMode::Insignificant && c == NEWLINE)
}

/// The operators recognized from a single character alone.
pub open spec fn is_single_op(c: u8) -> bool {
    c == PLUS || c == MINUS || c == SLASH || c == PERCENT || c == EQUALS_SIGN
}

pub open spec fn op_kind(c: u8) -> Kind {
    if c == PLUS {
        Kind::Plus
    } else if c == MINUS {
        Kind::Minus
    } else if c == SLASH {
        Kind::Divide
    } else if c == PERCENT {
        Kind::Modulus
    } else {
        Kind::Equals
    }
}

// ----- maximal runs -----
//
// Each `*_end(src, j)` is the first position at or after `j` whose character
// does not continue the run (or the end of the source).  The `lemma_*_end`
// lemmas state the bounds and the characterization; the `lemma_*_end_is`
// lemmas let an iteration that found the same position conclude it is the
// run's end.

pub open spec fn ident_end(src: Seq<u8>, j: int) -> int
    decreases src.len() - j,
{
    if j < src.len() && is_ident_cont(src[j]) {
        ident_end(src, j + 1)
    } else {
        j
    }
}

pub proof fn lemma_ident_end(src: Seq<u8>, j: int)
    requires
        0 <= j <= src.len(),
    ensures
        j <= ident_end(src, j) <= src.len(),
        forall|k: int| j <= k < ident_end(src, j) ==> is_ident_cont(#[trigger] src[k]),
        ident_end(src, j) < src.len() ==> !is_ident_cont(src[ident_end(src, j)]),
    decreases src.len() - j,
{
    if j < src.len() && is_ident_cont(src[j]) {
        lemma_ident_end(src, j + 1);
    }
}

pub proof fn lemma_ident_end_is(src: Seq<u8>, j: int, e: int)
    requires
        0 <= j <= e <= src.len(),
        forall|k: int| j <= k < e ==> is_ident_cont(#[trigger] src[k]),
        e < src.len() ==> !is_ident_cont(src[e]),
    ensures
        ident_end(src, j) == e,
    decreases e - j,
{
    if j < e {
        lemma_ident_end_is(src, j + 1, e);
    }
}

pub open spec fn digits_end(src: Seq<u8>, j: int) -> int
    decreases src.len() - j,
{
    if j < src.len() && is_digit(src[j]) {
        digits_end(src, j + 1)
    } else {
        j
    }
}

pub proof fn lemma_digits_end(src: Seq<u8>, j: int)
    requires
        0 <= j <= src.len(),
    ensures
        j <= digits_end(src, j) <= src.len(),
        forall|k: int| j <= k < digits_end(src, j) ==> is_digit(#[trigger] src[k]),
        digits_end(src, j) < src.len() ==> !is_digit(src[digits_end(src, j)]),
    decreases src.len() - j,
{
    if j < src.len() && is_digit(src[j]) {
        lemma_digits_end(src, j + 1);
    }
}

pub proof fn lemma_digits_end_is(src: Seq<u8>, j: int, e: int)
    requires
        0 <= j <= e <= src.len(),
        forall|k: int| j <= k < e ==> is_digit(#[trigger] src[k]),
        e < src.len() ==> !is_digit(src[e]),
    ensures
        digits_end(src, j) == e,
    decreases e - j,
{
    if j < e {
        lemma_digits_end_is(src, j + 1, e);
    }
}

pub open spec fn skip_end(src: Seq<u8>, mode: NewlineMode, j: int) -> int
    decreases src.len() - j,
{
    if j < src.len() && is_skip(mode, src[j]) {
        skip_end(src, mode, j + 1)
    } else {
        j
    }
}

pub proof fn lemma_skip_end(src: Seq<u8>, mode: NewlineMode, j: int)
    requires
        0 <= j <= src.len(),
    ensures
        j <= skip_end(src, mode, j) <= src.len(),
        forall|k: int| j <= k < skip_end(src, mode, j) ==> is_skip(mode, #[trigger] src[k]),
        skip_end(src, mode, j) < src.len() ==> !is_skip(mode, src[skip_end(src, mode, j)]),
    decreases src.len() - j,
{
    if j < src.len() && is_skip(mode, src[j]) {
        lemma_skip_end(src, mode, j + 1);
    }
}

pub proof fn lemma_skip_end_is(src: Seq<u8>, mode: NewlineMode, j: int, e: int)
    requires
        0 <= j <= e <= src.len(),
        forall|k: int| j <= k < e ==> is_skip(mode, #[trigger] src[k]),
        e < src.len() ==> !is_skip(mode, src[e]),
    ensures
        skip_end(src, mode, j) == e,
    decreases e - j,
{
    if j < e {
        lemma_skip_end_is(src, mode, j + 1, e);
    }
}

pub open spec fn newline_end(src: Seq<u8>, j: int) -> int
    decreases src.len() - j,
{
    if j < src.len() && src[j] == NEWLINE {
        newline_end(src, j + 1)
    } else {
        j
    }
}

pub proof fn lemma_newline_end(src: Seq<u8>, j: int)
    requires
        0 <= j <= src.len(),
    ensures
        j <= newline_end(src, j) <= src.len(),
        forall|k: int| j <= k < newline_end(src, j) ==> #[trigger] src[k] == NEWLINE,
        newline_end(src, j) < src.len() ==> src[newline_end(src, j)] != NEWLINE,
    decreases src.len() - j,
{
    if j < src.len() && src[j] == NEWLINE {
        lemma_newline_end(src, j + 1);
    }
}

pub proof fn lemma_newline_end_is(src: Seq<u8>, j: int, e: int)
    requires
        0 <= j <= e <= src.len(),
        forall|k: int| j <= k < e ==> #[trigger] src[k] == NEWLINE,
        e < src.len() ==> src[e] != NEWLINE,
    ensures
        newline_end(src, j) == e,
    decreases e - j,
{
    if j < e {
        lemma_newline_end_is(src, j + 1, e);
    }
}

// ----- decimal values -----

/// The value of one digit character.
pub open spec fn digit_val(c: u8) -> nat {
    (c - DIGIT_ZERO) as nat
}

/// The value of a string of decimal digit characters, most significant first.
pub open spec fn dec_val(s: Seq<u8>) -> nat
    decreases s.len(),
{
    if s.len() == 0 {
        0
    } else {
        dec_val(s.drop_last()) * 10 + digit_val(s.last())
    }
}

pub proof fn lemma_dec_val_push(s: Seq<u8>, c: u8)
    ensures
        dec_val(s.push(c)) == dec_val(s) * 10 + digit_val(c),
{
    assert(s.push(c).drop_last() =~= s);
    assert(s.push(c).last() == c);
}

// ----- token construction -----

/// Whether `src[i .. j]` is exactly the keyword `val`.
pub open spec fn is_kw_val(src: Seq<u8>, i: int, j: int) -> bool {
    j - i == 3 && src[i] == LOWER_V && src[i + 1] == LOWER_A && src[i + 2] == LOWER_L
}

/// Whether `src[i .. j]` is exactly the keyword `var`.
pub open spec fn is_kw_var(src: Seq<u8>, i: int, j: int) -> bool {
    j - i == 3 && src[i] == LOWER_V && src[i + 1] == LOWER_A && src[i + 2] == LOWER_R
}

/// The token for the identifier run starting at `i`: an exact, whole-word,
/// case-sensitive match against a keyword is reclassified; anything else is
/// an identifier whose text is the span itself.
pub open spec fn ident_token(src: Seq<u8>, i: int) -> Token {
    let j = ident_end(src, i + 1);
    let kind = if is_kw_val(src, i, j) {
        Kind::ValKeyword
    } else if is_kw_var(src, i, j) {
        Kind::VarKeyword
    } else {
        Kind::Identifier
    };
    Token { kind, start: i as usize, end: (j - 1) as usize }
}

/// Where the numeric literal starting at `i` ends: the maximal digit run,
/// extended past at most one dot by a second maximal digit run.
pub open spec fn number_end(src: Seq<u8>, i: int) -> int {
    let d1 = digits_end(src, i + 1);
    if d1 < src.len() && src[d1] == DOT {
        digits_end(src, d1 + 1)
    } else {
        d1
    }
}

/// The digits of the literal `src[i .. number_end]` with the dot removed:
/// read as an integer they are the literal's mantissa.
pub open spec fn float_digits(src: Seq<u8>, i: int, dot: int, e: int) -> Seq<u8> {
    src.subrange(i, dot) + src.subrange(dot + 1, e)
}

/// The token for the numeric literal starting at `i`.  Without a dot the
/// value must fit `i32`; with a dot the mantissa must fit `u64`; a literal
/// whose value does not fit becomes `NumberError`, so that no input stops
/// the scan.
pub open spec fn number_token(src: Seq<u8>, i: int) -> Token {
    let d1 = digits_end(src, i + 1);
    if d1 < src.len() && src[d1] == DOT {
        let d2 = digits_end(src, d1 + 1);
        let m = dec_val(float_digits(src, i, d1, d2));
        let kind = if m <= u64::MAX {
            Kind::Float { mantissa: m as u64, scale: (d2 - d1 - 1) as u64 }
        } else {
            Kind::NumberError
        };
        Token { kind, start: i as usize, end: (d2 - 1) as usize }
    } else {
        let v = dec_val(src.subrange(i, d1));
        let kind = if v <= i32::MAX {
            Kind::Integer(v as i32)
        } else {
            Kind::NumberError
        };
        Token { kind, start: i as usize, end: (d1 - 1) as usize }
    }
}

// ----- the scan -----

/// The token sequence the scanner emits from position `i` on.  Exactly one
/// dispatch rule applies to each character, every rule consumes at least the
/// character that selected it, and no rule fails: the scan is total.
pub open spec fn scan_from(src: Seq<u8>, mode: NewlineMode, i: int) -> Seq<Token>
    decreases src.len() - i,
{
    if i < 0 || i >= src.len() {
        Seq::empty()
    } else {
        let c = src[i];
        if is_single_op(c) {
            seq![Token { kind: op_kind(c), start: i as usize, end: i as usize }]
                + scan_from(src, mode, i + 1)
        } else if c == STAR {
            if i + 1 < src.len() && src[i + 1] == STAR {
                seq![Token { kind: Kind::Power, start: i as usize, end: (i + 1) as usize }]
                    + scan_from(src, mode, i + 2)
            } else {
                seq![Token { kind: Kind::Multiply, start: i as usize, end: i as usize }]
                    + scan_from(src, mode, i + 1)
            }
        } else if is_skip(mode, c) {
            proof {
                lemma_skip_end(src, mode, i + 1);
            }
            scan_from(src, mode, skip_end(src, mode, i + 1))
        } else if c == NEWLINE {
            let j = newline_end(src, i + 1);
            proof {
                lemma_newline_end(src, i + 1);
            }
            seq![Token { kind: Kind::Newline, start: i as usize, end: (j - 1) as usize }]
                + scan_from(src, mode, j)
        } else if is_ident_start(c) {
            let j = ident_end(src, i + 1);
            proof {
                lemma_ident_end(src, i + 1);
            }
            seq![ident_token(src, i)] + scan_from(src, mode, j)
        } else if is_digit(c) {
            let j = number_end(src, i);
            proof {
                lemma_digits_end(src, i + 1);
                if digits_end(src, i + 1) < src.len() && src[digits_end(src, i + 1)] == DOT {
                    lemma_digits_end(src, digits_end(src, i + 1) + 1);
                }
            }
            seq![number_token(src, i)] + scan_from(src, mode, j)
        } else {
            seq![Token { kind: Kind::Invalid, start: i as usize, end: i as usize }]
                + scan_from(src, mode, i + 1)
        }
    }
}

/// The token sequence of a whole source text.
pub open spec fn tokens_of(src: Seq<u8>, mode: NewlineMode) -> Seq<Token> {
    scan_from(src, mode, 0)
}

} // verus!
