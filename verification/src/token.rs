use vstd::prelude::*;

verus! {

/// How the scanner treats newline characters.
#[derive(Clone, Copy, Debug, PartialEq, Eq, Structural)]
pub enum NewlineMode {
    /// A maximal run of `\n` characters becomes one Newline token.
    Significant,
    /// `\n` is skipped exactly like space and tab; no Newline token exists.
    Insignificant,
}

/// What a token's lexeme was recognized as.
///
/// A literal with a decimal point carries its value exactly as a pair
/// `(mantissa, scale)` meaning `mantissa / 10^scale`; consumers that want a
/// binary floating-point value perform that division themselves.  A decimal
/// literal whose value does not fit its carrier type (`i32` for integers,
/// the mantissa's `u64` for decimals) becomes `NumberError` instead of
/// stopping the scan.
#[derive(Clone, Copy, Debug, PartialEq, Eq, Structural)]
pub enum Kind {
    Plus,
    Minus,
    Multiply,
    Divide,
    Modulus,
    Power,
    Equals,
    VarKeyword,
    ValKeyword,
    /// A decimal integer literal and its value.
    Integer(i32),
    /// A decimal literal containing a dot: the value is `mantissa / 10^scale`.
    Float { mantissa: u64, scale: u64 },
    /// An identifier; its text is `source[start ..= end]`.
    Identifier,
    /// One maximal run of `\n` characters (`NewlineMode::Significant` only).
    Newline,
    /// A numeric literal whose value does not fit the literal's carrier type.
    NumberError,
    /// A single character that no rule recognizes.
    Invalid,
}

/// One token: a kind plus the inclusive span `[start, end]` of its lexeme.
/// Identifier text is not copied: the span indexes the source text itself.
#[derive(Clone, Copy, Debug, PartialEq, Eq, Structural)]
pub struct Token {
    pub kind: Kind,
    pub start: usize,
    pub end: usize,
}

/// The bytes of a token's lexeme, resolved against the source the token
/// was scanned from.
pub fn lexeme<'a>(source: &'a [u8], t: &Token) -> (r: &'a [u8])
    requires
        t.start <= t.end < source@.len(),
    ensures
        r@ == source@.subrange(t.start as int, t.end + 1),
{
    let n: usize = source.len();
    assert(t.end < n);
    vstd::slice::slice_subrange(source, t.start, t.end + 1)
}

} // verus!
