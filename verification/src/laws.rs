//! Properties of the scan as a whole: every emitted span lies inside the
//! source, and the tokens tile the source in order, with nothing between
//! them but recognized whitespace.

use crate::model::{
    digits_end, ident_end, ident_token, is_digit, is_ident_start, is_single_op, is_skip,
    lemma_digits_end, lemma_ident_end, lemma_newline_end, lemma_skip_end, newline_end,
    number_end, number_token, op_kind, scan_from, skip_end, tokens_of, DOT, NEWLINE, STAR,
};
use crate::token::{Kind, NewlineMode, Token};
use vstd::prelude::*;

verus! {

/// `toks` tiles the source range `[i, src.len())`: the tokens stand in
/// source order, each inclusive span lies inside the source, consecutive
/// spans do not overlap, and every character not inside a span — before the
/// first token, between two tokens, after the last — belongs to a
/// whitespace-skip region.  No character is dropped without being assigned
/// to a token or to such a region.
pub open spec fn covers(src: Seq<u8>, mode: NewlineMode, i: int, toks: Seq<Token>) -> bool
    decreases toks.len(),
{
    if toks.len() == 0 {
        forall|k: int| i <= k < src.len() ==> is_skip(mode, #[trigger] src[k])
    } else {
        &&& i <= toks[0].start
        &&& forall|k: int| i <= k < toks[0].start ==> is_skip(mode, #[trigger] src[k])
        &&& toks[0].start <= toks[0].end < src.len()
        &&& covers(src, mode, toks[0].end + 1, toks.drop_first())
    }
}

/// A tiling of `[p, src.len())` is also a tiling of `[i, src.len())` when
/// the characters of `[i, p)` are all skipped.
proof fn lemma_covers_widen(src: Seq<u8>, mode: NewlineMode, i: int, p: int, toks: Seq<Token>)
    requires
        i <= p,
        covers(src, mode, p, toks),
        forall|k: int| i <= k < p ==> is_skip(mode, #[trigger] src[k]),
    ensures
        covers(src, mode, i, toks),
{
}

/// A token whose span starts exactly at `i`, followed by a tiling of what
/// lies after its span, tiles `[i, src.len())`.
proof fn lemma_covers_cons(src: Seq<u8>, mode: NewlineMode, i: int, tok: Token, rest: Seq<Token>)
    requires
        tok.start == i,
        tok.start <= tok.end < src.len(),
        covers(src, mode, tok.end + 1, rest),
    ensures
        covers(src, mode, i, seq![tok] + rest),
{
    assert((seq![tok] + rest)[0] == tok);
    assert((seq![tok] + rest).drop_first() =~= rest);
}

#[verifier::rlimit(50)]
proof fn lemma_scan_from_covers(src: Seq<u8>, mode: NewlineMode, i: int)
    requires
        0 <= i,
        src.len() <= usize::MAX,
    ensures
        covers(src, mode, i, scan_from(src, mode, i)),
    decreases src.len() - i,
{
    if i >= src.len() {
    } else {
        let c = src[i];
        if is_single_op(c) {
            lemma_scan_from_covers(src, mode, i + 1);
            lemma_covers_cons(
                src,
                mode,
                i,
                Token { kind: op_kind(c), start: i as usize, end: i as usize },
                scan_from(src, mode, i + 1),
            );
        } else if c == STAR {
            if i + 1 < src.len() && src[i + 1] == STAR {
                lemma_scan_from_covers(src, mode, i + 2);
                lemma_covers_cons(
                    src,
                    mode,
                    i,
                    Token { kind: Kind::Power, start: i as usize, end: (i + 1) as usize },
                    scan_from(src, mode, i + 2),
                );
            } else {
                lemma_scan_from_covers(src, mode, i + 1);
                lemma_covers_cons(
                    src,
                    mode,
                    i,
                    Token { kind: Kind::Multiply, start: i as usize, end: i as usize },
                    scan_from(src, mode, i + 1),
                );
            }
        } else if is_skip(mode, c) {
            let p = skip_end(src, mode, i + 1);
            lemma_skip_end(src, mode, i + 1);
            lemma_scan_from_covers(src, mode, p);
            lemma_covers_widen(src, mode, i, p, scan_from(src, mode, p));
        } else if c == NEWLINE {
            let j = newline_end(src, i + 1);
            lemma_newline_end(src, i + 1);
            lemma_scan_from_covers(src, mode, j);
            lemma_covers_cons(
                src,
                mode,
                i,
                Token { kind: Kind::Newline, start: i as usize, end: (j - 1) as usize },
                scan_from(src, mode, j),
            );
        } else if is_ident_start(c) {
            let j = ident_end(src, i + 1);
            lemma_ident_end(src, i + 1);
            lemma_scan_from_covers(src, mode, j);
            lemma_covers_cons(src, mode, i, ident_token(src, i), scan_from(src, mode, j));
        } else if is_digit(c) {
            let j = number_end(src, i);
            lemma_digits_end(src, i + 1);
            if digits_end(src, i + 1) < src.len() && src[digits_end(src, i + 1)] == DOT {
                lemma_digits_end(src, digits_end(src, i + 1) + 1);
            }
            lemma_scan_from_covers(src, mode, j);
            lemma_covers_cons(src, mode, i, number_token(src, i), scan_from(src, mode, j));
        } else {
            lemma_scan_from_covers(src, mode, i + 1);
            lemma_covers_cons(
                src,
                mode,
                i,
                Token { kind: Kind::Invalid, start: i as usize, end: i as usize },
                scan_from(src, mode, i + 1),
            );
        }
    }
}

/// Coverage: the scan accounts for the whole input.  The emitted tokens
/// stand in source order and, together with the whitespace-skip regions
/// between them, their consumed ranges reconstruct the entire source text:
/// no character is silently dropped.
pub proof fn lemma_coverage(src: Seq<u8>, mode: NewlineMode)
    requires
        src.len() <= usize::MAX,
    ensures
        covers(src, mode, 0, tokens_of(src, mode)),
{
    lemma_scan_from_covers(src, mode, 0);
}

proof fn lemma_covers_spans(src: Seq<u8>, mode: NewlineMode, i: int, toks: Seq<Token>)
    requires
        0 <= i,
        covers(src, mode, i, toks),
    ensures
        forall|q: int|
            0 <= q < toks.len() ==> i <= (#[trigger] toks[q]).start <= toks[q].end < src.len(),
    decreases toks.len(),
{
    if toks.len() > 0 {
        lemma_covers_spans(src, mode, toks[0].end + 1, toks.drop_first());
        assert forall|q: int|
            0 <= q < toks.len() implies i <= (#[trigger] toks[q]).start <= toks[q].end
            < src.len() by {
            if q > 0 {
                assert(toks[q] == toks.drop_first()[q - 1]);
            }
        }
    }
}

/// Span validity: every token of a scan has `0 <= start <= end`, and `end`
/// is less than the source length — so an empty source yields no tokens.
pub proof fn lemma_span_validity(src: Seq<u8>, mode: NewlineMode)
    requires
        src.len() <= usize::MAX,
    ensures
        forall|q: int|
            0 <= q < tokens_of(src, mode).len() ==> (#[trigger] tokens_of(src, mode)[q]).start
                <= tokens_of(src, mode)[q].end < src.len(),
{
    lemma_coverage(src, mode);
    lemma_covers_spans(src, mode, 0, tokens_of(src, mode));
}

} // verus!
