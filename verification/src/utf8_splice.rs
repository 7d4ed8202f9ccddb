//! Facts about splicing UTF-8 text.
//!
//! The rewrite engine inserts predicate text into the statement's bytes at
//! positions right after a token. This module shows that such insertions
//! preserve UTF-8 validity: a valid sequence can be cut wherever the next
//! byte does not continue a multi-byte character, whatever lies on either
//! side, and scanner positions always satisfy that.

use vstd::prelude::*;
use vstd::utf8::{
    valid_utf8, is_continuation_byte, is_leading_byte_width_1, valid_first_scalar,
    length_of_first_scalar, pop_first_scalar, partial_valid_utf8, valid_utf8_concat,
    valid_utf8_split, is_char_boundary, is_char_boundary_start_end_of_seq,
    is_char_boundary_iff_not_is_continuation_byte, partial_valid_utf8_extend_ascii_block,
};

verus! {

/// A sequence of ASCII bytes is valid UTF-8.
pub proof fn lemma_ascii_valid(w: Seq<u8>)
    requires
        forall|k: int| 0 <= k < w.len() ==> #[trigger] w[k] < 0x80,
    ensures
        valid_utf8(w),
{
    assert(w.subrange(0, 0) =~= Seq::<u8>::empty());
    assert(partial_valid_utf8(w, 0));
    partial_valid_utf8_extend_ascii_block(w, 0, w.len() as int);
    assert(w.subrange(0, w.len() as int) =~= w);
}

/// In valid UTF-8, the byte right after an ASCII byte never continues a
/// multi-byte character: the ASCII byte is a complete character, so what
/// follows starts a new one.
pub proof fn lemma_after_ascii_not_cont(sp: Seq<u8>, x: int)
    requires
        valid_utf8(sp),
        0 <= x,
        x + 1 < sp.len(),
        sp[x] < 0x80,
    ensures
        !is_continuation_byte(sp[x + 1]),
{
    is_char_boundary_iff_not_is_continuation_byte(sp, x);
    valid_utf8_split(sp, x);
    let t = sp.subrange(x, sp.len() as int);
    assert(t.len() >= 2);
    assert(t[0] == sp[x] && t[1] == sp[x + 1]);
    assert(valid_first_scalar(t) && valid_utf8(pop_first_scalar(t))) by {
        reveal_with_fuel(valid_utf8, 2);
    }
    assert(is_leading_byte_width_1(t[0]));
    assert(length_of_first_scalar(t) == 1);
    let rest = pop_first_scalar(t);
    assert(rest =~= t.subrange(1, t.len() as int));
    assert(rest.len() >= 1);
    assert(valid_first_scalar(rest) && valid_utf8(pop_first_scalar(rest))) by {
        reveal_with_fuel(valid_utf8, 2);
    }
    assert(rest[0] == sp[x + 1]);
}

/// A valid sequence cut at a position whose byte does not continue a
/// multi-byte character (or at its end) yields two valid halves.
pub proof fn lemma_cut(sp: Seq<u8>, x: int)
    requires
        valid_utf8(sp),
        0 <= x <= sp.len(),
        x == sp.len() || !is_continuation_byte(sp[x]),
    ensures
        valid_utf8(sp.subrange(0, x)),
        valid_utf8(sp.subrange(x, sp.len() as int)),
{
    if x == sp.len() {
        is_char_boundary_start_end_of_seq(sp);
    } else {
        is_char_boundary_iff_not_is_continuation_byte(sp, x);
    }
    valid_utf8_split(sp, x);
}

/// A subrange of a valid sequence is valid when both of its ends lie at
/// positions whose bytes do not continue a multi-byte character (or at the
/// end of the sequence).
pub proof fn lemma_mid_valid(s: Seq<u8>, a: int, b: int)
    requires
        valid_utf8(s),
        0 <= a <= b <= s.len(),
        a == s.len() || !is_continuation_byte(s[a]),
        b == s.len() || !is_continuation_byte(s[b]),
    ensures
        valid_utf8(s.subrange(a, b)),
{
    lemma_cut(s, a);
    let t = s.subrange(a, s.len() as int);
    if b - a == t.len() {
        assert(s.subrange(a, b) =~= t);
    } else {
        assert(t[b - a] == s[b]);
        lemma_cut(t, b - a);
        assert(s.subrange(a, b) =~= t.subrange(0, b - a));
    }
}

} // verus!
