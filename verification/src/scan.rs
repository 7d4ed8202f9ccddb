//! Byte-level scanning over SQL text.
//!
//! The statement text is treated as a sequence of bytes. Scanning respects
//! single-quoted string literals (with `''` doubling), double-quoted and
//! backtick-quoted identifiers, and parenthesized groups: a scan step never
//! stops inside one of them, so positions handed out by these functions are
//! always boundaries of top-level tokens.

use vstd::prelude::*;

verus! {

/// ASCII whitespace accepted between SQL tokens.
pub open spec fn is_ws(b: u8) -> bool {
    b == 0x20 || b == 0x09 || b == 0x0a || b == 0x0d
}

/// Bytes that may continue a bare (unquoted) identifier. Every byte of a
/// multi-byte UTF-8 character counts as an identifier byte, so keywords are
/// never recognized in the middle of such a character.
pub open spec fn is_ident_byte(b: u8) -> bool {
    (0x30 <= b && b <= 0x39) || (0x41 <= b && b <= 0x5a) || (0x61 <= b && b <= 0x7a) || b == 0x5f
        || b == 0x24 || b >= 0x80
}

/// ASCII lowercase folding of one byte.
pub open spec fn lower(b: u8) -> u8 {
    if 0x41 <= b && b <= 0x5a {
        (b + 0x20) as u8
    } else {
        b
    }
}

/// ASCII lowercase folding of a byte sequence.
pub open spec fn lower_seq(s: Seq<u8>) -> Seq<u8> {
    s.map_values(|b: u8| lower(b))
}

/// First position at or after `i` (up to `hi`) that does not hold whitespace.
pub open spec fn skip_ws(s: Seq<u8>, i: int, hi: int) -> int
    decreases hi - i,
{
    if 0 <= i && i < hi && i < s.len() && is_ws(s[i]) {
        skip_ws(s, i + 1, hi)
    } else {
        i
    }
}

/// Last position at or before `j` (down to `lo`) with no whitespace just before it.
pub open spec fn trim_end(s: Seq<u8>, lo: int, j: int) -> int
    decreases j - lo,
{
    if lo < j && j <= s.len() && 0 <= lo && is_ws(s[j - 1]) {
        trim_end(s, lo, j - 1)
    } else {
        j
    }
}

/// End of the run of identifier bytes starting at `i`.
pub open spec fn run_end(s: Seq<u8>, i: int, hi: int) -> int
    decreases hi - i,
{
    if 0 <= i && i < hi && i <= s.len() && (i < s.len() && is_ident_byte(s[i])) {
        run_end(s, i + 1, hi)
    } else {
        i
    }
}

/// Position just past the closing quote `q`, scanning from `j` (already inside
/// the quoted region). A doubled quote stands for an escaped quote character
/// and does not close the region. Returns `hi` when the region is unterminated.
pub open spec fn quote_scan(s: Seq<u8>, j: int, hi: int, q: u8) -> int
    decreases hi - j,
{
    if !(0 <= j && j < hi && j < s.len()) {
        hi
    } else if s[j] == q {
        if j + 1 < hi && j + 1 < s.len() && s[j + 1] == q {
            quote_scan(s, j + 2, hi, q)
        } else {
            j + 1
        }
    } else {
        quote_scan(s, j + 1, hi, q)
    }
}

/// Position just past the end of the line whose remainder starts at `j`: one
/// past the next newline, or `hi` when the line runs to the end.
pub open spec fn line_end(s: Seq<u8>, j: int, hi: int) -> int
    decreases hi - j,
{
    if !(0 <= j && j < hi && j < s.len()) {
        hi
    } else if s[j] == 0x0a {
        j + 1
    } else {
        line_end(s, j + 1, hi)
    }
}

/// Position just past the `*/` that closes the block comment whose interior
/// starts at `j`, or `hi` when the comment is unterminated.
pub open spec fn block_end(s: Seq<u8>, j: int, hi: int) -> int
    decreases hi - j,
{
    if !(0 <= j && j + 1 < hi && j + 1 < s.len()) {
        hi
    } else if s[j] == 0x2a && s[j + 1] == 0x2f {
        j + 2
    } else {
        block_end(s, j + 1, hi)
    }
}

/// True when a SQL comment starts at `i`: `--` to the end of the line, or a
/// `/* */` block.
pub open spec fn comment_start_at(s: Seq<u8>, i: int, hi: int) -> bool {
    &&& 0 <= i && i + 1 < hi && i + 1 < s.len()
    &&& ((s[i] == 0x2d && s[i + 1] == 0x2d) || (s[i] == 0x2f && s[i + 1] == 0x2a))
}

/// One scan step from position `i`: past a whole quoted region, a whole
/// parenthesized group, a whole comment, a whole identifier run, or one
/// other byte.
pub open spec fn tok_step(s: Seq<u8>, i: int, hi: int) -> int
    decreases hi - i, 0int,
{
    if !(0 <= i && i < hi && i < s.len()) {
        hi
    } else if s[i] == 0x27 || s[i] == 0x22 || s[i] == 0x60 {
        quote_scan(s, i + 1, hi, s[i])
    } else if s[i] == 0x28 {
        paren_scan(s, i + 1, hi)
    } else if comment_start_at(s, i, hi) && s[i] == 0x2d {
        line_end(s, i + 2, hi)
    } else if comment_start_at(s, i, hi) && s[i] == 0x2f {
        block_end(s, i + 2, hi)
    } else if is_ident_byte(s[i]) {
        run_end(s, i + 1, hi)
    } else {
        i + 1
    }
}

/// Position just past the parenthesis that closes the group whose interior
/// starts at `j`. Nested groups and quoted regions are skipped whole.
/// Returns `hi` when the group is unterminated.
pub open spec fn paren_scan(s: Seq<u8>, j: int, hi: int) -> int
    decreases hi - j, 1int,
{
    if !(0 <= j && j < hi && j < s.len()) {
        hi
    } else if s[j] == 0x29 {
        j + 1
    } else {
        let k = tok_step(s, j, hi);
        if k <= j || k > hi {
            hi
        } else {
            paren_scan(s, k, hi)
        }
    }
}

pub broadcast proof fn lemma_skip_ws_bounds(s: Seq<u8>, i: int, hi: int)
    requires
        0 <= i <= hi,
    ensures
        i <= #[trigger] skip_ws(s, i, hi) <= hi,
    decreases hi - i,
{
    if i < hi && i < s.len() && is_ws(s[i]) {
        lemma_skip_ws_bounds(s, i + 1, hi);
    }
}

pub broadcast proof fn lemma_trim_end_bounds(s: Seq<u8>, lo: int, j: int)
    requires
        0 <= lo <= j,
    ensures
        lo <= #[trigger] trim_end(s, lo, j) <= j,
    decreases j - lo,
{
    if lo < j && j <= s.len() && is_ws(s[j - 1]) {
        lemma_trim_end_bounds(s, lo, j - 1);
    }
}

pub broadcast proof fn lemma_run_end_bounds(s: Seq<u8>, i: int, hi: int)
    requires
        0 <= i <= hi,
    ensures
        i <= #[trigger] run_end(s, i, hi) <= hi,
    decreases hi - i,
{
    if i < hi && i < s.len() && is_ident_byte(s[i]) {
        lemma_run_end_bounds(s, i + 1, hi);
    }
}

pub broadcast proof fn lemma_quote_scan_bounds(s: Seq<u8>, j: int, hi: int, q: u8)
    requires
        0 <= j <= hi,
    ensures
        j <= #[trigger] quote_scan(s, j, hi, q) <= hi,
    decreases hi - j,
{
    if 0 <= j && j < hi && j < s.len() {
        if s[j] == q {
            if j + 1 < hi && j + 1 < s.len() && s[j + 1] == q {
                lemma_quote_scan_bounds(s, j + 2, hi, q);
            }
        } else {
            lemma_quote_scan_bounds(s, j + 1, hi, q);
        }
    }
}

pub broadcast proof fn lemma_line_end_bounds(s: Seq<u8>, j: int, hi: int)
    requires
        0 <= j <= hi,
    ensures
        j <= #[trigger] line_end(s, j, hi) <= hi,
    decreases hi - j,
{
    if 0 <= j && j < hi && j < s.len() && s[j] != 0x0a {
        lemma_line_end_bounds(s, j + 1, hi);
    }
}

pub broadcast proof fn lemma_block_end_bounds(s: Seq<u8>, j: int, hi: int)
    requires
        0 <= j <= hi,
    ensures
        j <= #[trigger] block_end(s, j, hi) <= hi,
    decreases hi - j,
{
    if 0 <= j && j + 1 < hi && j + 1 < s.len() && !(s[j] == 0x2a && s[j + 1] == 0x2f) {
        lemma_block_end_bounds(s, j + 1, hi);
    }
}

pub broadcast proof fn lemma_tok_step_bounds(s: Seq<u8>, i: int, hi: int)
    requires
        0 <= i <= hi,
    ensures
        i <= #[trigger] tok_step(s, i, hi) <= hi,
        i < hi ==> i < tok_step(s, i, hi),
    decreases hi - i, 0int,
{
    if 0 <= i && i < hi && i < s.len() {
        if s[i] == 0x27 || s[i] == 0x22 || s[i] == 0x60 {
            lemma_quote_scan_bounds(s, i + 1, hi, s[i]);
        } else if s[i] == 0x28 {
            lemma_paren_scan_bounds(s, i + 1, hi);
        } else if comment_start_at(s, i, hi) && s[i] == 0x2d {
            lemma_line_end_bounds(s, i + 2, hi);
        } else if comment_start_at(s, i, hi) && s[i] == 0x2f {
            lemma_block_end_bounds(s, i + 2, hi);
        } else if is_ident_byte(s[i]) {
            lemma_run_end_bounds(s, i + 1, hi);
        }
    }
}

pub broadcast proof fn lemma_paren_scan_bounds(s: Seq<u8>, j: int, hi: int)
    requires
        0 <= j <= hi,
    ensures
        j <= #[trigger] paren_scan(s, j, hi) <= hi,
        j < hi ==> j < paren_scan(s, j, hi),
    decreases hi - j, 1int,
{
    if 0 <= j && j < hi && j < s.len() {
        if s[j] == 0x29 {
        } else {
            lemma_tok_step_bounds(s, j, hi);
            let k = tok_step(s, j, hi);
            if k > j && k <= hi {
                lemma_paren_scan_bounds(s, k, hi);
            }
        }
    }
}

pub proof fn lemma_skip_ws_all_ws(s: Seq<u8>, i: int, hi: int)
    requires
        0 <= i <= hi <= s.len(),
    ensures
        forall|k: int| i <= k < skip_ws(s, i, hi) ==> is_ws(#[trigger] s[k]),
    decreases hi - i,
{
    if i < hi && is_ws(s[i]) {
        lemma_skip_ws_all_ws(s, i + 1, hi);
    }
}

pub proof fn lemma_trim_end_ws(s: Seq<u8>, lo: int, j: int)
    requires
        0 <= lo <= j <= s.len(),
    ensures
        trim_end(s, lo, j) < j ==> is_ws(s[trim_end(s, lo, j)]),
    decreases j - lo,
{
    if lo < j && is_ws(s[j - 1]) {
        lemma_trim_end_ws(s, lo, j - 1);
    }
}

pub proof fn lemma_run_end_nonident(s: Seq<u8>, i: int, hi: int)
    requires
        0 <= i <= hi <= s.len(),
    ensures
        run_end(s, i, hi) < hi ==> !is_ident_byte(s[run_end(s, i, hi)]),
    decreases hi - i,
{
    if i < hi && is_ident_byte(s[i]) {
        lemma_run_end_nonident(s, i + 1, hi);
    }
}

pub proof fn lemma_word_at_first_ascii(s: Seq<u8>, i: int, hi: int, w: Seq<u8>)
    requires
        word_at(s, i, hi, w),
        w.len() > 0,
        0x61 <= w[0] <= 0x7a,
    ensures
        i < s.len(),
        s[i] < 0x80,
{
    assert(lower_seq(s.subrange(i, i + w.len() as int))[0] == w[0]);
    assert(lower(s[i]) == w[0]);
}

pub proof fn lemma_class_at_ascii(s: Seq<u8>, i: int, hi: int, c: KwClass)
    requires
        class_at(s, i, hi, c),
    ensures
        0 <= i,
        i < s.len(),
        s[i] < 0x80,
{
    match c {
        KwClass::FromKw => lemma_word_at_first_ascii(s, i, hi, kw_from()),
        KwClass::WhereKw => lemma_word_at_first_ascii(s, i, hi, kw_where()),
        KwClass::Semi => {
        },
        KwClass::Comma => {
        },
        KwClass::OrKw => lemma_word_at_first_ascii(s, i, hi, seq![0x6fu8, 0x72u8]),
        KwClass::SetOp => {
            if word_at(s, i, hi, seq![0x75u8, 0x6eu8, 0x69u8, 0x6fu8, 0x6eu8]) {
                lemma_word_at_first_ascii(s, i, hi, seq![0x75u8, 0x6eu8, 0x69u8, 0x6fu8, 0x6eu8]);
            } else if word_at(s, i, hi, seq![0x65u8, 0x78u8, 0x63u8, 0x65u8, 0x70u8, 0x74u8]) {
                lemma_word_at_first_ascii(
                    s,
                    i,
                    hi,
                    seq![0x65u8, 0x78u8, 0x63u8, 0x65u8, 0x70u8, 0x74u8],
                );
            } else {
                lemma_word_at_first_ascii(
                    s,
                    i,
                    hi,
                    seq![0x69u8, 0x6eu8, 0x74u8, 0x65u8, 0x72u8, 0x73u8, 0x65u8, 0x63u8, 0x74u8],
                );
            }
        },
        KwClass::Term => {
            if comment_start_at(s, i, hi) {
            } else if word_at(s, i, hi, seq![0x67u8, 0x72u8, 0x6fu8, 0x75u8, 0x70u8]) {
                lemma_word_at_first_ascii(s, i, hi, seq![0x67u8, 0x72u8, 0x6fu8, 0x75u8, 0x70u8]);
            } else if word_at(s, i, hi, seq![0x6fu8, 0x72u8, 0x64u8, 0x65u8, 0x72u8]) {
                lemma_word_at_first_ascii(s, i, hi, seq![0x6fu8, 0x72u8, 0x64u8, 0x65u8, 0x72u8]);
            } else if word_at(s, i, hi, seq![0x68u8, 0x61u8, 0x76u8, 0x69u8, 0x6eu8, 0x67u8]) {
                lemma_word_at_first_ascii(
                    s,
                    i,
                    hi,
                    seq![0x68u8, 0x61u8, 0x76u8, 0x69u8, 0x6eu8, 0x67u8],
                );
            } else if word_at(s, i, hi, seq![0x6cu8, 0x69u8, 0x6du8, 0x69u8, 0x74u8]) {
                lemma_word_at_first_ascii(s, i, hi, seq![0x6cu8, 0x69u8, 0x6du8, 0x69u8, 0x74u8]);
            } else if word_at(s, i, hi, seq![0x6fu8, 0x66u8, 0x66u8, 0x73u8, 0x65u8, 0x74u8]) {
                lemma_word_at_first_ascii(
                    s,
                    i,
                    hi,
                    seq![0x6fu8, 0x66u8, 0x66u8, 0x73u8, 0x65u8, 0x74u8],
                );
            } else if word_at(s, i, hi, seq![0x66u8, 0x65u8, 0x74u8, 0x63u8, 0x68u8]) {
                lemma_word_at_first_ascii(s, i, hi, seq![0x66u8, 0x65u8, 0x74u8, 0x63u8, 0x68u8]);
            } else if word_at(s, i, hi, seq![0x75u8, 0x6eu8, 0x69u8, 0x6fu8, 0x6eu8]) {
                lemma_word_at_first_ascii(s, i, hi, seq![0x75u8, 0x6eu8, 0x69u8, 0x6fu8, 0x6eu8]);
            } else if word_at(s, i, hi, seq![0x65u8, 0x78u8, 0x63u8, 0x65u8, 0x70u8, 0x74u8]) {
                lemma_word_at_first_ascii(
                    s,
                    i,
                    hi,
                    seq![0x65u8, 0x78u8, 0x63u8, 0x65u8, 0x70u8, 0x74u8],
                );
            } else if word_at(
                s,
                i,
                hi,
                seq![0x69u8, 0x6eu8, 0x74u8, 0x65u8, 0x72u8, 0x73u8, 0x65u8, 0x63u8, 0x74u8],
            ) {
                lemma_word_at_first_ascii(
                    s,
                    i,
                    hi,
                    seq![0x69u8, 0x6eu8, 0x74u8, 0x65u8, 0x72u8, 0x73u8, 0x65u8, 0x63u8, 0x74u8],
                );
            } else if word_at(s, i, hi, seq![0x77u8, 0x69u8, 0x6eu8, 0x64u8, 0x6fu8, 0x77u8]) {
                lemma_word_at_first_ascii(
                    s,
                    i,
                    hi,
                    seq![0x77u8, 0x69u8, 0x6eu8, 0x64u8, 0x6fu8, 0x77u8],
                );
            } else {
                lemma_word_at_first_ascii(s, i, hi, seq![0x66u8, 0x6fu8, 0x72u8]);
            }
        },
    }
}

/// The lowered bytes of the keyword `select`.
pub open spec fn kw_select() -> Seq<u8> {
    seq![0x73u8, 0x65u8, 0x6cu8, 0x65u8, 0x63u8, 0x74u8]
}

/// The lowered bytes of the keyword `from`.
pub open spec fn kw_from() -> Seq<u8> {
    seq![0x66u8, 0x72u8, 0x6fu8, 0x6du8]
}

/// The lowered bytes of the keyword `where`.
pub open spec fn kw_where() -> Seq<u8> {
    seq![0x77u8, 0x68u8, 0x65u8, 0x72u8, 0x65u8]
}

/// The lowered bytes of the keyword `as`.
pub open spec fn kw_as() -> Seq<u8> {
    seq![0x61u8, 0x73u8]
}

/// The lowered bytes of the function name `count`.
pub open spec fn kw_count() -> Seq<u8> {
    seq![0x63u8, 0x6fu8, 0x75u8, 0x6eu8, 0x74u8]
}

/// True when the bare word starting at `i` is exactly the (lowered) word `w`:
/// the identifier run that starts there ends right after it.
pub open spec fn word_at(s: Seq<u8>, i: int, hi: int, w: Seq<u8>) -> bool {
    &&& 0 <= i
    &&& i + w.len() <= hi
    &&& hi <= s.len()
    &&& run_end(s, i, hi) == i + w.len()
    &&& lower_seq(s.subrange(i, i + w.len() as int)) == w
}

/// True when the word at `i` starts a clause that ends the WHERE region of a
/// SELECT: `GROUP`, `ORDER`, `HAVING`, `LIMIT`, `OFFSET`, `FETCH`, `UNION`,
/// `EXCEPT`, `INTERSECT`, `WINDOW` or `FOR`.
pub open spec fn terminator_at(s: Seq<u8>, i: int, hi: int) -> bool {
    ||| word_at(s, i, hi, seq![0x67u8, 0x72u8, 0x6fu8, 0x75u8, 0x70u8])  // group
    ||| word_at(s, i, hi, seq![0x6fu8, 0x72u8, 0x64u8, 0x65u8, 0x72u8])  // order
    ||| word_at(s, i, hi, seq![0x68u8, 0x61u8, 0x76u8, 0x69u8, 0x6eu8, 0x67u8])  // having
    ||| word_at(s, i, hi, seq![0x6cu8, 0x69u8, 0x6du8, 0x69u8, 0x74u8])  // limit
    ||| word_at(s, i, hi, seq![0x6fu8, 0x66u8, 0x66u8, 0x73u8, 0x65u8, 0x74u8])  // offset
    ||| word_at(s, i, hi, seq![0x66u8, 0x65u8, 0x74u8, 0x63u8, 0x68u8])  // fetch
    ||| word_at(s, i, hi, seq![0x75u8, 0x6eu8, 0x69u8, 0x6fu8, 0x6eu8])  // union
    ||| word_at(s, i, hi, seq![0x65u8, 0x78u8, 0x63u8, 0x65u8, 0x70u8, 0x74u8])  // except
    ||| word_at(
        s,
        i,
        hi,
        seq![0x69u8, 0x6eu8, 0x74u8, 0x65u8, 0x72u8, 0x73u8, 0x65u8, 0x63u8, 0x74u8],
    )  // intersect
    ||| word_at(s, i, hi, seq![0x77u8, 0x69u8, 0x6eu8, 0x64u8, 0x6fu8, 0x77u8])  // window
    ||| word_at(s, i, hi, seq![0x66u8, 0x6fu8, 0x72u8])  // for
}

/// True when the word at `i` is a reserved word that cannot serve as a table
/// alias: a WHERE-region terminator, `WHERE` itself, or a join word.
pub open spec fn alias_blocker_at(s: Seq<u8>, i: int, hi: int) -> bool {
    ||| terminator_at(s, i, hi)
    ||| word_at(s, i, hi, kw_where())
    ||| word_at(s, i, hi, seq![0x6au8, 0x6fu8, 0x69u8, 0x6eu8])  // join
    ||| word_at(s, i, hi, seq![0x69u8, 0x6eu8, 0x6eu8, 0x65u8, 0x72u8])  // inner
    ||| word_at(s, i, hi, seq![0x6cu8, 0x65u8, 0x66u8, 0x74u8])  // left
    ||| word_at(s, i, hi, seq![0x72u8, 0x69u8, 0x67u8, 0x68u8, 0x74u8])  // right
    ||| word_at(s, i, hi, seq![0x66u8, 0x75u8, 0x6cu8, 0x6cu8])  // full
    ||| word_at(s, i, hi, seq![0x63u8, 0x72u8, 0x6fu8, 0x73u8, 0x73u8])  // cross
    ||| word_at(s, i, hi, seq![0x6eu8, 0x61u8, 0x74u8, 0x75u8, 0x72u8, 0x61u8, 0x6cu8])  // natural
    ||| word_at(s, i, hi, seq![0x6fu8, 0x6eu8])  // on
    ||| word_at(s, i, hi, seq![0x75u8, 0x73u8, 0x69u8, 0x6eu8, 0x67u8])  // using
}

/// The keyword classes that [`find_kw`] can search for.
#[derive(Clone, Copy)]
pub enum KwClass {
    FromKw,
    WhereKw,
    Term,
    Semi,
    SetOp,
    Comma,
    OrKw,
}

/// True when a set-operation keyword (`UNION`, `EXCEPT`, `INTERSECT`) stands
/// at `i`. A statement that combines queries this way is left untouched.
pub open spec fn set_op_at(s: Seq<u8>, i: int, hi: int) -> bool {
    ||| word_at(s, i, hi, seq![0x75u8, 0x6eu8, 0x69u8, 0x6fu8, 0x6eu8])  // union
    ||| word_at(s, i, hi, seq![0x65u8, 0x78u8, 0x63u8, 0x65u8, 0x70u8, 0x74u8])  // except
    ||| word_at(
        s,
        i,
        hi,
        seq![0x69u8, 0x6eu8, 0x74u8, 0x65u8, 0x72u8, 0x73u8, 0x65u8, 0x63u8, 0x74u8],
    )  // intersect
}

/// True when the token at `i` belongs to the class `c`. The `Term` class ends
/// the region a WHERE predicate may be spliced into: a trailing-clause
/// keyword or a comment (never inside or after one may text be inserted).
pub open spec fn class_at(s: Seq<u8>, i: int, hi: int, c: KwClass) -> bool {
    match c {
        KwClass::FromKw => word_at(s, i, hi, kw_from()),
        KwClass::WhereKw => word_at(s, i, hi, kw_where()),
        KwClass::Term => terminator_at(s, i, hi) || comment_start_at(s, i, hi),
        KwClass::Semi => 0 <= i && i < hi && i < s.len() && s[i] == 0x3b,
        KwClass::SetOp => set_op_at(s, i, hi),
        KwClass::Comma => 0 <= i && i < hi && i < s.len() && s[i] == 0x2c,
        KwClass::OrKw => word_at(s, i, hi, seq![0x6fu8, 0x72u8]),
    }
}

/// Position of the first top-level token of class `c` at or after `i`, or
/// `hi` when there is none. Quoted regions and parenthesized groups are
/// stepped over whole, so no match inside them is reported.
pub open spec fn find_kw(s: Seq<u8>, i: int, hi: int, c: KwClass) -> int
    decreases hi - i,
{
    if !(0 <= i && i < hi) {
        hi
    } else if class_at(s, i, hi, c) {
        i
    } else {
        let k = tok_step(s, i, hi);
        if k <= i || k > hi {
            hi
        } else {
            find_kw(s, k, hi, c)
        }
    }
}

pub broadcast proof fn lemma_find_kw_found(s: Seq<u8>, i: int, hi: int, c: KwClass)
    requires
        0 <= i <= hi,
    ensures
        #[trigger] find_kw(s, i, hi, c) < hi ==> class_at(s, find_kw(s, i, hi, c), hi, c),
    decreases hi - i,
{
    if 0 <= i && i < hi && !class_at(s, i, hi, c) {
        let k = tok_step(s, i, hi);
        if i < k <= hi {
            lemma_find_kw_found(s, k, hi, c);
        }
    }
}

pub broadcast proof fn lemma_find_kw_bounds(s: Seq<u8>, i: int, hi: int, c: KwClass)
    requires
        0 <= i <= hi,
    ensures
        i <= #[trigger] find_kw(s, i, hi, c) <= hi,
    decreases hi - i,
{
    if 0 <= i && i < hi && !class_at(s, i, hi, c) {
        let k = tok_step(s, i, hi);
        if i < k <= hi {
            lemma_find_kw_bounds(s, k, hi, c);
        }
    }
}

/// All bytes of `w` are lowercase ASCII letters (true of every SQL keyword
/// this module matches against).
pub open spec fn kw_letters(w: Seq<u8>) -> bool {
    forall|k: int| 0 <= k < w.len() ==> 0x61 <= #[trigger] w[k] <= 0x7a
}

proof fn lemma_run_end_skip(s: Seq<u8>, i: int, j: int, hi: int)
    requires
        0 <= i <= j <= hi <= s.len(),
        forall|k: int| i <= k < j ==> is_ident_byte(#[trigger] s[k]),
    ensures
        run_end(s, i, hi) == run_end(s, j, hi),
    decreases j - i,
{
    if i < j {
        lemma_run_end_skip(s, i + 1, j, hi);
    }
}

pub fn is_ws_x(b: u8) -> (r: bool)
    ensures
        r == is_ws(b),
{
    b == 0x20 || b == 0x09 || b == 0x0a || b == 0x0d
}

pub fn is_ident_x(b: u8) -> (r: bool)
    ensures
        r == is_ident_byte(b),
{
    (0x30 <= b && b <= 0x39) || (0x41 <= b && b <= 0x5a) || (0x61 <= b && b <= 0x7a) || b == 0x5f
        || b == 0x24 || b >= 0x80
}

pub fn lower_x(b: u8) -> (r: u8)
    ensures
        r == lower(b),
{
    if 0x41 <= b && b <= 0x5a {
        b + 0x20
    } else {
        b
    }
}

pub fn skip_ws_x(s: &Vec<u8>, i: usize, hi: usize) -> (r: usize)
    requires
        i <= hi <= s@.len(),
    ensures
        r as int == skip_ws(s@, i as int, hi as int),
        i <= r <= hi,
    decreases hi - i,
{
    if i < hi && is_ws_x(s[i]) {
        skip_ws_x(s, i + 1, hi)
    } else {
        i
    }
}

pub fn trim_end_x(s: &Vec<u8>, lo: usize, j: usize) -> (r: usize)
    requires
        lo <= j <= s@.len(),
    ensures
        r as int == trim_end(s@, lo as int, j as int),
        lo <= r <= j,
    decreases j - lo,
{
    if lo < j && is_ws_x(s[j - 1]) {
        trim_end_x(s, lo, j - 1)
    } else {
        j
    }
}

pub fn run_end_x(s: &Vec<u8>, i: usize, hi: usize) -> (r: usize)
    requires
        i <= hi <= s@.len(),
    ensures
        r as int == run_end(s@, i as int, hi as int),
        i <= r <= hi,
    decreases hi - i,
{
    if i < hi && is_ident_x(s[i]) {
        run_end_x(s, i + 1, hi)
    } else {
        i
    }
}

pub fn quote_scan_x(s: &Vec<u8>, j: usize, hi: usize, q: u8) -> (r: usize)
    requires
        j <= hi <= s@.len(),
    ensures
        r as int == quote_scan(s@, j as int, hi as int, q),
        j <= r <= hi,
    decreases hi - j,
{
    if !(j < hi) {
        hi
    } else if s[j] == q {
        if j + 1 < hi && s[j + 1] == q {
            quote_scan_x(s, j + 2, hi, q)
        } else {
            j + 1
        }
    } else {
        quote_scan_x(s, j + 1, hi, q)
    }
}

pub fn line_end_x(s: &Vec<u8>, j: usize, hi: usize) -> (r: usize)
    requires
        j <= hi <= s@.len(),
    ensures
        r as int == line_end(s@, j as int, hi as int),
        j <= r <= hi,
    decreases hi - j,
{
    if !(j < hi) {
        hi
    } else if s[j] == 0x0a {
        j + 1
    } else {
        line_end_x(s, j + 1, hi)
    }
}

pub fn block_end_x(s: &Vec<u8>, j: usize, hi: usize) -> (r: usize)
    requires
        j <= hi <= s@.len(),
    ensures
        r as int == block_end(s@, j as int, hi as int),
        j <= r <= hi,
    decreases hi - j,
{
    if hi - j < 2 {
        hi
    } else if s[j] == 0x2a && s[j + 1] == 0x2f {
        j + 2
    } else {
        block_end_x(s, j + 1, hi)
    }
}

/// Whether a SQL comment starts at `i`.
pub fn comment_start_x(s: &Vec<u8>, i: usize, hi: usize) -> (r: bool)
    requires
        i <= hi <= s@.len(),
    ensures
        r == comment_start_at(s@, i as int, hi as int),
{
    hi - i >= 2 && ((s[i] == 0x2d && s[i + 1] == 0x2d) || (s[i] == 0x2f && s[i + 1] == 0x2a))
}

pub fn tok_step_x(s: &Vec<u8>, i: usize, hi: usize) -> (r: usize)
    requires
        i <= hi <= s@.len(),
    ensures
        r as int == tok_step(s@, i as int, hi as int),
        i <= r <= hi,
        i < hi ==> i < r,
    decreases hi - i, 0int,
{
    proof {
        lemma_tok_step_bounds(s@, i as int, hi as int);
    }
    if !(i < hi) {
        hi
    } else if s[i] == 0x27 || s[i] == 0x22 || s[i] == 0x60 {
        quote_scan_x(s, i + 1, hi, s[i])
    } else if s[i] == 0x28 {
        paren_scan_x(s, i + 1, hi)
    } else if comment_start_x(s, i, hi) && s[i] == 0x2d {
        line_end_x(s, i + 2, hi)
    } else if comment_start_x(s, i, hi) && s[i] == 0x2f {
        block_end_x(s, i + 2, hi)
    } else if is_ident_x(s[i]) {
        run_end_x(s, i + 1, hi)
    } else {
        i + 1
    }
}

pub fn paren_scan_x(s: &Vec<u8>, j: usize, hi: usize) -> (r: usize)
    requires
        j <= hi <= s@.len(),
    ensures
        r as int == paren_scan(s@, j as int, hi as int),
        j <= r <= hi,
        j < hi ==> j < r,
    decreases hi - j, 1int,
{
    proof {
        lemma_paren_scan_bounds(s@, j as int, hi as int);
    }
    if !(j < hi) {
        hi
    } else if s[j] == 0x29 {
        j + 1
    } else {
        let k = tok_step_x(s, j, hi);
        if k <= j {
            hi
        } else {
            paren_scan_x(s, k, hi)
        }
    }
}

/// Whether the bare word starting at `i` is exactly the lowered word `w`
/// (case-insensitively, with a word boundary after it).
pub fn word_at_x(s: &Vec<u8>, i: usize, hi: usize, w: &Vec<u8>) -> (r: bool)
    requires
        i <= hi <= s@.len(),
        kw_letters(w@),
    ensures
        r == word_at(s@, i as int, hi as int, w@),
{
    let n = w.len();
    if hi - i < n {
        return false;
    }
    let mut k: usize = 0;
    while k < n
        invariant
            i <= hi <= s@.len(),
            n == w@.len(),
            n <= hi - i,
            k <= n,
            kw_letters(w@),
            forall|t: int| 0 <= t < k ==> lower(s@[i + t]) == w@[t],
        decreases n - k,
    {
        if lower_x(s[i + k]) != w[k] {
            proof {
                if word_at(s@, i as int, hi as int, w@) {
                    let ki = k as int;
                    assert(lower_seq(s@.subrange(i as int, i + n as int))[ki] == w@[ki]);
                    assert(lower(s@[i + k]) == w@[k as int]);
                }
            }
            return false;
        }
        k += 1;
    }
    proof {
        assert(forall|t: int|
            i <= t < i + n ==> is_ident_byte(#[trigger] s@[t])) by {
            assert(forall|t: int| i <= t < i + n ==> lower(#[trigger] s@[t]) == w@[t - i]);
        }
        lemma_run_end_skip(s@, i as int, i + n as int, hi as int);
    }
    if i + n < hi && is_ident_x(s[i + n]) {
        proof {
            lemma_run_end_bounds(s@, i + n + 1, hi as int);
            assert(run_end(s@, i + n as int, hi as int) == run_end(s@, i + n + 1, hi as int));
        }
        return false;
    }
    proof {
        assert(run_end(s@, i + n as int, hi as int) == i + n);
        assert(lower_seq(s@.subrange(i as int, i + n as int)) =~= w@);
    }
    true
}

fn kw_from_x() -> (r: Vec<u8>)
    ensures
        r@ == kw_from(),
        kw_letters(r@),
{
    let v: Vec<u8> = vec![0x66u8, 0x72u8, 0x6fu8, 0x6du8];
    proof {
        assert(v@ =~= kw_from());
    }
    v
}

fn kw_where_x() -> (r: Vec<u8>)
    ensures
        r@ == kw_where(),
        kw_letters(r@),
{
    let v: Vec<u8> = vec![0x77u8, 0x68u8, 0x65u8, 0x72u8, 0x65u8];
    proof {
        assert(v@ =~= kw_where());
    }
    v
}

/// Whether the token at `i` is a top-level terminator keyword.
fn terminator_at_x(s: &Vec<u8>, i: usize, hi: usize) -> (r: bool)
    requires
        i <= hi <= s@.len(),
    ensures
        r == terminator_at(s@, i as int, hi as int),
{
    let kws: Vec<Vec<u8>> = vec![
        vec![0x67u8, 0x72u8, 0x6fu8, 0x75u8, 0x70u8],
        vec![0x6fu8, 0x72u8, 0x64u8, 0x65u8, 0x72u8],
        vec![0x68u8, 0x61u8, 0x76u8, 0x69u8, 0x6eu8, 0x67u8],
        vec![0x6cu8, 0x69u8, 0x6du8, 0x69u8, 0x74u8],
        vec![0x6fu8, 0x66u8, 0x66u8, 0x73u8, 0x65u8, 0x74u8],
        vec![0x66u8, 0x65u8, 0x74u8, 0x63u8, 0x68u8],
        vec![0x75u8, 0x6eu8, 0x69u8, 0x6fu8, 0x6eu8],
        vec![0x65u8, 0x78u8, 0x63u8, 0x65u8, 0x70u8, 0x74u8],
        vec![0x69u8, 0x6eu8, 0x74u8, 0x65u8, 0x72u8, 0x73u8, 0x65u8, 0x63u8, 0x74u8],
        vec![0x77u8, 0x69u8, 0x6eu8, 0x64u8, 0x6fu8, 0x77u8],
        vec![0x66u8, 0x6fu8, 0x72u8],
    ];
    let mut any = false;
    let mut k: usize = 0;
    while k < kws.len()
        invariant
            i <= hi <= s@.len(),
            kws@.len() == 11,
            forall|t: int| 0 <= t < kws@.len() ==> kw_letters(#[trigger] kws@[t]@),
            any == exists|t: int|
                0 <= t < k && word_at(s@, i as int, hi as int, #[trigger] kws@[t]@),
            k <= kws@.len(),
        decreases kws@.len() - k,
    {
        if word_at_x(s, i, hi, &kws[k]) {
            any = true;
        }
        k += 1;
    }
    proof {
        if any {
            assert(terminator_at(s@, i as int, hi as int));
        } else {
            assert(forall|t: int|
                0 <= t < 11 ==> !word_at(s@, i as int, hi as int, #[trigger] kws@[t]@));
        }
    }
    any
}

/// Whether a set-operation keyword stands at `i`.
fn set_op_at_x(s: &Vec<u8>, i: usize, hi: usize) -> (r: bool)
    requires
        i <= hi <= s@.len(),
    ensures
        r == set_op_at(s@, i as int, hi as int),
{
    let union_v: Vec<u8> = vec![0x75u8, 0x6eu8, 0x69u8, 0x6fu8, 0x6eu8];
    let except_v: Vec<u8> = vec![0x65u8, 0x78u8, 0x63u8, 0x65u8, 0x70u8, 0x74u8];
    let intersect_v: Vec<u8> = vec![
        0x69u8,
        0x6eu8,
        0x74u8,
        0x65u8,
        0x72u8,
        0x73u8,
        0x65u8,
        0x63u8,
        0x74u8,
    ];
    proof {
        assert(kw_letters(union_v@));
        assert(kw_letters(except_v@));
        assert(kw_letters(intersect_v@));
    }
    word_at_x(s, i, hi, &union_v) || word_at_x(s, i, hi, &except_v) || word_at_x(
        s,
        i,
        hi,
        &intersect_v,
    )
}

/// Whether the token at `i` belongs to the keyword class `c`.
pub fn class_at_x(s: &Vec<u8>, i: usize, hi: usize, c: KwClass) -> (r: bool)
    requires
        i <= hi <= s@.len(),
    ensures
        r == class_at(s@, i as int, hi as int, c),
{
    match c {
        KwClass::FromKw => {
            let w = kw_from_x();
            word_at_x(s, i, hi, &w)
        },
        KwClass::WhereKw => {
            let w = kw_where_x();
            word_at_x(s, i, hi, &w)
        },
        KwClass::Term => terminator_at_x(s, i, hi) || comment_start_x(s, i, hi),
        KwClass::Semi => i < hi && s[i] == 0x3b,
        KwClass::SetOp => set_op_at_x(s, i, hi),
        KwClass::Comma => i < hi && s[i] == 0x2c,
        KwClass::OrKw => {
            let w: Vec<u8> = vec![0x6fu8, 0x72u8];
            proof {
                assert(kw_letters(w@));
            }
            word_at_x(s, i, hi, &w)
        },
    }
}

/// Position of the first top-level token of class `c` at or after `i`.
pub fn find_kw_x(s: &Vec<u8>, i: usize, hi: usize, c: KwClass) -> (r: usize)
    requires
        i <= hi <= s@.len(),
    ensures
        r as int == find_kw(s@, i as int, hi as int, c),
        i <= r <= hi,
    decreases hi - i,
{
    if !(i < hi) {
        hi
    } else if class_at_x(s, i, hi, c) {
        i
    } else {
        let k = tok_step_x(s, i, hi);
        if k <= i {
            hi
        } else {
            find_kw_x(s, k, hi, c)
        }
    }
}

/// Whether the token at `i` is a reserved word that cannot be a table alias.
pub fn alias_blocker_at_x(s: &Vec<u8>, i: usize, hi: usize) -> (r: bool)
    requires
        i <= hi <= s@.len(),
    ensures
        r == alias_blocker_at(s@, i as int, hi as int),
{
    if terminator_at_x(s, i, hi) {
        return true;
    }
    let kws: Vec<Vec<u8>> = vec![
        vec![0x77u8, 0x68u8, 0x65u8, 0x72u8, 0x65u8],
        vec![0x6au8, 0x6fu8, 0x69u8, 0x6eu8],
        vec![0x69u8, 0x6eu8, 0x6eu8, 0x65u8, 0x72u8],
        vec![0x6cu8, 0x65u8, 0x66u8, 0x74u8],
        vec![0x72u8, 0x69u8, 0x67u8, 0x68u8, 0x74u8],
        vec![0x66u8, 0x75u8, 0x6cu8, 0x6cu8],
        vec![0x63u8, 0x72u8, 0x6fu8, 0x73u8, 0x73u8],
        vec![0x6eu8, 0x61u8, 0x74u8, 0x75u8, 0x72u8, 0x61u8, 0x6cu8],
        vec![0x6fu8, 0x6eu8],
        vec![0x75u8, 0x73u8, 0x69u8, 0x6eu8, 0x67u8],
    ];
    let mut any = false;
    let mut k: usize = 0;
    while k < kws.len()
        invariant
            i <= hi <= s@.len(),
            kws@.len() == 10,
            forall|t: int| 0 <= t < kws@.len() ==> kw_letters(#[trigger] kws@[t]@),
            any == exists|t: int|
                0 <= t < k && word_at(s@, i as int, hi as int, #[trigger] kws@[t]@),
            k <= kws@.len(),
        decreases kws@.len() - k,
    {
        if word_at_x(s, i, hi, &kws[k]) {
            any = true;
        }
        k += 1;
    }
    proof {
        assert(kws@[0]@ == kw_where());
        if any {
            assert(alias_blocker_at(s@, i as int, hi as int));
        } else {
            assert(forall|t: int|
                0 <= t < 10 ==> !word_at(s@, i as int, hi as int, #[trigger] kws@[t]@));
            assert(!word_at(s@, i as int, hi as int, kw_where()));
        }
    }
    any
}

} // verus!
