//! The rewrite rule engine.
//!
//! Given the bytes of one SQL statement, the engine locates the driving table
//! of the top-level SELECT, resolves its alias, and splices additional
//! predicates (soft-delete exclusion, tenant scoping) into the correct WHERE
//! clause — descending into the derived subquery of a `COUNT(*)` wrapper so
//! that the predicates constrain rows before aggregation. Everything is
//! expressed over the original byte sequence: the rewritten statement is the
//! original text with one insertion, so no other part of the statement can be
//! disturbed.

use vstd::prelude::*;
use vstd::utf8::{
    valid_utf8, valid_first_scalar, length_of_first_scalar, pop_first_scalar, is_char_boundary,
    valid_utf8_split, valid_utf8_concat, is_continuation_byte, encode_utf8, decode_utf8,
};
use vstd::string::StrSliceExecFns;
use crate::utf8_splice::{lemma_ascii_valid, lemma_after_ascii_not_cont, lemma_cut, lemma_mid_valid};
use crate::scan::{
    is_ident_byte, is_ws, lower, lower_seq, skip_ws, trim_end, run_end, quote_scan, paren_scan, word_at,
    kw_select, kw_as, kw_count, kw_from, kw_where, find_kw, alias_blocker_at, KwClass,
    lemma_skip_ws_bounds, lemma_trim_end_bounds, lemma_run_end_bounds, lemma_quote_scan_bounds,
    lemma_tok_step_bounds, lemma_paren_scan_bounds, lemma_find_kw_bounds, lemma_find_kw_found,
    skip_ws_x, trim_end_x, run_end_x, quote_scan_x, paren_scan_x, find_kw_x, word_at_x,
    alias_blocker_at_x, is_ident_x, lower_x,
};

verus! {

broadcast use {
    lemma_skip_ws_bounds,
    lemma_trim_end_bounds,
    lemma_run_end_bounds,
    lemma_quote_scan_bounds,
    lemma_tok_step_bounds,
    lemma_paren_scan_bounds,
    lemma_find_kw_bounds,
    lemma_find_kw_found,
};

// ---------------------------------------------------------------------------
// Predicate text
// ---------------------------------------------------------------------------
/// The column constrained by soft-delete filtering: `delete_flag`.
pub open spec fn delete_flag_bytes() -> Seq<u8> {
    seq![0x64u8, 0x65u8, 0x6cu8, 0x65u8, 0x74u8, 0x65u8, 0x5fu8, 0x66u8, 0x6cu8, 0x61u8, 0x67u8]
}

/// The text ` = 0`.
pub open spec fn eq_zero_bytes() -> Seq<u8> {
    seq![0x20u8, 0x3du8, 0x20u8, 0x30u8]
}

/// The column constrained by tenant filtering: `tenant_id`.
pub open spec fn tenant_col_bytes() -> Seq<u8> {
    seq![0x74u8, 0x65u8, 0x6eu8, 0x61u8, 0x6eu8, 0x74u8, 0x5fu8, 0x69u8, 0x64u8]
}

/// The text ` = '`.
pub open spec fn eq_quote_bytes() -> Seq<u8> {
    seq![0x20u8, 0x3du8, 0x20u8, 0x27u8]
}

/// The text ` AND `.
pub open spec fn and_sep_bytes() -> Seq<u8> {
    seq![0x20u8, 0x41u8, 0x4eu8, 0x44u8, 0x20u8]
}

/// The text ` WHERE `.
pub open spec fn where_sep_bytes() -> Seq<u8> {
    seq![0x20u8, 0x57u8, 0x48u8, 0x45u8, 0x52u8, 0x45u8, 0x20u8]
}

/// A tenant identifier written as a SQL single-quoted string literal: every
/// embedded quote is doubled, so the value can never terminate the literal
/// early (the injection-safety rule).
pub open spec fn esc_squote(t: Seq<u8>) -> Seq<u8>
    decreases t.len(),
{
    if t.len() == 0 {
        Seq::empty()
    } else if t[0] == 0x27 {
        seq![0x27u8, 0x27u8] + esc_squote(t.drop_first())
    } else {
        seq![t[0]] + esc_squote(t.drop_first())
    }
}

/// A column reference, qualified by `alias.` when the driving table has an
/// alias, bare otherwise.
pub open spec fn qualify(alias: Option<Seq<u8>>, col: Seq<u8>) -> Seq<u8> {
    match alias {
        Some(a) => a + seq![0x2eu8] + col,
        None => col,
    }
}

/// The soft-delete predicate: `<qualifier>delete_flag = 0`.
pub open spec fn soft_pred(alias: Option<Seq<u8>>) -> Seq<u8> {
    qualify(alias, delete_flag_bytes()) + eq_zero_bytes()
}

/// The tenant predicate: `<qualifier>tenant_id = '<tenant>'` with the tenant
/// value quoted as a SQL string literal.
pub open spec fn tenant_pred(alias: Option<Seq<u8>>, tid: Seq<u8>) -> Seq<u8> {
    qualify(alias, tenant_col_bytes()) + eq_quote_bytes() + esc_squote(tid) + seq![0x27u8]
}

/// The complete predicate block to inject. With both predicates present they
/// are combined with `AND` and parenthesized as one group, so the block
/// associates as a unit whatever the surrounding WHERE clause holds; with one
/// predicate the block is that predicate; with none it is empty.
pub open spec fn pred_group(soft: bool, tid: Option<Seq<u8>>, alias: Option<Seq<u8>>) -> Seq<u8> {
    if soft && tid is Some {
        seq![0x28u8] + soft_pred(alias) + and_sep_bytes() + tenant_pred(alias, tid->0) + seq![
            0x29u8,
        ]
    } else if soft {
        soft_pred(alias)
    } else if tid is Some {
        tenant_pred(alias, tid->0)
    } else {
        Seq::empty()
    }
}

/// The tenant value that actually takes part in rewriting: present only when
/// tenant filtering is enabled and the context carries a non-empty tenant id.
pub open spec fn effective_tenant(tf: bool, tid_raw: Option<Seq<u8>>) -> Option<Seq<u8>> {
    if tf {
        match tid_raw {
            Some(t) => if t.len() > 0 {
                Some(t)
            } else {
                None
            },
            None => None,
        }
    } else {
        None
    }
}

// ---------------------------------------------------------------------------
// Relation parsing: table chain, table name, alias
// ---------------------------------------------------------------------------
/// End of the identifier segment starting at `p`: a bare identifier run or a
/// double-quoted or backtick-quoted identifier. `p` itself when no segment
/// starts there (including an unterminated quoted identifier).
pub open spec fn seg_end(s: Seq<u8>, p: int, hi: int) -> int {
    if !(0 <= p && p < hi && p < s.len()) {
        p
    } else if s[p] == 0x22 || s[p] == 0x60 {
        let e = quote_scan(s, p + 1, hi, s[p]);
        if e >= p + 2 && e <= hi && e - 1 < s.len() && s[e - 1] == s[p] {
            e
        } else {
            p
        }
    } else if is_ident_byte(s[p]) {
        run_end(s, p, hi)
    } else {
        p
    }
}

/// The span of the last segment of the dotted identifier chain starting at
/// `p` (for `sch.t` the span of `t`), or nothing when no well-formed chain
/// starts there.
pub open spec fn chain_last(s: Seq<u8>, p: int, hi: int) -> Option<(int, int)>
    decreases hi - p,
{
    let e = seg_end(s, p, hi);
    if !(0 <= p && p < e && e <= hi) {
        None
    } else if e < hi && e < s.len() && s[e] == 0x2e {
        chain_last(s, e + 1, hi)
    } else {
        Some((p, e))
    }
}

/// The driving table's name resolved from the relation text at `p`: the last
/// segment of its identifier chain, quote characters stripped, exactly as it
/// stands in the statement (case folding happens at the skip-list lookup).
/// Nothing when the relation is not a plain table reference.
pub open spec fn rel_table_name(s: Seq<u8>, p: int, hi: int) -> Option<Seq<u8>> {
    match chain_last(s, p, hi) {
        None => None,
        Some((a, b)) => {
            if 0 <= a && a < s.len() && (s[a] == 0x22 || s[a] == 0x60) {
                let t = s.subrange(a + 1, b - 1);
                if t.len() == 0 {
                    None
                } else {
                    Some(t)
                }
            } else if alias_blocker_at(s, a, hi) {
                // a bare reserved word cannot be a table name: the statement
                // is malformed there, so nothing is resolved
                None
            } else {
                Some(s.subrange(a, b))
            }
        },
    }
}

/// End of the identifier-like token at `a` (bare or quoted), or `a` when no
/// such token starts there.
pub open spec fn token_end(s: Seq<u8>, a: int, hi: int) -> int {
    if !(0 <= a && a < hi && a < s.len()) {
        a
    } else if s[a] == 0x22 || s[a] == 0x60 {
        let e = quote_scan(s, a + 1, hi, s[a]);
        if e >= a + 2 && e <= hi && e - 1 < s.len() && s[e - 1] == s[a] {
            e
        } else {
            a
        }
    } else if is_ident_byte(s[a]) {
        run_end(s, a, hi)
    } else {
        a
    }
}

/// The alias text following the identifier chain that ends at `q`, written
/// exactly as it stands in the statement (quotes kept). An explicit `AS` may
/// precede it; a bare word serves as alias only when it is not a reserved
/// word. Nothing when the relation carries no alias.
pub open spec fn alias_after(s: Seq<u8>, q: int, hi: int) -> Option<Seq<u8>> {
    let a = skip_ws(s, q, hi);
    if !(0 <= a && a < hi && a < s.len()) {
        None
    } else if word_at(s, a, hi, kw_as()) {
        let a2 = skip_ws(s, a + 2, hi);
        let e = token_end(s, a2, hi);
        if e > a2 {
            Some(s.subrange(a2, e))
        } else {
            None
        }
    } else if alias_blocker_at(s, a, hi) {
        None
    } else {
        let e = token_end(s, a, hi);
        if e > a {
            Some(s.subrange(a, e))
        } else {
            None
        }
    }
}

/// The alias of the first FROM relation of a SELECT whose `FROM` keyword
/// stands at `fpos`. Only a plain table reference can contribute an alias;
/// a derived subquery or an absent FROM clause contributes none.
pub open spec fn select_alias(s: Seq<u8>, fpos: int, hi: int) -> Option<Seq<u8>> {
    if fpos >= hi {
        None
    } else {
        let r = skip_ws(s, fpos + 4, hi);
        if !(0 <= r && r < hi && r < s.len()) {
            None
        } else if s[r] == 0x28 {
            None
        } else {
            match chain_last(s, r, hi) {
                None => None,
                Some((a, b)) => alias_after(s, b, hi),
            }
        }
    }
}

// ---------------------------------------------------------------------------
// The aggregate-count idiom
// ---------------------------------------------------------------------------
/// True when the trailing part of the projection region `[rest, pend)` is
/// empty or one alias (`AS <name>` or a bare name) followed by nothing.
pub open spec fn alias_then_end(s: Seq<u8>, rest: int, pend: int) -> bool {
    if rest >= pend {
        true
    } else if word_at(s, rest, pend, kw_as()) {
        let a2 = skip_ws(s, rest + 2, pend);
        let e = token_end(s, a2, pend);
        e > a2 && skip_ws(s, e, pend) >= pend
    } else {
        let e = token_end(s, rest, pend);
        e > rest && skip_ws(s, e, pend) >= pend
    }
}

/// True when the projection region `[p0, pend)` is exactly the aggregate
/// idiom `COUNT(*)` (case-insensitive, whitespace allowed), optionally
/// aliased, and nothing else.
pub open spec fn count_idiom(s: Seq<u8>, p0: int, pend: int) -> bool {
    let c = skip_ws(s, p0, pend);
    &&& word_at(s, c, pend, kw_count())
    &&& {
        let o = skip_ws(s, c + 5, pend);
        &&& o < pend && 0 <= o && o < s.len() && s[o] == 0x28
        &&& {
            let st = skip_ws(s, o + 1, pend);
            &&& st < pend && st < s.len() && s[st] == 0x2a
            &&& {
                let cl = skip_ws(s, st + 1, pend);
                &&& cl < pend && cl < s.len() && s[cl] == 0x29
                &&& alias_then_end(s, skip_ws(s, cl + 1, pend), pend)
            }
        }
    }
}

// ---------------------------------------------------------------------------
// Table extraction
// ---------------------------------------------------------------------------
/// The driving table name of the query in `[lo, hi)`: the name of the first
/// FROM relation of its SELECT, resolved through parenthesized query bodies
/// and derived subqueries. Nothing when no table is resolvable; rewriting is
/// then skipped altogether.
pub open spec fn extract_table(s: Seq<u8>, lo: int, hi: int) -> Option<Seq<u8>>
    decreases hi - lo,
{
    if !(0 <= lo <= hi <= s.len()) {
        None
    } else {
        let i = skip_ws(s, lo, hi);
        if i < hi && s[i] == 0x28 {
            let pe = paren_scan(s, i + 1, hi);
            if pe >= i + 2 && pe <= hi && s[pe - 1] == 0x29 && skip_ws(s, pe, hi) >= hi {
                extract_table(s, i + 1, pe - 1)
            } else {
                None
            }
        } else if word_at(s, i, hi, kw_select()) {
            let qhi = find_kw(s, i + 6, hi, KwClass::Semi);
            if find_kw(s, i + 6, qhi, KwClass::SetOp) < qhi {
                // a set-operation query is left untouched altogether
                None
            } else {
                let fpos = find_kw(s, i + 6, qhi, KwClass::FromKw);
                if fpos >= qhi {
                    None
                } else {
                    let r = skip_ws(s, fpos + 4, qhi);
                    if r < qhi && s[r] == 0x28 {
                        let pe = paren_scan(s, r + 1, qhi);
                        if pe >= r + 2 && pe <= qhi && s[pe - 1] == 0x29 {
                            extract_table(s, r + 1, pe - 1)
                        } else {
                            None
                        }
                    } else {
                        rel_table_name(s, r, qhi)
                    }
                }
            }
        } else {
            None
        }
    }
}

// ---------------------------------------------------------------------------
// Predicate injection
// ---------------------------------------------------------------------------
/// The rewritten text of the query spanning `[lo, hi)`. The result is the
/// span's own text unless a predicate block is spliced in.
pub open spec fn inject_query(s: Seq<u8>, lo: int, hi: int, soft: bool, tid: Option<Seq<u8>>) -> Seq<
    u8,
>
    decreases hi - lo, 1int,
{
    if !(0 <= lo <= hi <= s.len()) {
        Seq::empty()
    } else {
        let i = skip_ws(s, lo, hi);
        if i < hi && s[i] == 0x28 {
            let pe = paren_scan(s, i + 1, hi);
            if pe >= i + 2 && pe <= hi && s[pe - 1] == 0x29 && skip_ws(s, pe, hi) >= hi {
                s.subrange(lo, i + 1) + inject_query(s, i + 1, pe - 1, soft, tid) + s.subrange(
                    pe - 1,
                    hi,
                )
            } else {
                s.subrange(lo, hi)
            }
        } else if word_at(s, i, hi, kw_select()) {
            inject_select(s, lo, hi, i + 6, soft, tid)
        } else {
            s.subrange(lo, hi)
        }
    }
}

/// The rewritten text of the comma-separated FROM-list region `[pos, fend)`
/// of a `COUNT(*)` wrapper: every relation that is a derived subquery has the
/// predicates handed on to it; plain relations stand unchanged.
pub open spec fn inject_from_list(s: Seq<u8>, pos: int, fend: int, soft: bool, tid: Option<
    Seq<u8>,
>) -> Seq<u8>
    decreases fend - pos, 2int,
{
    if !(0 <= pos <= fend <= s.len()) {
        Seq::empty()
    } else {
        let r = skip_ws(s, pos, fend);
        let c = find_kw(s, r, fend, KwClass::Comma);
        let item = if r < fend && s[r] == 0x28 {
            let pe = paren_scan(s, r + 1, fend);
            if pe >= r + 2 && pe <= c && s[pe - 1] == 0x29 {
                s.subrange(pos, r + 1) + inject_query(s, r + 1, pe - 1, soft, tid) + s.subrange(
                    pe - 1,
                    c,
                )
            } else {
                s.subrange(pos, c)
            }
        } else {
            s.subrange(pos, c)
        };
        if pos <= c && c < fend {
            item + s.subrange(c, c + 1) + inject_from_list(s, c + 1, fend, soft, tid)
        } else {
            item
        }
    }
}

/// The rewritten text of the SELECT spanning `[lo, hi)` whose projection
/// starts at `p0`. The select's own region ends at the first top-level `;`;
/// a set-operation query passes through untouched. A `COUNT(*)` wrapper
/// hands the predicates on to every derived subquery in its FROM list, so
/// that they constrain rows before aggregation; an ordinary SELECT receives
/// them in its own WHERE clause, ANDed with the entire existing condition —
/// which is parenthesized first when it holds a top-level OR, so the block
/// conjoins with the whole condition and never rebinds its last disjunct —
/// or as a fresh WHERE clause when it has none; always before any trailing
/// clause, comment or `;`.
pub open spec fn inject_select(s: Seq<u8>, lo: int, hi: int, p0: int, soft: bool, tid: Option<
    Seq<u8>,
>) -> Seq<u8>
    decreases hi - lo, 0int,
{
    if !(0 <= lo <= p0 <= hi <= s.len()) {
        Seq::empty()
    } else {
        let qhi = find_kw(s, p0, hi, KwClass::Semi);
        if find_kw(s, p0, qhi, KwClass::SetOp) < qhi {
            s.subrange(lo, hi)
        } else {
            let fpos = find_kw(s, p0, qhi, KwClass::FromKw);
            if count_idiom(s, p0, fpos) {
                if fpos < qhi {
                    let r = skip_ws(s, fpos + 4, qhi);
                    let w = find_kw(s, r, qhi, KwClass::WhereKw);
                    let e = find_kw(s, r, qhi, KwClass::Term);
                    let flend = if w <= e {
                        w
                    } else {
                        e
                    };
                    if r <= flend {
                        s.subrange(lo, r) + inject_from_list(s, r, flend, soft, tid) + s.subrange(
                            flend,
                            hi,
                        )
                    } else {
                        s.subrange(lo, hi)
                    }
                } else {
                    s.subrange(lo, hi)
                }
            } else {
                let g = pred_group(soft, tid, select_alias(s, fpos, qhi));
                if g.len() == 0 {
                    s.subrange(lo, hi)
                } else {
                    let wpos = find_kw(s, p0, qhi, KwClass::WhereKw);
                    if wpos < qhi {
                        let cend = find_kw(s, wpos + 5, qhi, KwClass::Term);
                        let cstart = skip_ws(s, wpos + 5, cend);
                        let ce = trim_end(s, cstart, cend);
                        if ce <= cstart {
                            s.subrange(lo, hi)
                        } else if find_kw(s, cstart, ce, KwClass::OrKw) < ce {
                            // the existing condition holds a top-level OR:
                            // parenthesize it, so the group conjoins with the
                            // entire condition, not with its last disjunct
                            s.subrange(lo, cstart) + seq![0x28u8] + s.subrange(cstart, ce) + seq![
                                0x29u8,
                            ] + and_sep_bytes() + g + s.subrange(ce, hi)
                        } else {
                            s.subrange(lo, ce) + and_sep_bytes() + g + s.subrange(ce, hi)
                        }
                    } else {
                        let base = if fpos < qhi {
                            fpos + 4
                        } else {
                            p0
                        };
                        let tpos = find_kw(s, base, qhi, KwClass::Term);
                        let ip = trim_end(s, base, tpos);
                        s.subrange(lo, ip) + where_sep_bytes() + g + s.subrange(ip, hi)
                    }
                }
            }
        }
    }
}

// ---------------------------------------------------------------------------
// Top level
// ---------------------------------------------------------------------------
/// True when the statement's leading keyword is `SELECT`: after leading
/// whitespace the first six bytes spell it case-insensitively. Only such
/// statements are candidates for rewriting; everything else passes through
/// without even being parsed.
pub open spec fn select_prefix(s: Seq<u8>) -> bool {
    let i = skip_ws(s, 0, s.len() as int);
    &&& i + 6 <= s.len()
    &&& lower(s[i]) == 0x73
    &&& lower(s[i + 1]) == 0x65
    &&& lower(s[i + 2]) == 0x6c
    &&& lower(s[i + 3]) == 0x65
    &&& lower(s[i + 4]) == 0x63
    &&& lower(s[i + 5]) == 0x74
}

/// The lowercase folding of a table name's bytes, under which skip-list
/// membership is decided: the folding that `str::to_lowercase` performs on
/// the decoded text ([`lower_of`]), re-encoded. Bytes that do not decode as
/// UTF-8 stand for themselves.
pub open spec fn folded_name(b: Seq<u8>) -> Seq<u8> {
    if valid_utf8(b) {
        encode_utf8(lower_of(decode_utf8(b)))
    } else {
        b
    }
}

/// What rewriting one statement yields. `None` stands for "unchanged": the
/// statement is not a SELECT, no driving table is resolvable (a parse
/// failure is never an error), the table's folded name is exempted by the
/// skip-list, or no predicate was injected. Otherwise the result is the
/// statement's own bytes with the predicate blocks spliced in.
pub open spec fn rewrite_spec(
    s: Seq<u8>,
    soft: bool,
    tf: bool,
    tid_raw: Option<Seq<u8>>,
    skips: Set<Seq<u8>>,
) -> Option<Seq<u8>> {
    if !select_prefix(s) {
        None
    } else {
        match extract_table(s, 0, s.len() as int) {
            None => None,
            Some(t) => {
                if skips.contains(folded_name(t)) {
                    None
                } else {
                    let out = inject_query(s, 0, s.len() as int, soft, effective_tenant(tf, tid_raw));
                    if out == s {
                        None
                    } else {
                        Some(out)
                    }
                }
            },
        }
    }
}

// ---------------------------------------------------------------------------
// Executable building blocks
// ---------------------------------------------------------------------------
/// The Unicode lowercase folding of a character sequence, as
/// `str::to_lowercase` computes it.
pub uninterp spec fn lower_of(s: Seq<char>) -> Seq<char>;

/// Relies on str::to_lowercase: the result depends on the characters alone.
#[verifier::external_body]
fn lowercase(s: &str) -> (r: String)
    ensures
        r@ == lower_of(s@),
{
    s.to_lowercase()
}

/// Relies on str::from_utf8: it returns the borrowed text if and only if the
/// bytes are valid UTF-8, and that text holds exactly those bytes.
#[verifier::external_body]
fn str_of_bytes(v: &Vec<u8>) -> (r: Option<&str>)
    ensures
        r is Some ==> encode_utf8(r->0@) == v@,
        valid_utf8(v@) <==> r is Some,
{
    core::str::from_utf8(v).ok()
}

/// A copy of a byte vector.
pub fn clone_bytes(v: &Vec<u8>) -> (r: Vec<u8>)
    ensures
        r@ == v@,
{
    let mut out: Vec<u8> = Vec::new();
    let mut k: usize = 0;
    while k < v.len()
        invariant
            k <= v@.len(),
            out@ == v@.subrange(0, k as int),
        decreases v@.len() - k,
    {
        out.push(v[k]);
        proof {
            assert(v@.subrange(0, (k + 1) as int) =~= v@.subrange(0, k as int).push(v@[k as int]));
        }
        k += 1;
    }
    proof {
        assert(v@.subrange(0, v@.len() as int) =~= v@);
    }
    out
}

/// The folded form of a name's bytes: decoded, lowercased with the Unicode
/// folding, re-encoded; or the bytes themselves when they do not decode.
pub fn fold_bytes(v: &Vec<u8>) -> (r: Vec<u8>)
    ensures
        r@ == folded_name(v@),
{
    match str_of_bytes(v) {
        Some(s) => {
            let low = lowercase(s);
            let out = low.as_str().as_bytes_vec();
            proof {
                vstd::utf8::encode_utf8_decode_utf8(s@);
            }
            out
        },
        None => clone_bytes(v),
    }
}

/// The view of an optional byte vector.
pub open spec fn opt_view(o: Option<Vec<u8>>) -> Option<Seq<u8>> {
    match o {
        Some(v) => Some(v@),
        None => None,
    }
}

/// Appends `s[a..b]` to `out`.
fn append_range(out: &mut Vec<u8>, s: &Vec<u8>, a: usize, b: usize)
    requires
        a <= b <= s@.len(),
    ensures
        final(out)@ == old(out)@ + s@.subrange(a as int, b as int),
{
    let mut k: usize = a;
    proof {
        assert(out@ =~= out@ + s@.subrange(a as int, a as int));
    }
    while k < b
        invariant
            a <= k <= b <= s@.len(),
            out@ == old(out)@ + s@.subrange(a as int, k as int),
        decreases b - k,
    {
        out.push(s[k]);
        proof {
            assert(old(out)@ + s@.subrange(a as int, (k + 1) as int) =~= (old(out)@ + s@.subrange(
                a as int,
                k as int,
            )).push(s@[k as int]));
        }
        k += 1;
    }
}

/// Appends all of `w` to `out`.
fn append_vec(out: &mut Vec<u8>, w: &Vec<u8>)
    ensures
        final(out)@ == old(out)@ + w@,
{
    proof {
        assert(w@.subrange(0, w@.len() as int) =~= w@);
    }
    append_range(out, w, 0, w.len());
}

proof fn lemma_esc_snoc(u: Seq<u8>, b: u8)
    ensures
        esc_squote(u.push(b)) == esc_squote(u) + (if b == 0x27 {
            seq![0x27u8, 0x27u8]
        } else {
            seq![b]
        }),
    decreases u.len(),
{
    let w = u.push(b);
    if u.len() == 0 {
        assert(w.len() == 1 && w[0] == b);
        assert(esc_squote(u) =~= Seq::<u8>::empty());
        assert(w.drop_first() =~= Seq::<u8>::empty());
        assert(esc_squote(Seq::<u8>::empty()) == Seq::<u8>::empty());
        assert(esc_squote(w) =~= esc_squote(u) + (if b == 0x27 {
            seq![0x27u8, 0x27u8]
        } else {
            seq![b]
        }));
    } else {
        assert(w[0] == u[0]);
        assert(w.drop_first() =~= u.drop_first().push(b));
        lemma_esc_snoc(u.drop_first(), b);
        assert(esc_squote(w) =~= esc_squote(u) + (if b == 0x27 {
            seq![0x27u8, 0x27u8]
        } else {
            seq![b]
        }));
    }
}

/// Appends the tenant value with every single quote doubled.
fn append_escaped(out: &mut Vec<u8>, t: &Vec<u8>)
    ensures
        final(out)@ == old(out)@ + esc_squote(t@),
{
    let mut k: usize = 0;
    proof {
        assert(t@.subrange(0, 0) =~= Seq::<u8>::empty());
        assert(out@ =~= out@ + esc_squote(t@.subrange(0, 0)));
    }
    while k < t.len()
        invariant
            k <= t@.len(),
            out@ == old(out)@ + esc_squote(t@.subrange(0, k as int)),
        decreases t@.len() - k,
    {
        proof {
            lemma_esc_snoc(t@.subrange(0, k as int), t@[k as int]);
            assert(t@.subrange(0, (k + 1) as int) =~= t@.subrange(0, k as int).push(t@[k as int]));
        }
        if t[k] == 0x27 {
            out.push(0x27);
            out.push(0x27);
        } else {
            out.push(t[k]);
        }
        k += 1;
    }
    proof {
        assert(t@.subrange(0, t@.len() as int) =~= t@);
    }
}

/// Appends `<qualifier><col>` where the qualifier is `alias.` or nothing.
fn append_qualified(out: &mut Vec<u8>, alias: &Option<Vec<u8>>, col: &Vec<u8>)
    ensures
        final(out)@ == old(out)@ + qualify(opt_view(*alias), col@),
{
    match alias {
        Some(a) => {
            append_vec(out, a);
            out.push(0x2e);
            append_vec(out, col);
            proof {
                assert(out@ =~= old(out)@ + (a@ + seq![0x2eu8] + col@));
            }
        },
        None => {
            append_vec(out, col);
        },
    }
}

/// The view of an optional borrowed byte vector.
pub open spec fn optr_view(o: Option<&Vec<u8>>) -> Option<Seq<u8>> {
    match o {
        Some(v) => Some(v@),
        None => None,
    }
}

/// The predicate block for this SELECT, as bytes. Empty when nothing is to
/// be injected.
fn pred_group_x(soft: bool, tid: Option<&Vec<u8>>, alias: &Option<Vec<u8>>) -> (r: Vec<u8>)
    ensures
        r@ == pred_group(soft, optr_view(tid), opt_view(*alias)),
{
    let delete_flag: Vec<u8> = vec![
        0x64u8,
        0x65u8,
        0x6cu8,
        0x65u8,
        0x74u8,
        0x65u8,
        0x5fu8,
        0x66u8,
        0x6cu8,
        0x61u8,
        0x67u8,
    ];
    let tenant_col: Vec<u8> = vec![0x74u8, 0x65u8, 0x6eu8, 0x61u8, 0x6eu8, 0x74u8, 0x5fu8, 0x69u8, 0x64u8];
    proof {
        assert(delete_flag@ =~= delete_flag_bytes());
        assert(tenant_col@ =~= tenant_col_bytes());
    }
    let mut out: Vec<u8> = Vec::new();
    match tid {
        Some(t) => {
            if soft {
                out.push(0x28);
                append_qualified(&mut out, alias, &delete_flag);
                out.push(0x20);
                out.push(0x3d);
                out.push(0x20);
                out.push(0x30);
                out.push(0x20);
                out.push(0x41);
                out.push(0x4e);
                out.push(0x44);
                out.push(0x20);
                append_qualified(&mut out, alias, &tenant_col);
                out.push(0x20);
                out.push(0x3d);
                out.push(0x20);
                out.push(0x27);
                append_escaped(&mut out, t);
                out.push(0x27);
                out.push(0x29);
                proof {
                    assert(out@ =~= pred_group(soft, opt_view(Some(*t)), opt_view(*alias)));
                }
            } else {
                append_qualified(&mut out, alias, &tenant_col);
                out.push(0x20);
                out.push(0x3d);
                out.push(0x20);
                out.push(0x27);
                append_escaped(&mut out, t);
                out.push(0x27);
                proof {
                    assert(out@ =~= pred_group(soft, opt_view(Some(*t)), opt_view(*alias)));
                }
            }
        },
        None => {
            if soft {
                append_qualified(&mut out, alias, &delete_flag);
                out.push(0x20);
                out.push(0x3d);
                out.push(0x20);
                out.push(0x30);
                proof {
                    assert(out@ =~= pred_group(soft, opt_view(None::<Vec<u8>>), opt_view(*alias)));
                }
            } else {
                proof {
                    assert(out@ =~= pred_group(soft, opt_view(None::<Vec<u8>>), opt_view(*alias)));
                }
            }
        },
    }
    out
}

// ---------------------------------------------------------------------------
// Executable relation parsing and extraction
// ---------------------------------------------------------------------------
fn seg_end_x(s: &Vec<u8>, p: usize, hi: usize) -> (r: usize)
    requires
        p <= hi <= s@.len(),
    ensures
        r as int == seg_end(s@, p as int, hi as int),
        p <= r <= hi,
{
    if !(p < hi) {
        p
    } else if s[p] == 0x22 || s[p] == 0x60 {
        let e = quote_scan_x(s, p + 1, hi, s[p]);
        if e - p >= 2 && s[e - 1] == s[p] {
            e
        } else {
            p
        }
    } else if is_ident_x(s[p]) {
        run_end_x(s, p, hi)
    } else {
        p
    }
}

fn chain_last_x(s: &Vec<u8>, p: usize, hi: usize) -> (r: Option<(usize, usize)>)
    requires
        p <= hi <= s@.len(),
    ensures
        match r {
            Some(ab) => {
                &&& chain_last(s@, p as int, hi as int) == Some((ab.0 as int, ab.1 as int))
                &&& p <= ab.0 < ab.1 <= hi
                &&& ab.1 as int == seg_end(s@, ab.0 as int, hi as int)
            },
            None => chain_last(s@, p as int, hi as int) is None,
        },
    decreases hi - p,
{
    let e = seg_end_x(s, p, hi);
    if !(p < e && e <= hi) {
        None
    } else if e < hi && s[e] == 0x2e {
        chain_last_x(s, e + 1, hi)
    } else {
        Some((p, e))
    }
}

fn rel_table_name_x(s: &Vec<u8>, p: usize, hi: usize) -> (r: Option<Vec<u8>>)
    requires
        p <= hi <= s@.len(),
    ensures
        opt_view(r) == rel_table_name(s@, p as int, hi as int),
{
    match chain_last_x(s, p, hi) {
        None => None,
        Some((a, b)) => {
            if s[a] == 0x22 || s[a] == 0x60 {
                let mut t: Vec<u8> = Vec::new();
                append_range(&mut t, s, a + 1, b - 1);
                if t.len() == 0 {
                    None
                } else {
                    Some(t)
                }
            } else if alias_blocker_at_x(s, a, hi) {
                None
            } else {
                let mut t: Vec<u8> = Vec::new();
                append_range(&mut t, s, a, b);
                Some(t)
            }
        },
    }
}

fn token_end_x(s: &Vec<u8>, a: usize, hi: usize) -> (r: usize)
    requires
        a <= hi <= s@.len(),
    ensures
        r as int == token_end(s@, a as int, hi as int),
        a <= r <= hi,
{
    if !(a < hi) {
        a
    } else if s[a] == 0x22 || s[a] == 0x60 {
        let e = quote_scan_x(s, a + 1, hi, s[a]);
        if e - a >= 2 && s[e - 1] == s[a] {
            e
        } else {
            a
        }
    } else if is_ident_x(s[a]) {
        run_end_x(s, a, hi)
    } else {
        a
    }
}

fn alias_after_x(s: &Vec<u8>, q: usize, hi: usize) -> (r: Option<Vec<u8>>)
    requires
        q <= hi <= s@.len(),
    ensures
        opt_view(r) == alias_after(s@, q as int, hi as int),
{
    let kw_as_v: Vec<u8> = vec![0x61u8, 0x73u8];
    proof {
        assert(kw_as_v@ =~= kw_as());
    }
    let a = skip_ws_x(s, q, hi);
    if !(a < hi) {
        None
    } else if word_at_x(s, a, hi, &kw_as_v) {
        let a2 = skip_ws_x(s, a + 2, hi);
        let e = token_end_x(s, a2, hi);
        if e > a2 {
            let mut t: Vec<u8> = Vec::new();
            append_range(&mut t, s, a2, e);
            Some(t)
        } else {
            None
        }
    } else if alias_blocker_at_x(s, a, hi) {
        None
    } else {
        let e = token_end_x(s, a, hi);
        if e > a {
            let mut t: Vec<u8> = Vec::new();
            append_range(&mut t, s, a, e);
            Some(t)
        } else {
            None
        }
    }
}

fn select_alias_x(s: &Vec<u8>, fpos: usize, hi: usize) -> (r: Option<Vec<u8>>)
    requires
        fpos <= hi <= s@.len(),
        fpos < hi ==> fpos + 4 <= hi,
    ensures
        opt_view(r) == select_alias(s@, fpos as int, hi as int),
{
    if fpos >= hi {
        None
    } else {
        let r = skip_ws_x(s, fpos + 4, hi);
        if !(r < hi) {
            None
        } else if s[r] == 0x28 {
            None
        } else {
            match chain_last_x(s, r, hi) {
                None => None,
                Some((a, b)) => alias_after_x(s, b, hi),
            }
        }
    }
}

fn extract_table_x(s: &Vec<u8>, lo: usize, hi: usize) -> (r: Option<Vec<u8>>)
    requires
        lo <= hi <= s@.len(),
    ensures
        opt_view(r) == extract_table(s@, lo as int, hi as int),
    decreases hi - lo,
{
    let kw_select_v: Vec<u8> = vec![0x73u8, 0x65u8, 0x6cu8, 0x65u8, 0x63u8, 0x74u8];
    proof {
        assert(kw_select_v@ =~= kw_select());
    }
    let i = skip_ws_x(s, lo, hi);
    if i < hi && s[i] == 0x28 {
        let pe = paren_scan_x(s, i + 1, hi);
        if pe - i >= 2 && s[pe - 1] == 0x29 && skip_ws_x(s, pe, hi) >= hi {
            extract_table_x(s, i + 1, pe - 1)
        } else {
            None
        }
    } else if word_at_x(s, i, hi, &kw_select_v) {
        proof {
            assert(kw_select().len() == 6);
            assert(i + 6 <= hi);
        }
        let qhi = find_kw_x(s, i + 6, hi, KwClass::Semi);
        if find_kw_x(s, i + 6, qhi, KwClass::SetOp) < qhi {
            None
        } else {
            let fpos = find_kw_x(s, i + 6, qhi, KwClass::FromKw);
            if fpos >= qhi {
                None
            } else {
                proof {
                    lemma_find_kw_found(s@, i as int + 6, qhi as int, KwClass::FromKw);
                    assert(kw_from().len() == 4);
                    assert(fpos + 4 <= qhi);
                }
                let r = skip_ws_x(s, fpos + 4, qhi);
                if r < qhi && s[r] == 0x28 {
                    let pe = paren_scan_x(s, r + 1, qhi);
                    if pe - r >= 2 && s[pe - 1] == 0x29 {
                        extract_table_x(s, r + 1, pe - 1)
                    } else {
                        None
                    }
                } else {
                    rel_table_name_x(s, r, qhi)
                }
            }
        }
    } else {
        None
    }
}

// ---------------------------------------------------------------------------
// Executable idiom detection and injection
// ---------------------------------------------------------------------------
fn alias_then_end_x(s: &Vec<u8>, rest: usize, pend: usize) -> (r: bool)
    requires
        rest <= pend <= s@.len() || (pend <= s@.len() && rest <= s@.len()),
        pend <= s@.len(),
        rest <= s@.len(),
    ensures
        r == alias_then_end(s@, rest as int, pend as int),
{
    if rest >= pend {
        return true;
    }
    let kw_as_v: Vec<u8> = vec![0x61u8, 0x73u8];
    proof {
        assert(kw_as_v@ =~= kw_as());
    }
    if word_at_x(s, rest, pend, &kw_as_v) {
        let a2 = skip_ws_x(s, rest + 2, pend);
        let e = token_end_x(s, a2, pend);
        e > a2 && skip_ws_x(s, e, pend) >= pend
    } else {
        let e = token_end_x(s, rest, pend);
        e > rest && skip_ws_x(s, e, pend) >= pend
    }
}

fn count_idiom_x(s: &Vec<u8>, p0: usize, pend: usize) -> (r: bool)
    requires
        p0 <= pend <= s@.len(),
    ensures
        r == count_idiom(s@, p0 as int, pend as int),
{
    let kw_count_v: Vec<u8> = vec![0x63u8, 0x6fu8, 0x75u8, 0x6eu8, 0x74u8];
    proof {
        assert(kw_count_v@ =~= kw_count());
    }
    let c = skip_ws_x(s, p0, pend);
    if !word_at_x(s, c, pend, &kw_count_v) {
        return false;
    }
    proof {
        assert(kw_count().len() == 5);
    }
    let o = skip_ws_x(s, c + 5, pend);
    if !(o < pend && s[o] == 0x28) {
        return false;
    }
    let st = skip_ws_x(s, o + 1, pend);
    if !(st < pend && s[st] == 0x2a) {
        return false;
    }
    let cl = skip_ws_x(s, st + 1, pend);
    if !(cl < pend && s[cl] == 0x29) {
        return false;
    }
    let rest = skip_ws_x(s, cl + 1, pend);
    alias_then_end_x(s, rest, pend)
}

fn inject_query_x(s: &Vec<u8>, lo: usize, hi: usize, soft: bool, tid: Option<&Vec<u8>>) -> (out:
    Vec<u8>)
    requires
        lo <= hi <= s@.len(),
    ensures
        out@ == inject_query(s@, lo as int, hi as int, soft, optr_view(tid)),
    decreases hi - lo, 1int,
{
    let kw_select_v: Vec<u8> = vec![0x73u8, 0x65u8, 0x6cu8, 0x65u8, 0x63u8, 0x74u8];
    proof {
        assert(kw_select_v@ =~= kw_select());
    }
    let i = skip_ws_x(s, lo, hi);
    if i < hi && s[i] == 0x28 {
        let pe = paren_scan_x(s, i + 1, hi);
        if pe - i >= 2 && s[pe - 1] == 0x29 && skip_ws_x(s, pe, hi) >= hi {
            let mut out: Vec<u8> = Vec::new();
            append_range(&mut out, s, lo, i + 1);
            let mid = inject_query_x(s, i + 1, pe - 1, soft, tid);
            append_vec(&mut out, &mid);
            append_range(&mut out, s, pe - 1, hi);
            out
        } else {
            let mut out: Vec<u8> = Vec::new();
            append_range(&mut out, s, lo, hi);
            out
        }
    } else if word_at_x(s, i, hi, &kw_select_v) {
        proof {
            assert(kw_select().len() == 6);
        }
        inject_select_x(s, lo, hi, i + 6, soft, tid)
    } else {
        let mut out: Vec<u8> = Vec::new();
        append_range(&mut out, s, lo, hi);
        out
    }
}

fn inject_from_list_x(s: &Vec<u8>, pos: usize, fend: usize, soft: bool, tid: Option<
    &Vec<u8>,
>) -> (out: Vec<u8>)
    requires
        pos <= fend <= s@.len(),
    ensures
        out@ == inject_from_list(s@, pos as int, fend as int, soft, optr_view(tid)),
    decreases fend - pos, 2int,
{
    let r = skip_ws_x(s, pos, fend);
    let c = find_kw_x(s, r, fend, KwClass::Comma);
    let mut out: Vec<u8> = Vec::new();
    if r < fend && s[r] == 0x28 {
        let pe = paren_scan_x(s, r + 1, fend);
        if pe - r >= 2 && pe <= c && s[pe - 1] == 0x29 {
            append_range(&mut out, s, pos, r + 1);
            let mid = inject_query_x(s, r + 1, pe - 1, soft, tid);
            append_vec(&mut out, &mid);
            append_range(&mut out, s, pe - 1, c);
        } else {
            append_range(&mut out, s, pos, c);
        }
    } else {
        append_range(&mut out, s, pos, c);
    }
    if c < fend {
        append_range(&mut out, s, c, c + 1);
        let rest = inject_from_list_x(s, c + 1, fend, soft, tid);
        append_vec(&mut out, &rest);
    }
    out
}

fn inject_select_x(s: &Vec<u8>, lo: usize, hi: usize, p0: usize, soft: bool, tid: Option<
    &Vec<u8>,
>) -> (out: Vec<u8>)
    requires
        lo <= p0 <= hi <= s@.len(),
    ensures
        out@ == inject_select(s@, lo as int, hi as int, p0 as int, soft, optr_view(tid)),
    decreases hi - lo, 0int,
{
    let qhi = find_kw_x(s, p0, hi, KwClass::Semi);
    if find_kw_x(s, p0, qhi, KwClass::SetOp) < qhi {
        let mut out: Vec<u8> = Vec::new();
        append_range(&mut out, s, lo, hi);
        return out;
    }
    let fpos = find_kw_x(s, p0, qhi, KwClass::FromKw);
    proof {
        lemma_find_kw_found(s@, p0 as int, qhi as int, KwClass::FromKw);
        assert(kw_from().len() == 4);
    }
    if count_idiom_x(s, p0, fpos) {
        if fpos < qhi {
            let r = skip_ws_x(s, fpos + 4, qhi);
            let w = find_kw_x(s, r, qhi, KwClass::WhereKw);
            let e = find_kw_x(s, r, qhi, KwClass::Term);
            let flend = if w <= e {
                w
            } else {
                e
            };
            if r <= flend {
                let mut out: Vec<u8> = Vec::new();
                append_range(&mut out, s, lo, r);
                let mid = inject_from_list_x(s, r, flend, soft, tid);
                append_vec(&mut out, &mid);
                append_range(&mut out, s, flend, hi);
                return out;
            }
        }
        let mut out: Vec<u8> = Vec::new();
        append_range(&mut out, s, lo, hi);
        out
    } else {
        let alias = select_alias_x(s, fpos, qhi);
        let g = pred_group_x(soft, tid, &alias);
        if g.len() == 0 {
            let mut out: Vec<u8> = Vec::new();
            append_range(&mut out, s, lo, hi);
            return out;
        }
        let wpos = find_kw_x(s, p0, qhi, KwClass::WhereKw);
        proof {
            lemma_find_kw_found(s@, p0 as int, qhi as int, KwClass::WhereKw);
            assert(kw_where().len() == 5);
        }
        if wpos < qhi {
            let cend = find_kw_x(s, wpos + 5, qhi, KwClass::Term);
            let cstart = skip_ws_x(s, wpos + 5, cend);
            let ce = trim_end_x(s, cstart, cend);
            if ce <= cstart {
                let mut out: Vec<u8> = Vec::new();
                append_range(&mut out, s, lo, hi);
                out
            } else {
                let and_sep: Vec<u8> = vec![0x20u8, 0x41u8, 0x4eu8, 0x44u8, 0x20u8];
                proof {
                    assert(and_sep@ =~= and_sep_bytes());
                }
                let mut out: Vec<u8> = Vec::new();
                if find_kw_x(s, cstart, ce, KwClass::OrKw) < ce {
                    append_range(&mut out, s, lo, cstart);
                    out.push(0x28);
                    append_range(&mut out, s, cstart, ce);
                    out.push(0x29);
                } else {
                    append_range(&mut out, s, lo, ce);
                }
                append_vec(&mut out, &and_sep);
                append_vec(&mut out, &g);
                append_range(&mut out, s, ce, hi);
                out
            }
        } else {
            let base = if fpos < qhi {
                fpos + 4
            } else {
                p0
            };
            let tpos = find_kw_x(s, base, qhi, KwClass::Term);
            let ip = trim_end_x(s, base, tpos);
            let where_sep: Vec<u8> = vec![0x20u8, 0x57u8, 0x48u8, 0x45u8, 0x52u8, 0x45u8, 0x20u8];
            proof {
                assert(where_sep@ =~= where_sep_bytes());
            }
            let mut out: Vec<u8> = Vec::new();
            append_range(&mut out, s, lo, ip);
            append_vec(&mut out, &where_sep);
            append_vec(&mut out, &g);
            append_range(&mut out, s, ip, hi);
            out
        }
    }
}

// ---------------------------------------------------------------------------
// Executable top level
// ---------------------------------------------------------------------------
/// Whether the statement's leading keyword is `SELECT`.
pub fn select_prefix_x(s: &Vec<u8>) -> (r: bool)
    ensures
        r == select_prefix(s@),
{
    let n = s.len();
    let i = skip_ws_x(s, 0, n);
    if n - i < 6 {
        return false;
    }
    lower_x(s[i]) == 0x73 && lower_x(s[i + 1]) == 0x65 && lower_x(s[i + 2]) == 0x6c && lower_x(
        s[i + 3],
    ) == 0x65 && lower_x(s[i + 4]) == 0x63 && lower_x(s[i + 5]) == 0x74
}

/// Whether two byte vectors hold the same bytes.
pub fn bytes_eq(a: &Vec<u8>, b: &Vec<u8>) -> (r: bool)
    ensures
        r == (a@ == b@),
{
    if a.len() != b.len() {
        return false;
    }
    let mut k: usize = 0;
    while k < a.len()
        invariant
            a@.len() == b@.len(),
            k <= a@.len(),
            forall|t: int| 0 <= t < k ==> a@[t] == b@[t],
        decreases a@.len() - k,
    {
        if a[k] != b[k] {
            return false;
        }
        k += 1;
    }
    proof {
        assert(a@ =~= b@);
    }
    true
}

/// The set of table names held by a skip-list vector.
pub open spec fn skip_set(v: Seq<Vec<u8>>) -> Set<Seq<u8>> {
    Set::new(|x: Seq<u8>| exists|k: int| 0 <= k < v.len() && #[trigger] v[k]@ == x)
}

/// Whether `t` is one of the names in `v`.
pub fn contains_name(v: &Vec<Vec<u8>>, t: &Vec<u8>) -> (r: bool)
    ensures
        r == skip_set(v@).contains(t@),
{
    let mut k: usize = 0;
    while k < v.len()
        invariant
            k <= v@.len(),
            forall|j: int| 0 <= j < k ==> v@[j]@ != t@,
        decreases v@.len() - k,
    {
        if bytes_eq(&v[k], t) {
            return true;
        }
        k += 1;
    }
    false
}

/// Rewrites one statement, given as bytes. Returns the rewritten bytes, or
/// nothing when the statement passes through unchanged: it is not a SELECT,
/// no driving table is resolvable (a parse failure is never an error), the
/// table is in the skip-list, or there was nothing to inject.
pub fn rewrite_bytes(
    s: &Vec<u8>,
    soft: bool,
    tf: bool,
    tid_raw: Option<&Vec<u8>>,
    skips: &Vec<Vec<u8>>,
) -> (r: Option<Vec<u8>>)
    ensures
        opt_view(r) == rewrite_spec(s@, soft, tf, optr_view(tid_raw), skip_set(skips@)),
{
    if !select_prefix_x(s) {
        return None;
    }
    let t = match extract_table_x(s, 0, s.len()) {
        None => {
            return None;
        },
        Some(t) => t,
    };
    let ft = fold_bytes(&t);
    if contains_name(skips, &ft) {
        return None;
    }
    let eff: Option<&Vec<u8>> = if tf {
        match tid_raw {
            Some(t) => if t.len() > 0 {
                Some(t)
            } else {
                None
            },
            None => None,
        }
    } else {
        None
    };
    proof {
        assert(optr_view(eff) == effective_tenant(tf, optr_view(tid_raw)));
    }
    let out = inject_query_x(s, 0, s.len(), soft, eff);
    if bytes_eq(&out, s) {
        None
    } else {
        Some(out)
    }
}

// ---------------------------------------------------------------------------
// The rewritten text is valid UTF-8
// ---------------------------------------------------------------------------
proof fn lemma_esc_append(u: Seq<u8>, v: Seq<u8>)
    ensures
        esc_squote(u + v) == esc_squote(u) + esc_squote(v),
    decreases u.len(),
{
    if u.len() == 0 {
        assert(u + v =~= v);
        assert(esc_squote(u) =~= Seq::<u8>::empty());
        assert(esc_squote(u) + esc_squote(v) =~= esc_squote(v));
    } else {
        assert((u + v)[0] == u[0]);
        assert((u + v).drop_first() =~= u.drop_first() + v);
        lemma_esc_append(u.drop_first(), v);
        assert(esc_squote(u + v) =~= esc_squote(u) + esc_squote(v));
    }
}

proof fn lemma_esc_no_quote(u: Seq<u8>)
    requires
        forall|k: int| 0 <= k < u.len() ==> #[trigger] u[k] != 0x27,
    ensures
        esc_squote(u) == u,
    decreases u.len(),
{
    if u.len() > 0 {
        lemma_esc_no_quote(u.drop_first());
        assert(esc_squote(u) =~= u);
    } else {
        assert(esc_squote(u) =~= u);
    }
}

/// Escaping a valid tenant value leaves it valid: the doubled quote is
/// ASCII, and multi-byte characters contain no quote byte to double.
proof fn lemma_esc_valid(t: Seq<u8>)
    requires
        valid_utf8(t),
    ensures
        valid_utf8(esc_squote(t)),
    decreases t.len(),
{
    if t.len() == 0 {
        assert(esc_squote(t) =~= Seq::<u8>::empty());
        lemma_ascii_valid(esc_squote(t));
    } else {
        assert(valid_first_scalar(t) && valid_utf8(pop_first_scalar(t))) by {
            reveal_with_fuel(valid_utf8, 2);
        }
        let k = length_of_first_scalar(t);
        assert(1 <= k <= t.len());
        let c = t.subrange(0, k);
        let rest = t.subrange(k, t.len() as int);
        assert(t =~= c + rest);
        lemma_esc_append(c, rest);
        assert(pop_first_scalar(t) == rest);
        lemma_esc_valid(rest);
        if k == 1 {
            assert(c.len() == 1 && c[0] == t[0] && t[0] < 0x80);
            assert(c.drop_first() =~= Seq::<u8>::empty());
            if t[0] == 0x27 {
                assert(esc_squote(c) =~= seq![0x27u8, 0x27u8]) by {
                    reveal_with_fuel(esc_squote, 2);
                }
            } else {
                assert(esc_squote(c) =~= seq![t[0]]) by {
                    reveal_with_fuel(esc_squote, 2);
                }
            }
            lemma_ascii_valid(esc_squote(c));
        } else {
            assert(forall|j: int| 0 <= j < c.len() ==> #[trigger] c[j] != 0x27) by {
                assert(forall|j: int| 1 <= j < k ==> is_continuation_byte(
                    #[trigger] t[j],
                ));
            }
            lemma_esc_no_quote(c);
            assert(is_char_boundary(t, k)) by {
                reveal_with_fuel(is_char_boundary, 2);
            }
            valid_utf8_split(t, k);
        }
        valid_utf8_concat(esc_squote(c), esc_squote(rest));
        assert(esc_squote(t) == esc_squote(c) + esc_squote(rest));
    }
}

/// Every predicate block built from a valid alias and a valid tenant value
/// is itself valid UTF-8.
proof fn lemma_pred_group_valid(soft: bool, tid: Option<Seq<u8>>, alias: Option<Seq<u8>>)
    requires
        tid is Some ==> valid_utf8(tid->0),
        alias is Some ==> valid_utf8(alias->0),
    ensures
        valid_utf8(pred_group(soft, tid, alias)),
{
    let dcol = delete_flag_bytes();
    let tcol = tenant_col_bytes();
    assert forall|a: Option<Seq<u8>>, col: Seq<u8>|
        ((a is Some ==> valid_utf8(a->0)) && (col == dcol || col == tcol)) implies valid_utf8(
        #[trigger] qualify(a, col),
    ) by {
        assert(forall|k: int| 0 <= k < dcol.len() ==> #[trigger] dcol[k] < 0x80);
        assert(forall|k: int| 0 <= k < tcol.len() ==> #[trigger] tcol[k] < 0x80);
        lemma_ascii_valid(col);
        match a {
            Some(al) => {
                lemma_ascii_valid(seq![0x2eu8]);
                valid_utf8_concat(al, seq![0x2eu8]);
                valid_utf8_concat(al + seq![0x2eu8], col);
                assert(qualify(a, col) == al + seq![0x2eu8] + col);
            },
            None => {
            },
        }
    }
    assert(forall|k: int| 0 <= k < eq_zero_bytes().len() ==> #[trigger] eq_zero_bytes()[k]
        < 0x80);
    lemma_ascii_valid(eq_zero_bytes());
    assert(forall|k: int| 0 <= k < eq_quote_bytes().len() ==> #[trigger] eq_quote_bytes()[k]
        < 0x80);
    lemma_ascii_valid(eq_quote_bytes());
    assert(forall|k: int| 0 <= k < and_sep_bytes().len() ==> #[trigger] and_sep_bytes()[k]
        < 0x80);
    lemma_ascii_valid(and_sep_bytes());
    lemma_ascii_valid(seq![0x27u8]);
    lemma_ascii_valid(seq![0x28u8]);
    lemma_ascii_valid(seq![0x29u8]);
    lemma_ascii_valid(Seq::<u8>::empty());
    valid_utf8_concat(qualify(alias, dcol), eq_zero_bytes());
    if tid is Some {
        lemma_esc_valid(tid->0);
        valid_utf8_concat(qualify(alias, tcol), eq_quote_bytes());
        valid_utf8_concat(qualify(alias, tcol) + eq_quote_bytes(), esc_squote(tid->0));
        valid_utf8_concat(
            qualify(alias, tcol) + eq_quote_bytes() + esc_squote(tid->0),
            seq![0x27u8],
        );
        if soft {
            valid_utf8_concat(seq![0x28u8], soft_pred(alias));
            valid_utf8_concat(seq![0x28u8] + soft_pred(alias), and_sep_bytes());
            valid_utf8_concat(
                seq![0x28u8] + soft_pred(alias) + and_sep_bytes(),
                tenant_pred(alias, tid->0),
            );
            valid_utf8_concat(
                seq![0x28u8] + soft_pred(alias) + and_sep_bytes() + tenant_pred(alias, tid->0),
                seq![0x29u8],
            );
        }
    }
}

proof fn lemma_chain_last_seg(s: Seq<u8>, p: int, hi: int)
    requires
        0 <= p <= hi <= s.len(),
    ensures
        chain_last(s, p, hi) is Some ==> {
            let (a, b) = chain_last(s, p, hi)->0;
            &&& p <= a < b <= hi
            &&& b == seg_end(s, a, hi)
        },
    decreases hi - p,
{
    let e = seg_end(s, p, hi);
    if 0 <= p && p < e && e <= hi && e < hi && e < s.len() && s[e] == 0x2e {
        lemma_chain_last_seg(s, e + 1, hi);
    }
}

/// The bytes of the identifier-like token at `x` form valid UTF-8.
proof fn lemma_token_valid(s: Seq<u8>, x: int, hi: int)
    requires
        valid_utf8(s),
        0 <= x < hi <= s.len(),
        !is_continuation_byte(s[x]),
        hi == s.len() || !is_continuation_byte(s[hi]),
        token_end(s, x, hi) > x,
    ensures
        valid_utf8(s.subrange(x, token_end(s, x, hi))),
{
    let e = token_end(s, x, hi);
    if s[x] == 0x22 || s[x] == 0x60 {
        if e < s.len() {
            lemma_after_ascii_not_cont(s, e - 1);
        }
        lemma_mid_valid(s, x, e);
    } else {
        crate::scan::lemma_run_end_nonident(s, x, hi);
        lemma_mid_valid(s, x, e);
    }
}

/// An alias resolved after the chain ending at `q` is valid UTF-8.
proof fn lemma_alias_after_valid(s: Seq<u8>, q: int, hi: int)
    requires
        valid_utf8(s),
        0 <= q <= hi <= s.len(),
        q == s.len() || !is_continuation_byte(s[q]),
        hi == s.len() || !is_continuation_byte(s[hi]),
    ensures
        alias_after(s, q, hi) is Some ==> valid_utf8(alias_after(s, q, hi)->0),
{
    let a = skip_ws(s, q, hi);
    crate::scan::lemma_skip_ws_all_ws(s, q, hi);
    if 0 <= a && a < hi && a < s.len() {
        assert(!is_continuation_byte(s[a])) by {
            if a > q {
                assert(is_ws(s[a - 1]));
                lemma_after_ascii_not_cont(s, a - 1);
            }
        }
        if word_at(s, a, hi, kw_as()) {
            let a2 = skip_ws(s, a + 2, hi);
            crate::scan::lemma_skip_ws_all_ws(s, a + 2, hi);
            let e = token_end(s, a2, hi);
            if e > a2 {
                assert(a2 < hi && a2 < s.len());
                assert(!is_continuation_byte(s[a2])) by {
                    if a2 > a + 2 {
                        assert(is_ws(s[a2 - 1]));
                        lemma_after_ascii_not_cont(s, a2 - 1);
                    } else {
                        assert(lower_seq(s.subrange(a, a + 2))[1] == kw_as()[1]);
                        assert(lower(s[a + 1]) == 0x73);
                        lemma_after_ascii_not_cont(s, a + 1);
                    }
                }
                lemma_token_valid(s, a2, hi);
            }
        } else if alias_blocker_at(s, a, hi) {
        } else {
            let e = token_end(s, a, hi);
            if e > a {
                lemma_token_valid(s, a, hi);
            }
        }
    }
}

/// The alias of the first FROM relation is valid UTF-8.
proof fn lemma_select_alias_valid(s: Seq<u8>, fpos: int, hi: int)
    requires
        valid_utf8(s),
        0 <= fpos,
        hi <= s.len(),
        hi == s.len() || !is_continuation_byte(s[hi]),
        fpos < hi ==> word_at(s, fpos, hi, kw_from()),
    ensures
        select_alias(s, fpos, hi) is Some ==> valid_utf8(select_alias(s, fpos, hi)->0),
{
    if fpos < hi {
        assert(kw_from().len() == 4);
        let r = skip_ws(s, fpos + 4, hi);
        crate::scan::lemma_skip_ws_all_ws(s, fpos + 4, hi);
        if 0 <= r && r < hi && r < s.len() && s[r] != 0x28 {
            match chain_last(s, r, hi) {
                None => {},
                Some((a, b)) => {
                    lemma_chain_last_seg(s, r, hi);
                    assert(b == s.len() || !is_continuation_byte(s[b])) by {
                        if b < s.len() {
                            if s[a] == 0x22 || s[a] == 0x60 {
                                lemma_after_ascii_not_cont(s, b - 1);
                            } else {
                                crate::scan::lemma_run_end_nonident(s, a, hi);
                            }
                        }
                    }
                    lemma_alias_after_valid(s, b, hi);
                },
            }
        }
    }
}

/// The FROM-list region rewritten over `[pos, fend)` stays valid UTF-8.
proof fn lemma_inject_from_list_valid(
    s: Seq<u8>,
    pos: int,
    fend: int,
    soft: bool,
    tid: Option<Seq<u8>>,
)
    requires
        valid_utf8(s),
        0 <= pos <= fend <= s.len(),
        pos == s.len() || !is_continuation_byte(s[pos]),
        fend == s.len() || !is_continuation_byte(s[fend]),
        tid is Some ==> valid_utf8(tid->0),
    ensures
        valid_utf8(inject_from_list(s, pos, fend, soft, tid)),
    decreases fend - pos, 2int,
{
    let r = skip_ws(s, pos, fend);
    let c = find_kw(s, r, fend, KwClass::Comma);
    lemma_find_kw_found(s, r, fend, KwClass::Comma);
    assert(c == s.len() || !is_continuation_byte(s[c])) by {
        if c < fend {
            crate::scan::lemma_class_at_ascii(s, c, fend, KwClass::Comma);
        }
    }
    let item = if r < fend && s[r] == 0x28 {
        let pe = paren_scan(s, r + 1, fend);
        if pe >= r + 2 && pe <= c && s[pe - 1] == 0x29 {
            s.subrange(pos, r + 1) + inject_query(s, r + 1, pe - 1, soft, tid) + s.subrange(
                pe - 1,
                c,
            )
        } else {
            s.subrange(pos, c)
        }
    } else {
        s.subrange(pos, c)
    };
    assert(valid_utf8(item)) by {
        if r < fend && s[r] == 0x28 {
            let pe = paren_scan(s, r + 1, fend);
            if pe >= r + 2 && pe <= c && s[pe - 1] == 0x29 {
                if r + 1 < s.len() {
                    lemma_after_ascii_not_cont(s, r);
                }
                lemma_mid_valid(s, pos, r + 1);
                lemma_inject_query_valid(s, r + 1, pe - 1, soft, tid);
                lemma_mid_valid(s, pe - 1, c);
                valid_utf8_concat(
                    s.subrange(pos, r + 1),
                    inject_query(s, r + 1, pe - 1, soft, tid),
                );
                valid_utf8_concat(
                    s.subrange(pos, r + 1) + inject_query(s, r + 1, pe - 1, soft, tid),
                    s.subrange(pe - 1, c),
                );
            } else {
                lemma_mid_valid(s, pos, c);
            }
        } else {
            lemma_mid_valid(s, pos, c);
        }
    }
    if pos <= c && c < fend {
        crate::scan::lemma_class_at_ascii(s, c, fend, KwClass::Comma);
        assert(forall|k: int|
            0 <= k < s.subrange(c, c + 1).len() ==> #[trigger] s.subrange(c, c + 1)[k] < 0x80);
        lemma_ascii_valid(s.subrange(c, c + 1));
        if c + 1 < s.len() {
            lemma_after_ascii_not_cont(s, c);
        }
        lemma_inject_from_list_valid(s, c + 1, fend, soft, tid);
        valid_utf8_concat(item, s.subrange(c, c + 1));
        valid_utf8_concat(item + s.subrange(c, c + 1), inject_from_list(s, c + 1, fend, soft, tid));
    }
}

/// The statement rewritten over the span `[lo, hi)` stays valid UTF-8.
#[verifier::rlimit(100)]
proof fn lemma_inject_select_valid(
    s: Seq<u8>,
    lo: int,
    hi: int,
    p0: int,
    soft: bool,
    tid: Option<Seq<u8>>,
)
    requires
        valid_utf8(s),
        0 <= lo <= p0 <= hi <= s.len(),
        lo == s.len() || !is_continuation_byte(s[lo]),
        hi == s.len() || !is_continuation_byte(s[hi]),
        tid is Some ==> valid_utf8(tid->0),
    ensures
        valid_utf8(inject_select(s, lo, hi, p0, soft, tid)),
    decreases hi - lo, 0int,
{
    let qhi = find_kw(s, p0, hi, KwClass::Semi);
    lemma_find_kw_found(s, p0, hi, KwClass::Semi);
    assert(qhi == s.len() || !is_continuation_byte(s[qhi])) by {
        if qhi < hi {
            crate::scan::lemma_class_at_ascii(s, qhi, hi, KwClass::Semi);
        }
    }
    if find_kw(s, p0, qhi, KwClass::SetOp) < qhi {
        lemma_mid_valid(s, lo, hi);
    } else {
        let fpos = find_kw(s, p0, qhi, KwClass::FromKw);
        lemma_find_kw_found(s, p0, qhi, KwClass::FromKw);
        if count_idiom(s, p0, fpos) {
            if fpos < qhi {
                assert(kw_from().len() == 4);
                let r = skip_ws(s, fpos + 4, qhi);
                crate::scan::lemma_skip_ws_all_ws(s, fpos + 4, qhi);
                assert(r == s.len() || !is_continuation_byte(s[r])) by {
                    if r < s.len() {
                        if r == fpos + 4 {
                            assert(lower_seq(s.subrange(fpos, fpos + 4))[3] == kw_from()[3]);
                            assert(lower(s[fpos + 3]) == 0x6d);
                            lemma_after_ascii_not_cont(s, fpos + 3);
                        } else {
                            assert(is_ws(s[r - 1]));
                            lemma_after_ascii_not_cont(s, r - 1);
                        }
                    }
                }
                let w = find_kw(s, r, qhi, KwClass::WhereKw);
                let e = find_kw(s, r, qhi, KwClass::Term);
                lemma_find_kw_found(s, r, qhi, KwClass::WhereKw);
                lemma_find_kw_found(s, r, qhi, KwClass::Term);
                let flend = if w <= e {
                    w
                } else {
                    e
                };
                assert(flend == s.len() || !is_continuation_byte(s[flend])) by {
                    if flend < qhi {
                        if w <= e {
                            crate::scan::lemma_class_at_ascii(s, flend, qhi, KwClass::WhereKw);
                        } else {
                            crate::scan::lemma_class_at_ascii(s, flend, qhi, KwClass::Term);
                        }
                    }
                }
                if r <= flend {
                    lemma_mid_valid(s, lo, r);
                    lemma_inject_from_list_valid(s, r, flend, soft, tid);
                    lemma_mid_valid(s, flend, hi);
                    valid_utf8_concat(
                        s.subrange(lo, r),
                        inject_from_list(s, r, flend, soft, tid),
                    );
                    valid_utf8_concat(
                        s.subrange(lo, r) + inject_from_list(s, r, flend, soft, tid),
                        s.subrange(flend, hi),
                    );
                } else {
                    lemma_mid_valid(s, lo, hi);
                }
            } else {
                lemma_mid_valid(s, lo, hi);
            }
        } else {
            lemma_select_alias_valid(s, fpos, qhi);
            let alias = select_alias(s, fpos, qhi);
            lemma_pred_group_valid(soft, tid, alias);
            let g = pred_group(soft, tid, alias);
            if g.len() == 0 {
                lemma_mid_valid(s, lo, hi);
            } else {
                let wpos = find_kw(s, p0, qhi, KwClass::WhereKw);
                lemma_find_kw_found(s, p0, qhi, KwClass::WhereKw);
                if wpos < qhi {
                    assert(kw_where().len() == 5);
                    let cend = find_kw(s, wpos + 5, qhi, KwClass::Term);
                    lemma_find_kw_found(s, wpos + 5, qhi, KwClass::Term);
                    let cstart = skip_ws(s, wpos + 5, cend);
                    crate::scan::lemma_skip_ws_all_ws(s, wpos + 5, cend);
                    let ce = trim_end(s, cstart, cend);
                    if ce <= cstart {
                        lemma_mid_valid(s, lo, hi);
                    } else {
                        assert(ce == s.len() || !is_continuation_byte(s[ce])) by {
                            crate::scan::lemma_trim_end_ws(s, cstart, cend);
                            if ce < cend {
                            } else {
                                if cend < qhi {
                                    crate::scan::lemma_class_at_ascii(s, cend, qhi, KwClass::Term);
                                }
                            }
                        }
                        assert(!is_continuation_byte(s[cstart])) by {
                            assert(kw_where().len() == 5);
                            if cstart == wpos + 5 {
                                assert(lower_seq(s.subrange(wpos, wpos + 5))[4] == kw_where()[4]);
                                assert(lower(s[wpos + 4]) == 0x65);
                                lemma_after_ascii_not_cont(s, wpos + 4);
                            } else {
                                assert(is_ws(s[cstart - 1]));
                                lemma_after_ascii_not_cont(s, cstart - 1);
                            }
                        }
                        assert(forall|k: int|
                            0 <= k < and_sep_bytes().len() ==> #[trigger] and_sep_bytes()[k]
                                < 0x80);
                        lemma_ascii_valid(and_sep_bytes());
                        lemma_mid_valid(s, ce, hi);
                        if find_kw(s, cstart, ce, KwClass::OrKw) < ce {
                            lemma_mid_valid(s, lo, cstart);
                            lemma_mid_valid(s, cstart, ce);
                            lemma_ascii_valid(seq![0x28u8]);
                            lemma_ascii_valid(seq![0x29u8]);
                            valid_utf8_concat(s.subrange(lo, cstart), seq![0x28u8]);
                            valid_utf8_concat(
                                s.subrange(lo, cstart) + seq![0x28u8],
                                s.subrange(cstart, ce),
                            );
                            valid_utf8_concat(
                                s.subrange(lo, cstart) + seq![0x28u8] + s.subrange(cstart, ce),
                                seq![0x29u8],
                            );
                            valid_utf8_concat(
                                s.subrange(lo, cstart) + seq![0x28u8] + s.subrange(cstart, ce)
                                    + seq![0x29u8],
                                and_sep_bytes(),
                            );
                            valid_utf8_concat(
                                s.subrange(lo, cstart) + seq![0x28u8] + s.subrange(cstart, ce)
                                    + seq![0x29u8] + and_sep_bytes(),
                                g,
                            );
                            valid_utf8_concat(
                                s.subrange(lo, cstart) + seq![0x28u8] + s.subrange(cstart, ce)
                                    + seq![0x29u8] + and_sep_bytes() + g,
                                s.subrange(ce, hi),
                            );
                        } else {
                            lemma_mid_valid(s, lo, ce);
                            valid_utf8_concat(s.subrange(lo, ce), and_sep_bytes());
                            valid_utf8_concat(s.subrange(lo, ce) + and_sep_bytes(), g);
                            valid_utf8_concat(
                                s.subrange(lo, ce) + and_sep_bytes() + g,
                                s.subrange(ce, hi),
                            );
                        }
                    }
                } else {
                    let base = if fpos < qhi {
                        fpos + 4
                    } else {
                        p0
                    };
                    assert(kw_from().len() == 4);
                    let tpos = find_kw(s, base, qhi, KwClass::Term);
                    lemma_find_kw_found(s, base, qhi, KwClass::Term);
                    let ip = trim_end(s, base, tpos);
                    assert(ip == s.len() || !is_continuation_byte(s[ip])) by {
                        crate::scan::lemma_trim_end_ws(s, base, tpos);
                        if ip < tpos {
                        } else {
                            if tpos < qhi {
                                crate::scan::lemma_class_at_ascii(s, tpos, qhi, KwClass::Term);
                            }
                        }
                    }
                    lemma_mid_valid(s, lo, ip);
                    lemma_mid_valid(s, ip, hi);
                    assert(forall|k: int|
                        0 <= k < where_sep_bytes().len() ==> #[trigger] where_sep_bytes()[k]
                            < 0x80);
                    lemma_ascii_valid(where_sep_bytes());
                    valid_utf8_concat(s.subrange(lo, ip), where_sep_bytes());
                    valid_utf8_concat(s.subrange(lo, ip) + where_sep_bytes(), g);
                    valid_utf8_concat(
                        s.subrange(lo, ip) + where_sep_bytes() + g,
                        s.subrange(ip, hi),
                    );
                }
            }
        }
    }
}

/// The query rewritten over the span `[lo, hi)` stays valid UTF-8.
proof fn lemma_inject_query_valid(s: Seq<u8>, lo: int, hi: int, soft: bool, tid: Option<Seq<u8>>)
    requires
        valid_utf8(s),
        0 <= lo <= hi <= s.len(),
        lo == s.len() || !is_continuation_byte(s[lo]),
        hi == s.len() || !is_continuation_byte(s[hi]),
        tid is Some ==> valid_utf8(tid->0),
    ensures
        valid_utf8(inject_query(s, lo, hi, soft, tid)),
    decreases hi - lo, 1int,
{
    let i = skip_ws(s, lo, hi);
    if i < hi && s[i] == 0x28 {
        let pe = paren_scan(s, i + 1, hi);
        if pe >= i + 2 && pe <= hi && s[pe - 1] == 0x29 && skip_ws(s, pe, hi) >= hi {
            if i + 1 < s.len() {
                lemma_after_ascii_not_cont(s, i);
            }
            lemma_mid_valid(s, lo, i + 1);
            lemma_inject_query_valid(s, i + 1, pe - 1, soft, tid);
            lemma_mid_valid(s, pe - 1, hi);
            valid_utf8_concat(s.subrange(lo, i + 1), inject_query(s, i + 1, pe - 1, soft, tid));
            valid_utf8_concat(
                s.subrange(lo, i + 1) + inject_query(s, i + 1, pe - 1, soft, tid),
                s.subrange(pe - 1, hi),
            );
        } else {
            lemma_mid_valid(s, lo, hi);
        }
    } else if word_at(s, i, hi, kw_select()) {
        assert(kw_select().len() == 6);
        lemma_inject_select_valid(s, lo, hi, i + 6, soft, tid);
    } else {
        lemma_mid_valid(s, lo, hi);
    }
}

/// Law: rewriting a statement whose bytes are valid UTF-8, with a tenant id
/// whose bytes are valid UTF-8, yields a statement whose bytes are valid
/// UTF-8: the insertion always lands between whole characters.
pub proof fn lemma_rewrite_valid_utf8(
    s: Seq<u8>,
    soft: bool,
    tf: bool,
    tid_raw: Option<Seq<u8>>,
    skips: Set<Seq<u8>>,
)
    requires
        valid_utf8(s),
        tid_raw is Some ==> valid_utf8(tid_raw->0),
    ensures
        rewrite_spec(s, soft, tf, tid_raw, skips) is Some ==> valid_utf8(
            rewrite_spec(s, soft, tf, tid_raw, skips)->0,
        ),
{
    if rewrite_spec(s, soft, tf, tid_raw, skips) is Some {
        assert(s.len() > 0);
        assert(!is_continuation_byte(s[0])) by {
            vstd::utf8::is_char_boundary_start_end_of_seq(s);
            vstd::utf8::is_char_boundary_iff_not_is_continuation_byte(s, 0);
        }
        lemma_inject_query_valid(s, 0, s.len() as int, soft, effective_tenant(tf, tid_raw));
    }
}

// ---------------------------------------------------------------------------
// The rewritten text only inserts, never deletes or reorders
// ---------------------------------------------------------------------------
/// `out` holds every byte of `orig`, in order: `out` is `orig` with zero or
/// more blocks of new text inserted, nothing removed or reordered.
pub open spec fn insertions_only(orig: Seq<u8>, out: Seq<u8>) -> bool
    decreases out.len(),
{
    if orig.len() == 0 {
        true
    } else if out.len() == 0 {
        false
    } else if orig[0] == out[0] {
        insertions_only(orig.drop_first(), out.drop_first())
    } else {
        insertions_only(orig, out.drop_first())
    }
}

proof fn lemma_ins_refl(a: Seq<u8>)
    ensures
        insertions_only(a, a),
    decreases a.len(),
{
    if a.len() > 0 {
        lemma_ins_refl(a.drop_first());
    }
}

proof fn lemma_ins_drop(u: Seq<u8>, v: Seq<u8>)
    requires
        insertions_only(u, v),
        u.len() > 0,
    ensures
        insertions_only(u.drop_first(), v),
    decreases v.len(),
{
    if v.len() > 0 {
        let ud = u.drop_first();
        if u[0] == v[0] {
            if ud.len() > 0 {
                if ud[0] == v[0] {
                    lemma_ins_drop(ud, v.drop_first());
                    assert(ud.drop_first() =~= u.drop_first().drop_first());
                }
            }
        } else {
            lemma_ins_drop(u, v.drop_first());
            if ud.len() > 0 {
                if ud[0] == v[0] {
                    lemma_ins_drop(ud, v.drop_first());
                }
            }
        }
    }
}

proof fn lemma_ins_prepend(u: Seq<u8>, v: Seq<u8>, b: u8)
    requires
        insertions_only(u, v),
    ensures
        insertions_only(u, seq![b] + v),
{
    let w = seq![b] + v;
    if u.len() > 0 {
        assert(w.len() > 0 && w[0] == b && w.drop_first() =~= v);
        if u[0] == b {
            lemma_ins_drop(u, v);
        }
    }
}

proof fn lemma_ins_prepend_seq(u: Seq<u8>, v: Seq<u8>, w: Seq<u8>)
    requires
        insertions_only(u, v),
    ensures
        insertions_only(u, w + v),
    decreases w.len(),
{
    if w.len() == 0 {
        assert(w + v =~= v);
    } else {
        lemma_ins_prepend_seq(u, v, w.drop_first());
        lemma_ins_prepend(u, w.drop_first() + v, w[0]);
        assert(seq![w[0]] + (w.drop_first() + v) =~= w + v);
    }
}

proof fn lemma_ins_concat(a: Seq<u8>, b: Seq<u8>, c: Seq<u8>, d: Seq<u8>)
    requires
        insertions_only(a, b),
        insertions_only(c, d),
    ensures
        insertions_only(a + c, b + d),
    decreases b.len(),
{
    if a.len() == 0 {
        assert(a + c =~= c);
        lemma_ins_prepend_seq(c, d, b);
        assert(b + d =~= b + d);
    } else if b.len() == 0 {
    } else if a[0] == b[0] {
        lemma_ins_concat(a.drop_first(), b.drop_first(), c, d);
        assert((a + c)[0] == (b + d)[0]);
        assert((a + c).drop_first() =~= a.drop_first() + c);
        assert((b + d).drop_first() =~= b.drop_first() + d);
    } else {
        lemma_ins_concat(a, b.drop_first(), c, d);
        assert((a + c)[0] != (b + d)[0]);
        assert((b + d).drop_first() =~= b.drop_first() + d);
    }
}

proof fn lemma_from_list_insertions(
    s: Seq<u8>,
    pos: int,
    fend: int,
    soft: bool,
    tid: Option<Seq<u8>>,
)
    requires
        0 <= pos <= fend <= s.len(),
    ensures
        insertions_only(s.subrange(pos, fend), inject_from_list(s, pos, fend, soft, tid)),
    decreases fend - pos, 2int,
{
    let r = skip_ws(s, pos, fend);
    let c = find_kw(s, r, fend, KwClass::Comma);
    let item = if r < fend && s[r] == 0x28 {
        let pe = paren_scan(s, r + 1, fend);
        if pe >= r + 2 && pe <= c && s[pe - 1] == 0x29 {
            s.subrange(pos, r + 1) + inject_query(s, r + 1, pe - 1, soft, tid) + s.subrange(
                pe - 1,
                c,
            )
        } else {
            s.subrange(pos, c)
        }
    } else {
        s.subrange(pos, c)
    };
    assert(insertions_only(s.subrange(pos, c), item)) by {
        if r < fend && s[r] == 0x28 {
            let pe = paren_scan(s, r + 1, fend);
            if pe >= r + 2 && pe <= c && s[pe - 1] == 0x29 {
                lemma_inject_query_insertions(s, r + 1, pe - 1, soft, tid);
                lemma_ins_refl(s.subrange(pos, r + 1));
                lemma_ins_refl(s.subrange(pe - 1, c));
                lemma_ins_concat(
                    s.subrange(pos, r + 1),
                    s.subrange(pos, r + 1),
                    s.subrange(r + 1, pe - 1),
                    inject_query(s, r + 1, pe - 1, soft, tid),
                );
                lemma_ins_concat(
                    s.subrange(pos, r + 1) + s.subrange(r + 1, pe - 1),
                    s.subrange(pos, r + 1) + inject_query(s, r + 1, pe - 1, soft, tid),
                    s.subrange(pe - 1, c),
                    s.subrange(pe - 1, c),
                );
                assert(s.subrange(pos, r + 1) + s.subrange(r + 1, pe - 1) + s.subrange(pe - 1, c)
                    =~= s.subrange(pos, c));
            } else {
                lemma_ins_refl(s.subrange(pos, c));
            }
        } else {
            lemma_ins_refl(s.subrange(pos, c));
        }
    }
    if pos <= c && c < fend {
        lemma_from_list_insertions(s, c + 1, fend, soft, tid);
        lemma_ins_refl(s.subrange(c, c + 1));
        lemma_ins_concat(s.subrange(pos, c), item, s.subrange(c, c + 1), s.subrange(c, c + 1));
        lemma_ins_concat(
            s.subrange(pos, c) + s.subrange(c, c + 1),
            item + s.subrange(c, c + 1),
            s.subrange(c + 1, fend),
            inject_from_list(s, c + 1, fend, soft, tid),
        );
        assert(s.subrange(pos, c) + s.subrange(c, c + 1) + s.subrange(c + 1, fend) =~= s.subrange(
            pos,
            fend,
        ));
    } else {
        assert(s.subrange(pos, c) =~= s.subrange(pos, fend));
    }
}

#[verifier::rlimit(100)]
proof fn lemma_inject_select_insertions(
    s: Seq<u8>,
    lo: int,
    hi: int,
    p0: int,
    soft: bool,
    tid: Option<Seq<u8>>,
)
    requires
        0 <= lo <= p0 <= hi <= s.len(),
    ensures
        insertions_only(s.subrange(lo, hi), inject_select(s, lo, hi, p0, soft, tid)),
    decreases hi - lo, 0int,
{
    let qhi = find_kw(s, p0, hi, KwClass::Semi);
    if find_kw(s, p0, qhi, KwClass::SetOp) < qhi {
        lemma_ins_refl(s.subrange(lo, hi));
    } else {
        let fpos = find_kw(s, p0, qhi, KwClass::FromKw);
        if count_idiom(s, p0, fpos) {
            if fpos < qhi {
                let r = skip_ws(s, fpos + 4, qhi);
                let w = find_kw(s, r, qhi, KwClass::WhereKw);
                let e = find_kw(s, r, qhi, KwClass::Term);
                let flend = if w <= e {
                    w
                } else {
                    e
                };
                if r <= flend {
                    lemma_from_list_insertions(s, r, flend, soft, tid);
                    lemma_ins_refl(s.subrange(lo, r));
                    lemma_ins_refl(s.subrange(flend, hi));
                    lemma_ins_concat(
                        s.subrange(lo, r),
                        s.subrange(lo, r),
                        s.subrange(r, flend),
                        inject_from_list(s, r, flend, soft, tid),
                    );
                    lemma_ins_concat(
                        s.subrange(lo, r) + s.subrange(r, flend),
                        s.subrange(lo, r) + inject_from_list(s, r, flend, soft, tid),
                        s.subrange(flend, hi),
                        s.subrange(flend, hi),
                    );
                    assert(s.subrange(lo, r) + s.subrange(r, flend) + s.subrange(flend, hi)
                        =~= s.subrange(lo, hi));
                } else {
                    lemma_ins_refl(s.subrange(lo, hi));
                }
            } else {
                lemma_ins_refl(s.subrange(lo, hi));
            }
        } else {
            let g = pred_group(soft, tid, select_alias(s, fpos, qhi));
            if g.len() == 0 {
                lemma_ins_refl(s.subrange(lo, hi));
            } else {
                let wpos = find_kw(s, p0, qhi, KwClass::WhereKw);
                if wpos < qhi {
                    let cend = find_kw(s, wpos + 5, qhi, KwClass::Term);
                    let cstart = skip_ws(s, wpos + 5, cend);
                    let ce = trim_end(s, cstart, cend);
                    if ce <= cstart {
                        lemma_ins_refl(s.subrange(lo, hi));
                    } else if find_kw(s, cstart, ce, KwClass::OrKw) < ce {
                        let cond = s.subrange(cstart, ce);
                        let tail = seq![0x29u8] + and_sep_bytes() + g + s.subrange(ce, hi);
                        lemma_ins_refl(cond);
                        lemma_ins_refl(s.subrange(ce, hi));
                        lemma_ins_prepend_seq(
                            s.subrange(ce, hi),
                            s.subrange(ce, hi),
                            seq![0x29u8] + and_sep_bytes() + g,
                        );
                        assert(seq![0x29u8] + and_sep_bytes() + g + s.subrange(ce, hi) =~= (seq![
                            0x29u8,
                        ] + and_sep_bytes() + g) + s.subrange(ce, hi));
                        lemma_ins_concat(cond, cond, s.subrange(ce, hi), tail);
                        lemma_ins_prepend(cond + s.subrange(ce, hi), cond + tail, 0x28);
                        lemma_ins_refl(s.subrange(lo, cstart));
                        lemma_ins_concat(
                            s.subrange(lo, cstart),
                            s.subrange(lo, cstart),
                            cond + s.subrange(ce, hi),
                            seq![0x28u8] + (cond + tail),
                        );
                        assert(s.subrange(lo, cstart) + (cond + s.subrange(ce, hi)) =~= s.subrange(
                            lo,
                            hi,
                        ));
                        assert(s.subrange(lo, cstart) + (seq![0x28u8] + (cond + tail))
                            =~= s.subrange(lo, cstart) + seq![0x28u8] + cond + seq![0x29u8]
                            + and_sep_bytes() + g + s.subrange(ce, hi));
                    } else {
                        lemma_splice_insertions(s, lo, ce, hi, and_sep_bytes() + g);
                        assert(s.subrange(lo, ce) + (and_sep_bytes() + g) + s.subrange(ce, hi)
                            =~= s.subrange(lo, ce) + and_sep_bytes() + g + s.subrange(ce, hi));
                    }
                } else {
                    let base = if fpos < qhi {
                        fpos + 4
                    } else {
                        p0
                    };
                    let tpos = find_kw(s, base, qhi, KwClass::Term);
                    let ip = trim_end(s, base, tpos);
                    lemma_splice_insertions(s, lo, ip, hi, where_sep_bytes() + g);
                    assert(s.subrange(lo, ip) + (where_sep_bytes() + g) + s.subrange(ip, hi)
                        =~= s.subrange(lo, ip) + where_sep_bytes() + g + s.subrange(ip, hi));
                }
            }
        }
    }
}

/// One block inserted at `p` leaves the span's own text intact around it.
proof fn lemma_splice_insertions(s: Seq<u8>, lo: int, p: int, hi: int, ins: Seq<u8>)
    requires
        0 <= lo <= p <= hi <= s.len(),
    ensures
        insertions_only(s.subrange(lo, hi), s.subrange(lo, p) + ins + s.subrange(p, hi)),
{
    lemma_ins_refl(s.subrange(lo, p));
    lemma_ins_refl(s.subrange(p, hi));
    lemma_ins_prepend_seq(s.subrange(p, hi), s.subrange(p, hi), ins);
    lemma_ins_concat(
        s.subrange(lo, p),
        s.subrange(lo, p),
        s.subrange(p, hi),
        ins + s.subrange(p, hi),
    );
    assert(s.subrange(lo, p) + s.subrange(p, hi) =~= s.subrange(lo, hi));
    assert(s.subrange(lo, p) + (ins + s.subrange(p, hi)) =~= s.subrange(lo, p) + ins + s.subrange(
        p,
        hi,
    ));
}

proof fn lemma_inject_query_insertions(s: Seq<u8>, lo: int, hi: int, soft: bool, tid: Option<
    Seq<u8>,
>)
    requires
        0 <= lo <= hi <= s.len(),
    ensures
        insertions_only(s.subrange(lo, hi), inject_query(s, lo, hi, soft, tid)),
    decreases hi - lo, 1int,
{
    let i = skip_ws(s, lo, hi);
    if i < hi && s[i] == 0x28 {
        let pe = paren_scan(s, i + 1, hi);
        if pe >= i + 2 && pe <= hi && s[pe - 1] == 0x29 && skip_ws(s, pe, hi) >= hi {
            lemma_inject_query_insertions(s, i + 1, pe - 1, soft, tid);
            lemma_ins_refl(s.subrange(lo, i + 1));
            lemma_ins_refl(s.subrange(pe - 1, hi));
            lemma_ins_concat(
                s.subrange(lo, i + 1),
                s.subrange(lo, i + 1),
                s.subrange(i + 1, pe - 1),
                inject_query(s, i + 1, pe - 1, soft, tid),
            );
            lemma_ins_concat(
                s.subrange(lo, i + 1) + s.subrange(i + 1, pe - 1),
                s.subrange(lo, i + 1) + inject_query(s, i + 1, pe - 1, soft, tid),
                s.subrange(pe - 1, hi),
                s.subrange(pe - 1, hi),
            );
            assert(s.subrange(lo, i + 1) + s.subrange(i + 1, pe - 1) + s.subrange(pe - 1, hi)
                =~= s.subrange(lo, hi));
        } else {
            lemma_ins_refl(s.subrange(lo, hi));
        }
    } else if word_at(s, i, hi, kw_select()) {
        lemma_inject_select_insertions(s, lo, hi, i + 6, soft, tid);
    } else {
        lemma_ins_refl(s.subrange(lo, hi));
    }
}

/// Law: a rewritten statement holds every byte of the original, in order —
/// rewriting only inserts predicate text; it never deletes or reorders any
/// part of the original statement, so projections, ordering, grouping and
/// the existing condition's own text all stand unchanged around the
/// insertions.
pub proof fn lemma_rewrite_insertions_only(
    s: Seq<u8>,
    soft: bool,
    tf: bool,
    tid_raw: Option<Seq<u8>>,
    skips: Set<Seq<u8>>,
)
    ensures
        rewrite_spec(s, soft, tf, tid_raw, skips) is Some ==> insertions_only(
            s,
            rewrite_spec(s, soft, tf, tid_raw, skips)->0,
        ),
{
    if rewrite_spec(s, soft, tf, tid_raw, skips) is Some {
        lemma_inject_query_insertions(s, 0, s.len() as int, soft, effective_tenant(tf, tid_raw));
        assert(s.subrange(0, s.len() as int) =~= s);
    }
}

// ---------------------------------------------------------------------------
// Rewritten statements carry the tenant conjunct
// ---------------------------------------------------------------------------
/// `out` holds the tenant conjunct `<qualifier>tenant_id = '<tenant>'`, for
/// some qualifier, as one contiguous segment.
pub open spec fn carries_tenant(out: Seq<u8>, tid: Seq<u8>) -> bool {
    exists|a: Option<Seq<u8>>, k: int|
        0 <= k && k + tenant_pred(a, tid).len() <= out.len() && #[trigger] out.subrange(
            k,
            k + tenant_pred(a, tid).len(),
        ) == tenant_pred(a, tid)
}

proof fn lemma_carries_left(x: Seq<u8>, y: Seq<u8>, tid: Seq<u8>)
    requires
        carries_tenant(x, tid),
    ensures
        carries_tenant(x + y, tid),
{
    let (a, k) = choose|a: Option<Seq<u8>>, k: int|
        0 <= k && k + tenant_pred(a, tid).len() <= x.len() && #[trigger] x.subrange(
            k,
            k + tenant_pred(a, tid).len(),
        ) == tenant_pred(a, tid);
    assert((x + y).subrange(k, k + tenant_pred(a, tid).len()) =~= x.subrange(
        k,
        k + tenant_pred(a, tid).len(),
    ));
}

proof fn lemma_carries_right(x: Seq<u8>, y: Seq<u8>, tid: Seq<u8>)
    requires
        carries_tenant(y, tid),
    ensures
        carries_tenant(x + y, tid),
{
    let (a, k) = choose|a: Option<Seq<u8>>, k: int|
        0 <= k && k + tenant_pred(a, tid).len() <= y.len() && #[trigger] y.subrange(
            k,
            k + tenant_pred(a, tid).len(),
        ) == tenant_pred(a, tid);
    let k2 = x.len() + k;
    assert((x + y).subrange(k2 as int, k2 + tenant_pred(a, tid).len()) =~= y.subrange(
        k,
        k + tenant_pred(a, tid).len(),
    ));
}

proof fn lemma_group_carries(soft: bool, tid: Seq<u8>, alias: Option<Seq<u8>>)
    ensures
        carries_tenant(pred_group(soft, Some(tid), alias), tid),
{
    lemma_pred_group_carries_tenant(soft, tid, alias);
}

proof fn lemma_from_list_tenant(s: Seq<u8>, pos: int, fend: int, soft: bool, tid: Seq<u8>)
    requires
        0 <= pos <= fend <= s.len(),
    ensures
        inject_from_list(s, pos, fend, soft, Some(tid)) == s.subrange(pos, fend)
            || carries_tenant(inject_from_list(s, pos, fend, soft, Some(tid)), tid),
    decreases fend - pos, 2int,
{
    let r = skip_ws(s, pos, fend);
    let c = find_kw(s, r, fend, KwClass::Comma);
    let item = if r < fend && s[r] == 0x28 {
        let pe = paren_scan(s, r + 1, fend);
        if pe >= r + 2 && pe <= c && s[pe - 1] == 0x29 {
            s.subrange(pos, r + 1) + inject_query(s, r + 1, pe - 1, soft, Some(tid)) + s.subrange(
                pe - 1,
                c,
            )
        } else {
            s.subrange(pos, c)
        }
    } else {
        s.subrange(pos, c)
    };
    assert(item == s.subrange(pos, c) || carries_tenant(item, tid)) by {
        if r < fend && s[r] == 0x28 {
            let pe = paren_scan(s, r + 1, fend);
            if pe >= r + 2 && pe <= c && s[pe - 1] == 0x29 {
                lemma_inject_query_tenant(s, r + 1, pe - 1, soft, tid);
                let mid = inject_query(s, r + 1, pe - 1, soft, Some(tid));
                if mid == s.subrange(r + 1, pe - 1) {
                    assert(item =~= s.subrange(pos, c));
                } else {
                    lemma_carries_right(s.subrange(pos, r + 1), mid, tid);
                    lemma_carries_left(s.subrange(pos, r + 1) + mid, s.subrange(pe - 1, c), tid);
                }
            }
        }
    }
    if pos <= c && c < fend {
        lemma_from_list_tenant(s, c + 1, fend, soft, tid);
        let rest = inject_from_list(s, c + 1, fend, soft, Some(tid));
        if carries_tenant(item, tid) {
            lemma_carries_left(item, s.subrange(c, c + 1), tid);
            lemma_carries_left(item + s.subrange(c, c + 1), rest, tid);
        } else if carries_tenant(rest, tid) {
            lemma_carries_right(item + s.subrange(c, c + 1), rest, tid);
        } else {
            assert(item + s.subrange(c, c + 1) + rest =~= s.subrange(pos, fend));
        }
    }
}

proof fn lemma_inject_select_tenant(
    s: Seq<u8>,
    lo: int,
    hi: int,
    p0: int,
    soft: bool,
    tid: Seq<u8>,
)
    requires
        0 <= lo <= p0 <= hi <= s.len(),
    ensures
        inject_select(s, lo, hi, p0, soft, Some(tid)) == s.subrange(lo, hi) || carries_tenant(
            inject_select(s, lo, hi, p0, soft, Some(tid)),
            tid,
        ),
    decreases hi - lo, 0int,
{
    let qhi = find_kw(s, p0, hi, KwClass::Semi);
    if find_kw(s, p0, qhi, KwClass::SetOp) < qhi {
    } else {
        let fpos = find_kw(s, p0, qhi, KwClass::FromKw);
        if count_idiom(s, p0, fpos) {
            if fpos < qhi {
                let r = skip_ws(s, fpos + 4, qhi);
                let w = find_kw(s, r, qhi, KwClass::WhereKw);
                let e = find_kw(s, r, qhi, KwClass::Term);
                let flend = if w <= e {
                    w
                } else {
                    e
                };
                if r <= flend {
                    lemma_from_list_tenant(s, r, flend, soft, tid);
                    let mid = inject_from_list(s, r, flend, soft, Some(tid));
                    if mid == s.subrange(r, flend) {
                        assert(s.subrange(lo, r) + mid + s.subrange(flend, hi) =~= s.subrange(
                            lo,
                            hi,
                        ));
                    } else {
                        lemma_carries_right(s.subrange(lo, r), mid, tid);
                        lemma_carries_left(s.subrange(lo, r) + mid, s.subrange(flend, hi), tid);
                    }
                }
            }
        } else {
            let alias = select_alias(s, fpos, qhi);
            let g = pred_group(soft, Some(tid), alias);
            if g.len() == 0 {
            } else {
                lemma_group_carries(soft, tid, alias);
                let wpos = find_kw(s, p0, qhi, KwClass::WhereKw);
                if wpos < qhi {
                    let cend = find_kw(s, wpos + 5, qhi, KwClass::Term);
                    let cstart = skip_ws(s, wpos + 5, cend);
                    let ce = trim_end(s, cstart, cend);
                    if ce <= cstart {
                    } else if find_kw(s, cstart, ce, KwClass::OrKw) < ce {
                        let pre = s.subrange(lo, cstart) + seq![0x28u8] + s.subrange(cstart, ce)
                            + seq![0x29u8] + and_sep_bytes();
                        lemma_carries_right(pre, g, tid);
                        lemma_carries_left(pre + g, s.subrange(ce, hi), tid);
                    } else {
                        let pre = s.subrange(lo, ce) + and_sep_bytes();
                        lemma_carries_right(pre, g, tid);
                        lemma_carries_left(pre + g, s.subrange(ce, hi), tid);
                    }
                } else {
                    let base = if fpos < qhi {
                        fpos + 4
                    } else {
                        p0
                    };
                    let tpos = find_kw(s, base, qhi, KwClass::Term);
                    let ip = trim_end(s, base, tpos);
                    let pre = s.subrange(lo, ip) + where_sep_bytes();
                    lemma_carries_right(pre, g, tid);
                    lemma_carries_left(pre + g, s.subrange(ip, hi), tid);
                }
            }
        }
    }
}

proof fn lemma_inject_query_tenant(s: Seq<u8>, lo: int, hi: int, soft: bool, tid: Seq<u8>)
    requires
        0 <= lo <= hi <= s.len(),
    ensures
        inject_query(s, lo, hi, soft, Some(tid)) == s.subrange(lo, hi) || carries_tenant(
            inject_query(s, lo, hi, soft, Some(tid)),
            tid,
        ),
    decreases hi - lo, 1int,
{
    let i = skip_ws(s, lo, hi);
    if i < hi && s[i] == 0x28 {
        let pe = paren_scan(s, i + 1, hi);
        if pe >= i + 2 && pe <= hi && s[pe - 1] == 0x29 && skip_ws(s, pe, hi) >= hi {
            lemma_inject_query_tenant(s, i + 1, pe - 1, soft, tid);
            let mid = inject_query(s, i + 1, pe - 1, soft, Some(tid));
            if mid == s.subrange(i + 1, pe - 1) {
                assert(s.subrange(lo, i + 1) + mid + s.subrange(pe - 1, hi) =~= s.subrange(
                    lo,
                    hi,
                ));
            } else {
                lemma_carries_right(s.subrange(lo, i + 1), mid, tid);
                lemma_carries_left(s.subrange(lo, i + 1) + mid, s.subrange(pe - 1, hi), tid);
            }
        }
    } else if word_at(s, i, hi, kw_select()) {
        lemma_inject_select_tenant(s, lo, hi, i + 6, soft, tid);
    }
}

/// Law: when tenant filtering applies — the filter enabled and the context
/// carrying a non-empty tenant id — every statement the engine rewrites
/// carries the tenant conjunct `<qualifier>tenant_id = '<tenant>'` in its
/// text, qualified by whichever alias its target SELECT resolved.
pub proof fn lemma_rewrite_carries_tenant(
    s: Seq<u8>,
    soft: bool,
    tid: Seq<u8>,
    skips: Set<Seq<u8>>,
)
    requires
        tid.len() > 0,
    ensures
        rewrite_spec(s, soft, true, Some(tid), skips) is Some ==> carries_tenant(
            rewrite_spec(s, soft, true, Some(tid), skips)->0,
            tid,
        ),
{
    if rewrite_spec(s, soft, true, Some(tid), skips) is Some {
        lemma_inject_query_tenant(s, 0, s.len() as int, soft, tid);
        assert(s.subrange(0, s.len() as int) =~= s);
    }
}

// ---------------------------------------------------------------------------
// Laws
// ---------------------------------------------------------------------------
/// Law: a statement whose leading keyword is not `SELECT` passes through
/// unchanged, whatever the policy, context and skip-list — no part of it is
/// even parsed.
pub proof fn lemma_non_select_unchanged(
    s: Seq<u8>,
    soft: bool,
    tf: bool,
    tid_raw: Option<Seq<u8>>,
    skips: Set<Seq<u8>>,
)
    requires
        !select_prefix(s),
    ensures
        rewrite_spec(s, soft, tf, tid_raw, skips) is None,
{
}

/// Law: a SELECT whose resolved driving table is in the skip-list passes
/// through unchanged, whatever the policy and context.
pub proof fn lemma_skip_table_unchanged(
    s: Seq<u8>,
    soft: bool,
    tf: bool,
    tid_raw: Option<Seq<u8>>,
    skips: Set<Seq<u8>>,
)
    requires
        extract_table(s, 0, s.len() as int) is Some,
        skips.contains(folded_name(extract_table(s, 0, s.len() as int)->0)),
    ensures
        rewrite_spec(s, soft, tf, tid_raw, skips) is None,
{
}

/// Law: a statement in which no driving table is resolvable — unparseable
/// text included — passes through unchanged; resolution failure is never an
/// error.
pub proof fn lemma_unresolvable_unchanged(
    s: Seq<u8>,
    soft: bool,
    tf: bool,
    tid_raw: Option<Seq<u8>>,
    skips: Set<Seq<u8>>,
)
    requires
        extract_table(s, 0, s.len() as int) is None,
    ensures
        rewrite_spec(s, soft, tf, tid_raw, skips) is None,
{
}

/// Law: whenever tenant filtering applies, the injected block carries the
/// tenant conjunct `<qualifier>tenant_id = '<tenant>'` — qualified by the
/// alias when one exists, the value quoted and escaped — as one contiguous
/// segment of the block.
pub proof fn lemma_pred_group_carries_tenant(soft: bool, tid: Seq<u8>, alias: Option<Seq<u8>>)
    ensures
        exists|k: int|
            0 <= k && k + tenant_pred(alias, tid).len() <= pred_group(soft, Some(tid), alias).len()
                && #[trigger] pred_group(soft, Some(tid), alias).subrange(
                k,
                k + tenant_pred(alias, tid).len(),
            ) == tenant_pred(alias, tid),
{
    let tp = tenant_pred(alias, tid);
    let g = pred_group(soft, Some(tid), alias);
    if soft {
        let k: int = 1 + soft_pred(alias).len() as int + and_sep_bytes().len() as int;
        assert(g.subrange(k, k + tp.len()) =~= tp);
        assert(0 <= k && k + tenant_pred(alias, tid).len() <= pred_group(soft, Some(tid), alias).len()
            && pred_group(soft, Some(tid), alias).subrange(k, k + tenant_pred(alias, tid).len())
            == tenant_pred(alias, tid));
    } else {
        let k: int = 0;
        assert(g.subrange(k, k + tp.len()) =~= tp);
        assert(0 <= k && k + tenant_pred(alias, tid).len() <= pred_group(soft, Some(tid), alias).len()
            && pred_group(soft, Some(tid), alias).subrange(k, k + tenant_pred(alias, tid).len())
            == tenant_pred(alias, tid));
    }
}

/// Law: with an absent or empty tenant id in the context, rewriting behaves
/// exactly as if tenant filtering were disabled — no tenant predicate is
/// injected even though the filter is enabled.
pub proof fn lemma_empty_tenant_like_disabled(
    s: Seq<u8>,
    soft: bool,
    tid_raw: Option<Seq<u8>>,
    skips: Set<Seq<u8>>,
)
    requires
        tid_raw is None || tid_raw->0.len() == 0,
    ensures
        rewrite_spec(s, soft, true, tid_raw, skips) == rewrite_spec(s, soft, false, tid_raw, skips),
{
    assert(effective_tenant(true, tid_raw) == effective_tenant(false, tid_raw));
}

} // verus!
