//! What the position automaton of an expression accepts.
//!
//! The Glushkov construction gives each literal byte and each byte class of
//! an expression a position. A stretch of input is accepted when it is empty
//! and the expression is nullable, or when a sequence of positions spells it:
//! the first is a first position, each next one follows the one before, the
//! last is a last position, and each accepts the byte under it.
use crate::bits::u64_set;
use crate::hir::{Hir, HirExpr, HirRepeat};
use crate::nfa::glushkov::{
    g_bytes, g_bytes_seq, g_first, g_first_alt, g_first_concat, g_follow, g_follow_alt,
    g_follow_concat, g_last, g_last_alt, g_last_concat, g_loops, lemma_g_ranges, lemma_g_ranges_alt,
    lemma_g_ranges_concat, g_npos, g_npos_seq, g_nullable,
    g_nullable_alt, g_nullable_concat, g_supported, g_supported_seq, glushkov_accepts, GlushkovNfa,
    GlushkovWideNfa, MAX_POSITIONS, MAX_POSITIONS_WIDE,
};
use crate::nfa::language::{
    cuts_span, hir_matches, iter_matches, lemma_concat_matches, lemma_iter_last, lemma_iter_one_intro,
    lemma_iter_zero, lemma_iter_zero_intro, lemma_repeat_count, lemma_seq_empty, lemma_seq_last,
    seq_matches,
};
use vstd::prelude::*;

verus! {

/// A position automaton: whether it accepts the empty string, its first and
/// last positions, the positions that may follow each position, the bytes
/// each position accepts, and the range `lo..hi` of its positions.
pub struct PosAut {
    pub nullable: bool,
    pub first: Set<int>,
    pub last: Set<int>,
    pub follow: spec_fn(int) -> Set<int>,
    pub bytes: spec_fn(int) -> Set<u8>,
    pub lo: int,
    pub hi: int,
}

/// Whether position `ps[t]` is one of `a`'s and accepts the byte under it,
/// `input[i + t]`.
pub open spec fn reads_at(a: PosAut, input: Seq<u8>, i: int, ps: Seq<int>, t: int) -> bool {
    &&& a.lo <= ps[t] < a.hi
    &&& 0 <= i + t < input.len()
    &&& (a.bytes)(ps[t]).contains(input[i + t])
}

/// Whether position `ps[t + 1]` may follow position `ps[t]` in `a`.
pub open spec fn moves_at(a: PosAut, ps: Seq<int>, t: int) -> bool {
    (a.follow)(ps[t]).contains(ps[t + 1])
}

/// Whether the positions `ps`, one after another, spell the input from `i` on.
pub open spec fn pos_path(a: PosAut, input: Seq<u8>, i: int, ps: Seq<int>) -> bool {
    &&& forall|t: int| 0 <= t < ps.len() ==> #[trigger] reads_at(a, input, i, ps, t)
    &&& forall|t: int| 0 <= t < ps.len() - 1 ==> #[trigger] moves_at(a, ps, t)
}

/// Whether `a` accepts `input[i..j]`.
pub open spec fn pos_accepts(a: PosAut, input: Seq<u8>, i: int, j: int) -> bool {
    if i == j {
        a.nullable
    } else {
        exists|ps: Seq<int>|
            #[trigger] pos_path(a, input, i, ps) && ps.len() == j - i && a.first.contains(ps[0])
                && a.last.contains(ps[ps.len() - 1])
    }
}

/// Whether every path of `a` is one of `b`: `b` has `a`'s positions, and at
/// each of them at least the moves and bytes of `a`.
pub open spec fn embeds_path(a: PosAut, b: PosAut) -> bool {
    &&& b.lo <= a.lo
    &&& a.hi <= b.hi
    &&& forall|p: int| a.lo <= p < a.hi ==> (#[trigger] (a.follow)(p)).subset_of((b.follow)(p))
    &&& forall|p: int| a.lo <= p < a.hi ==> (#[trigger] (a.bytes)(p)).subset_of((b.bytes)(p))
}

/// Whether everything `a` accepts, `b` accepts.
pub open spec fn embeds(a: PosAut, b: PosAut) -> bool {
    &&& embeds_path(a, b)
    &&& a.nullable ==> b.nullable
    &&& a.first.subset_of(b.first)
    &&& a.last.subset_of(b.last)
}

/// The position automaton of `e`, its positions numbered from `off`.
pub open spec fn g_aut(e: HirExpr, off: int) -> PosAut {
    PosAut {
        nullable: g_nullable(e),
        first: g_first(e, off),
        last: g_last(e, off),
        follow: |p: int| g_follow(e, off, p),
        bytes: |p: int| g_bytes(e, p - off),
        lo: off,
        hi: off + g_npos(e),
    }
}

/// The position automaton of the concatenation of `es`.
pub open spec fn g_aut_concat(es: Seq<HirExpr>, off: int) -> PosAut {
    PosAut {
        nullable: g_nullable_concat(es),
        first: g_first_concat(es, off),
        last: g_last_concat(es, off),
        follow: |p: int| g_follow_concat(es, off, p),
        bytes: |p: int| g_bytes_seq(es, p - off),
        lo: off,
        hi: off + g_npos_seq(es),
    }
}

/// The position automaton of the alternation of `es`.
pub open spec fn g_aut_alt(es: Seq<HirExpr>, off: int) -> PosAut {
    PosAut {
        nullable: g_nullable_alt(es),
        first: g_first_alt(es, off),
        last: g_last_alt(es, off),
        follow: |p: int| g_follow_alt(es, off, p),
        bytes: |p: int| g_bytes_seq(es, p - off),
        lo: off,
        hi: off + g_npos_seq(es),
    }
}

proof fn lemma_path_transfer(a: PosAut, b: PosAut, input: Seq<u8>, i: int, ps: Seq<int>)
    requires
        embeds_path(a, b),
        pos_path(a, input, i, ps),
    ensures
        pos_path(b, input, i, ps),
{
    assert forall|t: int| 0 <= t < ps.len() implies #[trigger] reads_at(b, input, i, ps, t) by {
        assert(reads_at(a, input, i, ps, t));
        assert((a.bytes)(ps[t]).subset_of((b.bytes)(ps[t])));
    }
    assert forall|t: int| 0 <= t < ps.len() - 1 implies #[trigger] moves_at(b, ps, t) by {
        assert(moves_at(a, ps, t));
        assert(reads_at(a, input, i, ps, t));
        assert((a.follow)(ps[t]).subset_of((b.follow)(ps[t])));
    }
}

proof fn lemma_accepts_transfer(a: PosAut, b: PosAut, input: Seq<u8>, i: int, j: int)
    requires
        embeds(a, b),
        pos_accepts(a, input, i, j),
    ensures
        pos_accepts(b, input, i, j),
{
    if i != j {
        let ps = choose|ps: Seq<int>|
            #[trigger] pos_path(a, input, i, ps) && ps.len() == j - i && a.first.contains(ps[0])
                && a.last.contains(ps[ps.len() - 1]);
        lemma_path_transfer(a, b, input, i, ps);
        assert(pos_path(b, input, i, ps));
    }
}

proof fn lemma_path_append(a: PosAut, input: Seq<u8>, i: int, ps1: Seq<int>, ps2: Seq<int>)
    requires
        ps1.len() > 0,
        ps2.len() > 0,
        pos_path(a, input, i, ps1),
        pos_path(a, input, i + ps1.len(), ps2),
        (a.follow)(ps1[ps1.len() - 1]).contains(ps2[0]),
    ensures
        pos_path(a, input, i, ps1 + ps2),
{
    let ps = ps1 + ps2;
    let n1 = ps1.len() as int;
    assert forall|t: int| 0 <= t < ps.len() implies #[trigger] reads_at(a, input, i, ps, t) by {
        if t < n1 {
            assert(reads_at(a, input, i, ps1, t));
        } else {
            assert(reads_at(a, input, i + n1, ps2, t - n1));
        }
    }
    assert forall|t: int| 0 <= t < ps.len() - 1 implies #[trigger] moves_at(a, ps, t) by {
        if t < n1 - 1 {
            assert(moves_at(a, ps1, t));
        } else if t == n1 - 1 {
        } else {
            assert(moves_at(a, ps2, t - n1));
        }
    }
}

/// The position automaton of an expression accepts everything the
/// expression matches: wherever `e` matches `input[i..j]`, the stretch is
/// empty and `e` is nullable, or positions of `e` spell it from a first
/// position through positions that follow one another to a last position.
/// So a repetition that may run its body more than once can go from a last
/// position of the body back to a first one.
pub proof fn lemma_positions_accept_matches(e: HirExpr, off: int, input: Seq<u8>, i: int, j: int)
    requires
        g_supported(e),
        hir_matches(e, input, i, j),
    ensures
        pos_accepts(g_aut(e, off), input, i, j),
        i <= j,
    decreases e, 1nat,
{
    match e {
        HirExpr::Literal(b) => {
            let n = b@.len() as int;
            if n > 0 {
                let ps = Seq::new(n as nat, |t: int| off + t);
                let a = g_aut(e, off);
                assert forall|t: int| 0 <= t < ps.len() implies #[trigger] reads_at(a, input, i, ps, t) by {
                    assert(input.subrange(i, j)[t] == input[i + t]);
                    assert(g_bytes(e, t) == set![b@[t]]);
                }
                assert forall|t: int| 0 <= t < ps.len() - 1 implies #[trigger] moves_at(a, ps, t) by {
                    assert(g_follow(e, off, off + t) == set![off + t + 1]);
                }
                assert(pos_path(a, input, i, ps));
                assert(g_first(e, off) == set![off]);
                assert(g_last(e, off) == set![off + n - 1]);
                assert(ps[ps.len() - 1] == off + n - 1);
            }
        },
        HirExpr::Class(c) => {
            let ps = seq![off];
            let a = g_aut(e, off);
            assert(reads_at(a, input, i, ps, 0));
            assert(pos_path(a, input, i, ps));
        },
        HirExpr::Capture(c) => {
            lemma_positions_accept_matches(c.expr, off, input, i, j);
            lemma_accepts_transfer(g_aut(c.expr, off), g_aut(e, off), input, i, j);
        },
        HirExpr::Concat(es) => {
            lemma_concat_matches(es, input, i, j);
            lemma_accepts_concat(es@, off, input, i, j);
            lemma_accepts_transfer(g_aut_concat(es@, off), g_aut(e, off), input, i, j);
        },
        HirExpr::Alt(es) => {
            let k = choose|k: int| 0 <= k < es@.len() && hir_matches(#[trigger] es@[k], input, i, j);
            lemma_accepts_alt(es@, k, off, input, i, j);
            lemma_accepts_transfer(g_aut_alt(es@, off), g_aut(e, off), input, i, j);
        },
        HirExpr::Repeat(r) => {
            assert forall|a: int, b: int| hir_matches(r.expr, input, a, b) implies pos_accepts(
                g_aut(r.expr, off),
                input,
                a,
                b,
            ) && a <= b by {
                lemma_positions_accept_matches(r.expr, off, input, a, b);
            }
            lemma_repeat_count(r, input, i, j);
            let n = choose|n: nat|
                r.min <= n && (r.max matches Some(m) ==> n <= m) && #[trigger] iter_matches(r.expr, n, input, i, j);
            lemma_accepts_iter(r, off, n, input, i, j);
        },
        _ => {},
    }
}

/// The concatenation of `es` accepts what its parts match one after another.
proof fn lemma_accepts_concat(es: Seq<HirExpr>, off: int, input: Seq<u8>, i: int, j: int)
    requires
        g_supported_seq(es),
        seq_matches(es, input, i, j),
    ensures
        pos_accepts(g_aut_concat(es, off), input, i, j),
        i <= j,
    decreases es, 0nat,
{
    if es.len() == 0 {
        lemma_seq_empty(es, input, i, j);
    } else {
        lemma_seq_last(es, input, i, j);
        let m = choose|m: int| seq_matches(es.drop_last(), input, i, m) && #[trigger] hir_matches(es.last(), input, m, j);
        let d = es.drop_last();
        let l = es.last();
        let off2 = off + g_npos_seq(d);
        lemma_accepts_concat(d, off, input, i, m);
        lemma_positions_accept_matches(l, off2, input, m, j);
        let ad = g_aut_concat(d, off);
        let al = g_aut(l, off2);
        let c = g_aut_concat(es, off);
        assert(embeds_path(ad, c)) by {
            assert forall|p: int| ad.lo <= p < ad.hi implies (#[trigger] (ad.bytes)(p)).subset_of((c.bytes)(p)) by {
                assert(g_bytes_seq(es, p - off) == g_bytes_seq(d, p - off));
            }
        }
        assert(embeds_path(al, c)) by {
            assert forall|p: int| al.lo <= p < al.hi implies (#[trigger] (al.bytes)(p)).subset_of((c.bytes)(p)) by {
                assert(g_bytes_seq(es, p - off) == g_bytes(l, p - off2));
            }
        }
        if i == m {
            if m != j {
                let ps = choose|ps: Seq<int>|
                    #[trigger] pos_path(al, input, m, ps) && ps.len() == j - m && al.first.contains(ps[0])
                        && al.last.contains(ps[ps.len() - 1]);
                lemma_path_transfer(al, c, input, m, ps);
                assert(pos_path(c, input, i, ps));
            }
        } else {
            let ps1 = choose|ps: Seq<int>|
                #[trigger] pos_path(ad, input, i, ps) && ps.len() == m - i && ad.first.contains(ps[0])
                    && ad.last.contains(ps[ps.len() - 1]);
            lemma_path_transfer(ad, c, input, i, ps1);
            if m == j {
                assert(pos_path(c, input, i, ps1));
            } else {
                let ps2 = choose|ps: Seq<int>|
                    #[trigger] pos_path(al, input, m, ps) && ps.len() == j - m && al.first.contains(ps[0])
                        && al.last.contains(ps[ps.len() - 1]);
                lemma_path_transfer(al, c, input, m, ps2);
                assert((c.follow)(ps1[ps1.len() - 1]).contains(ps2[0]));
                lemma_path_append(c, input, i, ps1, ps2);
                let ps = ps1 + ps2;
                assert(ps[0] == ps1[0]);
                assert(ps[ps.len() - 1] == ps2[ps2.len() - 1]);
                assert(pos_path(c, input, i, ps));
            }
        }
    }
}

/// The alternation of `es` accepts what its alternative `k` matches.
proof fn lemma_accepts_alt(es: Seq<HirExpr>, k: int, off: int, input: Seq<u8>, i: int, j: int)
    requires
        g_supported_seq(es),
        0 <= k < es.len(),
        hir_matches(es[k], input, i, j),
    ensures
        pos_accepts(g_aut_alt(es, off), input, i, j),
        i <= j,
    decreases es, 0nat,
{
    let d = es.drop_last();
    let l = es.last();
    let off2 = off + g_npos_seq(d);
    let c = g_aut_alt(es, off);
    if k == es.len() - 1 {
        lemma_positions_accept_matches(l, off2, input, i, j);
        let al = g_aut(l, off2);
        assert(embeds(al, c)) by {
            assert forall|p: int| al.lo <= p < al.hi implies (#[trigger] (al.bytes)(p)).subset_of((c.bytes)(p)) by {
                assert(g_bytes_seq(es, p - off) == g_bytes(l, p - off2));
            }
        }
        lemma_accepts_transfer(al, c, input, i, j);
    } else {
        assert(d[k] == es[k]);
        lemma_accepts_alt(d, k, off, input, i, j);
        let ad = g_aut_alt(d, off);
        assert(embeds(ad, c)) by {
            assert forall|p: int| ad.lo <= p < ad.hi implies (#[trigger] (ad.bytes)(p)).subset_of((c.bytes)(p)) by {
                assert(g_bytes_seq(es, p - off) == g_bytes_seq(d, p - off));
            }
        }
        lemma_accepts_transfer(ad, c, input, i, j);
    }
}

/// `n` matches of a repetition's body, one after another, are accepted by the
/// repetition's automaton, from a first position of the body to a last one.
proof fn lemma_accepts_iter(r: Box<HirRepeat>, off: int, n: nat, input: Seq<u8>, i: int, j: int)
    requires
        g_supported(r.expr),
        forall|a: int, b: int|
            #[trigger] hir_matches(r.expr, input, a, b) ==> pos_accepts(g_aut(r.expr, off), input, a, b) && a <= b,
        r.max matches Some(m) ==> n <= m,
        iter_matches(r.expr, n, input, i, j),
    ensures
        i <= j,
        n == 0 ==> i == j,
        i == j ==> (n == 0 || g_nullable(r.expr)),
        i < j ==> exists|ps: Seq<int>|
            #[trigger] pos_path(g_aut(HirExpr::Repeat(r), off), input, i, ps) && ps.len() == j - i
                && g_first(r.expr, off).contains(ps[0]) && g_last(r.expr, off).contains(ps[ps.len() - 1]),
    decreases n,
{
    if n == 0 {
        lemma_iter_zero(r.expr, input, i, j);
    } else {
        lemma_iter_last(r.expr, n, input, i, j);
        let m = choose|m: int|
            iter_matches(r.expr, (n - 1) as nat, input, i, m) && #[trigger] hir_matches(r.expr, input, m, j);
        lemma_accepts_iter(r, off, (n - 1) as nat, input, i, m);
        assert(pos_accepts(g_aut(r.expr, off), input, m, j) && m <= j);
        let ab = g_aut(r.expr, off);
        let ar = g_aut(HirExpr::Repeat(r), off);
        assert(embeds_path(ab, ar));
        if i == m {
            if m != j {
                let ps = choose|ps: Seq<int>|
                    #[trigger] pos_path(ab, input, m, ps) && ps.len() == j - m && ab.first.contains(ps[0])
                        && ab.last.contains(ps[ps.len() - 1]);
                lemma_path_transfer(ab, ar, input, m, ps);
                assert(pos_path(ar, input, i, ps));
            }
        } else if m != j {
            let ps1 = choose|ps: Seq<int>|
                #[trigger] pos_path(ar, input, i, ps) && ps.len() == m - i && g_first(r.expr, off).contains(ps[0])
                    && g_last(r.expr, off).contains(ps[ps.len() - 1]);
            let ps2 = choose|ps: Seq<int>|
                #[trigger] pos_path(ab, input, m, ps) && ps.len() == j - m && ab.first.contains(ps[0])
                    && ab.last.contains(ps[ps.len() - 1]);
            lemma_path_transfer(ab, ar, input, m, ps2);
            assert(g_loops(*r));
            assert((ar.follow)(ps1[ps1.len() - 1]).contains(ps2[0]));
            lemma_path_append(ar, input, i, ps1, ps2);
            let ps = ps1 + ps2;
            assert(ps[0] == ps1[0]);
            assert(ps[ps.len() - 1] == ps2[ps2.len() - 1]);
            assert(pos_path(ar, input, i, ps));
        }
    }
}

/// The position automaton held in the tables of a built automaton.
pub open spec fn table_aut(nfa: GlushkovNfa) -> PosAut {
    PosAut {
        nullable: nfa.nullable,
        first: u64_set(nfa.first),
        last: u64_set(nfa.last),
        follow: |p: int|
            if 0 <= p < nfa.follow.len() {
                u64_set(nfa.follow@[p])
            } else {
                Set::empty()
            },
        bytes: |p: int|
            if 0 <= p < nfa.positions.len() {
                nfa.positions@[p]@
            } else {
                Set::empty()
            },
        lo: 0,
        hi: nfa.positions.len() as int,
    }
}

/// The position automaton held in the tables of a built wide automaton.
pub open spec fn wide_table_aut(nfa: GlushkovWideNfa) -> PosAut {
    PosAut {
        nullable: nfa.nullable,
        first: nfa.first@,
        last: nfa.last@,
        follow: |p: int|
            if 0 <= p < nfa.follow.len() {
                nfa.follow@[p]@
            } else {
                Set::empty()
            },
        bytes: |p: int|
            if 0 <= p < nfa.positions.len() {
                nfa.positions@[p]@
            } else {
                Set::empty()
            },
        lo: 0,
        hi: nfa.positions.len() as int,
    }
}

/// The tables that `compile_glushkov` builds accept every stretch of input
/// that the pattern matches: its first, follow and last bits and its byte
/// sets spell each match, or the match is empty and the tables say nullable.
pub proof fn lemma_compiled_accepts_matches(hir: Hir, nfa: GlushkovNfa, input: Seq<u8>, i: int, j: int)
    requires
        glushkov_accepts(hir, MAX_POSITIONS as nat),
        nfa.describes(hir.expr),
        hir_matches(hir.expr, input, i, j),
    ensures
        pos_accepts(table_aut(nfa), input, i, j),
{
    let e = hir.expr;
    lemma_positions_accept_matches(e, 0, input, i, j);
    let a = g_aut(e, 0);
    let b = table_aut(nfa);
    assert(embeds(a, b)) by {
        assert forall|p: int| a.lo <= p < a.hi implies (#[trigger] (a.follow)(p)).subset_of((b.follow)(p)) by {
            assert(u64_set(nfa.follow@[p]) == g_follow(e, 0, p));
        }
        assert forall|p: int| a.lo <= p < a.hi implies (#[trigger] (a.bytes)(p)).subset_of((b.bytes)(p)) by {
            assert(nfa.positions@[p]@ == g_bytes(e, p));
        }
    }
    lemma_accepts_transfer(a, b, input, i, j);
}

/// The tables that `compile_glushkov_wide` builds accept every stretch of
/// input that the pattern matches.
pub proof fn lemma_compiled_wide_accepts_matches(
    hir: Hir,
    nfa: GlushkovWideNfa,
    input: Seq<u8>,
    i: int,
    j: int,
)
    requires
        glushkov_accepts(hir, MAX_POSITIONS_WIDE as nat),
        nfa.describes(hir.expr),
        hir_matches(hir.expr, input, i, j),
    ensures
        pos_accepts(wide_table_aut(nfa), input, i, j),
{
    let e = hir.expr;
    lemma_positions_accept_matches(e, 0, input, i, j);
    let a = g_aut(e, 0);
    let b = wide_table_aut(nfa);
    assert(embeds(a, b)) by {
        assert forall|p: int| a.lo <= p < a.hi implies (#[trigger] (a.follow)(p)).subset_of((b.follow)(p)) by {
            assert(nfa.follow@[p]@ == g_follow(e, 0, p));
        }
        assert forall|p: int| a.lo <= p < a.hi implies (#[trigger] (a.bytes)(p)).subset_of((b.bytes)(p)) by {
            assert(nfa.positions@[p]@ == g_bytes(e, p));
        }
    }
    lemma_accepts_transfer(a, b, input, i, j);
}

// ---------------------------------------------------------------------------
// The other way: what the automaton accepts, the expression matches
// ---------------------------------------------------------------------------

/// Whether `e` is built from literals, byte classes, concatenations,
/// non-empty alternations, captures and the repetitions `*`, `+` and `?`:
/// no anchor, and no count other than at most one or any number.
pub open spec fn g_plain(e: HirExpr) -> bool
    decreases e, 1nat,
{
    match e {
        HirExpr::Empty => true,
        HirExpr::Literal(_) => true,
        HirExpr::Class(_) => true,
        HirExpr::Concat(es) => g_plain_seq(es@),
        HirExpr::Alt(es) => es@.len() > 0 && g_plain_seq(es@),
        HirExpr::Repeat(r) => r.min <= 1 && (r.max matches Some(m) ==> m == 1) && g_plain(r.expr),
        HirExpr::Capture(c) => g_plain(c.expr),
        _ => false,
    }
}

pub open spec fn g_plain_seq(es: Seq<HirExpr>) -> bool
    decreases es, 0nat,
{
    if es.len() == 0 {
        true
    } else {
        g_plain_seq(es.drop_last()) && g_plain(es.last())
    }
}

/// Whether the positions `ps` spell the input from `i` on from a first
/// position of `a` to a last one.
pub open spec fn full_path(a: PosAut, input: Seq<u8>, i: int, ps: Seq<int>) -> bool {
    &&& pos_path(a, input, i, ps)
    &&& ps.len() > 0
    &&& a.first.contains(ps[0])
    &&& a.last.contains(ps[ps.len() - 1])
}

/// Whether, inside the positions `b.lo..b.hi`, every move and byte of `a` is
/// one of `b`.
pub open spec fn restricts(a: PosAut, b: PosAut) -> bool {
    &&& forall|p: int| b.lo <= p < b.hi ==> (#[trigger] (a.bytes)(p)).subset_of((b.bytes)(p))
    &&& forall|p: int, q: int|
        b.lo <= p < b.hi && b.lo <= q < b.hi && #[trigger] (a.follow)(p).contains(q) ==> (b.follow)(
            p,
        ).contains(q)
}

proof fn lemma_path_restrict(a: PosAut, b: PosAut, input: Seq<u8>, i: int, ps: Seq<int>)
    requires
        restricts(a, b),
        pos_path(a, input, i, ps),
        forall|t: int| 0 <= t < ps.len() ==> b.lo <= #[trigger] ps[t] < b.hi,
    ensures
        pos_path(b, input, i, ps),
{
    assert forall|t: int| 0 <= t < ps.len() implies #[trigger] reads_at(b, input, i, ps, t) by {
        assert(reads_at(a, input, i, ps, t));
        assert(b.lo <= ps[t] < b.hi);
        assert((a.bytes)(ps[t]).subset_of((b.bytes)(ps[t])));
    }
    assert forall|t: int| 0 <= t < ps.len() - 1 implies #[trigger] moves_at(b, ps, t) by {
        assert(moves_at(a, ps, t));
        assert(b.lo <= ps[t] < b.hi);
        assert(b.lo <= ps[t + 1] < b.hi);
        assert((a.follow)(ps[t]).contains(ps[t + 1]));
    }
}

proof fn lemma_subpath(a: PosAut, input: Seq<u8>, i: int, ps: Seq<int>, lo: int, hi: int)
    requires
        0 <= lo < hi <= ps.len(),
        pos_path(a, input, i, ps),
    ensures
        pos_path(a, input, i + lo, ps.subrange(lo, hi)),
{
    let qs = ps.subrange(lo, hi);
    assert forall|t: int| 0 <= t < qs.len() implies #[trigger] reads_at(a, input, i + lo, qs, t) by {
        assert(reads_at(a, input, i, ps, t + lo));
    }
    assert forall|t: int| 0 <= t < qs.len() - 1 implies #[trigger] moves_at(a, qs, t) by {
        assert(moves_at(a, ps, t + lo));
    }
}

/// Whether position `ps[s + 1]` lies at or above `mid` where `ps[s]` does.
pub open spec fn stays_above(ps: Seq<int>, mid: int, s: int) -> bool {
    ps[s] >= mid ==> ps[s + 1] >= mid
}

/// Whether `ps` is below `mid` before index `t` and at or above it from `t` on.
pub open spec fn split_at(ps: Seq<int>, mid: int, t: int) -> bool {
    &&& 0 <= t <= ps.len()
    &&& forall|s: int| 0 <= s < t ==> #[trigger] ps[s] < mid
    &&& forall|s: int| t <= s < ps.len() ==> #[trigger] ps[s] >= mid
}

/// A sequence that never steps down across `mid` is below `mid` up to some
/// index and at or above it from there on.
proof fn lemma_split(ps: Seq<int>, mid: int)
    requires
        forall|s: int| 0 <= s < ps.len() - 1 ==> #[trigger] stays_above(ps, mid, s),
    ensures
        exists|t: int| #[trigger] split_at(ps, mid, t),
    decreases ps.len(),
{
    if ps.len() == 0 {
        assert(split_at(ps, mid, 0));
    } else {
        let d = ps.drop_last();
        assert forall|s: int| 0 <= s < d.len() - 1 implies #[trigger] stays_above(d, mid, s) by {
            assert(stays_above(ps, mid, s));
        }
        lemma_split(d, mid);
        let t = choose|t: int| #[trigger] split_at(d, mid, t);
        let n = ps.len() - 1;
        if t < d.len() {
            assert(d[n - 1] >= mid);
            assert(stays_above(ps, mid, n - 1));
            assert forall|s: int| t <= s < ps.len() implies #[trigger] ps[s] >= mid by {
                if s < n {
                    assert(d[s] >= mid);
                }
            }
            assert forall|s: int| 0 <= s < t implies #[trigger] ps[s] < mid by {
                assert(d[s] < mid);
            }
            assert(split_at(ps, mid, t));
        } else if ps[n] >= mid {
            assert forall|s: int| 0 <= s < n implies #[trigger] ps[s] < mid by {
                assert(d[s] < mid);
            }
            assert(split_at(ps, mid, n));
        } else {
            assert forall|s: int| 0 <= s < ps.len() implies #[trigger] ps[s] < mid by {
                if s < n {
                    assert(d[s] < mid);
                }
            }
            assert(split_at(ps, mid, ps.len() as int));
        }
    }
}

proof fn lemma_iter_join(e: HirExpr, n1: nat, n2: nat, input: Seq<u8>, i: int, m: int, j: int)
    requires
        iter_matches(e, n1, input, i, m),
        iter_matches(e, n2, input, m, j),
    ensures
        iter_matches(e, n1 + n2, input, i, j),
{
    let c1 = choose|cuts: Seq<int>|
        #[trigger] cuts_span(cuts, n1 as int, i, m) && forall|t: int|
            0 <= t < n1 ==> hir_matches(e, input, #[trigger] cuts[t], cuts[t + 1]);
    let c2 = choose|cuts: Seq<int>|
        #[trigger] cuts_span(cuts, n2 as int, m, j) && forall|t: int|
            0 <= t < n2 ==> hir_matches(e, input, #[trigger] cuts[t], cuts[t + 1]);
    let cuts = c1 + c2.skip(1);
    let n = (n1 + n2) as int;
    assert(cuts_span(cuts, n, i, j));
    assert forall|t: int| 0 <= t < n implies hir_matches(e, input, #[trigger] cuts[t], cuts[t + 1]) by {
        if t < n1 {
            assert(hir_matches(e, input, c1[t], c1[t + 1]));
            if t + 1 == n1 {
                assert(cuts[t + 1] == c2[0]);
            }
        } else {
            assert(hir_matches(e, input, c2[t - n1], c2[t - n1 + 1]));
            if t == n1 {
                assert(cuts[t] == c1[n1 as int]);
            }
        }
    }
}

proof fn lemma_seq_push(es: Seq<HirExpr>, input: Seq<u8>, i: int, m: int, j: int)
    requires
        es.len() > 0,
        seq_matches(es.drop_last(), input, i, m),
        hir_matches(es.last(), input, m, j),
    ensures
        seq_matches(es, input, i, j),
{
    let d = es.drop_last();
    let c = choose|cuts: Seq<int>|
        #[trigger] cuts_span(cuts, d.len() as int, i, m) && forall|t: int|
            0 <= t < d.len() ==> hir_matches(d[t], input, #[trigger] cuts[t], cuts[t + 1]);
    let cuts = c.push(j);
    let n = es.len() as int;
    assert(cuts_span(cuts, n, i, j));
    assert forall|t: int| 0 <= t < n implies hir_matches(es[t], input, #[trigger] cuts[t], cuts[t + 1]) by {
        if t < n - 1 {
            assert(hir_matches(d[t], input, c[t], c[t + 1]));
        }
    }
}

/// A nullable plain expression matches the empty stretch anywhere in the input.
proof fn lemma_nullable_matches(e: HirExpr, input: Seq<u8>, i: int)
    requires
        g_plain(e),
        g_nullable(e),
        0 <= i <= input.len(),
    ensures
        hir_matches(e, input, i, i),
    decreases e, 1nat,
{
    match e {
        HirExpr::Literal(b) => {
            assert(input.subrange(i, i) =~= b@);
        },
        HirExpr::Concat(es) => {
            lemma_nullable_concat(es@, input, i);
            let cuts = choose|cuts: Seq<int>|
                #[trigger] cuts_span(cuts, es@.len() as int, i, i) && forall|t: int|
                    0 <= t < es@.len() ==> hir_matches(es@[t], input, #[trigger] cuts[t], cuts[t + 1]);
            assert(cuts_span(cuts, es@.len() as int, i, i));
        },
        HirExpr::Alt(es) => {
            lemma_nullable_alt(es@, input, i);
        },
        HirExpr::Repeat(r) => {
            if r.min == 0 {
                lemma_iter_zero_intro(r.expr, input, i);
                let cuts = seq![i];
                assert(cuts_span(cuts, 0, i, i));
            } else {
                lemma_nullable_matches(r.expr, input, i);
                let cuts = seq![i, i];
                assert(cuts_span(cuts, 1, i, i));
                assert(forall|t: int| 0 <= t < 1 ==> hir_matches(r.expr, input, #[trigger] cuts[t], cuts[t + 1]));
            }
        },
        HirExpr::Capture(c) => {
            lemma_nullable_matches(c.expr, input, i);
        },
        _ => {},
    }
}

proof fn lemma_nullable_concat(es: Seq<HirExpr>, input: Seq<u8>, i: int)
    requires
        g_plain_seq(es),
        g_nullable_concat(es),
        0 <= i <= input.len(),
    ensures
        seq_matches(es, input, i, i),
    decreases es, 0nat,
{
    if es.len() == 0 {
        let cuts = seq![i];
        assert(cuts_span(cuts, 0, i, i));
    } else {
        lemma_nullable_concat(es.drop_last(), input, i);
        lemma_nullable_matches(es.last(), input, i);
        lemma_seq_push(es, input, i, i, i);
    }
}

proof fn lemma_nullable_alt(es: Seq<HirExpr>, input: Seq<u8>, i: int)
    requires
        g_plain_seq(es),
        es.len() > 0,
        g_nullable_alt(es),
        0 <= i <= input.len(),
    ensures
        exists|k: int| 0 <= k < es.len() && hir_matches(#[trigger] es[k], input, i, i),
    decreases es, 0nat,
{
    if es.len() == 1 {
        assert(g_plain(es[0])) by {
            assert(es.last() == es[0]);
        }
        lemma_nullable_matches(es[0], input, i);
    } else if g_nullable(es.last()) {
        lemma_nullable_matches(es.last(), input, i);
        assert(hir_matches(es[es.len() - 1], input, i, i));
    } else {
        let d = es.drop_last();
        lemma_nullable_alt(d, input, i);
        let k = choose|k: int| 0 <= k < d.len() && hir_matches(#[trigger] d[k], input, i, i);
        assert(hir_matches(es[k], input, i, i));
    }
}

/// The positions of a literal, from its first to its last, are its bytes in turn.
proof fn lemma_literal_positions(e: HirExpr, off: int, input: Seq<u8>, i: int, ps: Seq<int>, t: int)
    requires
        e is Literal,
        pos_path(g_aut(e, off), input, i, ps),
        ps.len() > 0,
        ps[0] == off,
        0 <= t < ps.len(),
    ensures
        ps[t] == off + t,
    decreases t,
{
    if t > 0 {
        lemma_literal_positions(e, off, input, i, ps, t - 1);
        assert(moves_at(g_aut(e, off), ps, t - 1));
    }
}

/// Every path of a plain expression's automaton from a first position to a
/// last one spells a match of the expression.
proof fn lemma_path_matches(e: HirExpr, off: int, input: Seq<u8>, i: int, ps: Seq<int>)
    requires
        g_plain(e),
        full_path(g_aut(e, off), input, i, ps),
    ensures
        hir_matches(e, input, i, i + ps.len()),
    decreases e, 1nat,
{
    let a = g_aut(e, off);
    let j = i + ps.len();
    assert(reads_at(a, input, i, ps, 0));
    assert(reads_at(a, input, i, ps, ps.len() - 1));
    match e {
        HirExpr::Literal(b) => {
            let n = b@.len() as int;
            lemma_literal_positions(e, off, input, i, ps, ps.len() - 1);
            assert forall|t: int| 0 <= t < ps.len() implies #[trigger] input.subrange(i, j)[t] == b@[t] by {
                lemma_literal_positions(e, off, input, i, ps, t);
                assert(reads_at(a, input, i, ps, t));
            }
            assert(input.subrange(i, j) =~= b@);
        },
        HirExpr::Class(c) => {
            if ps.len() > 1 {
                assert(moves_at(a, ps, 0));
            }
        },
        HirExpr::Capture(c) => {
            let b = g_aut(c.expr, off);
            assert(embeds(a, b));
            lemma_path_transfer(a, b, input, i, ps);
            lemma_path_matches(c.expr, off, input, i, ps);
        },
        HirExpr::Concat(es) => {
            let b = g_aut_concat(es@, off);
            assert(embeds(a, b));
            lemma_path_transfer(a, b, input, i, ps);
            lemma_concat_path(es@, off, input, i, ps);
            let cuts = choose|cuts: Seq<int>|
                #[trigger] cuts_span(cuts, es@.len() as int, i, j) && forall|t: int|
                    0 <= t < es@.len() ==> hir_matches(es@[t], input, #[trigger] cuts[t], cuts[t + 1]);
            assert(cuts_span(cuts, es@.len() as int, i, j));
        },
        HirExpr::Alt(es) => {
            let b = g_aut_alt(es@, off);
            assert(embeds(a, b));
            lemma_path_transfer(a, b, input, i, ps);
            lemma_alt_path(es@, off, input, i, ps);
        },
        HirExpr::Repeat(r) => {
            assert forall|k: int, qs: Seq<int>| #[trigger] full_path(g_aut(r.expr, off), input, k, qs) implies hir_matches(
                r.expr,
                input,
                k,
                k + qs.len(),
            ) by {
                lemma_path_matches(r.expr, off, input, k, qs);
            }
            lemma_rep_path(r, off, input, i, ps);
            let n = choose|n: nat| n >= 1 && (r.max matches Some(m) ==> n <= m) && #[trigger] iter_matches(r.expr, n, input, i, j);
            let cuts = choose|cuts: Seq<int>|
                #[trigger] cuts_span(cuts, n as int, i, j) && forall|t: int|
                    0 <= t < n ==> hir_matches(r.expr, input, #[trigger] cuts[t], cuts[t + 1]);
            assert(cuts_span(cuts, n as int, i, j));
        },
        _ => {},
    }
}

/// A path of a repetition's automaton from a first position of the body to a
/// last one spells one or more matches of the body: it runs back to the
/// body's start only where the repetition may repeat.
proof fn lemma_rep_path(r: Box<HirRepeat>, off: int, input: Seq<u8>, i: int, ps: Seq<int>)
    requires
        g_plain(HirExpr::Repeat(r)),
        forall|k: int, qs: Seq<int>| #[trigger]
            full_path(g_aut(r.expr, off), input, k, qs) ==> hir_matches(r.expr, input, k, k + qs.len()),
        full_path(g_aut(HirExpr::Repeat(r), off), input, i, ps),
    ensures
        exists|n: nat|
            n >= 1 && (r.max matches Some(m) ==> n <= m) && #[trigger] iter_matches(r.expr, n, input, i, i + ps.len()),
    decreases ps.len(),
{
    let a = g_aut(HirExpr::Repeat(r), off);
    let b = g_aut(r.expr, off);
    let j = i + ps.len();
    if forall|s: int| 0 <= s < ps.len() - 1 ==> #[trigger] moves_at(b, ps, s) {
        assert(pos_path(b, input, i, ps)) by {
            assert forall|t: int| 0 <= t < ps.len() implies #[trigger] reads_at(b, input, i, ps, t) by {
                assert(reads_at(a, input, i, ps, t));
            }
        }
        assert(full_path(b, input, i, ps));
        lemma_iter_one_intro(r.expr, input, i, j);
    } else {
        let s0 = choose|s: int| 0 <= s < ps.len() - 1 && !#[trigger] moves_at(b, ps, s);
        assert(moves_at(a, ps, s0));
        assert(g_loops(*r));
        assert(g_last(r.expr, off).contains(ps[s0]));
        assert(g_first(r.expr, off).contains(ps[s0 + 1]));
        let ps1 = ps.subrange(0, s0 + 1);
        let ps2 = ps.subrange(s0 + 1, ps.len() as int);
        lemma_subpath(a, input, i, ps, 0, s0 + 1);
        lemma_subpath(a, input, i, ps, s0 + 1, ps.len() as int);
        assert(full_path(a, input, i, ps1));
        assert(full_path(a, input, i + s0 + 1, ps2));
        lemma_rep_path(r, off, input, i, ps1);
        lemma_rep_path(r, off, input, i + s0 + 1, ps2);
        let n1 = choose|n: nat|
            n >= 1 && (r.max matches Some(m) ==> n <= m) && #[trigger] iter_matches(r.expr, n, input, i, i + ps1.len());
        let n2 = choose|n: nat|
            n >= 1 && (r.max matches Some(m) ==> n <= m) && #[trigger] iter_matches(
                r.expr,
                n,
                input,
                i + s0 + 1,
                i + s0 + 1 + ps2.len(),
            );
        lemma_iter_join(r.expr, n1, n2, input, i, i + s0 + 1, j);
        assert(r.max is None);
    }
}

/// A path of a concatenation's automaton from a first position to a last one
/// spells matches of its parts one after another.
proof fn lemma_concat_path(es: Seq<HirExpr>, off: int, input: Seq<u8>, i: int, ps: Seq<int>)
    requires
        g_plain_seq(es),
        full_path(g_aut_concat(es, off), input, i, ps),
    ensures
        seq_matches(es, input, i, i + ps.len()),
    decreases es, 0nat,
{
    let c = g_aut_concat(es, off);
    let j = i + ps.len();
    assert(reads_at(c, input, i, ps, 0));
    assert(reads_at(c, input, i, ps, ps.len() - 1));
    let d = es.drop_last();
    let l = es.last();
    let mid = off + g_npos_seq(d);
    let ad = g_aut_concat(d, off);
    let al = g_aut(l, mid);
    lemma_g_ranges_concat(d, off);
    lemma_g_ranges(l, mid);
    assert(restricts(c, ad)) by {
        assert forall|p: int| ad.lo <= p < ad.hi implies (#[trigger] (c.bytes)(p)).subset_of((ad.bytes)(p)) by {
            assert(g_bytes_seq(es, p - off) == g_bytes_seq(d, p - off));
        }
        assert forall|p: int, q: int|
            ad.lo <= p < ad.hi && ad.lo <= q < ad.hi && #[trigger] (c.follow)(p).contains(q) implies (ad.follow)(
                p,
            ).contains(q) by {
            if g_follow(l, mid, p).contains(q) {
            }
            if g_first(l, mid).contains(q) {
            }
        }
    }
    assert(restricts(c, al)) by {
        assert forall|p: int| al.lo <= p < al.hi implies (#[trigger] (c.bytes)(p)).subset_of((al.bytes)(p)) by {
            assert(g_bytes_seq(es, p - off) == g_bytes(l, p - mid));
        }
        assert forall|p: int, q: int|
            al.lo <= p < al.hi && al.lo <= q < al.hi && #[trigger] (c.follow)(p).contains(q) implies (al.follow)(
                p,
            ).contains(q) by {
            if g_follow_concat(d, off, p).contains(q) {
            }
        }
    }
    assert forall|s: int| 0 <= s < ps.len() - 1 implies #[trigger] stays_above(ps, mid, s) by {
        assert(moves_at(c, ps, s));
        if ps[s] >= mid {
            if g_follow_concat(d, off, ps[s]).contains(ps[s + 1]) {
            }
            if g_last_concat(d, off).contains(ps[s]) {
            }
            if g_follow(l, mid, ps[s]).contains(ps[s + 1]) {
            }
        }
    }
    lemma_split(ps, mid);
    let t = choose|t: int| #[trigger] split_at(ps, mid, t);
    assert forall|s: int| 0 <= s < ps.len() implies off <= #[trigger] ps[s] < off + g_npos_seq(es) by {
        assert(reads_at(c, input, i, ps, s));
    }
    if t == ps.len() {
        assert(ps[ps.len() - 1] < mid);
        lemma_path_restrict(c, ad, input, i, ps);
        assert(full_path(ad, input, i, ps));
        lemma_concat_path(d, off, input, i, ps);
        lemma_nullable_matches(l, input, j);
        lemma_seq_push(es, input, i, j, j);
    } else if t == 0 {
        assert(ps[0] >= mid);
        lemma_path_restrict(c, al, input, i, ps);
        assert(full_path(al, input, i, ps));
        lemma_path_matches(l, mid, input, i, ps);
        lemma_nullable_concat(d, input, i);
        lemma_seq_push(es, input, i, i, j);
    } else {
        assert(ps[t - 1] < mid && ps[t] >= mid);
        assert(moves_at(c, ps, t - 1));
        if g_follow_concat(d, off, ps[t - 1]).contains(ps[t]) {
        }
        if g_follow(l, mid, ps[t - 1]).contains(ps[t]) {
        }
        assert(g_last_concat(d, off).contains(ps[t - 1]));
        if g_first(l, mid).contains(ps[0]) {
        }
        let ps1 = ps.subrange(0, t);
        let ps2 = ps.subrange(t, ps.len() as int);
        lemma_subpath(c, input, i, ps, 0, t);
        lemma_subpath(c, input, i, ps, t, ps.len() as int);
        lemma_path_restrict(c, ad, input, i, ps1);
        lemma_path_restrict(c, al, input, i + t, ps2);
        assert(full_path(ad, input, i, ps1));
        assert(full_path(al, input, i + t, ps2));
        lemma_concat_path(d, off, input, i, ps1);
        lemma_path_matches(l, mid, input, i + t, ps2);
        lemma_seq_push(es, input, i, i + t, j);
    }
}

/// A path of an alternation's automaton from a first position to a last one
/// stays inside one alternative and spells a match of it.
proof fn lemma_alt_path(es: Seq<HirExpr>, off: int, input: Seq<u8>, i: int, ps: Seq<int>)
    requires
        g_plain_seq(es),
        full_path(g_aut_alt(es, off), input, i, ps),
    ensures
        exists|k: int| 0 <= k < es.len() && hir_matches(#[trigger] es[k], input, i, i + ps.len()),
    decreases es, 0nat,
{
    let c = g_aut_alt(es, off);
    let j = i + ps.len();
    assert(reads_at(c, input, i, ps, 0));
    assert(reads_at(c, input, i, ps, ps.len() - 1));
    let d = es.drop_last();
    let l = es.last();
    let mid = off + g_npos_seq(d);
    let ad = g_aut_alt(d, off);
    let al = g_aut(l, mid);
    lemma_g_ranges_alt(d, off);
    lemma_g_ranges(l, mid);
    assert(restricts(c, ad)) by {
        assert forall|p: int| ad.lo <= p < ad.hi implies (#[trigger] (c.bytes)(p)).subset_of((ad.bytes)(p)) by {
            assert(g_bytes_seq(es, p - off) == g_bytes_seq(d, p - off));
        }
        assert forall|p: int, q: int|
            ad.lo <= p < ad.hi && ad.lo <= q < ad.hi && #[trigger] (c.follow)(p).contains(q) implies (ad.follow)(
                p,
            ).contains(q) by {
            if g_follow(l, mid, p).contains(q) {
            }
            if g_first(l, mid).contains(q) {
            }
        }
    }
    assert(restricts(c, al)) by {
        assert forall|p: int| al.lo <= p < al.hi implies (#[trigger] (c.bytes)(p)).subset_of((al.bytes)(p)) by {
            assert(g_bytes_seq(es, p - off) == g_bytes(l, p - mid));
        }
        assert forall|p: int, q: int|
            al.lo <= p < al.hi && al.lo <= q < al.hi && #[trigger] (c.follow)(p).contains(q) implies (al.follow)(
                p,
            ).contains(q) by {
            if g_follow_alt(d, off, p).contains(q) {
            }
        }
    }
    assert forall|s: int| 0 <= s < ps.len() - 1 implies #[trigger] stays_above(ps, mid, s) by {
        assert(moves_at(c, ps, s));
        if ps[s] >= mid {
            if g_follow_alt(d, off, ps[s]).contains(ps[s + 1]) {
            }
            if g_follow(l, mid, ps[s]).contains(ps[s + 1]) {
            }
        }
    }
    lemma_split(ps, mid);
    let t = choose|t: int| #[trigger] split_at(ps, mid, t);
    assert forall|s: int| 0 <= s < ps.len() implies off <= #[trigger] ps[s] < off + g_npos_seq(es) by {
        assert(reads_at(c, input, i, ps, s));
    }
    if 0 < t < ps.len() {
        assert(ps[t - 1] < mid && ps[t] >= mid);
        assert(moves_at(c, ps, t - 1));
        if g_follow_alt(d, off, ps[t - 1]).contains(ps[t]) {
        }
        if g_follow(l, mid, ps[t - 1]).contains(ps[t]) {
        }
    }
    if t == ps.len() {
        assert(ps[ps.len() - 1] < mid);
        lemma_path_restrict(c, ad, input, i, ps);
        assert(full_path(ad, input, i, ps));
        lemma_alt_path(d, off, input, i, ps);
        let k = choose|k: int| 0 <= k < d.len() && hir_matches(#[trigger] d[k], input, i, j);
        assert(hir_matches(es[k], input, i, j));
    } else {
        assert(t == 0);
        assert(ps[0] >= mid);
        lemma_path_restrict(c, al, input, i, ps);
        assert(full_path(al, input, i, ps));
        lemma_path_matches(l, mid, input, i, ps);
        assert(hir_matches(es[es.len() - 1], input, i, j));
    }
}

proof fn lemma_plain_supported(e: HirExpr)
    requires
        g_plain(e),
    ensures
        g_supported(e),
    decreases e, 1nat,
{
    match e {
        HirExpr::Concat(es) => lemma_plain_supported_seq(es@),
        HirExpr::Alt(es) => lemma_plain_supported_seq(es@),
        HirExpr::Repeat(r) => lemma_plain_supported(r.expr),
        HirExpr::Capture(c) => lemma_plain_supported(c.expr),
        _ => {},
    }
}

proof fn lemma_plain_supported_seq(es: Seq<HirExpr>)
    requires
        g_plain_seq(es),
    ensures
        g_supported_seq(es),
    decreases es, 0nat,
{
    if es.len() > 0 {
        lemma_plain_supported_seq(es.drop_last());
        lemma_plain_supported(es.last());
    }
}

/// The position automaton of a plain expression (literals, classes,
/// concatenation, non-empty alternation, captures, `*`, `+` and `?`) accepts
/// exactly what the expression matches: a stretch of the input is accepted
/// if and only if the expression matches it. In particular a body under `?`
/// is never run twice.
pub proof fn lemma_positions_exact(e: HirExpr, off: int, input: Seq<u8>, i: int, j: int)
    requires
        g_plain(e),
        0 <= i <= input.len(),
    ensures
        pos_accepts(g_aut(e, off), input, i, j) <==> hir_matches(e, input, i, j),
{
    lemma_plain_supported(e);
    if hir_matches(e, input, i, j) {
        lemma_positions_accept_matches(e, off, input, i, j);
    }
    if pos_accepts(g_aut(e, off), input, i, j) {
        if i == j {
            lemma_nullable_matches(e, input, i);
        } else {
            let ps = choose|ps: Seq<int>|
                #[trigger] pos_path(g_aut(e, off), input, i, ps) && ps.len() == j - i && g_first(e, off).contains(ps[0])
                    && g_last(e, off).contains(ps[ps.len() - 1]);
            assert(full_path(g_aut(e, off), input, i, ps));
            lemma_path_matches(e, off, input, i, ps);
        }
    }
}

/// For a plain pattern, the tables that `compile_glushkov` builds accept a
/// stretch of input exactly when the pattern matches it.
pub proof fn lemma_compiled_exact(hir: Hir, nfa: GlushkovNfa, input: Seq<u8>, i: int, j: int)
    requires
        glushkov_accepts(hir, MAX_POSITIONS as nat),
        nfa.describes(hir.expr),
        g_plain(hir.expr),
        0 <= i <= input.len(),
    ensures
        pos_accepts(table_aut(nfa), input, i, j) <==> hir_matches(hir.expr, input, i, j),
{
    let e = hir.expr;
    let a = g_aut(e, 0);
    let b = table_aut(nfa);
    lemma_positions_exact(e, 0, input, i, j);
    if hir_matches(e, input, i, j) {
        lemma_compiled_accepts_matches(hir, nfa, input, i, j);
    }
    assert(embeds(b, a)) by {
        assert forall|p: int| b.lo <= p < b.hi implies (#[trigger] (b.follow)(p)).subset_of((a.follow)(p)) by {
            assert(u64_set(nfa.follow@[p]) == g_follow(e, 0, p));
        }
        assert forall|p: int| b.lo <= p < b.hi implies (#[trigger] (b.bytes)(p)).subset_of((a.bytes)(p)) by {
            assert(nfa.positions@[p]@ == g_bytes(e, p));
        }
    }
    if pos_accepts(b, input, i, j) {
        lemma_accepts_transfer(b, a, input, i, j);
    }
}

/// For a plain pattern, the tables that `compile_glushkov_wide` builds accept
/// a stretch of input exactly when the pattern matches it.
pub proof fn lemma_compiled_wide_exact(hir: Hir, nfa: GlushkovWideNfa, input: Seq<u8>, i: int, j: int)
    requires
        glushkov_accepts(hir, MAX_POSITIONS_WIDE as nat),
        nfa.describes(hir.expr),
        g_plain(hir.expr),
        0 <= i <= input.len(),
    ensures
        pos_accepts(wide_table_aut(nfa), input, i, j) <==> hir_matches(hir.expr, input, i, j),
{
    let e = hir.expr;
    let a = g_aut(e, 0);
    let b = wide_table_aut(nfa);
    lemma_positions_exact(e, 0, input, i, j);
    if hir_matches(e, input, i, j) {
        lemma_compiled_wide_accepts_matches(hir, nfa, input, i, j);
    }
    assert(embeds(b, a)) by {
        assert forall|p: int| b.lo <= p < b.hi implies (#[trigger] (b.follow)(p)).subset_of((a.follow)(p)) by {
            assert(nfa.follow@[p]@ == g_follow(e, 0, p));
        }
        assert forall|p: int| b.lo <= p < b.hi implies (#[trigger] (b.bytes)(p)).subset_of((a.bytes)(p)) by {
            assert(nfa.positions@[p]@ == g_bytes(e, p));
        }
    }
    if pos_accepts(b, input, i, j) {
        lemma_accepts_transfer(b, a, input, i, j);
    }
}

} // verus!
