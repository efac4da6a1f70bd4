//! The laws the library states of itself: reconstruction of each record
//! from its segments, identity of a dry run with an empty highlight,
//! complementarity of inversion, run-merging in character mode, and
//! composition of rendering in record order.

use vstd::prelude::*;
use crate::ranges::{Range, selected_index};
use crate::token::{Token, pieces_concat};
use crate::select::{char_segs, char_class, field_segs, delim_match, pattern_segs, field_pat_segs, match_list_wf};
use crate::intercepter::{ForwardMode, tokens_render, seg_pipe_bytes};
use crate::consume::consume_spec;

verus! {

/// Rendering composes: producing one piece list after another renders
/// their concatenation, so a run's token stream is the rendering of all
/// records' segments in record order.
pub proof fn lemma_render_append(
    m: ForwardMode,
    ps1: Seq<(Seq<u8>, bool)>,
    ts1: Seq<Token>,
    pipe1: Seq<u8>,
    ps2: Seq<(Seq<u8>, bool)>,
    ts2: Seq<Token>,
    pipe2: Seq<u8>,
)
    requires
        tokens_render(m, ps1, ts1, pipe1),
        tokens_render(m, ps2, ts2, pipe2),
    ensures
        tokens_render(m, ps1 + ps2, ts1 + ts2, pipe1 + pipe2),
    decreases ps1.len(),
{
    if ps1.len() == 0 {
        assert(ps1 + ps2 =~= ps2);
        assert(ts1 + ts2 =~= ts2);
        assert(pipe1 + pipe2 =~= pipe2);
    } else {
        let k = seg_pipe_bytes(m, ps1[0]).len() as int;
        lemma_render_append(
            m,
            ps1.drop_first(),
            ts1.drop_first(),
            pipe1.skip(k),
            ps2,
            ts2,
            pipe2,
        );
        assert((ps1 + ps2)[0] == ps1[0]);
        assert((ts1 + ts2)[0] == ts1[0]);
        assert(seg_pipe_bytes(m, ps1[0]).is_prefix_of(pipe1 + pipe2)) by {
            assert((pipe1 + pipe2).take(k) =~= pipe1.take(k));
        }
        assert((ps1 + ps2).drop_first() =~= ps1.drop_first() + ps2);
        assert((ts1 + ts2).drop_first() =~= ts1.drop_first() + ts2);
        assert((pipe1 + pipe2).skip(k) =~= pipe1.skip(k) + pipe2);
        assert(tokens_render(
            m,
            (ps1 + ps2).drop_first(),
            (ts1 + ts2).drop_first(),
            (pipe1 + pipe2).skip(seg_pipe_bytes(m, (ps1 + ps2)[0]).len() as int),
        ));
    }
}

proof fn lemma_pieces_concat_cons(x: (Seq<u8>, bool), s: Seq<(Seq<u8>, bool)>)
    ensures
        pieces_concat(seq![x] + s) == x.0 + pieces_concat(s),
{
    let c = seq![x] + s;
    assert(c[0] == x);
    assert(c.drop_first() =~= s);
}

/// The concatenation of a record's character-mode segments reconstructs
/// the record exactly.
pub proof fn lemma_char_concat(line: Seq<u8>, rs: Seq<Range>, invert: bool, i: int)
    requires
        0 <= i <= line.len(),
    ensures
        pieces_concat(char_segs(line, rs, invert, i)) == line.subrange(i, line.len() as int),
    decreases line.len() - i,
{
    if i == line.len() {
        assert(line.subrange(i, line.len() as int) =~= Seq::<u8>::empty());
    } else {
        lemma_char_concat(line, rs, invert, i + 1);
        let rest = char_segs(line, rs, invert, i + 1);
        let c = char_class(line, rs, invert, i);
        if rest.len() > 0 && rest[0].1 == c {
            lemma_pieces_concat_cons((seq![line[i]] + rest[0].0, c), rest.drop_first());
            assert(pieces_concat(rest) == rest[0].0 + pieces_concat(rest.drop_first()));
            assert(pieces_concat(char_segs(line, rs, invert, i)) =~= line.subrange(
                i,
                line.len() as int,
            )) by {
                assert((seq![line[i]] + rest[0].0) + pieces_concat(rest.drop_first())
                    =~= seq![line[i]] + (rest[0].0 + pieces_concat(rest.drop_first())));
                assert(seq![line[i]] + line.subrange(i + 1, line.len() as int) =~= line.subrange(
                    i,
                    line.len() as int,
                ));
            }
        } else {
            lemma_pieces_concat_cons((seq![line[i]], c), rest);
            assert(pieces_concat(char_segs(line, rs, invert, i)) =~= line.subrange(
                i,
                line.len() as int,
            )) by {
                assert(seq![line[i]] + pieces_concat(rest) =~= seq![line[i]] + line.subrange(
                    i + 1,
                    line.len() as int,
                ));
                assert(seq![line[i]] + line.subrange(i + 1, line.len() as int) =~= line.subrange(
                    i,
                    line.len() as int,
                ));
            }
        }
    }
}

/// The concatenation of a record's field-mode segments, fields and
/// delimiters alike, reconstructs the record exactly.
pub proof fn lemma_field_concat(
    line: Seq<u8>,
    delim: Seq<u8>,
    rs: Seq<Range>,
    invert: bool,
    i: int,
    fidx: int,
)
    requires
        0 <= i <= line.len(),
    ensures
        pieces_concat(field_segs(line, delim, rs, invert, i, fidx)) == line.subrange(
            i,
            line.len() as int,
        ),
    decreases line.len() - i,
{
    if i >= line.len() {
        let x = (Seq::<u8>::empty(), selected_index(rs, fidx, invert));
        assert(seq![x] =~= seq![x] + Seq::<(Seq<u8>, bool)>::empty());
        lemma_pieces_concat_cons(x, Seq::<(Seq<u8>, bool)>::empty());
        assert(pieces_concat(field_segs(line, delim, rs, invert, i, fidx)) =~= line.subrange(
            i,
            line.len() as int,
        ));
    } else if delim_match(line, delim, i) {
        lemma_field_concat(line, delim, rs, invert, i + delim.len() as int, fidx + 1);
        let a = (Seq::<u8>::empty(), selected_index(rs, fidx, invert));
        let b = (delim, false);
        let fnext = field_segs(line, delim, rs, invert, i + delim.len() as int, fidx + 1);
        assert(seq![a, b] + fnext =~= seq![a] + (seq![b] + fnext));
        lemma_pieces_concat_cons(a, seq![b] + fnext);
        lemma_pieces_concat_cons(b, fnext);
        assert(pieces_concat(field_segs(line, delim, rs, invert, i, fidx)) =~= line.subrange(
            i,
            line.len() as int,
        )) by {
            assert(delim + line.subrange(i + delim.len() as int, line.len() as int)
                =~= line.subrange(i, line.len() as int)) by {
                assert(line.subrange(i, i + delim.len() as int) == delim);
            }
        }
    } else {
        lemma_field_concat(line, delim, rs, invert, i + 1, fidx);
        let rest = field_segs(line, delim, rs, invert, i + 1, fidx);
        assert(pieces_concat(rest) == rest[0].0 + pieces_concat(rest.drop_first()));
        lemma_pieces_concat_cons((seq![line[i]] + rest[0].0, rest[0].1), rest.drop_first());
        assert(pieces_concat(field_segs(line, delim, rs, invert, i, fidx)) =~= line.subrange(
            i,
            line.len() as int,
        )) by {
            assert((seq![line[i]] + rest[0].0) + pieces_concat(rest.drop_first())
                =~= seq![line[i]] + (rest[0].0 + pieces_concat(rest.drop_first())));
            assert(seq![line[i]] + line.subrange(i + 1, line.len() as int) =~= line.subrange(
                i,
                line.len() as int,
            ));
        }
    }
}

/// The concatenation of a record's pattern-mode segments reconstructs
/// the record exactly: dropping zero-width pieces loses no byte.
pub proof fn lemma_pattern_concat(line: Seq<u8>, ms: Seq<(usize, usize)>, invert: bool, left: int)
    requires
        match_list_wf(ms, line.len() as int),
        0 <= left <= line.len(),
        ms.len() > 0 ==> left <= ms[0].0,
    ensures
        pieces_concat(pattern_segs(line, ms, invert, left)) == line.subrange(
            left,
            line.len() as int,
        ),
    decreases ms.len(),
{
    if ms.len() == 0 {
        if left < line.len() {
            let x = (line.subrange(left, line.len() as int), invert);
            assert(seq![x] =~= seq![x] + Seq::<(Seq<u8>, bool)>::empty());
            lemma_pieces_concat_cons(x, Seq::<(Seq<u8>, bool)>::empty());
            assert(pieces_concat(pattern_segs(line, ms, invert, left)) =~= line.subrange(
                left,
                line.len() as int,
            ));
        } else {
            assert(line.subrange(left, line.len() as int) =~= Seq::<u8>::empty());
        }
    } else {
        let s = ms[0].0 as int;
        let e = ms[0].1 as int;
        let tail = ms.drop_first();
        assert(match_list_wf(tail, line.len() as int)) by {
            assert(forall|k: int|
                0 <= k < tail.len() ==> (#[trigger] tail[k]) == ms[k + 1]);
        }
        assert(tail.len() > 0 ==> e <= tail[0].0) by {
            if tail.len() > 0 {
                assert(ms[0].1 <= ms[1].0);
                assert(tail[0] == ms[1]);
            }
        }
        lemma_pattern_concat(line, tail, invert, e);
        let un: Seq<(Seq<u8>, bool)> = if left < s {
            seq![(line.subrange(left, s), invert)]
        } else {
            Seq::<(Seq<u8>, bool)>::empty()
        };
        let ma: Seq<(Seq<u8>, bool)> = if s < e {
            seq![(line.subrange(s, e), !invert)]
        } else {
            Seq::<(Seq<u8>, bool)>::empty()
        };
        let rec = pattern_segs(line, tail, invert, e);
        assert(pieces_concat(ma + rec) == line.subrange(s, e) + line.subrange(
            e,
            line.len() as int,
        )) by {
            if s < e {
                lemma_pieces_concat_cons((line.subrange(s, e), !invert), rec);
            } else {
                assert(ma + rec =~= rec);
                assert(line.subrange(s, e) =~= Seq::<u8>::empty());
                assert(line.subrange(s, e) + line.subrange(e, line.len() as int) =~= line.subrange(
                    e,
                    line.len() as int,
                ));
            }
        }
        assert(line.subrange(s, e) + line.subrange(e, line.len() as int) =~= line.subrange(
            s,
            line.len() as int,
        ));
        assert(pieces_concat(un + (ma + rec)) == line.subrange(left, line.len() as int)) by {
            if left < s {
                lemma_pieces_concat_cons((line.subrange(left, s), invert), ma + rec);
                assert(line.subrange(left, s) + line.subrange(s, line.len() as int)
                    =~= line.subrange(left, line.len() as int));
            } else {
                assert(un + (ma + rec) =~= ma + rec);
                assert(line.subrange(s, line.len() as int) =~= line.subrange(
                    left,
                    line.len() as int,
                ));
            }
        }
        assert(pattern_segs(line, ms, invert, left) =~= un + (ma + rec));
    }
}

/// The concatenation of a record's pattern-delimited field segments
/// reconstructs the record exactly.
pub proof fn lemma_field_pat_concat(
    line: Seq<u8>,
    ms: Seq<(usize, usize)>,
    rs: Seq<Range>,
    invert: bool,
    left: int,
    fidx: int,
)
    requires
        match_list_wf(ms, line.len() as int),
        0 <= left <= line.len(),
        ms.len() > 0 ==> left <= ms[0].0,
    ensures
        pieces_concat(field_pat_segs(line, ms, rs, invert, left, fidx)) == line.subrange(
            left,
            line.len() as int,
        ),
    decreases ms.len(),
{
    if ms.len() == 0 {
        let x = (line.subrange(left, line.len() as int), selected_index(rs, fidx, invert));
        assert(seq![x] =~= seq![x] + Seq::<(Seq<u8>, bool)>::empty());
        lemma_pieces_concat_cons(x, Seq::<(Seq<u8>, bool)>::empty());
        assert(pieces_concat(field_pat_segs(line, ms, rs, invert, left, fidx)) =~= line.subrange(
            left,
            line.len() as int,
        ));
    } else {
        let s = ms[0].0 as int;
        let e = ms[0].1 as int;
        let tail = ms.drop_first();
        assert(match_list_wf(tail, line.len() as int)) by {
            assert(forall|k: int|
                0 <= k < tail.len() ==> (#[trigger] tail[k]) == ms[k + 1]);
        }
        assert(tail.len() > 0 ==> e <= tail[0].0) by {
            if tail.len() > 0 {
                assert(ms[0].1 <= ms[1].0);
                assert(tail[0] == ms[1]);
            }
        }
        lemma_field_pat_concat(line, tail, rs, invert, e, fidx + 1);
        let a = (line.subrange(left, s), selected_index(rs, fidx, invert));
        let b = (line.subrange(s, e), false);
        let rec = field_pat_segs(line, tail, rs, invert, e, fidx + 1);
        assert(seq![a, b] + rec =~= seq![a] + (seq![b] + rec));
        lemma_pieces_concat_cons(a, seq![b] + rec);
        lemma_pieces_concat_cons(b, rec);
        assert(pieces_concat(field_pat_segs(line, ms, rs, invert, left, fidx)) =~= line.subrange(
            left,
            line.len() as int,
        )) by {
            assert(line.subrange(s, e) + line.subrange(e, line.len() as int) =~= line.subrange(
                s,
                line.len() as int,
            ));
            assert(line.subrange(left, s) + line.subrange(s, line.len() as int) =~= line.subrange(
                left,
                line.len() as int,
            ));
        }
    }
}

/// Dry-run identity: with no subprocess and an empty highlight, routing
/// any segmentation produces only verbatim tokens, writes nothing to a
/// subprocess, and the consumer's output is exactly the concatenation of
/// the segments, whatever units or runs are on offer.
pub proof fn lemma_dry_run_identity(
    m: ForwardMode,
    ps: Seq<(Seq<u8>, bool)>,
    ts: Seq<Token>,
    pipe: Seq<u8>,
    units: Seq<Seq<u8>>,
    runs: Seq<Seq<u8>>,
)
    requires
        m.dryrun,
        m.hl_pre.len() == 0,
        m.hl_suf.len() == 0,
        tokens_render(m, ps, ts, pipe),
    ensures
        pipe.len() == 0,
        consume_spec(ts, units, runs).0 == pieces_concat(ps),
        consume_spec(ts, units, runs).1 == true,
    decreases ps.len(),
{
    if ps.len() == 0 {
    } else {
        assert(seg_pipe_bytes(m, ps[0]) =~= Seq::<u8>::empty());
        assert(pipe.skip(0) =~= pipe);
        lemma_dry_run_identity(m, ps.drop_first(), ts.drop_first(), pipe, units, runs);
        let t = ts[0];
        match t {
            Token::Channel(msg) => {
                assert(msg@ == ps[0].0) by {
                    if ps[0].1 {
                        assert(m.hl_pre + ps[0].0 + m.hl_suf =~= ps[0].0);
                    }
                }
                assert(consume_spec(ts, units, runs).0 =~= pieces_concat(ps));
            },
            _ => {
                assert(false);
            },
        }
    }
}

/// A small restatement used by every mode: inverting the flag
/// complements the classification of each index.
pub proof fn lemma_selected_invert(rs: Seq<Range>, idx: int, invert: bool)
    ensures
        selected_index(rs, idx, !invert) == !selected_index(rs, idx, invert),
{
}

/// Toggling `invert` in character mode keeps every segment's text and
/// complements every segment's classification.
pub proof fn lemma_char_invert(line: Seq<u8>, rs: Seq<Range>, invert: bool, i: int)
    ensures
        char_segs(line, rs, !invert, i).len() == char_segs(line, rs, invert, i).len(),
        forall|k: int|
            0 <= k < char_segs(line, rs, invert, i).len() ==> char_segs(line, rs, !invert, i)[k].0
                == (#[trigger] char_segs(line, rs, invert, i)[k]).0 && char_segs(
                line,
                rs,
                !invert,
                i,
            )[k].1 == !char_segs(line, rs, invert, i)[k].1,
    decreases line.len() - i,
{
    if i < 0 || i >= line.len() {
    } else {
        lemma_char_invert(line, rs, invert, i + 1);
        let a = char_segs(line, rs, invert, i + 1);
        let b = char_segs(line, rs, !invert, i + 1);
        let c = char_class(line, rs, invert, i);
        assert(char_class(line, rs, !invert, i) == !c);
        let sa = char_segs(line, rs, invert, i);
        let sb = char_segs(line, rs, !invert, i);
        if a.len() > 0 && a[0].1 == c {
            assert(b.len() > 0 && b[0].1 == !c);
            assert(sa == seq![(seq![line[i]] + a[0].0, c)] + a.drop_first());
            assert(sb == seq![(seq![line[i]] + b[0].0, !c)] + b.drop_first());
            assert(b[0].0 == a[0].0);
            assert forall|k: int| 0 <= k < sa.len() implies (#[trigger] sb[k]).0 == sa[k].0
                && sb[k].1 == !sa[k].1 by {
                if k > 0 {
                    assert(sa[k] == a[k]);
                    assert(sb[k] == b[k]);
                }
            }
        } else {
            assert(!(b.len() > 0 && b[0].1 == !c));
            assert(sa == seq![(seq![line[i]], c)] + a);
            assert(sb == seq![(seq![line[i]], !c)] + b);
            assert forall|k: int| 0 <= k < sa.len() implies (#[trigger] sb[k]).0 == sa[k].0
                && sb[k].1 == !sa[k].1 by {
                if k > 0 {
                    assert(sa[k] == a[k - 1]);
                    assert(sb[k] == b[k - 1]);
                }
            }
        }
    }
}

/// Toggling `invert` in field mode keeps every segment's text,
/// complements every field segment's classification, and leaves every
/// delimiter segment unselected: delimiters are never selectable.
pub proof fn lemma_field_invert(
    line: Seq<u8>,
    delim: Seq<u8>,
    rs: Seq<Range>,
    invert: bool,
    i: int,
    fidx: int,
)
    ensures
        field_segs(line, delim, rs, !invert, i, fidx).len() == field_segs(
            line,
            delim,
            rs,
            invert,
            i,
            fidx,
        ).len(),
        forall|k: int|
            0 <= k < field_segs(line, delim, rs, invert, i, fidx).len() ==> field_segs(
                line,
                delim,
                rs,
                !invert,
                i,
                fidx,
            )[k].0 == (#[trigger] field_segs(line, delim, rs, invert, i, fidx)[k]).0,
        forall|k: int|
            0 <= k < field_segs(line, delim, rs, invert, i, fidx).len() && k % 2 == 0
                ==> field_segs(line, delim, rs, !invert, i, fidx)[k].1 == !(#[trigger] field_segs(
                line,
                delim,
                rs,
                invert,
                i,
                fidx,
            )[k]).1,
        forall|k: int|
            0 <= k < field_segs(line, delim, rs, invert, i, fidx).len() && k % 2 == 1
                ==> field_segs(line, delim, rs, !invert, i, fidx)[k].1 == false && (
            #[trigger] field_segs(line, delim, rs, invert, i, fidx)[k]).1 == false,
    decreases line.len() - i,
{
    let sa = field_segs(line, delim, rs, invert, i, fidx);
    let sb = field_segs(line, delim, rs, !invert, i, fidx);
    if i < 0 || i >= line.len() {
        assert(selected_index(rs, fidx, !invert) == !selected_index(rs, fidx, invert));
    } else if delim_match(line, delim, i) {
        lemma_field_invert(line, delim, rs, invert, i + delim.len() as int, fidx + 1);
        let a = field_segs(line, delim, rs, invert, i + delim.len() as int, fidx + 1);
        let b = field_segs(line, delim, rs, !invert, i + delim.len() as int, fidx + 1);
        assert forall|k: int| 0 <= k < sa.len() implies (#[trigger] sb[k]).0 == sa[k].0 && (k % 2
            == 0 ==> sb[k].1 == !sa[k].1) && (k % 2 == 1 ==> sb[k].1 == false && sa[k].1
            == false) by {
            if k >= 2 {
                assert(sa[k] == a[k - 2]);
                assert(sb[k] == b[k - 2]);
                assert((k - 2) % 2 == k % 2);
            }
        }
    } else {
        lemma_field_invert(line, delim, rs, invert, i + 1, fidx);
        let a = field_segs(line, delim, rs, invert, i + 1, fidx);
        let b = field_segs(line, delim, rs, !invert, i + 1, fidx);
        assert(a.len() >= 1 && b.len() >= 1) by {
            lemma_field_first_len(line, delim, rs, invert, i + 1, fidx);
            lemma_field_first_len(line, delim, rs, !invert, i + 1, fidx);
        }
        assert(sa == seq![(seq![line[i]] + a[0].0, a[0].1)] + a.drop_first());
        assert(sb == seq![(seq![line[i]] + b[0].0, b[0].1)] + b.drop_first());
        assert forall|k: int| 0 <= k < sa.len() implies (#[trigger] sb[k]).0 == sa[k].0 && (k % 2
            == 0 ==> sb[k].1 == !sa[k].1) && (k % 2 == 1 ==> sb[k].1 == false && sa[k].1
            == false) by {
            if k == 0 {
                assert(b[0].0 == a[0].0);
                assert(b[0].1 == !a[0].1);
            } else {
                assert(sa[k] == a[k]);
                assert(sb[k] == b[k]);
            }
        }
    }
}

proof fn lemma_field_first_len(
    line: Seq<u8>,
    delim: Seq<u8>,
    rs: Seq<Range>,
    invert: bool,
    i: int,
    fidx: int,
)
    ensures
        field_segs(line, delim, rs, invert, i, fidx).len() >= 1,
    decreases line.len() - i,
{
    if 0 <= i < line.len() && !delim_match(line, delim, i) {
        lemma_field_first_len(line, delim, rs, invert, i + 1, fidx);
    }
}

/// Toggling `invert` in pattern mode keeps every segment's text and
/// complements every segment's classification.
pub proof fn lemma_pattern_invert(line: Seq<u8>, ms: Seq<(usize, usize)>, invert: bool, left: int)
    ensures
        pattern_segs(line, ms, !invert, left).len() == pattern_segs(line, ms, invert, left).len(),
        forall|k: int|
            0 <= k < pattern_segs(line, ms, invert, left).len() ==> pattern_segs(
                line,
                ms,
                !invert,
                left,
            )[k].0 == (#[trigger] pattern_segs(line, ms, invert, left)[k]).0 && pattern_segs(
                line,
                ms,
                !invert,
                left,
            )[k].1 == !pattern_segs(line, ms, invert, left)[k].1,
    decreases ms.len(),
{
    let sa = pattern_segs(line, ms, invert, left);
    let sb = pattern_segs(line, ms, !invert, left);
    if ms.len() == 0 {
    } else {
        let s = ms[0].0 as int;
        let e = ms[0].1 as int;
        lemma_pattern_invert(line, ms.drop_first(), invert, e);
        let a = pattern_segs(line, ms.drop_first(), invert, e);
        let b = pattern_segs(line, ms.drop_first(), !invert, e);
        let pre: int = (if left < s { 1int } else { 0int }) + (if s < e { 1int } else { 0int });
        assert forall|k: int| 0 <= k < sa.len() implies (#[trigger] sb[k]).0 == sa[k].0 && sb[k].1
            == !sa[k].1 by {
            if k >= pre {
                assert(sa[k] == a[k - pre]);
                assert(sb[k] == b[k - pre]);
            }
        }
    }
}

/// Character mode merges runs: a maximal run of identically classified
/// characters yields exactly one segment, standing at the run's offset
/// in the segmentation.
#[verifier::rlimit(100)]
#[verifier::spinoff_prover]
pub proof fn lemma_char_maximal_run(
    line: Seq<u8>,
    rs: Seq<Range>,
    invert: bool,
    i: int,
    a: int,
    b: int,
)
    requires
        0 <= i <= a < b <= line.len(),
        forall|j: int| a <= j < b ==> char_class(line, rs, invert, j) == char_class(
            line,
            rs,
            invert,
            a,
        ),
        a == i || char_class(line, rs, invert, a - 1) != char_class(line, rs, invert, a),
        b == line.len() || char_class(line, rs, invert, b) != char_class(line, rs, invert, a),
    ensures
        exists|k: int|
            0 <= k < char_segs(line, rs, invert, i).len() && (#[trigger] char_segs(
                line,
                rs,
                invert,
                i,
            )[k]) == (line.subrange(a, b), char_class(line, rs, invert, a)) && pieces_concat(
                char_segs(line, rs, invert, i).take(k),
            ) == line.subrange(i, a),
    decreases a - i,
{
    let c = char_class(line, rs, invert, a);
    let si = char_segs(line, rs, invert, i);
    if i == a {
        crate::select::lemma_char_run(line, rs, invert, a, b);
        assert(si[0] == (line.subrange(a, b), c));
        assert(si.take(0) =~= Seq::<(Seq<u8>, bool)>::empty());
        assert(pieces_concat(si.take(0)) =~= line.subrange(i, a));
        assert(0 <= 0 < si.len() && si[0] == (line.subrange(a, b), c) && pieces_concat(
            si.take(0),
        ) == line.subrange(i, a));
    } else {
        lemma_char_maximal_run(line, rs, invert, i + 1, a, b);
        let rest = char_segs(line, rs, invert, i + 1);
        let k1 = choose|k: int|
            0 <= k < char_segs(line, rs, invert, i + 1).len() && (#[trigger] char_segs(
                line,
                rs,
                invert,
                i + 1,
            )[k]) == (line.subrange(a, b), char_class(line, rs, invert, a)) && pieces_concat(
                char_segs(line, rs, invert, i + 1).take(k),
            ) == line.subrange(i + 1, a);
        assert(rest[k1] == (line.subrange(a, b), c));
        assert(pieces_concat(rest.take(k1)) == line.subrange(i + 1, a));
        let ci = char_class(line, rs, invert, i);
        if rest.len() > 0 && rest[0].1 == ci {
            assert(k1 >= 1) by {
                if k1 == 0 {
                    assert(pieces_concat(rest.take(0)) =~= Seq::<u8>::empty());
                    assert(line.subrange(i + 1, a).len() == 0);
                    assert(a == i + 1);
                    assert(char_class(line, rs, invert, a - 1) != c);
                    assert(rest[0].1 == c);
                    assert(false);
                }
            }
            let merged = (seq![line[i]] + rest[0].0, ci);
            assert(si == seq![merged] + rest.drop_first());
            assert(si[k1] == rest[k1]);
            assert(si.take(k1) =~= seq![merged] + rest.drop_first().take(k1 - 1));
            assert(rest.take(k1) =~= seq![rest[0]] + rest.drop_first().take(k1 - 1));
            lemma_pieces_concat_cons(merged, rest.drop_first().take(k1 - 1));
            lemma_pieces_concat_cons(rest[0], rest.drop_first().take(k1 - 1));
            assert(pieces_concat(si.take(k1)) =~= line.subrange(i, a)) by {
                assert((seq![line[i]] + rest[0].0) + pieces_concat(
                    rest.drop_first().take(k1 - 1),
                ) =~= seq![line[i]] + (rest[0].0 + pieces_concat(rest.drop_first().take(k1 - 1))));
                assert(rest[0].0 + pieces_concat(rest.drop_first().take(k1 - 1)) == pieces_concat(
                    rest.take(k1),
                ));
                assert(seq![line[i]] + line.subrange(i + 1, a) =~= line.subrange(i, a));
            }
            assert(0 <= k1 < si.len() && si[k1] == (line.subrange(a, b), c) && pieces_concat(
                si.take(k1),
            ) == line.subrange(i, a));
        } else {
            let k = k1 + 1;
            assert(si == seq![(seq![line[i]], ci)] + rest);
            assert(si[k] == rest[k1]);
            assert(si.take(k) =~= seq![(seq![line[i]], ci)] + rest.take(k1));
            lemma_pieces_concat_cons((seq![line[i]], ci), rest.take(k1));
            assert(pieces_concat(si.take(k)) =~= line.subrange(i, a)) by {
                assert(seq![line[i]] + line.subrange(i + 1, a) =~= line.subrange(i, a));
            }
            assert(0 <= k < si.len() && si[k] == (line.subrange(a, b), c) && pieces_concat(
                si.take(k),
            ) == line.subrange(i, a));
        }
    }
}

} // verus!
