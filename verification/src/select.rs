//! Selection engine: cuts one record into an ordered sequence of
//! segments that covers the record exactly, each segment classified as
//! selected or pass-through.

use vstd::prelude::*;
use crate::ranges::{Range, wf_ranges, cursor_ok, selected_index, range_contains};
use crate::token::{Segment, segs_model};

verus! {

/// A UTF-8 continuation byte: it does not start a new character.
pub open spec fn is_cont_byte(b: u8) -> bool {
    b & 0xC0 == 0x80
}

/// Number of characters among the first `i` bytes of `line`: the count
/// of bytes that start a character.
pub open spec fn char_count(line: Seq<u8>, i: int) -> int
    decreases i,
{
    if i <= 0 {
        0
    } else {
        char_count(line, i - 1) + (if is_cont_byte(line[i - 1]) {
            0int
        } else {
            1int
        })
    }
}

proof fn lemma_char_count_bounds(line: Seq<u8>, i: int)
    requires
        0 <= i,
    ensures
        0 <= char_count(line, i) <= i,
    decreases i,
{
    if i > 0 {
        lemma_char_count_bounds(line, i - 1);
    }
}

/// The 1-based character position that byte `i` of `line` belongs to.
pub open spec fn char_pos(line: Seq<u8>, i: int) -> int {
    char_count(line, i + 1)
}

/// Classification of byte `i` in character mode: the byte is selected
/// exactly when its character position is.
pub open spec fn char_class(line: Seq<u8>, rs: Seq<Range>, invert: bool, i: int) -> bool {
    selected_index(rs, char_pos(line, i), invert)
}

/// Character-mode segmentation of the suffix of `line` that starts at
/// byte `i`: maximal runs of identically classified characters, each run
/// one segment.
pub open spec fn char_segs(line: Seq<u8>, rs: Seq<Range>, invert: bool, i: int) -> Seq<
    (Seq<u8>, bool),
>
    decreases line.len() - i,
{
    if i < 0 || i >= line.len() {
        Seq::<(Seq<u8>, bool)>::empty()
    } else {
        let c = char_class(line, rs, invert, i);
        let rest = char_segs(line, rs, invert, i + 1);
        if rest.len() > 0 && rest[0].1 == c {
            seq![(seq![line[i]] + rest[0].0, c)] + rest.drop_first()
        } else {
            seq![(seq![line[i]], c)] + rest
        }
    }
}

proof fn lemma_char_segs_first(line: Seq<u8>, rs: Seq<Range>, invert: bool, i: int)
    requires
        0 <= i < line.len(),
    ensures
        char_segs(line, rs, invert, i).len() >= 1,
        char_segs(line, rs, invert, i)[0].1 == char_class(line, rs, invert, i),
        char_segs(line, rs, invert, i)[0].0.len() >= 1,
{
}

/// A maximal run of identically classified bytes forms exactly one
/// segment at the front of the segmentation that starts at the run.
pub proof fn lemma_char_run(line: Seq<u8>, rs: Seq<Range>, invert: bool, a: int, b: int)
    requires
        0 <= a < b <= line.len(),
        forall|j: int| a <= j < b ==> char_class(line, rs, invert, j) == char_class(
            line,
            rs,
            invert,
            a,
        ),
        b == line.len() || char_class(line, rs, invert, b) != char_class(line, rs, invert, a),
    ensures
        char_segs(line, rs, invert, a) == seq![
            (line.subrange(a, b), char_class(line, rs, invert, a)),
        ] + char_segs(line, rs, invert, b),
    decreases b - a,
{
    let c = char_class(line, rs, invert, a);
    if a + 1 == b {
        if b == line.len() {
            assert(seq![line[a]] =~= line.subrange(a, b));
            assert(char_segs(line, rs, invert, a) =~= seq![(line.subrange(a, b), c)] + char_segs(
                line,
                rs,
                invert,
                b,
            ));
        } else {
            lemma_char_segs_first(line, rs, invert, b);
            assert(seq![line[a]] =~= line.subrange(a, b));
            assert(char_segs(line, rs, invert, a) =~= seq![(line.subrange(a, b), c)] + char_segs(
                line,
                rs,
                invert,
                b,
            ));
        }
    } else {
        lemma_char_run(line, rs, invert, a + 1, b);
        let rest = char_segs(line, rs, invert, a + 1);
        assert(rest[0].1 == c);
        assert(seq![line[a]] + rest[0].0 =~= line.subrange(a, b)) by {
            assert(rest[0].0 == line.subrange(a + 1, b));
            assert(seq![line[a]] + line.subrange(a + 1, b) =~= line.subrange(a, b));
        }
        assert(rest.drop_first() =~= char_segs(line, rs, invert, b));
        assert(char_segs(line, rs, invert, a) =~= seq![(line.subrange(a, b), c)] + char_segs(
            line,
            rs,
            invert,
            b,
        ));
    }
}

proof fn lemma_char_close(
    line: Seq<u8>,
    rs: Seq<Range>,
    invert: bool,
    run_start: int,
    i: int,
    cur_sel: bool,
    built: Seq<(Seq<u8>, bool)>,
    textv: Seq<u8>,
)
    requires
        0 <= run_start < i <= line.len(),
        forall|j: int| run_start <= j < i ==> char_class(line, rs, invert, j) == cur_sel,
        i == line.len() || char_class(line, rs, invert, i) != cur_sel,
        textv == line.subrange(run_start, i),
        built + char_segs(line, rs, invert, run_start) == char_segs(line, rs, invert, 0),
    ensures
        built.push((textv, cur_sel)) + char_segs(line, rs, invert, i) == char_segs(
            line,
            rs,
            invert,
            0,
        ),
{
    assert(char_class(line, rs, invert, run_start) == cur_sel);
    lemma_char_run(line, rs, invert, run_start, i);
    assert(built.push((textv, cur_sel)) + char_segs(line, rs, invert, i) =~= built + (seq![
        (textv, cur_sel),
    ] + char_segs(line, rs, invert, i)));
}

/// Character-mode segmentation: classifies every character of the record
/// by Range Set membership and merges consecutive characters of equal
/// classification into a single segment.
#[verifier::rlimit(100)]
pub fn char_segments(line: &Vec<u8>, rs: &Vec<Range>, invert: bool) -> (segs: Vec<Segment>)
    requires
        wf_ranges(rs@),
    ensures
        segs_model(segs@) == char_segs(line@, rs@, invert, 0),
{
    let mut segs: Vec<Segment> = Vec::new();
    let mut cur: Vec<u8> = Vec::new();
    let mut cur_sel: bool = false;
    let mut pos: usize = 0;
    let mut cursor: usize = 0;
    let ghost mut run_start: int = 0;
    let mut i: usize = 0;
    while i < line.len()
        invariant
            wf_ranges(rs@),
            i <= line@.len(),
            pos == char_count(line@, i as int),
            pos <= i,
            cursor_ok(rs@, cursor as int, char_count(line@, i as int)),
            0 <= run_start <= i,
            i > 0 ==> run_start < i,
            i == 0 ==> run_start == 0 && segs@.len() == 0,
            cur@ == line@.subrange(run_start, i as int),
            forall|j: int| run_start <= j < i ==> char_class(line@, rs@, invert, j) == cur_sel,
            run_start == 0 || char_class(line@, rs@, invert, run_start - 1) != cur_sel,
            segs_model(segs@) + char_segs(line@, rs@, invert, run_start) == char_segs(
                line@,
                rs@,
                invert,
                0,
            ),
        decreases line@.len() - i,
    {
        let b = line[i];
        if (b & 0xC0u8) != 0x80u8 {
            proof {
                lemma_char_count_bounds(line@, i as int);
            }
            pos = pos + 1;
        }
        proof {
            assert(pos == char_pos(line@, i as int));
        }
        let r = range_contains(rs, pos, cursor);
        let sel0 = r.0;
        cursor = r.1;
        let cls = if invert {
            !sel0
        } else {
            sel0
        };
        proof {
            assert(cls == char_class(line@, rs@, invert, i as int));
        }
        if i == 0 {
            cur_sel = cls;
        }
        if cls != cur_sel {
            let ghost segs_before = segs@;
            let text = cur;
            cur = Vec::new();
            let ghost textv = text@;
            segs.push(Segment { text, selected: cur_sel });
            proof {
                lemma_char_close(
                    line@,
                    rs@,
                    invert,
                    run_start,
                    i as int,
                    cur_sel,
                    segs_model(segs_before),
                    textv,
                );
                assert(segs_model(segs@) =~= segs_model(segs_before).push((textv, cur_sel)));
                run_start = i as int;
            }
            cur_sel = cls;
        }
        cur.push(b);
        i = i + 1;
        proof {
            assert(cur@ =~= line@.subrange(run_start, i as int));
        }
    }
    if cur.len() > 0 {
        let ghost segs_before = segs@;
        let ghost textv = cur@;
        segs.push(Segment { text: cur, selected: cur_sel });
        proof {
            lemma_char_close(
                line@,
                rs@,
                invert,
                run_start,
                i as int,
                cur_sel,
                segs_model(segs_before),
                textv,
            );
            assert(char_segs(line@, rs@, invert, i as int) =~= Seq::<(Seq<u8>, bool)>::empty());
            assert(segs_model(segs@) =~= segs_model(segs_before).push((textv, cur_sel)));
            assert(segs_model(segs@) + char_segs(line@, rs@, invert, i as int) =~= segs_model(
                segs@,
            ));
        }
    } else {
        proof {
            assert(line@.len() == 0);
            assert(char_segs(line@, rs@, invert, 0) =~= Seq::<(Seq<u8>, bool)>::empty());
        }
    }
    proof {
        assert(segs_model(segs@) =~= char_segs(line@, rs@, invert, 0));
    }
    segs
}

/// The literal delimiter occurs in `line` at byte offset `i`.
pub open spec fn delim_match(line: Seq<u8>, delim: Seq<u8>, i: int) -> bool {
    &&& delim.len() > 0
    &&& 0 <= i
    &&& i + delim.len() <= line.len()
    &&& line.subrange(i, i + delim.len() as int) == delim
}

/// Field-mode segmentation of `line` from byte `i`, where the field open
/// at `i` is the `fidx`-th (1-based) field: fields split on the literal
/// delimiter, delimiter occurrences kept as their own pass-through
/// segments, a trailing delimiter yielding a trailing empty field.
pub open spec fn field_segs(
    line: Seq<u8>,
    delim: Seq<u8>,
    rs: Seq<Range>,
    invert: bool,
    i: int,
    fidx: int,
) -> Seq<(Seq<u8>, bool)>
    decreases line.len() - i,
{
    if i < 0 || i >= line.len() {
        seq![(Seq::<u8>::empty(), selected_index(rs, fidx, invert))]
    } else if delim_match(line, delim, i) {
        seq![(Seq::<u8>::empty(), selected_index(rs, fidx, invert)), (delim, false)] + field_segs(
            line,
            delim,
            rs,
            invert,
            i + delim.len() as int,
            fidx + 1,
        )
    } else {
        let rest = field_segs(line, delim, rs, invert, i + 1, fidx);
        seq![(seq![line[i]] + rest[0].0, rest[0].1)] + rest.drop_first()
    }
}

proof fn lemma_field_first(
    line: Seq<u8>,
    delim: Seq<u8>,
    rs: Seq<Range>,
    invert: bool,
    i: int,
    fidx: int,
)
    ensures
        field_segs(line, delim, rs, invert, i, fidx).len() >= 1,
        field_segs(line, delim, rs, invert, i, fidx)[0].1 == selected_index(rs, fidx, invert),
    decreases line.len() - i,
{
    if 0 <= i < line.len() && !delim_match(line, delim, i) {
        lemma_field_first(line, delim, rs, invert, i + 1, fidx);
    }
}

/// A segmentation whose first (field) segment is extended at the front
/// by the bytes `cur` of the open field.
pub open spec fn with_open_field(cur: Seq<u8>, f: Seq<(Seq<u8>, bool)>) -> Seq<(Seq<u8>, bool)> {
    seq![(cur + f[0].0, f[0].1)] + f.drop_first()
}

proof fn lemma_field_prefix(
    line: Seq<u8>,
    delim: Seq<u8>,
    rs: Seq<Range>,
    invert: bool,
    a: int,
    i: int,
    fidx: int,
)
    requires
        0 <= a <= i <= line.len(),
        forall|j: int| a <= j < i ==> !delim_match(line, delim, j),
    ensures
        field_segs(line, delim, rs, invert, a, fidx) == with_open_field(
            line.subrange(a, i),
            field_segs(line, delim, rs, invert, i, fidx),
        ),
    decreases i - a,
{
    let f = field_segs(line, delim, rs, invert, i, fidx);
    lemma_field_first(line, delim, rs, invert, i, fidx);
    if a == i {
        assert(line.subrange(a, i) =~= Seq::<u8>::empty());
        assert(Seq::<u8>::empty() + f[0].0 =~= f[0].0);
        assert(with_open_field(line.subrange(a, i), f) =~= f);
    } else {
        lemma_field_prefix(line, delim, rs, invert, a + 1, i, fidx);
        let rest = field_segs(line, delim, rs, invert, a + 1, fidx);
        assert(rest == with_open_field(line.subrange(a + 1, i), f));
        assert(rest[0].0 == line.subrange(a + 1, i) + f[0].0);
        assert(seq![line[a]] + rest[0].0 =~= line.subrange(a, i) + f[0].0) by {
            assert(seq![line[a]] + line.subrange(a + 1, i) =~= line.subrange(a, i));
        }
        assert(rest.drop_first() =~= f.drop_first());
        assert(field_segs(line, delim, rs, invert, a, fidx) =~= with_open_field(
            line.subrange(a, i),
            f,
        ));
    }
}

/// Tests whether the literal delimiter occurs in `line` at offset `at`.
fn delim_at(line: &Vec<u8>, delim: &Vec<u8>, at: usize) -> (r: bool)
    ensures
        r == delim_match(line@, delim@, at as int),
{
    if delim.len() == 0 || line.len() < delim.len() || at > line.len() - delim.len() {
        return false;
    }
    let mut j: usize = 0;
    while j < delim.len()
        invariant
            delim@.len() > 0,
            at + delim@.len() <= line@.len(),
            line@.len() <= usize::MAX,
            j <= delim@.len(),
            forall|k: int| 0 <= k < j ==> line@[at + k] == delim@[k],
        decreases delim@.len() - j,
    {
        proof {
            assert(at + j < line@.len());
        }
        if line[at + j] != delim[j] {
            proof {
                assert(line@.subrange(at as int, at as int + delim@.len() as int)[j as int]
                    == line@[at + j]);
            }
            return false;
        }
        j = j + 1;
    }
    proof {
        assert(line@.subrange(at as int, at as int + delim@.len() as int) =~= delim@);
    }
    true
}

/// Field-mode segmentation with an explicit delimiter: splits the record
/// on the literal delimiter, classifies each 1-based field by Range Set
/// membership, and keeps delimiter occurrences as pass-through segments.
#[verifier::rlimit(60)]
pub fn field_segments(line: &Vec<u8>, delim: &Vec<u8>, rs: &Vec<Range>, invert: bool) -> (segs:
    Vec<Segment>)
    requires
        wf_ranges(rs@),
        delim@.len() > 0,
        line@.len() < usize::MAX,
    ensures
        segs_model(segs@) == field_segs(line@, delim@, rs@, invert, 0, 1),
{
    let mut segs: Vec<Segment> = Vec::new();
    let mut cur: Vec<u8> = Vec::new();
    let mut fidx: usize = 1;
    let mut cursor: usize = 0;
    let ghost mut fstart: int = 0;
    let mut i: usize = 0;
    proof {
        assert(segs_model(segs@) =~= Seq::<(Seq<u8>, bool)>::empty());
        assert(segs_model(segs@) + field_segs(line@, delim@, rs@, invert, 0, 1) =~= field_segs(
            line@,
            delim@,
            rs@,
            invert,
            0,
            1,
        ));
    }
    while i < line.len()
        invariant
            wf_ranges(rs@),
            delim@.len() > 0,
            line@.len() < usize::MAX,
            i <= line@.len(),
            0 <= fstart <= i,
            cur@ == line@.subrange(fstart, i as int),
            forall|j: int| fstart <= j < i ==> !delim_match(line@, delim@, j),
            1 <= fidx <= i + 1,
            cursor_ok(rs@, cursor as int, fidx as int),
            field_segs(line@, delim@, rs@, invert, 0, 1) == segs_model(segs@) + field_segs(
                line@,
                delim@,
                rs@,
                invert,
                fstart,
                fidx as int,
            ),
        decreases line@.len() - i,
    {
        if delim_at(line, delim, i) {
            let ghost fnext = field_segs(
                line@,
                delim@,
                rs@,
                invert,
                i + delim@.len(),
                fidx as int + 1,
            );
            proof {
                lemma_field_prefix(line@, delim@, rs@, invert, fstart, i as int, fidx as int);
                lemma_field_first(line@, delim@, rs@, invert, i as int, fidx as int);
                let fi = field_segs(line@, delim@, rs@, invert, i as int, fidx as int);
                // the delimiter stands at i, so the segmentation there opens
                // with an empty field followed by the delimiter span
                assert(fi == seq![
                    (Seq::<u8>::empty(), selected_index(rs@, fidx as int, invert)),
                    (delim@, false),
                ] + fnext);
                assert(cur@ + fi[0].0 =~= cur@);
                assert(with_open_field(cur@, fi) =~= seq![
                    (cur@, selected_index(rs@, fidx as int, invert)),
                    (delim@, false),
                ] + fnext);
            }
            let r = range_contains(rs, fidx, cursor);
            cursor = r.1;
            let sel = if invert {
                !r.0
            } else {
                r.0
            };
            let ghost segs_before = segs@;
            let ghost curv = cur@;
            let text = cur;
            cur = Vec::new();
            segs.push(Segment { text, selected: sel });
            let mut d: Vec<u8> = Vec::new();
            d.extend_from_slice(delim.as_slice());
            proof {
                assert(d@ =~= delim@);
            }
            segs.push(Segment { text: d, selected: false });
            proof {
                assert(segs_model(segs@) =~= segs_model(segs_before) + seq![
                    (curv, sel),
                    (delim@, false),
                ]);
                assert(segs_model(segs@) + fnext =~= segs_model(segs_before) + (seq![
                    (curv, sel),
                    (delim@, false),
                ] + fnext));
                fstart = i + delim@.len() as int;
            }
            i = i + delim.len();
            fidx = fidx + 1;
            proof {
                assert(cur@ =~= line@.subrange(fstart, i as int));
            }
        } else {
            cur.push(line[i]);
            i = i + 1;
            proof {
                assert(cur@ =~= line@.subrange(fstart, i as int));
            }
        }
    }
    let r = range_contains(rs, fidx, cursor);
    let sel = if invert {
        !r.0
    } else {
        r.0
    };
    proof {
        lemma_field_prefix(line@, delim@, rs@, invert, fstart, i as int, fidx as int);
        let fi = field_segs(line@, delim@, rs@, invert, i as int, fidx as int);
        assert(fi == seq![(Seq::<u8>::empty(), selected_index(rs@, fidx as int, invert))]);
        assert(cur@ + fi[0].0 =~= cur@);
        assert(with_open_field(cur@, fi) =~= seq![(cur@, sel)]);
    }
    let ghost segs_before = segs@;
    let ghost curv = cur@;
    segs.push(Segment { text: cur, selected: sel });
    proof {
        assert(segs_model(segs@) =~= segs_model(segs_before) + seq![(curv, sel)]);
        assert(segs_model(segs@) =~= field_segs(line@, delim@, rs@, invert, 0, 1));
    }
    segs
}

/// Well-formedness of a match list over a record of length `len`: byte
/// offsets in bounds, matches ordered left to right without overlap.
pub open spec fn match_list_wf(ms: Seq<(usize, usize)>, len: int) -> bool {
    &&& forall|k: int| 0 <= k < ms.len() ==> (#[trigger] ms[k]).0 <= ms[k].1 <= len
    &&& forall|k: int|
        0 <= k && k + 1 < ms.len() ==> (#[trigger] ms[k]).1 <= ms[k + 1].0 && ms[k].0 < ms[k
            + 1].0
}

/// Pattern-mode segmentation of `line` from byte `left`, given the
/// non-overlapping matches `ms`: matched spans are selected, the spans
/// between them pass through, and a zero-width span never produces a
/// segment. `invert` swaps the classification.
pub open spec fn pattern_segs(
    line: Seq<u8>,
    ms: Seq<(usize, usize)>,
    invert: bool,
    left: int,
) -> Seq<(Seq<u8>, bool)>
    decreases ms.len(),
{
    if ms.len() == 0 {
        if left < line.len() {
            seq![(line.subrange(left, line.len() as int), invert)]
        } else {
            Seq::<(Seq<u8>, bool)>::empty()
        }
    } else {
        let s = ms[0].0 as int;
        let e = ms[0].1 as int;
        (if left < s {
            seq![(line.subrange(left, s), invert)]
        } else {
            Seq::<(Seq<u8>, bool)>::empty()
        }) + (if s < e {
            seq![(line.subrange(s, e), !invert)]
        } else {
            Seq::<(Seq<u8>, bool)>::empty()
        }) + pattern_segs(line, ms.drop_first(), invert, e)
    }
}

/// Pattern-mode segmentation from a list of non-overlapping matches.
#[verifier::rlimit(60)]
pub fn pattern_segments(line: &Vec<u8>, ms: &Vec<(usize, usize)>, invert: bool) -> (segs: Vec<
    Segment,
>)
    requires
        match_list_wf(ms@, line@.len() as int),
    ensures
        segs_model(segs@) == pattern_segs(line@, ms@, invert, 0),
{
    let mut segs: Vec<Segment> = Vec::new();
    let mut left: usize = 0;
    let mut k: usize = 0;
    proof {
        assert(ms@.skip(0) =~= ms@);
        assert(segs_model(segs@) =~= Seq::<(Seq<u8>, bool)>::empty());
        assert(segs_model(segs@) + pattern_segs(line@, ms@, invert, 0) =~= pattern_segs(
            line@,
            ms@,
            invert,
            0,
        ));
    }
    while k < ms.len()
        invariant
            match_list_wf(ms@, line@.len() as int),
            k <= ms@.len(),
            left <= line@.len(),
            k < ms@.len() ==> left <= ms@[k as int].0,
            pattern_segs(line@, ms@, invert, 0) == segs_model(segs@) + pattern_segs(
                line@,
                ms@.skip(k as int),
                invert,
                left as int,
            ),
        decreases ms@.len() - k,
    {
        let s = ms[k].0;
        let e = ms[k].1;
        let ghost tail = ms@.skip(k as int);
        proof {
            assert(tail[0] == ms@[k as int]);
            assert(tail.drop_first() =~= ms@.skip(k as int + 1));
        }
        if left < s {
            let ghost segs_before = segs@;
            let text = subvec(line, left, s);
            let ghost textv = text@;
            segs.push(Segment { text, selected: invert });
            proof {
                assert(segs_model(segs@) =~= segs_model(segs_before).push((textv, invert)));
            }
        }
        if s < e {
            let ghost segs_before = segs@;
            let text = subvec(line, s, e);
            let ghost textv = text@;
            segs.push(Segment { text, selected: !invert });
            proof {
                assert(segs_model(segs@) =~= segs_model(segs_before).push(
                    (textv, !invert),
                ));
            }
        }
        proof {
            if k + 1 < ms@.len() {
                assert(ms@[k as int].1 <= ms@[k as int + 1].0);
            }
        }
        left = e;
        k = k + 1;
    }
    proof {
        assert(ms@.skip(k as int) =~= Seq::<(usize, usize)>::empty());
    }
    if left < line.len() {
        let ghost segs_before = segs@;
        let text = subvec(line, left, line.len());
        let ghost textv = text@;
        segs.push(Segment { text, selected: invert });
        proof {
            assert(segs_model(segs@) =~= segs_model(segs_before).push((textv, invert)));
        }
    }
    segs
}

/// Field-mode segmentation of `line` from byte `left`, where delimiter
/// spans come from the matches `ms` and the field open at `left` is the
/// `fidx`-th: fields (possibly empty) alternate with delimiter spans,
/// and the trailing field is always present.
pub open spec fn field_pat_segs(
    line: Seq<u8>,
    ms: Seq<(usize, usize)>,
    rs: Seq<Range>,
    invert: bool,
    left: int,
    fidx: int,
) -> Seq<(Seq<u8>, bool)>
    decreases ms.len(),
{
    if ms.len() == 0 {
        seq![(line.subrange(left, line.len() as int), selected_index(rs, fidx, invert))]
    } else {
        let s = ms[0].0 as int;
        let e = ms[0].1 as int;
        seq![
            (line.subrange(left, s), selected_index(rs, fidx, invert)),
            (line.subrange(s, e), false),
        ] + field_pat_segs(line, ms.drop_first(), rs, invert, e, fidx + 1)
    }
}

/// Field-mode segmentation with delimiter spans taken from a list of
/// non-overlapping matches.
#[verifier::rlimit(100)]
pub fn field_pattern_segments(
    line: &Vec<u8>,
    ms: &Vec<(usize, usize)>,
    rs: &Vec<Range>,
    invert: bool,
) -> (segs: Vec<Segment>)
    requires
        wf_ranges(rs@),
        match_list_wf(ms@, line@.len() as int),
        ms@.len() < usize::MAX,
    ensures
        segs_model(segs@) == field_pat_segs(line@, ms@, rs@, invert, 0, 1),
{
    let mut segs: Vec<Segment> = Vec::new();
    let mut left: usize = 0;
    let mut fidx: usize = 1;
    let mut cursor: usize = 0;
    let mut k: usize = 0;
    proof {
        assert(ms@.skip(0) =~= ms@);
        assert(segs_model(segs@) =~= Seq::<(Seq<u8>, bool)>::empty());
        assert(segs_model(segs@) + field_pat_segs(line@, ms@, rs@, invert, 0, 1)
            =~= field_pat_segs(line@, ms@, rs@, invert, 0, 1));
    }
    while k < ms.len()
        invariant
            wf_ranges(rs@),
            match_list_wf(ms@, line@.len() as int),
            ms@.len() < usize::MAX,
            k <= ms@.len(),
            left <= line@.len(),
            k < ms@.len() ==> left <= ms@[k as int].0,
            fidx == k + 1,
            cursor_ok(rs@, cursor as int, fidx as int),
            field_pat_segs(line@, ms@, rs@, invert, 0, 1) == segs_model(segs@) + field_pat_segs(
                line@,
                ms@.skip(k as int),
                rs@,
                invert,
                left as int,
                fidx as int,
            ),
        decreases ms@.len() - k,
    {
        let s = ms[k].0;
        let e = ms[k].1;
        let ghost tail = ms@.skip(k as int);
        proof {
            assert(tail[0] == ms@[k as int]);
            assert(tail.drop_first() =~= ms@.skip(k as int + 1));
        }
        let r = range_contains(rs, fidx, cursor);
        cursor = r.1;
        let sel = if invert {
            !r.0
        } else {
            r.0
        };
        let ghost segs_before = segs@;
        let field = subvec(line, left, s);
        let ghost fieldv = field@;
        segs.push(Segment { text: field, selected: sel });
        let dspan = subvec(line, s, e);
        let ghost dspanv = dspan@;
        segs.push(Segment { text: dspan, selected: false });
        proof {
            assert(segs_model(segs@) =~= segs_model(segs_before).push((fieldv, sel)).push(
                (dspanv, false),
            ));
            if k + 1 < ms@.len() {
                assert(ms@[k as int].1 <= ms@[k as int + 1].0);
            }
        }
        left = e;
        fidx = fidx + 1;
        k = k + 1;
    }
    proof {
        assert(ms@.skip(k as int) =~= Seq::<(usize, usize)>::empty());
    }
    let r = range_contains(rs, fidx, cursor);
    let sel = if invert {
        !r.0
    } else {
        r.0
    };
    let ghost segs_before = segs@;
    let field = subvec(line, left, line.len());
    let ghost fieldv = field@;
    segs.push(Segment { text: field, selected: sel });
    proof {
        assert(segs_model(segs@) =~= segs_model(segs_before).push((fieldv, sel)));
    }
    segs
}

/// Copies the byte range `[a, b)` of `line` into a fresh vector.
pub(crate) fn subvec(line: &Vec<u8>, a: usize, b: usize) -> (r: Vec<u8>)
    requires
        a <= b <= line@.len(),
    ensures
        r@ == line@.subrange(a as int, b as int),
{
    let mut r: Vec<u8> = Vec::new();
    let mut j: usize = a;
    while j < b
        invariant
            a <= j <= b <= line@.len(),
            r@ == line@.subrange(a as int, j as int),
        decreases b - j,
    {
        r.push(line[j]);
        j = j + 1;
        proof {
            assert(r@ =~= line@.subrange(a as int, j as int));
        }
    }
    r
}

} // verus!
