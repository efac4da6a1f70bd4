//! Per-record processing: one entry point per selection criterion, each
//! segmenting the record and routing the segments through the producer.

use vstd::prelude::*;
use crate::ranges::{Range, wf_ranges, cursor_ok, selected_index, range_contains};
use crate::token::{Segment, segs_model};
use crate::select::{
    char_segs,
    char_segments,
    field_segs,
    field_segments,
    pattern_segs,
    pattern_segments,
    field_pat_segs,
    field_pattern_segments,
    match_list_wf,
    subvec,
};
use crate::intercepter::{PipeIntercepter, mode, tokens_render};
use crate::matcher::{regex_is_match, regex_find_matches};

verus! {

/// The two pieces of one whole-record classification: the record itself
/// and its separately forwarded terminator, which is never selectable.
pub open spec fn record_segs(line: Seq<u8>, eol: Seq<u8>, selected: bool) -> Seq<(Seq<u8>, bool)> {
    seq![(line, selected), (eol, false)]
}

/// A per-record call appended exactly the rendering of the pieces `ps`
/// to the producer's token stream and subprocess-stdin bytes, and
/// touched nothing else.
pub open spec fn proc_appends(
    pre: PipeIntercepter,
    post: PipeIntercepter,
    ps: Seq<(Seq<u8>, bool)>,
) -> bool {
    &&& mode(post) == mode(pre)
    &&& post.tokens@.len() >= pre.tokens@.len()
    &&& post.tokens@.take(pre.tokens@.len() as int) == pre.tokens@
    &&& pre.pipe_bytes@.is_prefix_of(post.pipe_bytes@)
    &&& tokens_render(
        mode(pre),
        ps,
        post.tokens@.skip(pre.tokens@.len() as int),
        post.pipe_bytes@.skip(pre.pipe_bytes@.len() as int),
    )
}

/// Routes one whole record with a known classification, then its
/// terminator as a pass-through piece.
pub fn line_record_proc(ch: &mut PipeIntercepter, line: &Vec<u8>, eol: &Vec<u8>, selected: bool)
    ensures
        proc_appends(*old(ch), *final(ch), record_segs(line@, eol@, selected)),
{
    let mut segs: Vec<Segment> = Vec::new();
    let text = subvec(line, 0, line.len());
    proof {
        assert(text@ =~= line@);
    }
    segs.push(Segment { text, selected });
    let eol_text = subvec(eol, 0, eol.len());
    proof {
        assert(eol_text@ =~= eol@);
    }
    segs.push(Segment { text: eol_text, selected: false });
    proof {
        assert(segs_model(segs@) =~= record_segs(line@, eol@, selected));
    }
    ch.send_segments(segs);
}

/// Line mode: classifies the whole record by Range Set membership of its
/// 1-based line number, with a cursor shared across records.
pub fn line_line_proc(
    ch: &mut PipeIntercepter,
    line: &Vec<u8>,
    eol: &Vec<u8>,
    rs: &Vec<Range>,
    invert: bool,
    line_no: usize,
    cursor: usize,
) -> (nc: usize)
    requires
        wf_ranges(rs@),
        cursor_ok(rs@, cursor as int, line_no as int),
    ensures
        proc_appends(
            *old(ch),
            *final(ch),
            record_segs(line@, eol@, selected_index(rs@, line_no as int, invert)),
        ),
        forall|j: int| line_no <= j ==> cursor_ok(rs@, nc as int, j),
{
    let r = range_contains(rs, line_no, cursor);
    let sel = if invert {
        !r.0
    } else {
        r.0
    };
    line_record_proc(ch, line, eol, sel);
    r.1
}

/// Line-level pattern mode: the whole record is selected exactly when
/// the pattern matches it, inverted by the flag.
pub fn regex_line_proc(
    ch: &mut PipeIntercepter,
    line: &Vec<u8>,
    eol: &Vec<u8>,
    re: &regex::bytes::Regex,
    invert: bool,
)
    ensures
        exists|sel: bool|
            proc_appends(*old(ch), *final(ch), record_segs(line@, eol@, sel)),
{
    let matched = regex_is_match(re, line);
    let sel = if matched {
        !invert
    } else {
        invert
    };
    line_record_proc(ch, line, eol, sel);
    proof {
        assert(proc_appends(*old(ch), *ch, record_segs(line@, eol@, sel)));
    }
}

/// Pattern mode: matched spans are selected, the text between them
/// passes through, and a zero-width match never produces a segment.
pub fn regex_proc(
    ch: &mut PipeIntercepter,
    line: &Vec<u8>,
    re: &regex::bytes::Regex,
    invert: bool,
)
    ensures
        exists|ms: Seq<(usize, usize)>|
            match_list_wf(ms, line@.len() as int) && proc_appends(
                *old(ch),
                *final(ch),
                pattern_segs(line@, ms, invert, 0),
            ),
{
    let ms = regex_find_matches(re, line);
    let segs = pattern_segments(line, &ms, invert);
    ch.send_segments(segs);
    proof {
        assert(match_list_wf(ms@, line@.len() as int) && proc_appends(
            *old(ch),
            *ch,
            pattern_segs(line@, ms@, invert, 0),
        ));
    }
}

/// Character mode: classifies each 1-based character position and merges
/// runs of equal classification into single segments.
pub fn char_proc(ch: &mut PipeIntercepter, line: &Vec<u8>, rs: &Vec<Range>, invert: bool)
    requires
        wf_ranges(rs@),
    ensures
        proc_appends(*old(ch), *final(ch), char_segs(line@, rs@, invert, 0)),
{
    let segs = char_segments(line, rs, invert);
    ch.send_segments(segs);
}

/// Field mode with an explicit delimiter.
pub fn field_proc(
    ch: &mut PipeIntercepter,
    line: &Vec<u8>,
    delim: &Vec<u8>,
    rs: &Vec<Range>,
    invert: bool,
)
    requires
        wf_ranges(rs@),
        delim@.len() > 0,
        line@.len() < usize::MAX,
    ensures
        proc_appends(*old(ch), *final(ch), field_segs(line@, delim@, rs@, invert, 0, 1)),
{
    let segs = field_segments(line, delim, rs, invert);
    ch.send_segments(segs);
}

proof fn lemma_match_start_ge(ms: Seq<(usize, usize)>, len: int, k: int)
    requires
        match_list_wf(ms, len),
        0 <= k < ms.len(),
    ensures
        ms[k].0 >= k,
    decreases k,
{
    if k > 0 {
        lemma_match_start_ge(ms, len, k - 1);
    }
}

/// A well-formed match list over a record holds at most one match more
/// than the record has bytes.
pub proof fn lemma_match_count(ms: Seq<(usize, usize)>, len: int)
    requires
        match_list_wf(ms, len),
        len >= 0,
    ensures
        ms.len() <= len + 1,
{
    if ms.len() > 0 {
        lemma_match_start_ge(ms, len, ms.len() - 1);
    }
}

/// Field mode with a pattern delimiter: delimiter spans come from the
/// pattern's matches.
pub fn field_regex_proc(
    ch: &mut PipeIntercepter,
    line: &Vec<u8>,
    re: &regex::bytes::Regex,
    rs: &Vec<Range>,
    invert: bool,
)
    requires
        wf_ranges(rs@),
        line@.len() + 1 < usize::MAX,
    ensures
        exists|ms: Seq<(usize, usize)>|
            match_list_wf(ms, line@.len() as int) && proc_appends(
                *old(ch),
                *final(ch),
                field_pat_segs(line@, ms, rs@, invert, 0, 1),
            ),
{
    let ms = regex_find_matches(re, line);
    proof {
        lemma_match_count(ms@, line@.len() as int);
    }
    let segs = field_pattern_segments(line, &ms, rs, invert);
    ch.send_segments(segs);
    proof {
        assert(match_list_wf(ms@, line@.len() as int) && proc_appends(
            *old(ch),
            *ch,
            field_pat_segs(line@, ms@, rs@, invert, 0, 1),
        ));
    }
}

} // verus!
