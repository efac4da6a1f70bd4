//! Range Set: an ascending, non-overlapping set of 1-based inclusive
//! integer ranges, queried with a monotonically advancing cursor.

use vstd::prelude::*;

verus! {

/// One inclusive range of 1-based indices.
#[derive(Clone, Copy, Debug, PartialEq, Eq)]
pub struct Range {
    pub low: usize,
    pub high: usize,
}

/// A well-formed Range Set: non-empty, each range ordered, and ranges
/// strictly ascending without overlap.
pub open spec fn wf_ranges(rs: Seq<Range>) -> bool {
    &&& rs.len() > 0
    &&& forall|i: int| 0 <= i < rs.len() ==> (#[trigger] rs[i]).low <= rs[i].high
    &&& forall|i: int| 0 < i < rs.len() ==> (#[trigger] rs[i]).low > rs[i - 1].high
}

/// Membership of an index in the Range Set.
pub open spec fn in_ranges(rs: Seq<Range>, idx: int) -> bool {
    exists|i: int| 0 <= i < rs.len() && (#[trigger] rs[i]).low <= idx <= rs[i].high
}

/// Whether an index counts as selected, given the invert flag: inversion
/// complements the result of the membership test, not the stored ranges.
pub open spec fn selected_index(rs: Seq<Range>, idx: int, invert: bool) -> bool {
    in_ranges(rs, idx) != invert
}

/// A cursor is valid for a query index when every range it has passed
/// lies wholly below that index.
pub open spec fn cursor_ok(rs: Seq<Range>, cursor: int, idx: int) -> bool {
    &&& 0 <= cursor < rs.len()
    &&& forall|k: int| 0 <= k < cursor ==> (#[trigger] rs[k]).high < idx
}

proof fn lemma_high_mono(rs: Seq<Range>, a: int, b: int)
    requires
        wf_ranges(rs),
        0 <= a <= b < rs.len(),
    ensures
        rs[a].high <= rs[b].high,
    decreases b - a,
{
    if a < b {
        lemma_high_mono(rs, a, b - 1);
    }
}

/// Membership test with a monotonic cursor: advances the cursor to the
/// first range whose high end reaches `idx`, then tests that range.
/// Query indices sharing a cursor must be non-decreasing, which
/// `cursor_ok` captures.
pub fn range_contains(rs: &Vec<Range>, idx: usize, cursor: usize) -> (r: (bool, usize))
    requires
        wf_ranges(rs@),
        cursor_ok(rs@, cursor as int, idx as int),
    ensures
        r.0 == in_ranges(rs@, idx as int),
        forall|j: int| idx <= j ==> cursor_ok(rs@, r.1 as int, j),
{
    let mut c = cursor;
    while c < rs.len() - 1 && rs[c].high < idx
        invariant
            wf_ranges(rs@),
            cursor_ok(rs@, c as int, idx as int),
        decreases rs@.len() - c,
    {
        c = c + 1;
    }
    let sel = rs[c].low <= idx && idx <= rs[c].high;
    proof {
        if sel {
            assert(in_ranges(rs@, idx as int));
        } else {
            assert forall|i: int| 0 <= i < rs@.len() implies !((#[trigger] rs@[i]).low <= idx
                <= rs@[i].high) by {
                if i < c {
                    assert(rs@[i].high < idx);
                } else if i > c {
                    if rs@[c as int].high >= idx {
                        lemma_high_mono(rs@, c as int, i - 1);
                        assert(rs@[i].low > rs@[i - 1].high);
                        assert(rs@[i].low > idx);
                    } else {
                        // the loop stopped because the cursor hit the last range
                        assert(c + 1 >= rs@.len());
                        assert(false);
                    }
                }
            }
        }
    }
    (sel, c)
}

} // verus!
