//! Order-preserving forwarding engine: segments each input record into
//! pass-through and selected pieces, routes selected pieces towards an
//! external command, and reassembles the output so that its byte order
//! mirrors the input order.

use vstd::prelude::*;

pub mod consume;
pub mod laws;
pub mod intercepter;
pub mod matcher;
pub mod procs;
pub mod ranges;
pub mod select;
pub mod token;

verus! {

/// Number of bytes taken up by the record terminator at the end of `b`:
/// 2 for CRLF, 1 for a bare LF or NUL, 0 otherwise.
pub open spec fn eol_len(b: Seq<u8>) -> int {
    if b.len() >= 2 && b[b.len() - 2] == 13 && b[b.len() - 1] == 10 {
        2
    } else if b.len() >= 1 && (b[b.len() - 1] == 10 || b[b.len() - 1] == 0) {
        1
    } else {
        0
    }
}

/// The record terminator at the end of `b`, as the characters that
/// `trim_eol` hands back.
pub open spec fn eol_chars(b: Seq<u8>) -> Seq<char> {
    if b.len() >= 2 && b[b.len() - 2] == 13 && b[b.len() - 1] == 10 {
        seq!['\r', '\n']
    } else if b.len() >= 1 && b[b.len() - 1] == 10 {
        seq!['\n']
    } else if b.len() >= 1 && b[b.len() - 1] == 0 {
        seq!['\u{0}']
    } else {
        Seq::<char>::empty()
    }
}

/// Removes the record terminator (CRLF, LF or NUL) from the end of `buf`,
/// if one is there, and returns it so that it can be reproduced
/// byte-for-byte on output.
pub fn trim_eol(buf: &mut Vec<u8>) -> (eol: String)
    ensures
        final(buf)@ == old(buf)@.take(old(buf)@.len() - eol_len(old(buf)@)),
        eol@ == eol_chars(old(buf)@),
{
    let n = buf.len();
    if n >= 2 && buf[n - 2] == 13u8 && buf[n - 1] == 10u8 {
        buf.pop();
        buf.pop();
        proof {
            reveal_strlit("\r\n");
            assert(buf@ =~= old(buf)@.take(old(buf)@.len() - 2));
        }
        return "\r\n".to_owned();
    }
    if n >= 1 && buf[n - 1] == 10u8 {
        buf.pop();
        proof {
            reveal_strlit("\n");
            assert(buf@ =~= old(buf)@.take(old(buf)@.len() - 1));
        }
        return "\n".to_owned();
    }
    if n >= 1 && buf[n - 1] == 0u8 {
        buf.pop();
        proof {
            reveal_strlit("\u{0}");
            assert(buf@ =~= old(buf)@.take(old(buf)@.len() - 1));
        }
        return "\u{0}".to_owned();
    }
    proof {
        reveal_strlit("");
        assert(buf@ =~= old(buf)@.take(old(buf)@.len() - 0));
    }
    "".to_owned()
}

/// Removes one trailing terminator byte, as done on the captured output of
/// a one-shot subprocess run.
pub fn chomp_line_end(buf: &mut Vec<u8>, line_end: u8)
    ensures
        old(buf)@.len() > 0 && old(buf)@.last() == line_end ==> final(buf)@ == old(
            buf,
        )@.drop_last(),
        !(old(buf)@.len() > 0 && old(buf)@.last() == line_end) ==> final(buf)@ == old(buf)@,
{
    let n = buf.len();
    if n >= 1 && buf[n - 1] == line_end {
        buf.pop();
        proof {
            assert(buf@ =~= old(buf)@.drop_last());
        }
    }
}

/// Turns a vector of borrowed strings into a vector of owned strings with
/// the same contents.
pub fn vecstr_rm_references(orig: &Vec<&str>) -> (removed: Vec<String>)
    ensures
        removed@.len() == orig@.len(),
        forall|i: int| 0 <= i < orig@.len() ==> (#[trigger] removed@[i])@ == orig@[i]@,
{
    let mut removed: Vec<String> = Vec::new();
    let mut k: usize = 0;
    while k < orig.len()
        invariant
            k <= orig@.len(),
            removed@.len() == k,
            forall|i: int| 0 <= i < k ==> (#[trigger] removed@[i])@ == orig@[i]@,
        decreases orig@.len() - k,
    {
        removed.push(orig[k].to_owned());
        k = k + 1;
    }
    removed
}

} // verus!
