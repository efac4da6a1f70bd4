//! Forward tokens: the message units sent from the producer to the
//! consumer, and the segments a record is cut into.

use vstd::prelude::*;

verus! {

/// One message from producer to consumer. Tokens are produced strictly in
/// record order and segment order; the consumer writes them out in the
/// same order.
#[derive(Clone, Debug, PartialEq)]
pub enum Token {
    /// Write this text verbatim.
    Channel(Vec<u8>),
    /// One unit of output is pending from the streaming subprocess; read
    /// one terminator-delimited unit from it and write that.
    Piped,
    /// Run the subprocess once on this text and write its captured output.
    Solid(Vec<u8>),
    /// No more tokens; shut down.
    EOF,
}

/// A contiguous piece of a record, classified as selected or pass-through.
#[derive(Clone, Debug, PartialEq)]
pub struct Segment {
    pub text: Vec<u8>,
    pub selected: bool,
}

pub open spec fn is_channel(t: Token, s: Seq<u8>) -> bool {
    match t {
        Token::Channel(m) => m@ == s,
        _ => false,
    }
}

pub open spec fn is_piped(t: Token) -> bool {
    match t {
        Token::Piped => true,
        _ => false,
    }
}

pub open spec fn is_solid(t: Token, s: Seq<u8>) -> bool {
    match t {
        Token::Solid(m) => m@ == s,
        _ => false,
    }
}

pub open spec fn is_eof(t: Token) -> bool {
    match t {
        Token::EOF => true,
        _ => false,
    }
}

/// The mathematical model of a segment: its text and its classification.
pub open spec fn seg_model(s: Segment) -> (Seq<u8>, bool) {
    (s.text@, s.selected)
}

/// The model of a segment vector.
pub open spec fn segs_model(v: Seq<Segment>) -> Seq<(Seq<u8>, bool)> {
    v.map_values(|s: Segment| seg_model(s))
}

/// Concatenation of the texts of a modelled segmentation.
pub open spec fn pieces_concat(ps: Seq<(Seq<u8>, bool)>) -> Seq<u8>
    decreases ps.len(),
{
    if ps.len() == 0 {
        Seq::<u8>::empty()
    } else {
        ps[0].0 + pieces_concat(ps.drop_first())
    }
}

} // verus!
