//! The producer side of the forwarding engine: turns segments into an
//! ordered stream of forward tokens, plus the bytes that go to the
//! streaming subprocess's stdin.

use vstd::prelude::*;
use crate::token::{Token, Segment, is_channel, is_piped, is_solid, is_eof, segs_model};

verus! {

/// The routing mode of a run: how a selected segment is forwarded.
pub struct ForwardMode {
    pub solid: bool,
    pub dryrun: bool,
    pub line_end: u8,
    pub hl_pre: Seq<u8>,
    pub hl_suf: Seq<u8>,
}

/// The token that routing one piece (text, selected) must produce under
/// mode `m`.
pub open spec fn rendered_token(m: ForwardMode, piece: (Seq<u8>, bool), t: Token) -> bool {
    if !piece.1 {
        is_channel(t, piece.0)
    } else if m.dryrun {
        is_channel(t, m.hl_pre + piece.0 + m.hl_suf)
    } else if m.solid {
        is_solid(t, piece.0)
    } else {
        is_piped(t)
    }
}

/// The bytes that routing one piece writes to the subprocess stdin.
pub open spec fn seg_pipe_bytes(m: ForwardMode, piece: (Seq<u8>, bool)) -> Seq<u8> {
    if piece.1 && !m.dryrun && !m.solid {
        piece.0.push(m.line_end)
    } else {
        Seq::<u8>::empty()
    }
}

/// Routing the pieces `ps` under mode `m` produces exactly the tokens
/// `ts` and the subprocess-stdin bytes `pipe`, in piece order.
pub open spec fn tokens_render(
    m: ForwardMode,
    ps: Seq<(Seq<u8>, bool)>,
    ts: Seq<Token>,
    pipe: Seq<u8>,
) -> bool
    decreases ps.len(),
{
    if ps.len() == 0 {
        ts.len() == 0 && pipe.len() == 0
    } else {
        &&& ts.len() >= 1
        &&& rendered_token(m, ps[0], ts[0])
        &&& seg_pipe_bytes(m, ps[0]).is_prefix_of(pipe)
        &&& tokens_render(
            m,
            ps.drop_first(),
            ts.drop_first(),
            pipe.skip(seg_pipe_bytes(m, ps[0]).len() as int),
        )
    }
}

/// Extending a rendered segment list by one segment extends the token
/// stream by one token and the pipe bytes by that segment's bytes.
pub proof fn lemma_render_snoc(
    m: ForwardMode,
    ps: Seq<(Seq<u8>, bool)>,
    ts: Seq<Token>,
    pipe: Seq<u8>,
    piece: (Seq<u8>, bool),
    t: Token,
)
    requires
        tokens_render(m, ps, ts, pipe),
        rendered_token(m, piece, t),
    ensures
        tokens_render(m, ps.push(piece), ts.push(t), pipe + seg_pipe_bytes(m, piece)),
    decreases ps.len(),
{
    let pb = seg_pipe_bytes(m, piece);
    let ps2 = ps.push(piece);
    let ts2 = ts.push(t);
    let pipe2 = pipe + pb;
    if ps.len() == 0 {
        assert(ps2[0] == piece);
        assert(ts2[0] == t);
        assert(pipe2 =~= pb);
        assert(seg_pipe_bytes(m, ps2[0]).is_prefix_of(pipe2)) by {
            assert(pipe2.take(pb.len() as int) =~= pb);
        }
        assert(ps2.drop_first() =~= Seq::<(Seq<u8>, bool)>::empty());
        assert(ts2.drop_first() =~= Seq::<Token>::empty());
        assert(pipe2.skip(pb.len() as int) =~= Seq::<u8>::empty());
        assert(tokens_render(
            m,
            ps2.drop_first(),
            ts2.drop_first(),
            pipe2.skip(seg_pipe_bytes(m, ps2[0]).len() as int),
        ));
        assert(tokens_render(m, ps2, ts2, pipe2));
    } else {
        let k = seg_pipe_bytes(m, ps[0]).len() as int;
        assert(ps2[0] == ps[0]);
        assert(ts2[0] == ts[0]);
        assert(rendered_token(m, ps2[0], ts2[0]));
        assert(seg_pipe_bytes(m, ps2[0]).is_prefix_of(pipe2)) by {
            assert(pipe2.take(k) =~= pipe.take(k));
        }
        lemma_render_snoc(m, ps.drop_first(), ts.drop_first(), pipe.skip(k), piece, t);
        assert(ps2.drop_first() =~= ps.drop_first().push(piece));
        assert(ts2.drop_first() =~= ts.drop_first().push(t));
        assert(pipe2.skip(k) =~= pipe.skip(k) + pb);
        assert(tokens_render(
            m,
            ps2.drop_first(),
            ts2.drop_first(),
            pipe2.skip(seg_pipe_bytes(m, ps2[0]).len() as int),
        ));
        assert(tokens_render(m, ps2, ts2, pipe2));
    }
}

/// The producer state: the tokens produced so far, the bytes written to
/// the streaming subprocess stdin so far, and the run's mode flags.
pub struct PipeIntercepter {
    pub tokens: Vec<Token>,
    pub pipe_bytes: Vec<u8>,
    pub line_end: u8,
    pub solid: bool,
    pub dryrun: bool,
    pub hl_pre: Vec<u8>,
    pub hl_suf: Vec<u8>,
}

/// The routing mode a producer state carries.
pub open spec fn mode(ch: PipeIntercepter) -> ForwardMode {
    ForwardMode {
        solid: ch.solid,
        dryrun: ch.dryrun,
        line_end: ch.line_end,
        hl_pre: ch.hl_pre@,
        hl_suf: ch.hl_suf@,
    }
}

impl PipeIntercepter {
    /// A producer for streaming mode: one long-lived subprocess, whose
    /// stdin receives every selected segment.
    pub fn start_output(line_end: u8, dryrun: bool, hl_pre: Vec<u8>, hl_suf: Vec<u8>) -> (r: Self)
        ensures
            r.tokens@.len() == 0,
            r.pipe_bytes@.len() == 0,
            mode(r) == (ForwardMode {
                solid: false,
                dryrun: dryrun,
                line_end: line_end,
                hl_pre: hl_pre@,
                hl_suf: hl_suf@,
            }),
    {
        PipeIntercepter {
            tokens: Vec::new(),
            pipe_bytes: Vec::new(),
            line_end,
            solid: false,
            dryrun,
            hl_pre,
            hl_suf,
        }
    }

    /// A producer for solid mode: one subprocess per selected segment,
    /// run by the consumer.
    pub fn start_solid_output(
        line_end: u8,
        dryrun: bool,
        hl_pre: Vec<u8>,
        hl_suf: Vec<u8>,
    ) -> (r: Self)
        ensures
            r.tokens@.len() == 0,
            r.pipe_bytes@.len() == 0,
            mode(r) == (ForwardMode {
                solid: true,
                dryrun: dryrun,
                line_end: line_end,
                hl_pre: hl_pre@,
                hl_suf: hl_suf@,
            }),
    {
        PipeIntercepter {
            tokens: Vec::new(),
            pipe_bytes: Vec::new(),
            line_end,
            solid: true,
            dryrun,
            hl_pre,
            hl_suf,
        }
    }

    /// Sends a pass-through piece: written verbatim by the consumer.
    pub fn send_msg(&mut self, msg: Vec<u8>)
        ensures
            mode(*final(self)) == mode(*old(self)),
            final(self).pipe_bytes@ == old(self).pipe_bytes@,
            final(self).tokens@.len() == old(self).tokens@.len() + 1,
            final(self).tokens@.take(old(self).tokens@.len() as int) == old(self).tokens@,
            is_channel(final(self).tokens@.last(), msg@),
    {
        self.tokens.push(Token::Channel(msg));
        proof {
            assert(self.tokens@.take(old(self).tokens@.len() as int) =~= old(self).tokens@);
        }
    }

    /// Sends a selected piece, routed according to the mode: highlighted
    /// text in a dry run, a one-shot run in solid mode, otherwise a write
    /// to the subprocess stdin paired with a read signal.
    pub fn send_pipe(&mut self, msg: Vec<u8>)
        ensures
            mode(*final(self)) == mode(*old(self)),
            final(self).tokens@.len() == old(self).tokens@.len() + 1,
            final(self).tokens@.take(old(self).tokens@.len() as int) == old(self).tokens@,
            rendered_token(mode(*old(self)), (msg@, true), final(self).tokens@.last()),
            final(self).pipe_bytes@ == old(self).pipe_bytes@ + seg_pipe_bytes(
                mode(*old(self)),
                (msg@, true),
            ),
    {
        if self.dryrun {
            let mut annotated: Vec<u8> = Vec::new();
            annotated.extend_from_slice(self.hl_pre.as_slice());
            annotated.extend_from_slice(msg.as_slice());
            annotated.extend_from_slice(self.hl_suf.as_slice());
            proof {
                assert(annotated@ =~= self.hl_pre@ + msg@ + self.hl_suf@);
            }
            self.tokens.push(Token::Channel(annotated));
            proof {
                assert(self.tokens@.take(old(self).tokens@.len() as int) =~= old(self).tokens@);
                assert(self.pipe_bytes@ =~= old(self).pipe_bytes@ + Seq::<u8>::empty());
            }
        } else if self.solid {
            self.tokens.push(Token::Solid(msg));
            proof {
                assert(self.tokens@.take(old(self).tokens@.len() as int) =~= old(self).tokens@);
                assert(self.pipe_bytes@ =~= old(self).pipe_bytes@ + Seq::<u8>::empty());
            }
        } else {
            self.tokens.push(Token::Piped);
            self.pipe_bytes.extend_from_slice(msg.as_slice());
            let le = self.line_end;
            self.pipe_bytes.push(le);
            proof {
                assert(self.tokens@.take(old(self).tokens@.len() as int) =~= old(self).tokens@);
                assert(self.pipe_bytes@ =~= old(self).pipe_bytes@ + msg@.push(
                    old(self).line_end,
                ));
            }
        }
    }

    /// Signals true end of input: the consumer stops after draining.
    pub fn send_eof(&mut self)
        ensures
            mode(*final(self)) == mode(*old(self)),
            final(self).pipe_bytes@ == old(self).pipe_bytes@,
            final(self).tokens@.len() == old(self).tokens@.len() + 1,
            final(self).tokens@.take(old(self).tokens@.len() as int) == old(self).tokens@,
            is_eof(final(self).tokens@.last()),
    {
        self.tokens.push(Token::EOF);
        proof {
            assert(self.tokens@.take(old(self).tokens@.len() as int) =~= old(self).tokens@);
        }
    }

    /// Routes a record's segments in order: pass-through pieces verbatim,
    /// selected pieces per the mode.
    pub fn send_segments(&mut self, segs: Vec<Segment>)
        ensures
            mode(*final(self)) == mode(*old(self)),
            final(self).tokens@.len() >= old(self).tokens@.len(),
            final(self).tokens@.take(old(self).tokens@.len() as int) == old(self).tokens@,
            old(self).pipe_bytes@.is_prefix_of(final(self).pipe_bytes@),
            tokens_render(
                mode(*old(self)),
                segs_model(segs@),
                final(self).tokens@.skip(old(self).tokens@.len() as int),
                final(self).pipe_bytes@.skip(old(self).pipe_bytes@.len() as int),
            ),
    {
        let ghost t0 = old(self).tokens@.len() as int;
        let ghost p0 = old(self).pipe_bytes@.len() as int;
        let ghost all = segs_model(segs@);
        let mut segs = segs;
        let ghost m = mode(*old(self));
        let ghost mut done: int = 0;
        proof {
            assert(all.take(0) =~= Seq::<(Seq<u8>, bool)>::empty());
            assert(self.tokens@.skip(t0) =~= Seq::<Token>::empty());
            assert(self.pipe_bytes@.skip(p0) =~= Seq::<u8>::empty());
        }
        while segs.len() > 0
            invariant
                0 <= done <= all.len(),
                segs_model(segs@) == all.skip(done),
                mode(*self) == m,
                m == mode(*old(self)),
                t0 == old(self).tokens@.len() as int,
                p0 == old(self).pipe_bytes@.len() as int,
                self.tokens@.len() >= t0,
                self.tokens@.take(t0) == old(self).tokens@,
                old(self).pipe_bytes@.is_prefix_of(self.pipe_bytes@),
                tokens_render(m, all.take(done), self.tokens@.skip(t0), self.pipe_bytes@.skip(p0)),
            decreases segs@.len(),
        {
            let ghost pre = *self;
            let ghost segs_pre = segs@;
            let seg = segs.remove(0);
            let ghost seg0 = (seg.text@, seg.selected);
            proof {
                assert(segs_model(segs_pre)[0] == seg0);
                assert(segs_model(segs_pre).len() == segs_pre.len());
                assert(all.skip(done).len() > 0);
                assert(done < all.len());
                assert(all.skip(done)[0] == all[done]) by {
                    assert(all.skip(done) =~= all.subrange(done, all.len() as int));
                }
                assert(seg0 == all[done]);
                assert(segs_model(segs@) =~= segs_model(segs_pre).drop_first());
                assert(segs_model(segs@) =~= all.skip(done + 1));
            }
            if seg.selected {
                self.send_pipe(seg.text);
            } else {
                self.send_msg(seg.text);
            }
            proof {
                let t = self.tokens@.last();
                assert(rendered_token(m, seg0, t));
                lemma_render_snoc(
                    m,
                    all.take(done),
                    pre.tokens@.skip(t0),
                    pre.pipe_bytes@.skip(p0),
                    seg0,
                    t,
                );
                assert(all.take(done).push(seg0) =~= all.take(done + 1));
                assert(self.tokens@.skip(t0) =~= pre.tokens@.skip(t0).push(t));
                assert(self.pipe_bytes@.skip(p0) =~= pre.pipe_bytes@.skip(p0) + seg_pipe_bytes(
                    m,
                    seg0,
                ));
                assert(self.tokens@.take(t0) =~= old(self).tokens@);
                assert(old(self).pipe_bytes@.is_prefix_of(self.pipe_bytes@)) by {
                    assert(self.pipe_bytes@.take(p0) =~= pre.pipe_bytes@.take(p0));
                }
                done = done + 1;
            }
        }
        proof {
            assert(done == all.len());
            assert(all.take(done) =~= all);
        }
    }
}

} // verus!
