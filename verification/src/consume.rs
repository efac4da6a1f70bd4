//! The consumer side of the forwarding engine, as a pure function: it
//! drains tokens strictly in producer order, so output order mirrors
//! input order however long each subprocess takes.

use vstd::prelude::*;
use crate::token::Token;

verus! {

/// The byte-sequence view of a vector of byte vectors.
pub open spec fn vecs_model(v: Seq<Vec<u8>>) -> Seq<Seq<u8>> {
    v.map_values(|x: Vec<u8>| x@)
}

/// What the consumer writes, given the token stream, the
/// terminator-stripped units read from the streaming subprocess (one per
/// read signal, in order), and the captured outputs of the one-shot runs
/// (one per solid token, in order). The flag is false exactly when a
/// pending read or run finds its source exhausted; what was already
/// written is kept.
pub open spec fn consume_spec(ts: Seq<Token>, units: Seq<Seq<u8>>, runs: Seq<Seq<u8>>) -> (
    Seq<u8>,
    bool,
)
    decreases ts.len(),
{
    if ts.len() == 0 {
        (Seq::<u8>::empty(), true)
    } else {
        match ts[0] {
            Token::Channel(msg) => {
                let r = consume_spec(ts.drop_first(), units, runs);
                (msg@ + r.0, r.1)
            },
            Token::Piped => {
                if units.len() == 0 {
                    (Seq::<u8>::empty(), false)
                } else {
                    let r = consume_spec(ts.drop_first(), units.drop_first(), runs);
                    (units[0] + r.0, r.1)
                }
            },
            Token::Solid(_) => {
                if runs.len() == 0 {
                    (Seq::<u8>::empty(), false)
                } else {
                    let r = consume_spec(ts.drop_first(), units, runs.drop_first());
                    (runs[0] + r.0, r.1)
                }
            },
            Token::EOF => (Seq::<u8>::empty(), true),
        }
    }
}

/// Runs the consumer over a finished token stream: writes channel text
/// verbatim, substitutes one read unit per read signal and one captured
/// output per solid run, stops at the end-of-input token.
pub fn consume_tokens(tokens: &Vec<Token>, units: &Vec<Vec<u8>>, runs: &Vec<Vec<u8>>) -> (r: (
    Vec<u8>,
    bool,
))
    ensures
        r.0@ == consume_spec(tokens@, vecs_model(units@), vecs_model(runs@)).0,
        r.1 == consume_spec(tokens@, vecs_model(units@), vecs_model(runs@)).1,
{
    let ghost whole = consume_spec(tokens@, vecs_model(units@), vecs_model(runs@));
    let mut out: Vec<u8> = Vec::new();
    let mut ti: usize = 0;
    let mut ui: usize = 0;
    let mut si: usize = 0;
    proof {
        assert(tokens@.skip(0) =~= tokens@);
        assert(vecs_model(units@).skip(0) =~= vecs_model(units@));
        assert(vecs_model(runs@).skip(0) =~= vecs_model(runs@));
        assert(out@ + whole.0 =~= whole.0);
    }
    while ti < tokens.len()
        invariant
            ti <= tokens@.len(),
            ui <= units@.len(),
            si <= runs@.len(),
            whole == consume_spec(tokens@, vecs_model(units@), vecs_model(runs@)),
            whole.0 == out@ + consume_spec(
                tokens@.skip(ti as int),
                vecs_model(units@).skip(ui as int),
                vecs_model(runs@).skip(si as int),
            ).0,
            whole.1 == consume_spec(
                tokens@.skip(ti as int),
                vecs_model(units@).skip(ui as int),
                vecs_model(runs@).skip(si as int),
            ).1,
        decreases tokens@.len() - ti,
    {
        let ghost rest_ts = tokens@.skip(ti as int);
        let ghost rest_us = vecs_model(units@).skip(ui as int);
        let ghost rest_rs = vecs_model(runs@).skip(si as int);
        proof {
            assert(rest_ts[0] == tokens@[ti as int]) by {
                assert(rest_ts =~= tokens@.subrange(ti as int, tokens@.len() as int));
            }
            assert(rest_ts.drop_first() =~= tokens@.skip(ti as int + 1));
        }
        match &tokens[ti] {
            Token::Channel(msg) => {
                out.extend_from_slice(msg.as_slice());
                ti = ti + 1;
                proof {
                    assert(whole.0 =~= out@ + consume_spec(
                        tokens@.skip(ti as int),
                        rest_us,
                        rest_rs,
                    ).0);
                }
            },
            Token::Piped => {
                if ui < units.len() {
                    let u = &units[ui];
                    proof {
                        assert(rest_us[0] == u@) by {
                            assert(rest_us =~= vecs_model(units@).subrange(
                                ui as int,
                                units@.len() as int,
                            ));
                        }
                        assert(rest_us.drop_first() =~= vecs_model(units@).skip(ui as int + 1));
                    }
                    out.extend_from_slice(u.as_slice());
                    ti = ti + 1;
                    ui = ui + 1;
                    proof {
                        assert(whole.0 =~= out@ + consume_spec(
                            tokens@.skip(ti as int),
                            vecs_model(units@).skip(ui as int),
                            rest_rs,
                        ).0);
                    }
                } else {
                    proof {
                        assert(rest_us.len() == 0);
                        assert(whole.0 =~= out@);
                        assert(whole.1 == false);
                    }
                    return (out, false);
                }
            },
            Token::Solid(_) => {
                if si < runs.len() {
                    let u = &runs[si];
                    proof {
                        assert(rest_rs[0] == u@) by {
                            assert(rest_rs =~= vecs_model(runs@).subrange(
                                si as int,
                                runs@.len() as int,
                            ));
                        }
                        assert(rest_rs.drop_first() =~= vecs_model(runs@).skip(si as int + 1));
                    }
                    out.extend_from_slice(u.as_slice());
                    ti = ti + 1;
                    si = si + 1;
                    proof {
                        assert(whole.0 =~= out@ + consume_spec(
                            tokens@.skip(ti as int),
                            rest_us,
                            vecs_model(runs@).skip(si as int),
                        ).0);
                    }
                } else {
                    proof {
                        assert(rest_rs.len() == 0);
                        assert(whole.0 =~= out@);
                        assert(whole.1 == false);
                    }
                    return (out, false);
                }
            },
            Token::EOF => {
                proof {
                    assert(whole.0 =~= out@);
                    assert(whole.1 == true);
                }
                return (out, true);
            },
        }
    }
    proof {
        assert(tokens@.skip(ti as int) =~= Seq::<Token>::empty());
        assert(whole.0 =~= out@);
        assert(whole.1 == true);
    }
    (out, true)
}

} // verus!
