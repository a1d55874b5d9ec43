//! The streaming data-set driver: feeds byte windows to the current
//! sub-parser, swaps in a fresh header decoder each time an attribute
//! completes, forwards payload fragments to the handler as they arrive, and
//! stops permanently on cancellation.

use vstd::prelude::*;
use vstd::slice::slice_subrange;

use std::marker::PhantomData;

use crate::attribute::{length_is_u32, Attribute};
use crate::dataset::{Callback, Control};
use crate::encoding::Encoding;
use crate::parser::{
    data_events, drive, init_model, model_wf, spec_call_state, spec_header, spec_header_ready,
    DriverModel, Event, ParseError, ParseResult, ParseState, StepOutcome, SubParser,
};

verus! {

/// Drives one data set's parse, any number of bytes at a time. What a call
/// consumes, the events the handler sees, and the state reported are exactly
/// those of the eager `drive` model over the bytes offered.
pub struct DataSetParser<E: Encoding> {
    parser: Option<SubParser>,
    total_bytes_consumed: usize,
    encoding: PhantomData<E>,
}

impl<E: Encoding> DataSetParser<E> {
    /// The driver as the model sees it: the absolute offset consumed so far
    /// and the current sub-parser (`None` once cancelled).
    pub closed spec fn model(&self) -> DriverModel {
        DriverModel { off: self.total_bytes_consumed as nat, sub: self.parser }
    }

    pub closed spec fn wf(&self) -> bool {
        model_wf(self.model())
    }

    /// A fresh driver: nothing consumed, awaiting the first header.
    pub fn default() -> (p: DataSetParser<E>)
        ensures
            p.model() == init_model(),
            p.wf(),
    {
        DataSetParser {
            parser: Some(SubParser::AwaitHeader),
            total_bytes_consumed: 0,
            encoding: PhantomData,
        }
    }

    /// One driver step while awaiting a header: decode it if it fits whole,
    /// hand it to the handler, and install the payload sub-parser its
    /// decision asks for.
    #[verifier::rlimit(100)]
    #[verifier::spinoff_prover]
    fn step_header<H: Callback>(&mut self, handler: &mut H, bytes: &[u8], pos: usize) -> (r: (
        usize,
        StepOutcome,
    ))
        requires
            old(self).parser == Some(SubParser::AwaitHeader),
            pos < bytes@.len(),
            old(self).total_bytes_consumed + (bytes@.len() - pos) <= usize::MAX,
        ensures
            final(self).wf(),
            pos <= r.0 <= bytes@.len(),
            final(self).total_bytes_consumed == old(self).total_bytes_consumed + (r.0 - pos),
            ({
                let step = drive::<H>(
                    E::is_explicit(),
                    true,
                    old(self).model(),
                    bytes@.skip(pos as int),
                );
                let rest = drive::<H>(
                    E::is_explicit(),
                    true,
                    final(self).model(),
                    bytes@.skip(r.0 as int),
                );
                &&& step.0 == rest.0
                &&& step.1 == (r.0 - pos) + rest.1
                &&& old(handler).log() + step.2 == final(handler).log() + rest.2
            }),
            r.1 is NeedMore ==> r.0 == pos && final(self).model() == old(self).model()
                && final(handler).log() == old(handler).log() && drive::<H>(
                E::is_explicit(),
                true,
                old(self).model(),
                bytes@.skip(pos as int),
            ) == (old(self).model(), 0int, Seq::<Event>::empty()),
            r.1 is Stopped ==> final(self).parser is None && r.0 > pos && drive::<H>(
                E::is_explicit(),
                true,
                final(self).model(),
                bytes@.skip(r.0 as int),
            ) == (final(self).model(), 0int, Seq::<Event>::empty()),
            r.1 is Advanced ==> final(self).parser is Some && r.0 > pos,
    {
        let ghost window = bytes@.skip(pos as int);
        let explicit = E::explicit();
        let avail = bytes.len() - pos;
        if avail < 8 {
            // Not even the short header fits: wait for more bytes.
            proof {
                assert(!spec_header_ready(explicit, window));
            }
            return (pos, StepOutcome::NeedMore);
        }
        let long = explicit && {
            let vrw = slice_subrange(bytes, pos + 4, pos + 6);
            length_is_u32(vrw)
        };
        proof {
            assert(window[4] == bytes@[pos + 4] && window[5] == bytes@[pos + 5]);
        }
        if long && avail < 12 {
            // The 32-bit length branch needs the full 12 bytes.
            proof {
                assert(!spec_header_ready(explicit, window));
            }
            return (pos, StepOutcome::NeedMore);
        }
        proof {
            assert(spec_header_ready(explicit, window));
        }
        let w = slice_subrange(bytes, pos, bytes.len());
        proof {
            assert(w@ =~= window);
        }
        let mut attr = if explicit {
            Attribute::ele(w)
        } else {
            Attribute::ile(w)
        };
        let hlen = attr.data_position;
        attr.data_position = self.total_bytes_consumed + hlen;
        proof {
            assert(attr == spec_header(explicit, old(self).model().off, window));
        }
        let c = handler.element(&attr);
        let new_pos = pos + hlen;
        self.total_bytes_consumed = self.total_bytes_consumed + hlen;
        proof {
            assert(window.skip(hlen as int) =~= bytes@.skip(new_pos as int));
        }
        if c == Control::Stop {
            self.parser = None;
            proof {
                let step = drive::<H>(explicit, true, old(self).model(), window);
                assert(old(handler).log() + step.2 =~= handler.log());
                assert(handler.log() + Seq::<Event>::empty() =~= handler.log());
            }
            return (new_pos, StepOutcome::Stopped);
        }
        let deliver = c == Control::Data;
        if attr.length > 0 {
            self.parser = Some(
                SubParser::ForwardPayload { attr, remaining: attr.length, deliver },
            );
        } else {
            self.parser = Some(SubParser::AwaitHeader);
        }
        proof {
            let step = drive::<H>(explicit, true, old(self).model(), window);
            let rest = drive::<H>(explicit, true, self.model(), bytes@.skip(new_pos as int));
            assert(step.2 == seq![Event::Header(attr)] + rest.2);
            assert(old(handler).log() + (seq![Event::Header(attr)] + rest.2) =~= (old(
                handler,
            ).log() + seq![Event::Header(attr)]) + rest.2);
        }
        (new_pos, StepOutcome::Advanced)
    }

    /// One driver step while forwarding a payload: consume what is on hand,
    /// up to the end of the payload, delivering it when asked for.
    #[verifier::rlimit(100)]
    #[verifier::spinoff_prover]
    fn step_payload<H: Callback>(&mut self, handler: &mut H, bytes: &[u8], pos: usize) -> (r: (
        usize,
        StepOutcome,
    ))
        requires
            old(self).wf(),
            old(self).parser matches Some(SubParser::ForwardPayload { .. }),
            pos < bytes@.len(),
            old(self).total_bytes_consumed + (bytes@.len() - pos) <= usize::MAX,
        ensures
            final(self).wf(),
            pos <= r.0 <= bytes@.len(),
            final(self).total_bytes_consumed == old(self).total_bytes_consumed + (r.0 - pos),
            ({
                let step = drive::<H>(
                    E::is_explicit(),
                    true,
                    old(self).model(),
                    bytes@.skip(pos as int),
                );
                let rest = drive::<H>(
                    E::is_explicit(),
                    true,
                    final(self).model(),
                    bytes@.skip(r.0 as int),
                );
                &&& step.0 == rest.0
                &&& step.1 == (r.0 - pos) + rest.1
                &&& old(handler).log() + step.2 == final(handler).log() + rest.2
            }),
            r.1 is Advanced,
            final(self).parser is Some && r.0 > pos,
    {
        let sp = self.parser.unwrap();
        match sp {
            SubParser::ForwardPayload { attr, remaining, deliver } => {
                let ghost window = bytes@.skip(pos as int);
                let avail = bytes.len() - pos;
                let k = if remaining <= avail {
                    remaining
                } else {
                    avail
                };
                let new_pos = pos + k;
                if deliver {
                    let frag = slice_subrange(bytes, pos, pos + k);
                    handler.data(&attr, frag);
                }
                self.total_bytes_consumed = self.total_bytes_consumed + k;
                if k == remaining {
                    self.parser = Some(SubParser::AwaitHeader);
                } else {
                    self.parser = Some(
                        SubParser::ForwardPayload { attr, remaining: remaining - k, deliver },
                    );
                }
                proof {
                    assert(window.skip(k as int) =~= bytes@.skip(new_pos as int));
                    assert(window.take(k as int) =~= bytes@.subrange(pos as int, new_pos as int));
                    if k < remaining {
                        assert(window =~= bytes@.subrange(pos as int, new_pos as int));
                        assert(bytes@.skip(new_pos as int) =~= Seq::<u8>::empty());
                    }
                    let ghost ev = if deliver {
                        data_events(attr, window.take(k as int))
                    } else {
                        Seq::<Event>::empty()
                    };
                    let step = drive::<H>(E::is_explicit(), true, old(self).model(), window);
                    let rest = drive::<H>(
                        E::is_explicit(),
                        true,
                        self.model(),
                        bytes@.skip(new_pos as int),
                    );
                    assert(step.2 == ev + rest.2);
                    assert(old(handler).log() + (ev + rest.2) =~= (old(handler).log() + ev)
                        + rest.2);
                    assert(old(handler).log() + Seq::<Event>::empty() =~= old(handler).log());
                }
                (new_pos, StepOutcome::Advanced)
            },
            SubParser::AwaitHeader => {
                proof {
                    assert(false);
                }
                (pos, StepOutcome::NeedMore)
            },
        }
    }

    /// Feeds one window of bytes. Consumes, delivers to `handler`, and ends
    /// in the state that the eager `drive` model gives for this window; the
    /// call reports `Cancelled` when the handler stopped the parse,
    /// `Completed` when the whole window was consumed, and `Incomplete` when
    /// more bytes are needed to make progress. After a cancellation every
    /// further call fails and changes nothing.
    #[verifier::rlimit(100)]
    #[verifier::spinoff_prover]
    pub fn parse<H: Callback>(&mut self, handler: &mut H, bytes: &[u8]) -> (r: Result<
        ParseResult,
        ParseError,
    >)
        requires
            old(self).wf(),
            old(self).model().off + bytes@.len() <= usize::MAX,
        ensures
            final(self).wf(),
            old(self).model().sub is None ==> r is Err && final(self).model() == old(self).model()
                && final(handler).log() == old(handler).log(),
            old(self).model().sub is Some ==> ({
                let step = drive::<H>(E::is_explicit(), true, old(self).model(), bytes@);
                &&& r matches Ok(pr) && pr.bytes_consumed == step.1 && pr.state
                    == spec_call_state(step.0, step.1, bytes@.len() as int)
                &&& final(self).model() == step.0
                &&& final(handler).log() == old(handler).log() + step.2
            }),
    {
        if self.parser.is_none() {
            return Err(ParseError {});
        }
        let ghost m0 = self.model();
        let ghost ev0 = handler.log();
        let ghost all = bytes@;
        let mut pos: usize = 0;
        proof {
            assert(all.skip(0) =~= all);
        }
        while pos < bytes.len()
            invariant
                m0 == old(self).model(),
                ev0 == old(handler).log(),
                old(self).model().sub is Some,
                pos <= bytes@.len(),
                bytes@ == all,
                self.parser is Some,
                self.wf(),
                self.total_bytes_consumed as nat == m0.off + pos,
                m0.off + bytes@.len() <= usize::MAX,
                ({
                    let whole = drive::<H>(E::is_explicit(), true, m0, all);
                    let rest = drive::<H>(
                        E::is_explicit(),
                        true,
                        self.model(),
                        all.skip(pos as int),
                    );
                    &&& whole.0 == rest.0
                    &&& whole.1 == pos + rest.1
                    &&& ev0 + whole.2 == handler.log() + rest.2
                }),
            decreases bytes@.len() - pos,
        {
            let sp = self.parser.unwrap();
            let (new_pos, outcome) = match sp {
                SubParser::AwaitHeader => self.step_header(handler, bytes, pos),
                SubParser::ForwardPayload { .. } => self.step_payload(handler, bytes, pos),
            };
            match outcome {
                StepOutcome::NeedMore => {
                    proof {
                        assert(handler.log() + Seq::<Event>::empty() =~= handler.log());
                    }
                    return Ok(ParseResult { bytes_consumed: pos, state: ParseState::Incomplete });
                },
                StepOutcome::Stopped => {
                    proof {
                        assert(handler.log() + Seq::<Event>::empty() =~= handler.log());
                    }
                    return Ok(
                        ParseResult { bytes_consumed: new_pos, state: ParseState::Cancelled },
                    );
                },
                StepOutcome::Advanced => {
                    pos = new_pos;
                },
            }
        }
        proof {
            let whole = drive::<H>(E::is_explicit(), true, m0, all);
            assert(all.skip(pos as int) =~= Seq::<u8>::empty());
            assert(ev0 + whole.2 =~= handler.log());
        }
        Ok(ParseResult { bytes_consumed: pos, state: ParseState::Completed })
    }
}

/// Parses `bytes` as one whole data set: drives a fresh streaming driver
/// once over all of it. A cancellation is success with the flag set; a
/// window that ends mid-record is a truncated-input error.
pub fn parse_full<E: Encoding, H: Callback>(handler: &mut H, bytes: &[u8]) -> (r: Result<
    (usize, bool),
    ParseError,
>)
    ensures
        final(handler).log() == old(handler).log() + drive::<H>(
            E::is_explicit(),
            true,
            init_model(),
            bytes@,
        ).2,
        ({
            let step = drive::<H>(E::is_explicit(), true, init_model(), bytes@);
            if step.0.sub is None {
                r matches Ok(p) && p.0 == step.1 && p.1
            } else if step.1 == bytes@.len() {
                r matches Ok(p) && p.0 == step.1 && !p.1
            } else {
                r is Err
            }
        }),
{
    let window_len = bytes.len();
    let mut parser = DataSetParser::<E>::default();
    proof {
        // A fresh driver has consumed nothing, and a slice's length fits a
        // usize, so one call over the whole window stays within bounds.
        assert(0 + window_len <= usize::MAX);
    }
    match parser.parse(handler, bytes) {
        Ok(result) => match result.state {
            ParseState::Cancelled => Ok((result.bytes_consumed, true)),
            ParseState::Incomplete => Err(ParseError {}),
            ParseState::Partial => Err(ParseError {}),
            ParseState::Completed => Ok((result.bytes_consumed, false)),
        },
        Err(_) => Err(ParseError {}),
    }
}

} // verus!
