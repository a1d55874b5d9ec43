//! Handler interface and the whole-buffer data-set parser.
//!
//! `Parser` keeps every byte it was ever given and delivers each payload in
//! one piece once it is fully available. It is the simpler configuration of
//! the protocol modelled in `crate::parser`: the same machine driven lazily,
//! waiting on a whole payload instead of forwarding fragments. It reads
//! explicit-encoding headers.

use vstd::prelude::*;
use vstd::slice::{slice_subrange, slice_to_vec};

use crate::attribute::{length_is_u32, Attribute};
use crate::parser::{
    data_events, drive, init_model, spec_header, spec_header_ready, DriverModel, Event,
    StepOutcome, SubParser,
};


verus! {

/// A handler's decision for one decoded attribute header.
#[derive(Clone, Copy, Debug, PartialEq, Eq, Structural)]
pub enum Control {
    /// Skip: consume the payload but do not deliver it.
    Element,
    /// Deliver the payload bytes to the handler as they become available.
    Data,
    /// Stop parsing permanently.
    Stop,
}

/// The handler capability: receives each decoded header and chooses what to
/// do with its payload, and separately receives payload bytes.
///
/// The decision for a header is fixed by `decide`, so a handler of a given
/// type answers the same header the same way; the contracts of the parsers
/// are stated over this function. Each handler also carries an abstract log
/// of the interactions it has received, and both methods append to it; the
/// parsers promise that a call grows this log by exactly the events of the
/// `drive` model, which ties the proofs to the invocations the handler
/// really received. Handler state may otherwise change freely.
pub trait Callback {
    /// The control decision this handler type makes for a decoded header.
    spec fn decide(attribute: Attribute) -> Control;

    /// The interactions this handler has received, in order.
    spec fn log(&self) -> Seq<Event>;

    /// Called exactly once per decoded attribute header.
    fn element(&mut self, attribute: &Attribute) -> (c: Control)
        ensures
            c == Self::decide(*attribute),
            final(self).log() == old(self).log() + seq![Event::Header(*attribute)],
    ;

    /// Called with payload bytes of an attribute whose decision was `Data`,
    /// in payload order, possibly in several contiguous fragments.
    fn data(&mut self, attribute: &Attribute, data: &[u8])
        ensures
            final(self).log() == old(self).log() + data_events(*attribute, data@),
    ;
}

/// A handler that consumes every payload: it records each decoded header
/// and each delivered payload fragment, in order.
pub struct Collector {
    pub attributes: Vec<Attribute>,
    pub data: Vec<Vec<u8>>,
    pub events: Ghost<Seq<Event>>,
}

impl Collector {
    pub fn new() -> (c: Collector)
        ensures
            c.attributes@ == Seq::<Attribute>::empty(),
            c.data@ == Seq::<Vec<u8>>::empty(),
            c.log() == Seq::<Event>::empty(),
    {
        Collector { attributes: Vec::new(), data: Vec::new(), events: Ghost(Seq::empty()) }
    }
}

impl Callback for Collector {
    open spec fn decide(attribute: Attribute) -> Control {
        Control::Data
    }

    open spec fn log(&self) -> Seq<Event> {
        self.events@
    }

    fn element(&mut self, attribute: &Attribute) -> (c: Control)
        ensures
            c == Self::decide(*attribute),
            final(self).log() == old(self).log() + seq![Event::Header(*attribute)],
    {
        self.attributes.push(*attribute);
        self.events = Ghost(self.events@ + seq![Event::Header(*attribute)]);
        Control::Data
    }

    fn data(&mut self, attribute: &Attribute, data: &[u8])
        ensures
            final(self).log() == old(self).log() + data_events(*attribute, data@),
    {
        self.data.push(slice_to_vec(data));
        self.events = Ghost(self.events@ + data_events(*attribute, data@));
    }
}

/// A handler that skips every payload: it records the decoded headers and
/// counts stray payload deliveries, which a correct driver never makes.
pub struct Skipper {
    pub attributes: Vec<Attribute>,
    pub data_count: usize,
    pub events: Ghost<Seq<Event>>,
}

impl Skipper {
    pub fn new() -> (c: Skipper)
        ensures
            c.attributes@ == Seq::<Attribute>::empty(),
            c.data_count == 0,
            c.log() == Seq::<Event>::empty(),
    {
        Skipper { attributes: Vec::new(), data_count: 0, events: Ghost(Seq::empty()) }
    }
}

impl Callback for Skipper {
    open spec fn decide(attribute: Attribute) -> Control {
        Control::Element
    }

    open spec fn log(&self) -> Seq<Event> {
        self.events@
    }

    fn element(&mut self, attribute: &Attribute) -> (c: Control)
        ensures
            c == Self::decide(*attribute),
            final(self).log() == old(self).log() + seq![Event::Header(*attribute)],
    {
        self.attributes.push(*attribute);
        self.events = Ghost(self.events@ + seq![Event::Header(*attribute)]);
        Control::Element
    }

    fn data(&mut self, attribute: &Attribute, data: &[u8])
        ensures
            final(self).log() == old(self).log() + data_events(*attribute, data@),
    {
        self.data_count = self.data_count.wrapping_add(1);
        self.events = Ghost(self.events@ + data_events(*attribute, data@));
    }
}

/// A handler that stops at the first header, counting what it was shown.
pub struct Stopper {
    pub element_count: usize,
    pub data_count: usize,
    pub events: Ghost<Seq<Event>>,
}

impl Stopper {
    pub fn new() -> (c: Stopper)
        ensures
            c.element_count == 0,
            c.data_count == 0,
            c.log() == Seq::<Event>::empty(),
    {
        Stopper { element_count: 0, data_count: 0, events: Ghost(Seq::empty()) }
    }
}

impl Callback for Stopper {
    open spec fn decide(attribute: Attribute) -> Control {
        Control::Stop
    }

    open spec fn log(&self) -> Seq<Event> {
        self.events@
    }

    fn element(&mut self, attribute: &Attribute) -> (c: Control)
        ensures
            c == Self::decide(*attribute),
            final(self).log() == old(self).log() + seq![Event::Header(*attribute)],
    {
        self.element_count = self.element_count.wrapping_add(1);
        self.events = Ghost(self.events@ + seq![Event::Header(*attribute)]);
        Control::Stop
    }

    fn data(&mut self, attribute: &Attribute, data: &[u8])
        ensures
            final(self).log() == old(self).log() + data_events(*attribute, data@),
    {
        self.data_count = self.data_count.wrapping_add(1);
        self.events = Ghost(self.events@ + data_events(*attribute, data@));
    }
}

/// Appends the bytes of `more` to `buffer`.
fn append_bytes(buffer: &mut Vec<u8>, more: &[u8])
    ensures
        final(buffer)@ == old(buffer)@ + more@,
{
    let ghost start = buffer@;
    let mut i: usize = 0;
    while i < more.len()
        invariant
            i <= more@.len(),
            buffer@ == start + more@.take(i as int),
        decreases more@.len() - i,
    {
        buffer.push(more[i]);
        proof {
            assert(start + more@.take(i as int) + seq![more@[i as int]] =~= start + more@.take(
                i + 1,
            ));
        }
        i = i + 1;
    }
    proof {
        assert(start + more@.take(i as int) =~= start + more@);
    }
}

/// The whole-buffer parser: appends every byte it is given, decodes
/// explicit-encoding attributes from the retained buffer, and hands each
/// payload to its callback in one piece once the payload is fully buffered.
pub struct Parser<T: Callback> {
    pub callback: T,
    pub buffer: Vec<u8>,
    pub buffer_position: usize,
    pub data_position: usize,
    pub element_data_bytes_remaining: usize,
    pub state: Control,
    pub attribute: Option<Attribute>,
}

impl<T: Callback> Parser<T> {
    /// Every byte this parser was ever given, in order.
    pub open spec fn stream(&self) -> Seq<u8> {
        self.buffer@
    }

    /// The bytes given but not yet consumed.
    pub open spec fn pending(&self) -> Seq<u8> {
        self.buffer@.skip(self.buffer_position as int)
    }

    /// Every interaction the held callback has received, in order.
    pub open spec fn history(&self) -> Seq<Event> {
        self.callback.log()
    }

    /// The parser as the driver model sees it.
    pub open spec fn model(&self) -> DriverModel {
        DriverModel {
            off: self.buffer_position as nat,
            sub: if self.state == Control::Stop {
                None
            } else if self.element_data_bytes_remaining > 0 {
                match self.attribute {
                    Some(a) => Some(
                        SubParser::ForwardPayload {
                            attr: a,
                            remaining: self.element_data_bytes_remaining,
                            deliver: self.state == Control::Data,
                        },
                    ),
                    None => Some(SubParser::AwaitHeader),
                }
            } else {
                Some(SubParser::AwaitHeader)
            },
        }
    }

    pub open spec fn wf(&self) -> bool {
        &&& self.buffer_position <= self.buffer@.len()
        &&& self.data_position == self.buffer_position
        &&& self.element_data_bytes_remaining > 0 ==> self.attribute is Some
    }

    /// A fresh parser around `callback`: nothing buffered, awaiting the
    /// first header; the callback is held as given.
    pub fn new(callback: T) -> (p: Parser<T>)
        ensures
            p.callback == callback,
            p.model() == init_model(),
            p.stream() == Seq::<u8>::empty(),
            p.pending() == Seq::<u8>::empty(),
            p.wf(),
    {
        let p = Parser {
            callback,
            buffer: Vec::new(),
            buffer_position: 0,
            data_position: 0,
            attribute: None,
            element_data_bytes_remaining: 0,
            state: Control::Element,
        };
        proof {
            assert(p.pending() =~= Seq::<u8>::empty());
        }
        p
    }

    /// One step while mid-payload: if the whole payload is buffered, deliver
    /// it (when the decision was `Data`) and consume it; otherwise wait.
    #[verifier::rlimit(100)]
    #[verifier::spinoff_prover]
    fn step_payload(&mut self) -> (r: StepOutcome)
        requires
            old(self).wf(),
            old(self).state != Control::Stop,
            old(self).element_data_bytes_remaining > 0,
        ensures
            final(self).wf(),
            final(self).stream() == old(self).stream(),
            old(self).buffer_position <= final(self).buffer_position,
            final(self).state != Control::Stop,
            ({
                let step = drive::<T>(true, false, old(self).model(), old(self).pending());
                let rest = drive::<T>(true, false, final(self).model(), final(self).pending());
                &&& step.0 == rest.0
                &&& step.1 == (final(self).buffer_position - old(self).buffer_position) + rest.1
                &&& old(self).callback.log() + step.2 == final(self).callback.log() + rest.2
            }),
            r is NeedMore ==> final(self).model() == old(self).model()
                && final(self).callback.log() == old(self).callback.log()
                && final(self).buffer_position == old(self).buffer_position && drive::<T>(
                true,
                false,
                old(self).model(),
                old(self).pending(),
            ) == (old(self).model(), 0int, Seq::<Event>::empty()),
            r is Advanced ==> final(self).element_data_bytes_remaining == 0,
            !(r is Stopped),
    {
        let remaining = self.element_data_bytes_remaining;
        let avail = self.buffer.len() - self.buffer_position;
        if avail < remaining {
            // A lazy driver waits for the whole payload.
            return StepOutcome::NeedMore;
        }
        let attr = self.attribute.unwrap();
        let new_pos = self.buffer_position + remaining;
        if self.state == Control::Data {
            let s = self.buffer.as_slice();
            let frag = slice_subrange(s, self.buffer_position, new_pos);
            self.callback.data(&attr, frag);
            self.state = Control::Element;
        }
        self.buffer_position = new_pos;
        self.data_position = new_pos;
        self.element_data_bytes_remaining = 0;
        proof {
            let pend0 = old(self).pending();
            assert(pend0.skip(remaining as int) =~= self.pending());
            assert(pend0.take(remaining as int) =~= self.buffer@.subrange(
                new_pos - remaining,
                new_pos as int,
            ));
            let ghost ev = if old(self).state == Control::Data {
                data_events(attr, pend0.take(remaining as int))
            } else {
                Seq::<Event>::empty()
            };
            let step = drive::<T>(true, false, old(self).model(), pend0);
            let rest = drive::<T>(true, false, self.model(), self.pending());
            assert(step.2 == ev + rest.2);
            assert(old(self).callback.log() + (ev + rest.2) =~= (old(self).callback.log() + ev)
                + rest.2);
            assert(old(self).callback.log() + Seq::<Event>::empty() =~= old(self).callback.log());
        }
        StepOutcome::Advanced
    }

    /// One step while awaiting a header: decode it if it fits whole in the
    /// buffered bytes, hand it to the callback, and record its decision.
    #[verifier::rlimit(100)]
    #[verifier::spinoff_prover]
    fn step_header(&mut self) -> (r: StepOutcome)
        requires
            old(self).wf(),
            old(self).state != Control::Stop,
            old(self).element_data_bytes_remaining == 0,
        ensures
            final(self).wf(),
            final(self).stream() == old(self).stream(),
            old(self).buffer_position <= final(self).buffer_position,
            ({
                let step = drive::<T>(true, false, old(self).model(), old(self).pending());
                let rest = drive::<T>(true, false, final(self).model(), final(self).pending());
                &&& step.0 == rest.0
                &&& step.1 == (final(self).buffer_position - old(self).buffer_position) + rest.1
                &&& old(self).callback.log() + step.2 == final(self).callback.log() + rest.2
            }),
            r is NeedMore ==> final(self).model() == old(self).model()
                && final(self).callback.log() == old(self).callback.log()
                && final(self).buffer_position == old(self).buffer_position && final(self).state
                == old(self).state && drive::<T>(
                true,
                false,
                old(self).model(),
                old(self).pending(),
            ) == (old(self).model(), 0int, Seq::<Event>::empty()),
            r is Advanced ==> final(self).state != Control::Stop && final(self).buffer_position
                > old(self).buffer_position,
            r is Stopped ==> final(self).state == Control::Stop && final(self).buffer_position
                > old(self).buffer_position && final(self).model().sub is None && drive::<T>(true, false, final(self).model(), final(self).pending()) == (
                final(self).model(),
                0int,
                Seq::<Event>::empty(),
            ),
    {
        let ghost window = self.pending();
        let avail = self.buffer.len() - self.buffer_position;
        if avail < 8 {
            // Not even the short header fits: wait for more bytes.
            proof {
                assert(!spec_header_ready(true, window));
            }
            return StepOutcome::NeedMore;
        }
        let s = self.buffer.as_slice();
        let long = {
            let vrw = slice_subrange(s, self.buffer_position + 4, self.buffer_position + 6);
            length_is_u32(vrw)
        };
        proof {
            assert(window[4] == self.buffer@[self.buffer_position + 4] && window[5]
                == self.buffer@[self.buffer_position + 5]);
        }
        if long && avail < 12 {
            // The 32-bit length branch needs the full 12 bytes.
            proof {
                assert(!spec_header_ready(true, window));
            }
            return StepOutcome::NeedMore;
        }
        proof {
            assert(spec_header_ready(true, window));
        }
        let w = slice_subrange(s, self.buffer_position, self.buffer.len());
        proof {
            assert(w@ =~= window);
        }
        let mut attr = Attribute::ele(w);
        let hlen = attr.data_position;
        let new_pos = self.buffer_position + hlen;
        attr.data_position = new_pos;
        proof {
            assert(attr == spec_header(true, old(self).model().off, window));
        }
        let c = self.callback.element(&attr);
        self.buffer_position = new_pos;
        self.data_position = new_pos;
        self.element_data_bytes_remaining = attr.length;
        self.state = c;
        self.attribute = Some(attr);
        proof {
            assert(window.skip(hlen as int) =~= self.pending());
        }
        if c == Control::Stop {
            proof {
                let step = drive::<T>(true, false, old(self).model(), window);
                assert(old(self).callback.log() + step.2 =~= self.callback.log());
                assert(self.callback.log() + Seq::<Event>::empty() =~= self.callback.log());
            }
            return StepOutcome::Stopped;
        }
        proof {
            let step = drive::<T>(true, false, old(self).model(), window);
            let rest = drive::<T>(true, false, self.model(), self.pending());
            assert(step.2 == seq![Event::Header(attr)] + rest.2);
            assert(old(self).callback.log() + (seq![Event::Header(attr)] + rest.2) =~= (old(
                self,
            ).callback.log() + seq![Event::Header(attr)]) + rest.2);
        }
        StepOutcome::Advanced
    }

    /// Buffers `bytes` and decodes as far as the buffered stream allows:
    /// headers are handed to the callback as they complete, payloads are
    /// delivered whole, and nothing more is decoded once the callback has
    /// answered `Stop`. The state reached, the bytes consumed, and the
    /// callback events are exactly those of the lazy `drive` model over the
    /// bytes pending so far.
    #[verifier::rlimit(100)]
    #[verifier::spinoff_prover]
    pub fn parse(&mut self, bytes: &[u8])
        requires
            old(self).wf(),
            old(self).stream().len() + bytes@.len() <= usize::MAX,
        ensures
            final(self).wf(),
            final(self).stream() == old(self).stream() + bytes@,
            ({
                let step = drive::<T>(true, false, old(self).model(), old(self).pending() + bytes@);
                &&& final(self).model() == step.0
                &&& final(self).history() == old(self).history() + step.2
                &&& final(self).pending() == (old(self).pending() + bytes@).skip(step.1)
            }),
    {
        append_bytes(&mut self.buffer, bytes);
        let ghost m0 = self.model();
        let ghost ev0 = self.callback.log();
        let ghost pend0 = self.pending();
        let ghost bp0 = self.buffer_position;
        proof {
            assert(pend0 =~= old(self).pending() + bytes@);
            assert(pend0.skip(0) =~= pend0);
        }
        while self.state != Control::Stop
            invariant
                self.wf(),
                m0 == old(self).model(),
                ev0 == old(self).history(),
                self.stream() == old(self).stream() + bytes@,
                pend0 == old(self).pending() + bytes@,
                bp0 <= self.buffer_position,
                m0.off == bp0 as nat,
                ({
                    let whole = drive::<T>(true, false, m0, pend0);
                    let rest = drive::<T>(true, false, self.model(), self.pending());
                    &&& whole.0 == rest.0
                    &&& whole.1 == (self.buffer_position - bp0) + rest.1
                    &&& ev0 + whole.2 == self.callback.log() + rest.2
                }),
                self.pending() == pend0.skip((self.buffer_position - bp0) as int),
            decreases self.buffer@.len() - self.buffer_position,
        {
            if self.element_data_bytes_remaining > 0 {
                let o = self.step_payload();
                match o {
                    StepOutcome::NeedMore => {
                        proof {
                            assert(self.callback.log() + Seq::<Event>::empty()
                                =~= self.callback.log());
                        }
                        return ;
                    },
                    _ => {},
                }
            }
            let o = self.step_header();
            match o {
                StepOutcome::NeedMore => {
                    proof {
                        assert(self.callback.log() + Seq::<Event>::empty()
                            =~= self.callback.log());
                    }
                    return ;
                },
                _ => {},
            }
        }
        proof {
            let whole = drive::<T>(true, false, m0, pend0);
            assert(self.callback.log() + Seq::<Event>::empty() =~= self.callback.log());
        }
    }
}

} // verus!
