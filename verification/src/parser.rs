//! The resumable parser protocol: the result shape every sub-parser returns,
//! the exact model of the driver state machine, and the laws that hold of it.
//!
//! The model is a pure function `drive` from a driver state and an input
//! window to the next state, the bytes consumed, and the sequence of handler
//! interactions. Both executable parsers are specified against it: the
//! streaming driver in `parser::data_set` runs it eagerly (payload fragments
//! are forwarded as soon as they arrive), the whole-buffer parser in
//! `dataset` runs it lazily (a payload is delivered only once complete).

pub mod data_set;

use vstd::prelude::*;

use crate::attribute::{
    spec_ele, spec_ele_header_len, spec_ile, spec_length_is_u32, Attribute,
};
use crate::dataset::{Callback, Control};

verus! {

/// How far one parse call got, mutually exclusive.
#[derive(Clone, Copy, Debug, PartialEq, Eq, Structural)]
pub enum ParseState {
    /// A prefix of a larger unit was consumed; the continuation lives on
    /// inside the driver and is resumed by the same call loop.
    Partial,
    /// No further progress is possible with the bytes on hand; the caller
    /// must supply more bytes.
    Incomplete,
    /// Every byte offered was consumed. This does not mean the data set is
    /// finished; only the caller can decide that no more bytes are coming.
    Completed,
    /// The handler demanded a stop; terminal.
    Cancelled,
}

/// What one parse call reports back: how many bytes it consumed and the
/// state it ended in.
#[derive(Clone, Copy, Debug, PartialEq, Eq, Structural)]
pub struct ParseResult {
    pub bytes_consumed: usize,
    pub state: ParseState,
}

/// Terminal failure: truncated input at end of stream, or a parse call after
/// cancellation.
#[derive(Clone, Copy, Debug, PartialEq, Eq, Structural)]
pub struct ParseError {}

/// What one driver step did: made progress, ran out of bytes mid-unit, or
/// observed a stop.
pub enum StepOutcome {
    Advanced,
    NeedMore,
    Stopped,
}

/// The sub-parser a driver is currently holding: either awaiting the next
/// attribute header, or forwarding the rest of one attribute's payload.
#[derive(Clone, Copy, Debug)]
pub enum SubParser {
    AwaitHeader,
    ForwardPayload { attr: Attribute, remaining: usize, deliver: bool },
}

/// Model of a driver: the absolute stream offset consumed so far and the
/// current sub-parser; `None` is the terminal, post-cancellation state.
pub struct DriverModel {
    pub off: nat,
    pub sub: Option<SubParser>,
}

/// One observable interaction with the handler: a header callback, or one
/// payload byte handed to the data callback. Describing deliveries byte by
/// byte makes the event sequence independent of how payload fragments fall.
pub enum Event {
    Header(Attribute),
    DataByte(Attribute, u8),
}

/// The events of delivering `payload` for `attr`, one per byte, in order.
#[verifier::opaque]
pub open spec fn data_events(attr: Attribute, payload: Seq<u8>) -> Seq<Event> {
    payload.map(|i: int, b: u8| Event::DataByte(attr, b))
}

/// Whether `input` starts with a whole header for the given variant:
/// 8 bytes, and 12 under explicit encoding when the value-representation
/// code selects the 32-bit length branch.
pub open spec fn spec_header_ready(explicit: bool, input: Seq<u8>) -> bool {
    input.len() >= 8 && (explicit && spec_length_is_u32(input[4], input[5]) ==> input.len() >= 12)
}

/// Byte length of the header at the start of `input`: 8, or 12 for the
/// 32-bit length branch of an explicit header.
pub open spec fn spec_header_len(explicit: bool, input: Seq<u8>) -> int {
    if explicit {
        spec_ele_header_len(input)
    } else {
        8
    }
}

/// The header decoded at the start of `input`, with its payload position
/// rebased to be absolute: `off` bytes of the stream precede `input`.
pub open spec fn spec_header(explicit: bool, off: nat, input: Seq<u8>) -> Attribute {
    let a = if explicit {
        spec_ele(input)
    } else {
        spec_ile(input)
    };
    Attribute {
        tag: a.tag,
        vr: a.vr,
        length: a.length,
        data_position: (off + spec_header_len(explicit, input)) as usize,
    }
}

/// A driver model is well formed when a payload sub-parser still has bytes
/// to forward; a finished payload is immediately replaced by a fresh header
/// decoder.
pub open spec fn model_wf(m: DriverModel) -> bool {
    match m.sub {
        Some(SubParser::ForwardPayload { attr, remaining, deliver }) => remaining > 0,
        _ => true,
    }
}

/// The driver state machine, as a pure function of the handler type `H`'s
/// decisions: feeds `input` to the current sub-parser, swapping in a fresh
/// header decoder each time an attribute completes, and stopping permanently
/// on `Control::Stop`. Returns the new model, the bytes consumed, and the
/// handler events, in order.
///
/// `eager` selects the payload policy: an eager driver consumes and forwards
/// whatever prefix of a payload is available; a lazy one consumes a payload
/// only once it is whole.
pub open spec fn drive<H: Callback>(
    explicit: bool,
    eager: bool,
    m: DriverModel,
    input: Seq<u8>,
) -> (DriverModel, int, Seq<Event>)
    decreases input.len(),
{
    match m.sub {
        None => (m, 0, Seq::<Event>::empty()),
        Some(SubParser::AwaitHeader) => {
            if !spec_header_ready(explicit, input) {
                (m, 0, Seq::<Event>::empty())
            } else {
                let hlen = spec_header_len(explicit, input);
                let attr = spec_header(explicit, m.off, input);
                let head_ev = seq![Event::Header(attr)];
                if H::decide(attr) == Control::Stop {
                    (DriverModel { off: (m.off + hlen) as nat, sub: None }, hlen, head_ev)
                } else {
                    let sub = if attr.length == 0 {
                        SubParser::AwaitHeader
                    } else {
                        SubParser::ForwardPayload {
                            attr,
                            remaining: attr.length,
                            deliver: H::decide(attr) == Control::Data,
                        }
                    };
                    let rest = drive::<H>(
                        explicit,
                        eager,
                        DriverModel { off: (m.off + hlen) as nat, sub: Some(sub) },
                        input.skip(hlen),
                    );
                    (rest.0, hlen + rest.1, head_ev + rest.2)
                }
            }
        },
        Some(SubParser::ForwardPayload { attr, remaining, deliver }) => {
            if remaining == 0 {
                (DriverModel { off: m.off, sub: Some(SubParser::AwaitHeader) }, 0, Seq::<Event>::empty())
            } else if input.len() == 0 {
                (m, 0, Seq::<Event>::empty())
            } else if remaining <= input.len() {
                let ev = if deliver {
                    data_events(attr, input.take(remaining as int))
                } else {
                    Seq::<Event>::empty()
                };
                let rest = drive::<H>(
                    explicit,
                    eager,
                    DriverModel {
                        off: (m.off + remaining) as nat,
                        sub: Some(SubParser::AwaitHeader),
                    },
                    input.skip(remaining as int),
                );
                (rest.0, remaining + rest.1, ev + rest.2)
            } else if eager {
                let ev = if deliver {
                    data_events(attr, input)
                } else {
                    Seq::<Event>::empty()
                };
                (
                    DriverModel {
                        off: (m.off + input.len()) as nat,
                        sub: Some(
                            SubParser::ForwardPayload {
                                attr,
                                remaining: (remaining - input.len()) as usize,
                                deliver,
                            },
                        ),
                    },
                    input.len() as int,
                    ev,
                )
            } else {
                (m, 0, Seq::<Event>::empty())
            }
        },
    }
}

/// The state one driver call reports, given the model it ended in and how
/// much of the offered window it consumed.
pub open spec fn spec_call_state(m: DriverModel, consumed: int, len: int) -> ParseState {
    if m.sub is None {
        ParseState::Cancelled
    } else if consumed == len {
        ParseState::Completed
    } else {
        ParseState::Incomplete
    }
}

/// The model a fresh data-set driver starts in.
pub open spec fn init_model() -> DriverModel {
    DriverModel { off: 0, sub: Some(SubParser::AwaitHeader) }
}

/// A drive call consumes between zero bytes and the whole input, and moves
/// the stream offset by exactly what it consumed.
pub proof fn lemma_drive_consumed<H: Callback>(
    explicit: bool,
    eager: bool,
    m: DriverModel,
    input: Seq<u8>,
)
    ensures
        0 <= drive::<H>(explicit, eager, m, input).1 <= input.len(),
        drive::<H>(explicit, eager, m, input).0.off == m.off + drive::<H>(
            explicit,
            eager,
            m,
            input,
        ).1,
    decreases input.len(),
{
    match m.sub {
        None => {},
        Some(SubParser::AwaitHeader) => {
            if spec_header_ready(explicit, input) {
                let hlen = spec_header_len(explicit, input);
                let attr = spec_header(explicit, m.off, input);
                if H::decide(attr) != Control::Stop {
                    let sub = if attr.length == 0 {
                        SubParser::AwaitHeader
                    } else {
                        SubParser::ForwardPayload {
                            attr,
                            remaining: attr.length,
                            deliver: H::decide(attr) == Control::Data,
                        }
                    };
                    lemma_drive_consumed::<H>(
                        explicit,
                        eager,
                        DriverModel { off: (m.off + hlen) as nat, sub: Some(sub) },
                        input.skip(hlen),
                    );
                }
            }
        },
        Some(SubParser::ForwardPayload { attr, remaining, deliver }) => {
            if remaining > 0 && input.len() > 0 && remaining <= input.len() {
                lemma_drive_consumed::<H>(
                    explicit,
                    eager,
                    DriverModel { off: (m.off + remaining) as nat, sub: Some(SubParser::AwaitHeader) },
                    input.skip(remaining as int),
                );
            }
        },
    }
}

/// Drive preserves well-formedness of the driver model.
pub proof fn lemma_drive_wf<H: Callback>(
    explicit: bool,
    eager: bool,
    m: DriverModel,
    input: Seq<u8>,
)
    requires
        model_wf(m),
    ensures
        model_wf(drive::<H>(explicit, eager, m, input).0),
    decreases input.len(),
{
    match m.sub {
        None => {},
        Some(SubParser::AwaitHeader) => {
            if spec_header_ready(explicit, input) {
                let hlen = spec_header_len(explicit, input);
                let attr = spec_header(explicit, m.off, input);
                if H::decide(attr) != Control::Stop {
                    let sub = if attr.length == 0 {
                        SubParser::AwaitHeader
                    } else {
                        SubParser::ForwardPayload {
                            attr,
                            remaining: attr.length,
                            deliver: H::decide(attr) == Control::Data,
                        }
                    };
                    lemma_drive_wf::<H>(
                        explicit,
                        eager,
                        DriverModel { off: (m.off + hlen) as nat, sub: Some(sub) },
                        input.skip(hlen),
                    );
                }
            }
        },
        Some(SubParser::ForwardPayload { attr, remaining, deliver }) => {
            if remaining > 0 && input.len() > 0 && remaining <= input.len() {
                lemma_drive_wf::<H>(
                    explicit,
                    eager,
                    DriverModel { off: (m.off + remaining) as nat, sub: Some(SubParser::AwaitHeader) },
                    input.skip(remaining as int),
                );
            }
        },
    }
}

/// Delivering a payload byte by byte distributes over splitting the payload.
proof fn lemma_data_events_concat(attr: Attribute, x: Seq<u8>, y: Seq<u8>)
    ensures
        data_events(attr, x) + data_events(attr, y) == data_events(attr, x + y),
{
    reveal(data_events);
    assert(data_events(attr, x) + data_events(attr, y) =~= data_events(attr, x + y));
}

/// A header decoded from a window is unchanged by appending bytes to the
/// window: decoding reads only the header's own bytes.
proof fn lemma_header_prefix(explicit: bool, off: nat, a: Seq<u8>, b: Seq<u8>)
    requires
        spec_header_ready(explicit, a),
    ensures
        spec_header_ready(explicit, a + b),
        spec_header_len(explicit, a + b) == spec_header_len(explicit, a),
        spec_header(explicit, off, a + b) == spec_header(explicit, off, a),
{
    assert(forall|i: int| 0 <= i < a.len() ==> (a + b)[i] == a[i]);
    assert(spec_header(explicit, off, a + b).vr =~= spec_header(explicit, off, a).vr);
}

/// Split-invariance, header case: the driver is awaiting a header.
#[verifier::rlimit(100)]
#[verifier::spinoff_prover]
proof fn lemma_split_await<H: Callback>(
    explicit: bool,
    eager: bool,
    m: DriverModel,
    a: Seq<u8>,
    b: Seq<u8>,
)
    requires
        m.sub == Some(SubParser::AwaitHeader),
    ensures
        ({
            let first = drive::<H>(explicit, eager, m, a);
            let second = drive::<H>(explicit, eager, first.0, a.skip(first.1) + b);
            let whole = drive::<H>(explicit, eager, m, a + b);
            &&& second.0 == whole.0
            &&& first.1 + second.1 == whole.1
            &&& first.2 + second.2 == whole.2
        }),
    decreases a.len(), 1int,
{
    lemma_drive_consumed::<H>(explicit, eager, m, a);
    let first = drive::<H>(explicit, eager, m, a);
    let second = drive::<H>(explicit, eager, first.0, a.skip(first.1) + b);
    let whole = drive::<H>(explicit, eager, m, a + b);
    if !spec_header_ready(explicit, a) {
        // Nothing was consumed, so the second call sees exactly a + b.
        assert(a.skip(0) + b =~= a + b);
        assert(first.2 + whole.2 =~= whole.2);
    } else {
        lemma_header_prefix(explicit, m.off, a, b);
        let attr = spec_header(explicit, m.off, a);
        if H::decide(attr) == Control::Stop {
            assert(first.2 + second.2 =~= whole.2);
        } else {
            lemma_split_await_continue::<H>(explicit, eager, m, a, b);
        }
    }
}

/// Split-invariance, header case, continuing branch: a whole header stands
/// at the start of `a` and its decision is not a stop.
#[verifier::rlimit(100)]
#[verifier::spinoff_prover]
proof fn lemma_split_await_continue<H: Callback>(
    explicit: bool,
    eager: bool,
    m: DriverModel,
    a: Seq<u8>,
    b: Seq<u8>,
)
    requires
        m.sub == Some(SubParser::AwaitHeader),
        spec_header_ready(explicit, a),
        H::decide(spec_header(explicit, m.off, a)) != Control::Stop,
    ensures
        ({
            let first = drive::<H>(explicit, eager, m, a);
            let second = drive::<H>(explicit, eager, first.0, a.skip(first.1) + b);
            let whole = drive::<H>(explicit, eager, m, a + b);
            &&& second.0 == whole.0
            &&& first.1 + second.1 == whole.1
            &&& first.2 + second.2 == whole.2
        }),
    decreases a.len(), 0int,
{
    lemma_header_prefix(explicit, m.off, a, b);
    let first = drive::<H>(explicit, eager, m, a);
    let second = drive::<H>(explicit, eager, first.0, a.skip(first.1) + b);
    let whole = drive::<H>(explicit, eager, m, a + b);
    let hlen = spec_header_len(explicit, a);
    let attr = spec_header(explicit, m.off, a);
    let sub = if attr.length == 0 {
        SubParser::AwaitHeader
    } else {
        SubParser::ForwardPayload {
            attr,
            remaining: attr.length,
            deliver: H::decide(attr) == Control::Data,
        }
    };
    let m1 = DriverModel { off: (m.off + hlen) as nat, sub: Some(sub) };
    let rest = drive::<H>(explicit, eager, m1, a.skip(hlen));
    lemma_drive_consumed::<H>(explicit, eager, m1, a.skip(hlen));
    lemma_split_invariance::<H>(explicit, eager, m1, a.skip(hlen), b);
    assert(a.skip(hlen) + b =~= (a + b).skip(hlen));
    assert(a.skip(hlen).skip(rest.1) =~= a.skip(hlen + rest.1));
    let rest2 = drive::<H>(explicit, eager, rest.0, a.skip(hlen).skip(rest.1) + b);
    let wrest = drive::<H>(explicit, eager, m1, (a + b).skip(hlen));
    assert(first.1 == hlen + rest.1);
    assert(second == rest2);
    assert(whole.2 == seq![Event::Header(attr)] + wrest.2);
    assert(first.2 + second.2 == (seq![Event::Header(attr)] + rest.2) + rest2.2);
    assert((seq![Event::Header(attr)] + rest.2) + rest2.2 =~= seq![Event::Header(attr)] + (rest.2
        + rest2.2));
    assert(first.2 + second.2 == whole.2);
}

/// Split-invariance, payload case: the driver is forwarding a payload.
#[verifier::rlimit(100)]
#[verifier::spinoff_prover]
proof fn lemma_split_payload<H: Callback>(
    explicit: bool,
    eager: bool,
    m: DriverModel,
    a: Seq<u8>,
    b: Seq<u8>,
)
    requires
        model_wf(m),
        m.sub matches Some(SubParser::ForwardPayload { attr, remaining, deliver }),
    ensures
        ({
            let first = drive::<H>(explicit, eager, m, a);
            let second = drive::<H>(explicit, eager, first.0, a.skip(first.1) + b);
            let whole = drive::<H>(explicit, eager, m, a + b);
            &&& second.0 == whole.0
            &&& first.1 + second.1 == whole.1
            &&& first.2 + second.2 == whole.2
        }),
    decreases a.len(), 0int,
{
    lemma_drive_consumed::<H>(explicit, eager, m, a);
    let first = drive::<H>(explicit, eager, m, a);
    let second = drive::<H>(explicit, eager, first.0, a.skip(first.1) + b);
    let whole = drive::<H>(explicit, eager, m, a + b);
    match m.sub {
        Some(SubParser::ForwardPayload { attr, remaining, deliver }) => {
            let rem = remaining as int;
            if a.len() == 0 {
                assert(a.skip(0) + b =~= a + b);
                assert(first.2 + whole.2 =~= whole.2);
            } else if rem <= a.len() {
                // The payload completes within a.
                let m1 = DriverModel {
                    off: (m.off + remaining) as nat,
                    sub: Some(SubParser::AwaitHeader),
                };
                let rest = drive::<H>(explicit, eager, m1, a.skip(rem));
                lemma_drive_consumed::<H>(explicit, eager, m1, a.skip(rem));
                lemma_split_invariance::<H>(explicit, eager, m1, a.skip(rem), b);
                assert(a.skip(rem) + b =~= (a + b).skip(rem));
                assert(a.skip(rem).skip(rest.1) =~= a.skip(rem + rest.1));
                assert((a + b).take(rem) =~= a.take(rem));
                let rest2 = drive::<H>(explicit, eager, rest.0, a.skip(rem).skip(rest.1) + b);
                let wrest = drive::<H>(explicit, eager, m1, (a + b).skip(rem));
                let ev = if deliver {
                    data_events(attr, a.take(rem))
                } else {
                    Seq::<Event>::empty()
                };
                assert(second == rest2);
                assert(whole.2 == ev + wrest.2);
                assert((ev + rest.2) + rest2.2 =~= ev + (rest.2 + rest2.2));
                assert(first.2 + second.2 == whole.2);
            } else if eager {
                // The payload runs past a: an eager driver forwards all of a.
                let alen = a.len() as int;
                let m1 = DriverModel {
                    off: (m.off + alen) as nat,
                    sub: Some(
                        SubParser::ForwardPayload { attr, remaining: (rem - alen) as usize, deliver },
                    ),
                };
                assert(a.skip(alen) + b =~= b);
                if b.len() == 0 {
                    assert(a + b =~= a);
                    assert(first.2 + second.2 =~= whole.2);
                } else if rem - alen <= b.len() {
                    // The payload completes within b.
                    let m2 = DriverModel {
                        off: (m.off + rem) as nat,
                        sub: Some(SubParser::AwaitHeader),
                    };
                    assert(b.skip(rem - alen) =~= (a + b).skip(rem));
                    if deliver {
                        assert(a + b.take(rem - alen) =~= (a + b).take(rem));
                        lemma_data_events_concat(attr, a, b.take(rem - alen));
                    }
                    let rest = drive::<H>(explicit, eager, m2, b.skip(rem - alen));
                    assert(second.2 == (if deliver {
                        data_events(attr, b.take(rem - alen))
                    } else {
                        Seq::<Event>::empty()
                    }) + rest.2);
                    assert(first.2 + second.2 =~= whole.2);
                } else {
                    // Still mid-payload after both chunks.
                    if deliver {
                        lemma_data_events_concat(attr, a, b);
                    }
                    assert(first.2 + second.2 =~= whole.2);
                }
            } else {
                // A lazy driver waits: nothing consumed, second call sees a + b.
                assert(a.skip(0) + b =~= a + b);
                assert(first.2 + whole.2 =~= whole.2);
            }
        },
        _ => {},
    }
}

/// Split-invariance of the driver: feeding a stream in two chunks — the
/// second call re-offering whatever the first left unconsumed, followed by
/// the new bytes — reaches the same driver state, consumes the same total,
/// and produces the same handler events, in the same order, as feeding both
/// chunks in one call. By induction, any partitioning of a stream into
/// consecutive chunks is equivalent to one call on the whole stream.
pub proof fn lemma_split_invariance<H: Callback>(
    explicit: bool,
    eager: bool,
    m: DriverModel,
    a: Seq<u8>,
    b: Seq<u8>,
)
    requires
        model_wf(m),
    ensures
        ({
            let first = drive::<H>(explicit, eager, m, a);
            let second = drive::<H>(explicit, eager, first.0, a.skip(first.1) + b);
            let whole = drive::<H>(explicit, eager, m, a + b);
            &&& second.0 == whole.0
            &&& first.1 + second.1 == whole.1
            &&& first.2 + second.2 == whole.2
        }),
    decreases a.len(), 2int,
{
    match m.sub {
        None => {
            let first = drive::<H>(explicit, eager, m, a);
            let whole = drive::<H>(explicit, eager, m, a + b);
            assert(a.skip(0) + b =~= a + b);
            assert(first.2 + whole.2 =~= whole.2);
        },
        Some(SubParser::AwaitHeader) => {
            lemma_split_await::<H>(explicit, eager, m, a, b);
        },
        Some(SubParser::ForwardPayload { attr, remaining, deliver }) => {
            lemma_split_payload::<H>(explicit, eager, m, a, b);
        },
    }
}

/// A driver model is consistent with handler type `H` when the payload it
/// is forwarding is delivered exactly if `H` answered `Data` for its header.
/// Drivers only ever build such states.
pub open spec fn model_consistent<H: Callback>(m: DriverModel) -> bool {
    match m.sub {
        Some(SubParser::ForwardPayload { attr, remaining, deliver }) => deliver == (H::decide(attr)
            == Control::Data),
        _ => true,
    }
}

/// Control semantics, skip side: a payload byte reaches the data callback
/// only for attributes whose decision was `Data`. A handler that answers
/// `Element` for a header never sees that attribute's payload.
#[verifier::rlimit(100)]
pub proof fn lemma_data_only_when_requested<H: Callback>(
    explicit: bool,
    eager: bool,
    m: DriverModel,
    input: Seq<u8>,
)
    requires
        model_wf(m),
        model_consistent::<H>(m),
    ensures
        forall|i: int|
            0 <= i < drive::<H>(explicit, eager, m, input).2.len() ==> ((#[trigger] drive::<H>(
                explicit,
                eager,
                m,
                input,
            ).2[i]) matches Event::DataByte(a, b) ==> H::decide(a) == Control::Data),
    decreases input.len(),
{
    reveal(data_events);
    match m.sub {
        None => {},
        Some(SubParser::AwaitHeader) => {
            if spec_header_ready(explicit, input) {
                let hlen = spec_header_len(explicit, input);
                let attr = spec_header(explicit, m.off, input);
                if H::decide(attr) != Control::Stop {
                    let sub = if attr.length == 0 {
                        SubParser::AwaitHeader
                    } else {
                        SubParser::ForwardPayload {
                            attr,
                            remaining: attr.length,
                            deliver: H::decide(attr) == Control::Data,
                        }
                    };
                    let m1 = DriverModel { off: (m.off + hlen) as nat, sub: Some(sub) };
                    lemma_data_only_when_requested::<H>(explicit, eager, m1, input.skip(hlen));
                }
            }
        },
        Some(SubParser::ForwardPayload { attr, remaining, deliver }) => {
            if remaining > 0 && input.len() > 0 && remaining <= input.len() {
                let m1 = DriverModel {
                    off: (m.off + remaining) as nat,
                    sub: Some(SubParser::AwaitHeader),
                };
                lemma_data_only_when_requested::<H>(explicit, eager, m1, input.skip(remaining as int));
            }
        },
    }
}

/// Control semantics, stop side: a header whose decision is `Stop` is the
/// last event the handler ever sees from this driver, and the driver ends in
/// the terminal, post-cancellation state.
#[verifier::rlimit(100)]
pub proof fn lemma_stop_is_terminal<H: Callback>(
    explicit: bool,
    eager: bool,
    m: DriverModel,
    input: Seq<u8>,
)
    requires
        model_wf(m),
    ensures
        forall|i: int|
            0 <= i < drive::<H>(explicit, eager, m, input).2.len() ==> ((#[trigger] drive::<H>(
                explicit,
                eager,
                m,
                input,
            ).2[i]) matches Event::Header(a) && H::decide(a) == Control::Stop ==> i == drive::<H>(
                explicit,
                eager,
                m,
                input,
            ).2.len() - 1 && drive::<H>(explicit, eager, m, input).0.sub is None),
    decreases input.len(),
{
    reveal(data_events);
    match m.sub {
        None => {},
        Some(SubParser::AwaitHeader) => {
            if spec_header_ready(explicit, input) {
                let hlen = spec_header_len(explicit, input);
                let attr = spec_header(explicit, m.off, input);
                if H::decide(attr) != Control::Stop {
                    let sub = if attr.length == 0 {
                        SubParser::AwaitHeader
                    } else {
                        SubParser::ForwardPayload {
                            attr,
                            remaining: attr.length,
                            deliver: H::decide(attr) == Control::Data,
                        }
                    };
                    let m1 = DriverModel { off: (m.off + hlen) as nat, sub: Some(sub) };
                    lemma_stop_is_terminal::<H>(explicit, eager, m1, input.skip(hlen));
                }
            }
        },
        Some(SubParser::ForwardPayload { attr, remaining, deliver }) => {
            if remaining > 0 && input.len() > 0 && remaining <= input.len() {
                let m1 = DriverModel {
                    off: (m.off + remaining) as nat,
                    sub: Some(SubParser::AwaitHeader),
                };
                lemma_stop_is_terminal::<H>(explicit, eager, m1, input.skip(remaining as int));
            }
        },
    }
}

/// Control semantics, delivery side: over a window holding exactly one
/// attribute, a driver consumes the whole window; the handler sees the
/// header once and then, when its decision was `Data`, exactly the payload
/// bytes, in payload order — and nothing at all of the payload when its
/// decision was `Element`.
#[verifier::rlimit(100)]
pub proof fn lemma_single_attribute<H: Callback>(
    explicit: bool,
    eager: bool,
    off: nat,
    s: Seq<u8>,
)
    requires
        spec_header_ready(explicit, s),
        s.len() == spec_header_len(explicit, s) + spec_header(explicit, off, s).length,
        H::decide(spec_header(explicit, off, s)) != Control::Stop,
    ensures
        ({
            let attr = spec_header(explicit, off, s);
            let hlen = spec_header_len(explicit, s);
            let r = drive::<H>(
                explicit,
                eager,
                DriverModel { off, sub: Some(SubParser::AwaitHeader) },
                s,
            );
            &&& r.0 == DriverModel { off: (off + s.len()) as nat, sub: Some(SubParser::AwaitHeader) }
            &&& r.1 == s.len()
            &&& r.2 == if H::decide(attr) == Control::Data {
                seq![Event::Header(attr)] + data_events(attr, s.skip(hlen))
            } else {
                seq![Event::Header(attr)]
            }
        }),
{
    let attr = spec_header(explicit, off, s);
    let hlen = spec_header_len(explicit, s);
    let payload = s.skip(hlen);
    assert(payload.len() == attr.length);
    let deliver = H::decide(attr) == Control::Data;
    if attr.length == 0 {
        let m1 = DriverModel { off: (off + hlen) as nat, sub: Some(SubParser::AwaitHeader) };
        assert(drive::<H>(explicit, eager, m1, payload) == (m1, 0int, Seq::<Event>::empty()));
        assert(seq![Event::Header(attr)] + Seq::<Event>::empty() =~= seq![Event::Header(attr)]);
        if deliver {
            reveal(data_events);
            assert(seq![Event::Header(attr)] + data_events(attr, payload) =~= seq![
                Event::Header(attr),
            ]);
        }
    } else {
        let m1 = DriverModel {
            off: (off + hlen) as nat,
            sub: Some(SubParser::ForwardPayload { attr, remaining: attr.length, deliver }),
        };
        let m2 = DriverModel { off: (off + s.len()) as nat, sub: Some(SubParser::AwaitHeader) };
        assert(payload.skip(attr.length as int) =~= Seq::<u8>::empty());
        assert(drive::<H>(explicit, eager, m2, payload.skip(attr.length as int)) == (
            m2,
            0int,
            Seq::<Event>::empty(),
        ));
        assert(payload.take(attr.length as int) =~= payload);
        let ev = if deliver {
            data_events(attr, payload)
        } else {
            Seq::<Event>::empty()
        };
        assert(drive::<H>(explicit, eager, m1, payload).2 == ev + Seq::<Event>::empty());
        assert(ev + Seq::<Event>::empty() =~= ev);
        if !deliver {
            assert(seq![Event::Header(attr)] + Seq::<Event>::empty() =~= seq![
                Event::Header(attr),
            ]);
        }
    }
}


/// Repeated driver calls over a sequence of chunks: each call offers what
/// the previous call left unconsumed followed by the next chunk, as a caller
/// of the drivers does. Returns the final model, the total bytes consumed,
/// and all handler events, in order.
pub open spec fn drive_chunks<H: Callback>(
    explicit: bool,
    eager: bool,
    m: DriverModel,
    pending: Seq<u8>,
    chunks: Seq<Seq<u8>>,
) -> (DriverModel, int, Seq<Event>)
    decreases chunks.len(),
{
    if chunks.len() == 0 {
        (m, 0, Seq::<Event>::empty())
    } else {
        let step = drive::<H>(explicit, eager, m, pending + chunks[0]);
        let rest = drive_chunks::<H>(
            explicit,
            eager,
            step.0,
            (pending + chunks[0]).skip(step.1),
            chunks.skip(1),
        );
        (rest.0, step.1 + rest.1, step.2 + rest.2)
    }
}

/// Split-invariance for every partitioning: feeding a stream to a driver as
/// any sequence of consecutive chunks — re-offering unconsumed bytes each
/// call — reaches the same state, consumes the same total, and produces the
/// same handler events as one call over the whole stream. `pending` is
/// whatever an earlier call left unconsumed, on which the driver stalls
/// until more bytes arrive; a fresh parse starts with no pending bytes. In
/// particular, when the stream holds whole attributes, the total consumed is
/// its length, wherever the chunk boundaries fall.
pub proof fn lemma_chunked_parse_equals_whole<H: Callback>(
    explicit: bool,
    eager: bool,
    m: DriverModel,
    pending: Seq<u8>,
    chunks: Seq<Seq<u8>>,
)
    requires
        model_wf(m),
        drive::<H>(explicit, eager, m, pending) == (m, 0int, Seq::<Event>::empty()),
    ensures
        ({
            let r = drive_chunks::<H>(explicit, eager, m, pending, chunks);
            let whole = drive::<H>(explicit, eager, m, pending + chunks.flatten());
            &&& r.0 == whole.0
            &&& r.1 == whole.1
            &&& r.2 == whole.2
        }),
    decreases chunks.len(),
{
    let r = drive_chunks::<H>(explicit, eager, m, pending, chunks);
    let whole = drive::<H>(explicit, eager, m, pending + chunks.flatten());
    if chunks.len() == 0 {
        assert(chunks.flatten() =~= Seq::<u8>::empty());
        assert(pending + chunks.flatten() =~= pending);
        assert(r.2 =~= whole.2);
    } else {
        let a = pending + chunks[0];
        let b = chunks.skip(1).flatten();
        let step = drive::<H>(explicit, eager, m, a);
        lemma_drive_consumed::<H>(explicit, eager, m, a);
        lemma_drive_wf::<H>(explicit, eager, m, a);
        lemma_split_invariance::<H>(explicit, eager, m, a, b);
        // What one call leaves unconsumed stalls the driver: a second call
        // offering it alone makes no progress.
        lemma_split_invariance::<H>(explicit, eager, m, a, Seq::<u8>::empty());
        assert(a + Seq::<u8>::empty() =~= a);
        assert(a.skip(step.1) + Seq::<u8>::empty() =~= a.skip(step.1));
        let stalled = drive::<H>(explicit, eager, step.0, a.skip(step.1));
        assert(stalled.0 == step.0 && stalled.1 == 0);
        assert(step.2 + stalled.2 == step.2);
        assert(stalled.2.len() == 0);
        assert(stalled.2 =~= Seq::<Event>::empty());
        lemma_chunked_parse_equals_whole::<H>(
            explicit,
            eager,
            step.0,
            a.skip(step.1),
            chunks.skip(1),
        );
        assert(chunks.flatten() == chunks[0] + b);
        assert(pending + chunks.flatten() =~= a + b);
        let rest = drive_chunks::<H>(explicit, eager, step.0, a.skip(step.1), chunks.skip(1));
        let second = drive::<H>(explicit, eager, step.0, a.skip(step.1) + b);
        assert(step.2 + rest.2 == step.2 + second.2);
        assert(r.2 == whole.2);
    }
}

/// Control semantics, converse of the stop side: when a drive call ends in
/// the terminal state, a header whose decision was `Stop` was seen, and it
/// is the last event of the call. Together with `lemma_stop_is_terminal`,
/// a parse call reports `Cancelled` exactly when the handler answered
/// `Stop` to a header during that call.
#[verifier::rlimit(100)]
pub proof fn lemma_terminal_has_stop<H: Callback>(
    explicit: bool,
    eager: bool,
    m: DriverModel,
    input: Seq<u8>,
)
    requires
        model_wf(m),
        m.sub is Some,
    ensures
        ({
            let r = drive::<H>(explicit, eager, m, input);
            r.0.sub is None ==> r.2.len() > 0 && (r.2[r.2.len() - 1] matches Event::Header(a)
                && H::decide(a) == Control::Stop)
        }),
    decreases input.len(),
{
    match m.sub {
        None => {},
        Some(SubParser::AwaitHeader) => {
            if spec_header_ready(explicit, input) {
                let hlen = spec_header_len(explicit, input);
                let attr = spec_header(explicit, m.off, input);
                if H::decide(attr) != Control::Stop {
                    let sub = if attr.length == 0 {
                        SubParser::AwaitHeader
                    } else {
                        SubParser::ForwardPayload {
                            attr,
                            remaining: attr.length,
                            deliver: H::decide(attr) == Control::Data,
                        }
                    };
                    let m1 = DriverModel { off: (m.off + hlen) as nat, sub: Some(sub) };
                    let rest = drive::<H>(explicit, eager, m1, input.skip(hlen));
                    lemma_terminal_has_stop::<H>(explicit, eager, m1, input.skip(hlen));
                    if rest.0.sub is None {
                        assert((seq![Event::Header(attr)] + rest.2)[1 + rest.2.len() - 1]
                            == rest.2[rest.2.len() - 1]);
                    }
                }
            }
        },
        Some(SubParser::ForwardPayload { attr, remaining, deliver }) => {
            if remaining > 0 && input.len() > 0 && remaining <= input.len() {
                let m1 = DriverModel {
                    off: (m.off + remaining) as nat,
                    sub: Some(SubParser::AwaitHeader),
                };
                let rest = drive::<H>(explicit, eager, m1, input.skip(remaining as int));
                lemma_terminal_has_stop::<H>(explicit, eager, m1, input.skip(remaining as int));
                let ev = if deliver {
                    data_events(attr, input.take(remaining as int))
                } else {
                    Seq::<Event>::empty()
                };
                if rest.0.sub is None {
                    assert((ev + rest.2)[ev.len() + rest.2.len() - 1] == rest.2[rest.2.len() - 1]);
                }
            }
        },
    }
}

} // verus!
