//! Message reassembly over the frame parser: the adapter's inbound state
//! machine.
//!
//! `AdapterInner` owns the parser cursor, the fragment accumulator, the
//! closed flag and the liveness flag.  Its `receive` entry point consumes one
//! delivered byte chunk — containing any number of partial or complete
//! frames — and reports the resulting events (messages to deliver, pong
//! replies owed) and at most one protocol violation.  The whole behaviour is
//! specified by `receive_v`.

use vstd::prelude::*;

verus! {

use vstd::string::StringExecFns;
use vstd::string::StringSliceAdditionalSpecFns;
use vstd::utf8::{valid_utf8, decode_utf8, encode_utf8};
use crate::web_socket::{
    ParserState,
    ParserV,
    ParseResult,
    FrameV,
    OpCode,
    spec_advance,
    frame_bytes,
    encode_message,
};
use crate::supervisor::{TaskSupervisor, Finisher, spec_add, spec_resolve};

/// Cap on the size in bytes of one reassembled (fragmented) message.
pub const MESSAGE_SIZE_LIMIT: usize = 0x100000;

/// A fully reassembled logical message.
#[derive(Debug)]
pub enum Message {
    Text(String),
    Data(Vec<u8>),
}

/// The abstract value of a message.
#[verifier::ext_equal]
pub enum MessageV {
    Text(Seq<char>),
    Data(Seq<u8>),
}

impl View for Message {
    type V = MessageV;

    open spec fn view(&self) -> MessageV {
        match self {
            Message::Text(t) => MessageV::Text(t@),
            Message::Data(d) => MessageV::Data(d@),
        }
    }
}

/// The consumer of reassembled messages, supplied by the layer that owns the
/// adapter.
pub trait MessageHandler {
    fn handle_message(&mut self, message: Message) -> Result<(), String>;
}

/// The ways an inbound byte stream can break the protocol.  Each fails the
/// `receive` call that uncovered it.
#[derive(Clone, Copy, Debug, PartialEq, Eq, Structural)]
pub enum ProtocolViolation {
    /// A continuation frame arrived while no message was accumulating.
    UnexpectedContinuation,
    /// A new fragmented message started while one was already accumulating.
    UnfinishedMessage,
    /// A text frame or fragment held invalid UTF-8.
    InvalidUtf8,
    /// A reassembled message grew past `MESSAGE_SIZE_LIMIT` bytes.
    MessageTooLarge,
}

/// What processing a chunk of bytes asks of the surrounding adapter.
#[derive(Debug)]
pub enum Event {
    /// A message completed and is owed to the handler.
    Deliver(Message),
    /// A ping arrived and a pong reply is owed to the peer.
    SendPong,
}

/// The abstract value of an event.
#[verifier::ext_equal]
pub enum EventV {
    Deliver(MessageV),
    SendPong,
}

impl View for Event {
    type V = EventV;

    open spec fn view(&self) -> EventV {
        match self {
            Event::Deliver(m) => EventV::Deliver(m@),
            Event::SendPong => EventV::SendPong,
        }
    }
}

pub open spec fn events_view(s: Seq<Event>) -> Seq<EventV> {
    s.map_values(|e: Event| e@)
}

/// The fragment accumulator: a partially reassembled message.  A partial
/// text message carries its size in bytes, so that the size cap can be
/// checked without re-measuring the text.
pub enum MessageAccumulator {
    Empty,
    PartialText { text: String, len_bytes: usize },
    PartialBinary(Vec<u8>),
}

/// The abstract value of the accumulator.
#[verifier::ext_equal]
pub enum AccV {
    Empty,
    Text(Seq<char>),
    Data(Seq<u8>),
}

impl View for MessageAccumulator {
    type V = AccV;

    open spec fn view(&self) -> AccV {
        match self {
            MessageAccumulator::Empty => AccV::Empty,
            MessageAccumulator::PartialText { text, .. } => AccV::Text(text@),
            MessageAccumulator::PartialBinary(d) => AccV::Data(d@),
        }
    }
}

/// The abstract state of the adapter's inbound side.
#[verifier::ext_equal]
pub struct InnerV {
    pub parser: ParserV,
    pub acc: AccV,
    pub closed: bool,
    pub awaiting_pong: bool,
}

impl InnerV {
    pub open spec fn wf(self) -> bool {
        self.parser.wf()
    }

    pub open spec fn with_parser(self, p: ParserV) -> InnerV {
        InnerV { parser: p, ..self }
    }
}

/// Outcome of processing bytes or a frame: the new state, the events raised
/// in order, and the violation that stopped processing, if any.
#[verifier::ext_equal]
pub struct RecvOut {
    pub state: InnerV,
    pub events: Seq<EventV>,
    pub err: Option<ProtocolViolation>,
}

/// Dispatch of one completed frame, by opcode.
///
/// Continuation frames extend the accumulator (a protocol error when it is
/// empty, when a text fragment is not valid UTF-8 by itself, or when the
/// accumulated size crosses `MESSAGE_SIZE_LIMIT`); a FIN fragment delivers
/// the reassembled message.  Unfragmented text/binary frames deliver
/// directly; starting a fragmented message while one accumulates is a
/// protocol error.  Close moves to the terminal closed state; ping asks for
/// a pong; pong clears the liveness flag; unknown opcodes are ignored.
pub open spec fn dispatch_frame(s: InnerV, f: FrameV) -> RecvOut {
    if f.opcode == 0x0 {
        match s.acc {
            AccV::Empty => RecvOut {
                state: s,
                events: Seq::empty(),
                err: Some(ProtocolViolation::UnexpectedContinuation),
            },
            AccV::Text(t) => {
                if !valid_utf8(f.payload) {
                    RecvOut { state: s, events: Seq::empty(), err: Some(ProtocolViolation::InvalidUtf8) }
                } else {
                    let t2 = t + decode_utf8(f.payload);
                    if encode_utf8(t2).len() > MESSAGE_SIZE_LIMIT as int {
                        RecvOut {
                            state: (InnerV { acc: AccV::Empty, ..s }),
                            events: Seq::empty(),
                            err: Some(ProtocolViolation::MessageTooLarge),
                        }
                    } else if f.fin {
                        RecvOut {
                            state: (InnerV { acc: AccV::Empty, ..s }),
                            events: seq![EventV::Deliver(MessageV::Text(t2))],
                            err: None,
                        }
                    } else {
                        RecvOut {
                            state: (InnerV { acc: AccV::Text(t2), ..s }),
                            events: Seq::empty(),
                            err: None,
                        }
                    }
                }
            },
            AccV::Data(d) => {
                let d2 = d + f.payload;
                if d2.len() > MESSAGE_SIZE_LIMIT as int {
                    RecvOut {
                        state: (InnerV { acc: AccV::Empty, ..s }),
                        events: Seq::empty(),
                        err: Some(ProtocolViolation::MessageTooLarge),
                    }
                } else if f.fin {
                    RecvOut {
                        state: (InnerV { acc: AccV::Empty, ..s }),
                        events: seq![EventV::Deliver(MessageV::Data(d2))],
                        err: None,
                    }
                } else {
                    RecvOut {
                        state: (InnerV { acc: AccV::Data(d2), ..s }),
                        events: Seq::empty(),
                        err: None,
                    }
                }
            },
        }
    } else if f.opcode == 0x1 {
        if !valid_utf8(f.payload) {
            RecvOut { state: s, events: Seq::empty(), err: Some(ProtocolViolation::InvalidUtf8) }
        } else if f.fin {
            RecvOut {
                state: (InnerV { acc: AccV::Empty, ..s }),
                events: seq![EventV::Deliver(MessageV::Text(decode_utf8(f.payload)))],
                err: None,
            }
        } else if !(s.acc is Empty) {
            RecvOut { state: s, events: Seq::empty(), err: Some(ProtocolViolation::UnfinishedMessage) }
        } else {
            RecvOut {
                state: (InnerV { acc: AccV::Text(decode_utf8(f.payload)), ..s }),
                events: Seq::empty(),
                err: None,
            }
        }
    } else if f.opcode == 0x2 {
        if f.fin {
            RecvOut {
                state: (InnerV { acc: AccV::Empty, ..s }),
                events: seq![EventV::Deliver(MessageV::Data(f.payload))],
                err: None,
            }
        } else if !(s.acc is Empty) {
            RecvOut { state: s, events: Seq::empty(), err: Some(ProtocolViolation::UnfinishedMessage) }
        } else {
            RecvOut {
                state: (InnerV { acc: AccV::Data(f.payload), ..s }),
                events: Seq::empty(),
                err: None,
            }
        }
    } else if f.opcode == 0x8 {
        RecvOut { state: (InnerV { closed: true, ..s }), events: Seq::empty(), err: None }
    } else if f.opcode == 0x9 {
        RecvOut { state: s, events: seq![EventV::SendPong], err: None }
    } else if f.opcode == 0xa {
        RecvOut { state: (InnerV { awaiting_pong: false, ..s }), events: Seq::empty(), err: None }
    } else {
        RecvOut { state: s, events: Seq::empty(), err: None }
    }
}

/// Processing of one delivered byte chunk: repeat `spec_advance`, dispatch
/// each completed frame, stop at the first violation or once closed.
pub open spec fn receive_v(s: InnerV, bytes: Seq<u8>) -> RecvOut
    decreases bytes.len(),
{
    if s.closed || bytes.len() == 0 {
        RecvOut { state: s, events: Seq::empty(), err: None }
    } else {
        let st = spec_advance(s.parser, bytes);
        if st.used < 1 || st.used > bytes.len() {
            RecvOut { state: s, events: Seq::empty(), err: None }
        } else {
            let s1 = s.with_parser(st.state);
            match st.frame {
                None => receive_v(s1, bytes.skip(st.used)),
                Some(f) => {
                    let d = dispatch_frame(s1, f);
                    if d.err is Some {
                        d
                    } else {
                        let rest = receive_v(d.state, bytes.skip(st.used));
                        RecvOut {
                            state: rest.state,
                            events: d.events + rest.events,
                            err: rest.err,
                        }
                    }
                },
            }
        }
    }
}

/// UTF-8 encoding distributes over concatenation of character sequences.
pub proof fn lemma_encode_utf8_concat(a: Seq<char>, b: Seq<char>)
    ensures
        encode_utf8(a + b) == encode_utf8(a) + encode_utf8(b),
    decreases a.len(),
{
    if a.len() == 0 {
        assert(a + b =~= b);
        assert(encode_utf8(a) + encode_utf8(b) =~= encode_utf8(b));
    } else {
        assert((a + b).drop_first() =~= a.drop_first() + b);
        assert((a + b)[0] == a[0]);
        lemma_encode_utf8_concat(a.drop_first(), b);
        assert(vstd::utf8::encode_scalar(a[0] as u32) + (encode_utf8(a.drop_first())
            + encode_utf8(b)) =~= (vstd::utf8::encode_scalar(a[0] as u32) + encode_utf8(
            a.drop_first(),
        )) + encode_utf8(b));
    }
}

/// Appending the characters decoded from valid UTF-8 bytes grows the
/// encoded size by exactly the byte count of those bytes.
pub proof fn lemma_text_append_len(t: Seq<char>, p: Seq<u8>)
    requires
        valid_utf8(p),
    ensures
        encode_utf8(t + decode_utf8(p)) == encode_utf8(t) + p,
{
    lemma_encode_utf8_concat(t, decode_utf8(p));
    vstd::utf8::decode_utf8_encode_utf8(p);
}

/// Relies on String::from_utf8: succeeds exactly on valid UTF-8 input and
/// yields the characters those bytes encode.
#[verifier::external_body]
fn string_from_utf8(bytes: Vec<u8>) -> (r: Option<String>)
    ensures
        r is Some <==> valid_utf8(bytes@),
        r matches Some(s) ==> s@ == decode_utf8(bytes@),
{
    match String::from_utf8(bytes) {
        Ok(s) => Some(s),
        Err(_) => None,
    }
}

/// The adapter's inbound state: parser cursor, fragment accumulator,
/// lifecycle and liveness flags, and the handler that consumes messages
/// (dropped once closed).
pub struct AdapterInner<T> where T: MessageHandler {
    pub handler: Option<T>,
    pub awaiting_pong: bool,
    pub closed: bool,
    pub parser_state: ParserState,
    pub previous_frames: MessageAccumulator,
}

impl<T> View for AdapterInner<T> where T: MessageHandler {
    type V = InnerV;

    open spec fn view(&self) -> InnerV {
        InnerV {
            parser: self.parser_state@,
            acc: self.previous_frames@,
            closed: self.closed,
            awaiting_pong: self.awaiting_pong,
        }
    }
}

impl<T> AdapterInner<T> where T: MessageHandler {
    pub fn new(handler: T) -> (r: AdapterInner<T>)
        ensures
            r@ == (InnerV {
                parser: ParserV::Start,
                acc: AccV::Empty,
                closed: false,
                awaiting_pong: false,
            }),
            r.handler == Some(handler),
    {
        AdapterInner {
            handler: Some(handler),
            awaiting_pong: false,
            closed: false,
            parser_state: ParserState::NotStarted,
            previous_frames: MessageAccumulator::Empty,
        }
    }

    /// Relation between the byte counter carried in a partial text
    /// accumulator and its abstract character content.
    pub open spec fn inv(&self) -> bool {
        &&& self@.wf()
        &&& (self.previous_frames matches MessageAccumulator::PartialText { text, len_bytes }
            ==> len_bytes == encode_utf8(text@).len())
    }

    /// Dispatch one completed frame.  Does not touch the parser cursor.
    fn dispatch(&mut self, pr: ParseResult) -> (r: (Option<Event>, Option<ProtocolViolation>))
        requires
            !old(self)@.closed,
            old(self).inv(),
        ensures
            ({
                let d = dispatch_frame(old(self)@, pr@);
                &&& final(self)@ == d.state
                &&& d.events == (match r.0 {
                    None => Seq::<EventV>::empty(),
                    Some(e) => seq![e@],
                })
                &&& r.1 == d.err
            }),
            final(self).inv(),
            final(self).handler == old(self).handler,
            final(self).parser_state == old(self).parser_state,
    {
        let ghost pre: InnerV = self@;
        let ghost fv: FrameV = pr@;
        let ghost d: RecvOut = dispatch_frame(pre, fv);
        let ParseResult { frame, opcode, fin } = pr;
        if opcode == 0x0 {
            let mut acc = MessageAccumulator::Empty;
            core::mem::swap(&mut acc, &mut self.previous_frames);
            match acc {
                MessageAccumulator::Empty => {
                    (None, Some(ProtocolViolation::UnexpectedContinuation))
                },
                MessageAccumulator::PartialText { mut text, len_bytes } => {
                    let flen: usize = frame.len();
                    match string_from_utf8(frame) {
                        None => {
                            self.previous_frames = MessageAccumulator::PartialText {
                                text,
                                len_bytes,
                            };
                            (None, Some(ProtocolViolation::InvalidUtf8))
                        },
                        Some(chunk) => {
                            proof {
                                lemma_text_append_len(text@, fv.payload);
                            }
                            if len_bytes > MESSAGE_SIZE_LIMIT || flen > MESSAGE_SIZE_LIMIT
                                - len_bytes {
                                (None, Some(ProtocolViolation::MessageTooLarge))
                            } else {
                                text.append(chunk.as_str());
                                if fin {
                                    (Some(Event::Deliver(Message::Text(text))), None)
                                } else {
                                    self.previous_frames = MessageAccumulator::PartialText {
                                        text,
                                        len_bytes: len_bytes + flen,
                                    };
                                    (None, None)
                                }
                            }
                        },
                    }
                },
                MessageAccumulator::PartialBinary(mut data) => {
                    let mut tail = frame;
                    if tail.len() > MESSAGE_SIZE_LIMIT || data.len() > MESSAGE_SIZE_LIMIT
                        - tail.len() {
                        (None, Some(ProtocolViolation::MessageTooLarge))
                    } else {
                        data.append(&mut tail);
                        if fin {
                            (Some(Event::Deliver(Message::Data(data))), None)
                        } else {
                            self.previous_frames = MessageAccumulator::PartialBinary(data);
                            (None, None)
                        }
                    }
                },
            }
        } else if opcode == 0x1 {
            let flen: usize = frame.len();
            match string_from_utf8(frame) {
                None => (None, Some(ProtocolViolation::InvalidUtf8)),
                Some(t) => {
                    proof {
                        lemma_text_append_len(Seq::<char>::empty(), fv.payload);
                        assert(Seq::<char>::empty() + decode_utf8(fv.payload) =~= decode_utf8(
                            fv.payload,
                        ));
                        assert(encode_utf8(Seq::<char>::empty()) + fv.payload =~= fv.payload);
                    }
                    if fin {
                        self.previous_frames = MessageAccumulator::Empty;
                        (Some(Event::Deliver(Message::Text(t))), None)
                    } else {
                        match self.previous_frames {
                            MessageAccumulator::Empty => {
                                self.previous_frames = MessageAccumulator::PartialText {
                                    text: t,
                                    len_bytes: flen,
                                };
                                (None, None)
                            },
                            _ => (None, Some(ProtocolViolation::UnfinishedMessage)),
                        }
                    }
                },
            }
        } else if opcode == 0x2 {
            if fin {
                self.previous_frames = MessageAccumulator::Empty;
                (Some(Event::Deliver(Message::Data(frame))), None)
            } else {
                match self.previous_frames {
                    MessageAccumulator::Empty => {
                        self.previous_frames = MessageAccumulator::PartialBinary(frame);
                        (None, None)
                    },
                    _ => (None, Some(ProtocolViolation::UnfinishedMessage)),
                }
            }
        } else if opcode == 0x8 {
            self.closed = true;
            (None, None)
        } else if opcode == 0x9 {
            (Some(Event::SendPong), None)
        } else if opcode == 0xa {
            self.awaiting_pong = false;
            (None, None)
        } else {
            (None, None)
        }
    }

    /// Consume one inbound byte chunk, as `receive_v` specifies: a no-op
    /// once closed, otherwise frames complete and are dispatched until the
    /// chunk is exhausted, the connection closes, or a violation stops the
    /// call.
    #[verifier::rlimit(100)]
    pub fn receive(&mut self, buf: &[u8]) -> (r: (Vec<Event>, Option<ProtocolViolation>))
        requires
            old(self).inv(),
        ensures
            ({
                let out = receive_v(old(self)@, buf@);
                &&& final(self)@ == out.state
                &&& events_view(r.0@) == out.events
                &&& r.1 == out.err
            }),
            final(self).inv(),
            final(self).handler == old(self).handler,
    {
        let ghost init: InnerV = self@;
        let mut events: Vec<Event> = Vec::new();
        let mut num: usize = 0;
        if self.closed {
            return (events, None);
        }
        proof {
            assert(buf@.skip(0) =~= buf@);
            let cont = receive_v(init, buf@);
            assert(events_view(events@) + cont.events =~= cont.events);
            assert(receive_v(init, buf@) =~= (RecvOut {
                state: cont.state,
                events: events_view(events@) + cont.events,
                err: cont.err,
            }));
        }
        while num < buf.len()
            invariant
                num <= buf@.len(),
                init == old(self)@,
                self.inv(),
                !self@.closed,
                self.handler == old(self).handler,
                ({
                    let cont = receive_v(self@, buf@.skip(num as int));
                    receive_v(init, buf@) == (RecvOut {
                        state: cont.state,
                        events: events_view(events@) + cont.events,
                        err: cont.err,
                    })
                }),
            decreases buf@.len() - num,
        {
            let ghost s_pre: InnerV = self@;
            let ghost rest_pre: Seq<u8> = buf@.skip(num as int);
            let ghost evs0: Seq<Event> = events@;
            let chunk = vstd::slice::slice_subrange(buf, num, buf.len());
            let (n, res) = self.parser_state.advance(chunk);
            proof {
                crate::web_socket::lemma_advance_progress(s_pre.parser, rest_pre);
                let st = spec_advance(s_pre.parser, rest_pre);
                assert(rest_pre.skip(st.used) =~= buf@.skip(num as int + st.used));
            }
            num = num + n;
            match res {
                None => {
                    proof {
                        let st = spec_advance(s_pre.parser, rest_pre);
                        assert(self@ =~= s_pre.with_parser(st.state));
                        assert(receive_v(s_pre, rest_pre) == receive_v(
                            s_pre.with_parser(st.state),
                            rest_pre.skip(st.used),
                        ));
                    }
                },
                Some(pr) => {
                    let ghost s_mid: InnerV = self@;
                    let ghost fv: FrameV = pr@;
                    let (ev, err) = self.dispatch(pr);
                    proof {
                        let st = spec_advance(s_pre.parser, rest_pre);
                        assert(s_mid =~= s_pre.with_parser(st.state));
                        let d = dispatch_frame(s_mid, fv);
                        assert(st.frame == Some(fv));
                        if d.err is Some {
                            assert(receive_v(s_pre, rest_pre) == d);
                        } else {
                            let rest = receive_v(d.state, rest_pre.skip(st.used));
                            assert(receive_v(s_pre, rest_pre) == (RecvOut {
                                state: rest.state,
                                events: d.events + rest.events,
                                err: rest.err,
                            }));
                        }
                    }
                    match ev {
                        None => {
                            proof {
                                assert(events_view(events@) + dispatch_frame(s_mid, fv).events
                                    =~= events_view(events@));
                            }
                        },
                        Some(e) => {
                            events.push(e);
                            proof {
                                assert(events_view(events@) =~= events_view(evs0) + seq![
                                    events@.last()@,
                                ]);
                                assert(events_view(events@) =~= events_view(evs0)
                                    + dispatch_frame(s_mid, fv).events);
                            }
                        },
                    }
                    match err {
                        None => (),
                        Some(v) => {
                            proof {
                                let d = dispatch_frame(s_mid, fv);
                                assert(receive_v(init, buf@) =~= (RecvOut {
                                    state: d.state,
                                    events: events_view(evs0) + d.events,
                                    err: d.err,
                                }));
                                assert(events_view(events@) =~= events_view(evs0) + d.events);
                            }
                            return (events, Some(v));
                        },
                    }
                    proof {
                        let st = spec_advance(s_pre.parser, rest_pre);
                        let d = dispatch_frame(s_mid, fv);
                        let rest = receive_v(d.state, rest_pre.skip(st.used));
                        assert(events_view(events@) + rest.events =~= events_view(evs0) + (
                        d.events + rest.events));
                    }
                    if self.closed {
                        proof {
                            let st = spec_advance(s_pre.parser, rest_pre);
                            let d = dispatch_frame(s_mid, fv);
                            assert(receive_v(d.state, rest_pre.skip(st.used)) == (RecvOut {
                                state: d.state,
                                events: Seq::<EventV>::empty(),
                                err: None,
                            }));
                            assert(events_view(events@) + Seq::<EventV>::empty() =~= events_view(
                                events@,
                            ));
                        }
                        return (events, None);
                    }
                },
            }
        }
        proof {
            assert(buf@.skip(buf@.len() as int) =~= Seq::<u8>::empty());
            assert(events_view(events@) + Seq::<EventV>::empty() =~= events_view(events@));
        }
        (events, None)
    }
}

/// Errors surfaced by the adapter, per the failure taxonomy: protocol
/// violations fail the `receive` call that found them; transport failures
/// and liveness timeouts are reported through the task supervisor's failure
/// observer; a handler error propagates to the caller of `receive`.
#[derive(Debug)]
pub enum AdapterError {
    Protocol(ProtocolViolation),
    Transport(String),
    LivenessTimeout,
    Handler(String),
}

/// An outbound frame owed to the peer, paired with the supervisor handle of
/// the fire-and-forget send that will carry it.
pub struct OutboundFrame {
    pub task: u64,
    pub bytes: Vec<u8>,
}

/// What one liveness-timer expiry decided.
#[derive(Clone, Copy, Debug, PartialEq, Eq, Structural)]
pub enum LivenessVerdict {
    /// The previous ping went unanswered: the liveness loop resolves with a
    /// timeout failure and does not restart.
    Failed,
    /// The previous ping was answered: a fresh ping goes out and the loop
    /// re-enters its waiting state.
    PingResent,
    /// The connection closed: the loop is not restarted.
    Stopped,
}

/// Count of pong replies owed by a sequence of events.
pub open spec fn count_pongs(evs: Seq<EventV>) -> int
    decreases evs.len(),
{
    if evs.len() == 0 {
        0
    } else {
        count_pongs(evs.drop_last()) + (if evs.last() is SendPong {
            1int
        } else {
            0int
        })
    }
}

proof fn lemma_count_pongs_nonneg(evs: Seq<EventV>)
    ensures
        0 <= count_pongs(evs) <= evs.len(),
    decreases evs.len(),
{
    if evs.len() > 0 {
        lemma_count_pongs_nonneg(evs.drop_last());
    }
}

/// The WebSocket adapter: composes the inbound state machine with the task
/// supervisor, the outbound frame queue, and the liveness loop.  The
/// surrounding event loop drains `outbox` (one fire-and-forget send per
/// entry, resolved with the supervisor when it completes) and calls
/// `liveness_timer_elapsed` each time the fixed keepalive delay passes.
pub struct Adapter<T, F> where T: MessageHandler, F: Finisher {
    pub inner: AdapterInner<T>,
    pub tasks: TaskSupervisor<F>,
    pub outbox: Vec<OutboundFrame>,
    pub ping_task: u64,
}

impl<T, F> Adapter<T, F> where T: MessageHandler, F: Finisher {
    pub open spec fn inv(&self) -> bool {
        self.inner.inv()
    }

    /// Construction starts the liveness loop: the first ping is queued as a
    /// registered task and the adapter awaits the pong.
    pub fn new(handler: T, finisher: F) -> (r: Adapter<T, F>)
        ensures
            r.inner@ == (InnerV {
                parser: ParserV::Start,
                acc: AccV::Empty,
                closed: false,
                awaiting_pong: true,
            }),
            r.inner.handler == Some(handler),
            r.inv(),
            r.tasks@.wf(),
            r.outbox@.len() == 1,
            r.outbox@[0].bytes@ == frame_bytes(true, 0x9, Seq::<u8>::empty()),
            r.outbox@[0].task == r.ping_task,
            r.tasks@.live == seq![r.ping_task],
    {
        let mut inner = AdapterInner::new(handler);
        inner.awaiting_pong = true;
        let mut tasks = TaskSupervisor::new(finisher);
        let ping_task = tasks.add();
        let ping = encode_message(OpCode::Ping, &[]);
        let mut outbox: Vec<OutboundFrame> = Vec::new();
        outbox.push(OutboundFrame { task: ping_task, bytes: ping });
        assert(tasks@.live =~= seq![ping_task]);
        Adapter { inner, tasks, outbox, ping_task }
    }

    /// The single inbound entry point.  Parses and dispatches per
    /// `receive_v`; delivers each completed message to the handler in
    /// arrival order; queues one registered pong send per ping received;
    /// drops the handler once closed.  Fails with the protocol violation
    /// that stopped processing, else with the first handler error.
    pub fn receive(&mut self, buf: &[u8]) -> (r: Result<(), AdapterError>)
        requires
            old(self).inv(),
        ensures
            ({
                let out = receive_v(old(self).inner@, buf@);
                &&& final(self).inner@ == out.state
                &&& (match r {
                    Ok(()) => out.err is None,
                    Err(AdapterError::Protocol(v)) => out.err == Some(v),
                    Err(AdapterError::Handler(_)) => out.err is None,
                    Err(_) => false,
                })
                &&& final(self).outbox@.len() == old(self).outbox@.len() + count_pongs(out.events)
                &&& (forall|j: int|
                    0 <= j < old(self).outbox@.len() ==> #[trigger] final(self).outbox@[j]
                        == old(self).outbox@[j])
                &&& (forall|j: int|
                    old(self).outbox@.len() <= j < final(self).outbox@.len()
                        ==> (#[trigger] final(self).outbox@[j].bytes)@ == frame_bytes(
                        true,
                        0xa,
                        Seq::<u8>::empty(),
                    ))
                &&& final(self).tasks@.live.len() == old(self).tasks@.live.len() + count_pongs(
                    out.events,
                )
                &&& (out.state.closed ==> final(self).inner.handler is None)
                &&& (!out.state.closed ==> (final(self).inner.handler is Some <==> old(
                    self,
                ).inner.handler is Some))
            }),
            final(self).inv(),
            final(self).ping_task == old(self).ping_task,
    {
        let ghost out = receive_v(self.inner@, buf@);
        let (mut events, verr) = self.inner.receive(buf);
        let ghost all_events: Seq<EventV> = events_view(events@);
        let ghost outbox0: Seq<OutboundFrame> = self.outbox@;
        let ghost live0: int = self.tasks@.live.len() as int;
        let mut first_handler_err: Option<String> = None;
        let mut k: usize = 0;
        let total: usize = events.len();
        proof {
            lemma_count_pongs_nonneg(all_events);
            assert(all_events.take(0) =~= Seq::<EventV>::empty());
            assert(all_events.skip(0) =~= all_events);
        }
        while k < total
            invariant
                k <= total,
                events@.len() == total - k,
                all_events.len() == total,
                events_view(events@) == all_events.skip(k as int),
                self.inner.inv(),
                self.inner@ == receive_v(old(self).inner@, buf@).state,
                (self.inner.handler is Some <==> old(self).inner.handler is Some),
                self.outbox@.len() == outbox0.len() + count_pongs(all_events.take(k as int)),
                forall|j: int| 0 <= j < outbox0.len() ==> #[trigger] self.outbox@[j] == outbox0[j],
                forall|j: int|
                    outbox0.len() <= j < self.outbox@.len() ==> (#[trigger] self.outbox@[j].bytes)@
                        == frame_bytes(true, 0xa, Seq::<u8>::empty()),
                self.tasks@.live.len() == live0 + count_pongs(all_events.take(k as int)),
                self.ping_task == old(self).ping_task,
            decreases total - k,
        {
            let ghost evs_pre: Seq<Event> = events@;
            let e = events.remove(0);
            proof {
                lemma_count_pongs_nonneg(all_events.take(k as int));
                assert(e@ == all_events.skip(k as int)[0]);
                assert(e@ == all_events[k as int]);
                assert(events_view(events@) =~= events_view(evs_pre).drop_first());
                assert(events_view(events@) =~= all_events.skip(k as int + 1));
                assert(all_events.take(k as int + 1).drop_last() =~= all_events.take(k as int));
                assert(all_events.take(k as int + 1).last() == all_events[k as int]);
            }
            match e {
                Event::SendPong => {
                    let id = self.tasks.add();
                    let pong = encode_message(OpCode::Pong, &[]);
                    self.outbox.push(OutboundFrame { task: id, bytes: pong });
                },
                Event::Deliver(m) => {
                    match &mut self.inner.handler {
                        None => (),
                        Some(h) => {
                            match h.handle_message(m) {
                                Ok(()) => (),
                                Err(e) => {
                                    match first_handler_err {
                                        None => {
                                            first_handler_err = Some(e);
                                        },
                                        Some(_) => (),
                                    }
                                },
                            }
                        },
                    }
                },
            }
            k = k + 1;
        }
        proof {
            assert(all_events.take(total as int) =~= all_events);
        }
        if self.inner.closed {
            self.inner.handler = None;
        }
        match verr {
            Some(v) => Err(AdapterError::Protocol(v)),
            None => {
                match first_handler_err {
                    Some(e) => Err(AdapterError::Handler(e)),
                    None => Ok(()),
                }
            },
        }
    }

    /// One expiry of the fixed keepalive delay, per the liveness state
    /// machine: if the connection closed the loop stops; if the last ping
    /// is still unanswered the loop resolves its task with a timeout
    /// failure (observed by the supervisor's failure observer) and does not
    /// restart; otherwise a fresh ping is queued as a registered task and
    /// the wait begins again.
    pub fn liveness_timer_elapsed(&mut self) -> (r: LivenessVerdict)
        requires
            old(self).inv(),
        ensures
            final(self).inv(),
            final(self).inner.handler == old(self).inner.handler,
            old(self).inner@.closed ==> ({
                &&& r == LivenessVerdict::Stopped
                &&& final(self).inner == old(self).inner
                &&& final(self).tasks@ == old(self).tasks@
                &&& final(self).outbox == old(self).outbox
            }),
            !old(self).inner@.closed && old(self).inner@.awaiting_pong ==> ({
                &&& r == LivenessVerdict::Failed
                &&& final(self).inner == old(self).inner
                &&& final(self).tasks@ == spec_resolve(old(self).tasks@, old(self).ping_task, true).0
                &&& final(self).outbox == old(self).outbox
            }),
            !old(self).inner@.closed && !old(self).inner@.awaiting_pong ==> ({
                &&& r == LivenessVerdict::PingResent
                &&& final(self).inner@ == (InnerV { awaiting_pong: true, ..old(self).inner@ })
                &&& final(self).tasks@ == spec_add(old(self).tasks@).0
                &&& final(self).ping_task == spec_add(old(self).tasks@).1
                &&& final(self).outbox@.len() == old(self).outbox@.len() + 1
                &&& final(self).outbox@.last().bytes@ == frame_bytes(true, 0x9, Seq::<u8>::empty())
                &&& final(self).outbox@.last().task == final(self).ping_task
                &&& (forall|j: int|
                    0 <= j < old(self).outbox@.len() ==> #[trigger] final(self).outbox@[j] == old(
                        self,
                    ).outbox@[j])
            }),
    {
        if self.inner.closed {
            LivenessVerdict::Stopped
        } else if self.inner.awaiting_pong {
            let _ = self.tasks.resolve(
                self.ping_task,
                Err(String::from_str("pong not received within 10 seconds")),
            );
            LivenessVerdict::Failed
        } else {
            self.inner.awaiting_pong = true;
            let id = self.tasks.add();
            let ping = encode_message(OpCode::Ping, &[]);
            self.outbox.push(OutboundFrame { task: id, bytes: ping });
            self.ping_task = id;
            LivenessVerdict::PingResent
        }
    }
}

} // verus!
