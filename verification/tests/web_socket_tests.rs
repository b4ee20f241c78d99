use grain_ws::adapter::{
    Adapter, AdapterError, AdapterInner, Event, LivenessVerdict, Message, MessageHandler,
    ProtocolViolation,
};
use grain_ws::supervisor::Finisher;
use grain_ws::web_socket::{encode_message, encode_text_message, OpCode, ParserState};

struct Recorder {
    texts: Vec<String>,
    datas: Vec<Vec<u8>>,
}

impl Recorder {
    fn new() -> Recorder {
        Recorder {
            texts: Vec::new(),
            datas: Vec::new(),
        }
    }
}

impl MessageHandler for Recorder {
    fn handle_message(&mut self, message: Message) -> Result<(), String> {
        match message {
            Message::Text(t) => self.texts.push(t),
            Message::Data(d) => self.datas.push(d),
        }
        Ok(())
    }
}

struct FailLog {
    errors: Vec<String>,
}

impl Finisher for FailLog {
    fn task_failed(&mut self, error: String) {
        self.errors.push(error);
    }
}

fn new_adapter() -> Adapter<Recorder, FailLog> {
    Adapter::new(Recorder::new(), FailLog { errors: Vec::new() })
}

fn texts(a: &Adapter<Recorder, FailLog>) -> &Vec<String> {
    &a.inner.handler.as_ref().unwrap().texts
}

#[test]
fn text_frame_decodes_to_hello() {
    let mut a = new_adapter();
    let bytes = [0x81, 0x05, b'h', b'e', b'l', b'l', b'o'];
    assert!(a.receive(&bytes).is_ok());
    assert_eq!(texts(&a).as_slice(), ["hello"]);
}

#[test]
fn ping_registers_exactly_one_pong() {
    let mut a = new_adapter();
    let outbox_before = a.outbox.len();
    let live_before = a.tasks.live.len();
    assert!(a.receive(&[0x89, 0x00]).is_ok());
    assert_eq!(a.outbox.len(), outbox_before + 1);
    assert_eq!(a.tasks.live.len(), live_before + 1);
    assert_eq!(a.outbox.last().unwrap().bytes, vec![0x8a, 0x00]);
    assert!(a.tasks.live.contains(&a.outbox.last().unwrap().task));
}

#[test]
fn chunking_is_invariant() {
    // one frame fed byte by byte reassembles like the frame fed whole
    let frame = encode_text_message("chunked message payload");
    let mut whole = new_adapter();
    assert!(whole.receive(&frame).is_ok());
    let mut pieces = new_adapter();
    for b in &frame {
        assert!(pieces.receive(&[*b]).is_ok());
    }
    assert_eq!(texts(&whole).as_slice(), ["chunked message payload"]);
    assert_eq!(texts(&pieces).as_slice(), ["chunked message payload"]);
}

#[test]
fn three_length_forms_decode_alike() {
    for len in [5usize, 300, 70000] {
        let payload = vec![0x5au8; len];
        let frame = encode_message(OpCode::BinaryPayload, &payload);
        // length form chosen by size: 1, 2+2 or 2+8 bytes of header
        let header = if len < 126 {
            2
        } else if len < 1 << 16 {
            4
        } else {
            10
        };
        assert_eq!(frame.len(), header + len);
        let mut a = new_adapter();
        assert!(a.receive(&frame).is_ok());
        let datas = &a.inner.handler.as_ref().unwrap().datas;
        assert_eq!(datas.len(), 1);
        assert_eq!(datas[0], payload);
    }
}

#[test]
fn masked_payload_is_unmasked_bytewise() {
    let mask = [0x10u8, 0x20, 0x30, 0x40];
    let payload: Vec<u8> = vec![1, 2, 3, 4, 5, 6];
    let mut frame: Vec<u8> = vec![0x82, 0x80 | payload.len() as u8];
    frame.extend_from_slice(&mask);
    for (i, b) in payload.iter().enumerate() {
        frame.push(b ^ mask[i % 4]);
    }
    let mut a = new_adapter();
    assert!(a.receive(&frame).is_ok());
    let datas = &a.inner.handler.as_ref().unwrap().datas;
    assert_eq!(datas.as_slice(), [payload]);
}

#[test]
fn continuation_without_start_is_violation() {
    let mut a = new_adapter();
    let r = a.receive(&[0x80, 0x00]);
    match r {
        Err(AdapterError::Protocol(ProtocolViolation::UnexpectedContinuation)) => {}
        other => panic!("unexpected result: {:?}", other.err()),
    }
    // the adapter survives and still handles messages
    assert!(a.receive(&[0x81, 0x02, b'o', b'k']).is_ok());
    assert_eq!(texts(&a).as_slice(), ["ok"]);
}

#[test]
fn size_cap_fires_exactly_at_the_crossing() {
    let limit = 1usize << 20;
    // seed with all but one byte, then reach exactly the cap: accepted
    let seed = encode_first_binary_fragment(&vec![0x11u8; limit - 1]);
    let finish = encode_continuation(&[0x22u8], true);
    let mut a = new_adapter();
    assert!(a.receive(&seed).is_ok());
    assert!(a.receive(&finish).is_ok());
    assert_eq!(a.inner.handler.as_ref().unwrap().datas[0].len(), limit);
    // the same seed plus two more bytes crosses the cap: rejected there
    let mut b = new_adapter();
    assert!(b.receive(&seed).is_ok());
    assert!(b.receive(&encode_continuation(&[0x22u8], false)).is_ok());
    let r = b.receive(&encode_continuation(&[0x33u8], true));
    match r {
        Err(AdapterError::Protocol(ProtocolViolation::MessageTooLarge)) => {}
        other => panic!("unexpected result: {:?}", other.err()),
    }
}

fn encode_first_binary_fragment(payload: &[u8]) -> Vec<u8> {
    let mut f = encode_message(OpCode::BinaryPayload, payload);
    f[0] &= 0x7f; // clear FIN
    f
}

fn encode_continuation(payload: &[u8], fin: bool) -> Vec<u8> {
    let mut f = encode_message(OpCode::Continue, payload);
    if !fin {
        f[0] &= 0x7f;
    }
    f
}

#[test]
fn receive_after_close_is_noop_success() {
    let mut a = new_adapter();
    assert!(a.receive(&[0x88, 0x00]).is_ok());
    assert!(a.inner.handler.is_none());
    // further bytes are accepted and ignored: no messages, no pongs
    let outbox_before = a.outbox.len();
    assert!(a.receive(&[0x81, 0x02, b'h', b'i']).is_ok());
    assert!(a.receive(&[0x89, 0x00]).is_ok());
    assert!(a.inner.handler.is_none());
    assert_eq!(a.outbox.len(), outbox_before);
}

#[test]
fn fragmented_text_reassembles() {
    let mut a = new_adapter();
    let mut seed = encode_message(OpCode::Utf8Payload, b"hel");
    seed[0] &= 0x7f;
    let finish = encode_continuation(b"lo", true);
    assert!(a.receive(&seed).is_ok());
    assert!(a.receive(&finish).is_ok());
    assert_eq!(texts(&a).as_slice(), ["hello"]);
}

#[test]
fn invalid_utf8_text_is_violation() {
    let mut a = new_adapter();
    let r = a.receive(&[0x81, 0x01, 0xff]);
    match r {
        Err(AdapterError::Protocol(ProtocolViolation::InvalidUtf8)) => {}
        other => panic!("unexpected result: {:?}", other.err()),
    }
}

#[test]
fn starting_new_message_while_accumulating_is_violation() {
    let mut a = new_adapter();
    let mut seed = encode_message(OpCode::Utf8Payload, b"abc");
    seed[0] &= 0x7f;
    assert!(a.receive(&seed).is_ok());
    let mut second = encode_message(OpCode::BinaryPayload, b"xyz");
    second[0] &= 0x7f;
    let r = a.receive(&second);
    match r {
        Err(AdapterError::Protocol(ProtocolViolation::UnfinishedMessage)) => {}
        other => panic!("unexpected result: {:?}", other.err()),
    }
}

#[test]
fn pong_clears_liveness_and_ping_resends() {
    let mut a = new_adapter();
    assert!(a.inner.awaiting_pong);
    assert!(a.receive(&[0x8a, 0x00]).is_ok());
    assert!(!a.inner.awaiting_pong);
    let outbox_before = a.outbox.len();
    assert_eq!(a.liveness_timer_elapsed(), LivenessVerdict::PingResent);
    assert!(a.inner.awaiting_pong);
    assert_eq!(a.outbox.len(), outbox_before + 1);
    assert_eq!(a.outbox.last().unwrap().bytes, vec![0x89, 0x00]);
}

#[test]
fn missed_pong_fails_liveness_once() {
    let mut a = new_adapter();
    assert!(a.inner.awaiting_pong);
    assert_eq!(a.liveness_timer_elapsed(), LivenessVerdict::Failed);
    assert_eq!(
        a.tasks.finisher.errors.as_slice(),
        ["pong not received within 10 seconds"]
    );
}

#[test]
fn liveness_stops_after_close() {
    let mut a = new_adapter();
    assert!(a.receive(&[0x88, 0x00]).is_ok());
    assert_eq!(a.liveness_timer_elapsed(), LivenessVerdict::Stopped);
    assert!(a.tasks.finisher.errors.is_empty());
}

#[test]
fn adapter_starts_with_one_ping_queued() {
    let a = new_adapter();
    assert_eq!(a.outbox.len(), 1);
    assert_eq!(a.outbox[0].bytes, vec![0x89, 0x00]);
    assert_eq!(a.outbox[0].task, a.ping_task);
}

#[test]
fn encoder_wire_format() {
    assert_eq!(
        encode_text_message("hello"),
        vec![0x81, 0x05, b'h', b'e', b'l', b'l', b'o']
    );
    assert_eq!(encode_message(OpCode::Terminate, &[]), vec![0x88, 0x00]);
    let f300 = encode_message(OpCode::BinaryPayload, &[0u8; 300]);
    assert_eq!(&f300[..4], &[0x82, 126, 0x01, 0x2c]);
    let f70000 = encode_message(OpCode::BinaryPayload, &[0u8; 70000]);
    assert_eq!(
        &f70000[..10],
        &[0x82, 127, 0, 0, 0, 0, 0, 0x01, 0x11, 0x70]
    );
}

#[test]
fn parser_advances_one_transition_per_call() {
    let mut p = ParserState::NotStarted;
    let frame = [0x81u8, 0x02, b'h', b'i'];
    let (n1, r1) = p.advance(&frame);
    assert_eq!(n1, 1);
    assert!(r1.is_none());
    let (n2, r2) = p.advance(&frame[1..]);
    assert_eq!(n2, 1);
    assert!(r2.is_none());
    let (n3, r3) = p.advance(&frame[2..]);
    assert_eq!(n3, 2);
    let res = r3.unwrap();
    assert!(res.fin);
    assert_eq!(res.opcode, 0x1);
    assert_eq!(res.frame, b"hi".to_vec());
}

#[test]
fn empty_payload_completes_without_payload_state() {
    let mut p = ParserState::NotStarted;
    let (_, r1) = p.advance(&[0x89]);
    assert!(r1.is_none());
    let (n2, r2) = p.advance(&[0x00]);
    assert_eq!(n2, 1);
    let res = r2.unwrap();
    assert_eq!(res.opcode, 0x9);
    assert!(res.frame.is_empty());
}

#[test]
fn unknown_opcode_is_ignored() {
    let mut a = new_adapter();
    assert!(a.receive(&[0x83, 0x01, 0xaa]).is_ok());
    assert!(texts(&a).is_empty());
    assert!(a.inner.handler.as_ref().unwrap().datas.is_empty());
}

#[test]
fn handler_error_propagates_to_receive() {
    struct Failing;
    impl MessageHandler for Failing {
        fn handle_message(&mut self, _message: Message) -> Result<(), String> {
            Err(String::from("handler says no"))
        }
    }
    let mut a = Adapter::new(Failing, FailLog { errors: Vec::new() });
    let r = a.receive(&encode_text_message("x"));
    match r {
        Err(AdapterError::Handler(e)) => assert_eq!(e, "handler says no"),
        other => panic!("unexpected result: {:?}", other.err()),
    }
}

#[test]
fn inner_receive_reports_events() {
    let mut inner: AdapterInner<Recorder> = AdapterInner::new(Recorder::new());
    let (events, err) = inner.receive(&[0x89, 0x00, 0x81, 0x01, b'a']);
    assert!(err.is_none());
    assert_eq!(events.len(), 2);
    assert!(matches!(events[0], Event::SendPong));
    match &events[1] {
        Event::Deliver(Message::Text(t)) => assert_eq!(t, "a"),
        other => panic!("unexpected event: {:?}", other),
    }
}
