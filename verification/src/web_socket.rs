//! The WebSocket wire format: opcodes, frame encoding, and an
//! incrementally-resumable frame parser.
//!
//! The parser is a state machine that consumes one state transition's worth
//! of input per `advance` call; the caller loops until the whole buffer is
//! consumed.  Its behaviour is specified by `spec_advance`, a step function
//! over the abstract parser state `ParserV`.

use vstd::prelude::*;

verus! {

use vstd::string::StringSliceAdditionalSpecFns;

/// The 4-bit opcode of a frame.
pub enum OpCode {
    Continue,
    Utf8Payload,
    BinaryPayload,
    Terminate,
    Ping,
    Pong,
}

impl OpCode {
    /// The opcode nibble as it appears on the wire.
    pub open spec fn spec_code(self) -> u8 {
        match self {
            OpCode::Continue => 0x0,
            OpCode::Utf8Payload => 0x1,
            OpCode::BinaryPayload => 0x2,
            OpCode::Terminate => 0x8,
            OpCode::Ping => 0x9,
            OpCode::Pong => 0xa,
        }
    }

    pub fn code(&self) -> (r: u8)
        ensures
            r == self.spec_code(),
    {
        match self {
            OpCode::Continue => 0x0,
            OpCode::Utf8Payload => 0x1,
            OpCode::BinaryPayload => 0x2,
            OpCode::Terminate => 0x8,
            OpCode::Ping => 0x9,
            OpCode::Pong => 0xa,
        }
    }
}

/// First byte of a frame: FIN flag in the high bit, opcode in the low nibble.
pub open spec fn head_byte(fin: bool, opcode: u8) -> u8 {
    if fin {
        0x80u8 | opcode
    } else {
        opcode
    }
}

/// The eight bytes of a 64-bit big-endian length field.
pub open spec fn be64_bytes(n: nat) -> Seq<u8> {
    seq![
        (n / 0x100000000000000 % 0x100) as u8,
        (n / 0x1000000000000 % 0x100) as u8,
        (n / 0x10000000000 % 0x100) as u8,
        (n / 0x100000000 % 0x100) as u8,
        (n / 0x1000000 % 0x100) as u8,
        (n / 0x10000 % 0x100) as u8,
        (n / 0x100 % 0x100) as u8,
        (n % 0x100) as u8,
    ]
}

/// The shortest wire encoding of a payload length: one byte below 126,
/// marker 126 plus two big-endian bytes below 2^16, else marker 127 plus
/// eight big-endian bytes.
pub open spec fn len_field_bytes(n: nat) -> Seq<u8> {
    if n < 126 {
        seq![n as u8]
    } else if n < 0x10000 {
        seq![126u8, (n / 0x100 % 0x100) as u8, (n % 0x100) as u8]
    } else {
        seq![127u8] + be64_bytes(n)
    }
}

/// A complete unmasked frame as sent server-to-client.
pub open spec fn frame_bytes(fin: bool, opcode: u8, payload: Seq<u8>) -> Seq<u8> {
    seq![head_byte(fin, opcode)] + len_field_bytes(payload.len()) + payload
}

/// Encode a single unmasked frame with the FIN bit set.
pub fn encode_message(opcode: OpCode, message: &[u8]) -> (r: Vec<u8>)
    ensures
        r@ == frame_bytes(true, opcode.spec_code(), message@),
{
    let mut bytes: Vec<u8> = Vec::new();
    bytes.push(0x80 | opcode.code());
    let n: usize = message.len();
    if n < 126 {
        bytes.push(n as u8);
    } else if n < 0x10000 {
        bytes.push(126);
        bytes.push((n / 0x100 % 0x100) as u8);
        bytes.push((n % 0x100) as u8);
    } else {
        let w: u64 = n as u64;
        bytes.push(127);
        bytes.push((w / 0x100000000000000 % 0x100) as u8);
        bytes.push((w / 0x1000000000000 % 0x100) as u8);
        bytes.push((w / 0x10000000000 % 0x100) as u8);
        bytes.push((w / 0x100000000 % 0x100) as u8);
        bytes.push((w / 0x1000000 % 0x100) as u8);
        bytes.push((w / 0x10000 % 0x100) as u8);
        bytes.push((w / 0x100 % 0x100) as u8);
        bytes.push((w % 0x100) as u8);
    }
    assert(bytes@ =~= seq![head_byte(true, opcode.spec_code())] + len_field_bytes(
        message@.len(),
    ));
    let mut i: usize = 0;
    while i < message.len()
        invariant
            i <= message@.len(),
            bytes@ =~= seq![head_byte(true, opcode.spec_code())] + len_field_bytes(
                message@.len(),
            ) + message@.take(i as int),
        decreases message@.len() - i,
    {
        bytes.push(message[i]);
        i = i + 1;
    }
    assert(message@.take(message@.len() as int) =~= message@);
    assert(bytes@ =~= frame_bytes(true, opcode.spec_code(), message@));
    bytes
}

/// A completed frame: decoded (unmasked) payload, opcode and FIN flag.
pub struct ParseResult {
    pub frame: Vec<u8>,
    pub opcode: u8,
    pub fin: bool,
}

/// The abstract value of a completed frame.
#[verifier::ext_equal]
pub struct FrameV {
    pub fin: bool,
    pub opcode: u8,
    pub payload: Seq<u8>,
}

impl View for ParseResult {
    type V = FrameV;

    open spec fn view(&self) -> FrameV {
        FrameV { fin: self.fin, opcode: self.opcode, payload: self.frame@ }
    }
}

/// The parser's persistent cursor.  It is mutated in place across `advance`
/// calls and never reset mid-frame except by reaching a frame boundary.
pub enum ParserState {
    NotStarted,
    DoneFirstByte { fin: bool, opcode: u8 },
    ReadingLongPayloadLength {
        fin: bool,
        opcode: u8,
        masked: bool,
        payload_len_bytes_read: usize,
        payload_len_so_far: u64,
    },
    ReadingMask { fin: bool, opcode: u8, payload_len: u64, mask_so_far: Vec<u8> },
    ReadingPayload { fin: bool, opcode: u8, payload_len: u64, mask: Vec<u8>, bytes_so_far: Vec<u8> },
}

/// The abstract parser state.
#[verifier::ext_equal]
pub enum ParserV {
    Start,
    Header { fin: bool, opcode: u8 },
    ExtLen { fin: bool, opcode: u8, masked: bool, read: int, val: u64 },
    MaskKey { fin: bool, opcode: u8, len: u64, key: Seq<u8> },
    Body { fin: bool, opcode: u8, len: u64, key: Seq<u8>, got: Seq<u8> },
}

impl View for ParserState {
    type V = ParserV;

    open spec fn view(&self) -> ParserV {
        match self {
            ParserState::NotStarted => ParserV::Start,
            ParserState::DoneFirstByte { fin, opcode } => ParserV::Header {
                fin: *fin,
                opcode: *opcode,
            },
            ParserState::ReadingLongPayloadLength {
                fin,
                opcode,
                masked,
                payload_len_bytes_read,
                payload_len_so_far,
            } => ParserV::ExtLen {
                fin: *fin,
                opcode: *opcode,
                masked: *masked,
                read: *payload_len_bytes_read as int,
                val: *payload_len_so_far,
            },
            ParserState::ReadingMask { fin, opcode, payload_len, mask_so_far } => ParserV::MaskKey {
                fin: *fin,
                opcode: *opcode,
                len: *payload_len,
                key: mask_so_far@,
            },
            ParserState::ReadingPayload { fin, opcode, payload_len, mask, bytes_so_far } => ParserV::Body {
                fin: *fin,
                opcode: *opcode,
                len: *payload_len,
                key: mask@,
                got: bytes_so_far@,
            },
        }
    }
}

/// The place value of the extended-length byte at position `i` (0 is the
/// most significant of the eight bytes).
pub open spec fn ext_weight(i: int) -> int {
    if i <= 0 {
        0x100000000000000
    } else if i == 1 {
        0x1000000000000
    } else if i == 2 {
        0x10000000000
    } else if i == 3 {
        0x100000000
    } else if i == 4 {
        0x1000000
    } else if i == 5 {
        0x10000
    } else if i == 6 {
        0x100
    } else {
        1
    }
}

/// Folding length bytes into the running big-endian value, starting at byte
/// position `read`.
pub open spec fn ext_accum(val: int, read: int, bytes: Seq<u8>) -> int
    decreases bytes.len(),
{
    if bytes.len() == 0 {
        val
    } else {
        ext_accum(val + bytes[0] * ext_weight(read), read + 1, bytes.drop_first())
    }
}

/// Unmasking: byte `i` of the wire payload XORed with key byte `(offset + i) mod 4`.
pub open spec fn xor_seq(bytes: Seq<u8>, key: Seq<u8>, offset: int) -> Seq<u8> {
    Seq::new(bytes.len(), |i: int| bytes[i] ^ key[(offset + i) % 4])
}

/// The outcome of one `advance` step: new state, bytes consumed from the
/// buffer, and the completed frame if this step finished one.
#[verifier::ext_equal]
pub struct StepOut {
    pub state: ParserV,
    pub used: int,
    pub frame: Option<FrameV>,
}

impl ParserV {
    /// Validity of the cursor: counters in range and the running length
    /// value small enough that the remaining bytes cannot overflow it.
    pub open spec fn wf(self) -> bool {
        match self {
            ParserV::Start => true,
            ParserV::Header { .. } => true,
            ParserV::ExtLen { read, val, .. } => 0 <= read < 8 && val as int <= 0x10000000000000000
                - 0x100 * ext_weight(read),
            ParserV::MaskKey { key, .. } => key.len() < 4,
            ParserV::Body { len, key, got, .. } => key.len() == 4 && 0 < len && got.len()
                < len,
        }
    }
}

/// Where the parser goes once the payload length is known: read a mask key
/// if the frame is masked, complete immediately on an empty payload, else
/// read the payload (with an all-zero key meaning "unmasked").
pub open spec fn spec_done_payload_length(
    used: int,
    fin: bool,
    opcode: u8,
    masked: bool,
    payload_len: u64,
) -> StepOut {
    if masked {
        StepOut {
            state: (ParserV::MaskKey { fin, opcode, len: payload_len, key: Seq::empty() }),
            used,
            frame: None,
        }
    } else if payload_len == 0 {
        StepOut {
            state: ParserV::Start,
            used,
            frame: Some(FrameV { fin, opcode, payload: Seq::empty() }),
        }
    } else {
        StepOut {
            state: (ParserV::Body {
                fin,
                opcode,
                len: payload_len,
                key: seq![0u8, 0u8, 0u8, 0u8],
                got: Seq::empty(),
            }),
            used,
            frame: None,
        }
    }
}

/// One `advance` step: consume as many bytes as the current state needs to
/// make one transition, and report a frame when one completes.
pub open spec fn spec_advance(s: ParserV, buf: Seq<u8>) -> StepOut {
    match s {
        ParserV::Start => {
            if buf.len() == 0 {
                StepOut { state: s, used: 0, frame: None }
            } else {
                StepOut {
                    state: (ParserV::Header {
                        fin: (buf[0] & 0x80) != 0,
                        opcode: buf[0] & 0xf,
                    }),
                    used: 1,
                    frame: None,
                }
            }
        },
        ParserV::Header { fin, opcode } => {
            if buf.len() == 0 {
                StepOut { state: s, used: 0, frame: None }
            } else {
                let masked = (buf[0] & 0x80) != 0;
                let code = buf[0] & 0x7f;
                if code == 126 {
                    StepOut {
                        state: (ParserV::ExtLen { fin, opcode, masked, read: 6, val: 0 }),
                        used: 1,
                        frame: None,
                    }
                } else if code == 127 {
                    StepOut {
                        state: (ParserV::ExtLen { fin, opcode, masked, read: 0, val: 0 }),
                        used: 1,
                        frame: None,
                    }
                } else {
                    spec_done_payload_length(1, fin, opcode, masked, code as u64)
                }
            }
        },
        ParserV::ExtLen { fin, opcode, masked, read, val } => {
            let k = vstd::math::min(8 - read, buf.len() as int);
            let v2 = ext_accum(val as int, read, buf.take(k)) as u64;
            if read + k < 8 {
                StepOut {
                    state: (ParserV::ExtLen { fin, opcode, masked, read: read + k, val: v2 }),
                    used: k,
                    frame: None,
                }
            } else {
                spec_done_payload_length(k, fin, opcode, masked, v2)
            }
        },
        ParserV::MaskKey { fin, opcode, len, key } => {
            let k = vstd::math::min(4 - key.len() as int, buf.len() as int);
            let key2 = key + buf.take(k);
            if key2.len() < 4 {
                StepOut {
                    state: (ParserV::MaskKey { fin, opcode, len, key: key2 }),
                    used: k,
                    frame: None,
                }
            } else if len == 0 {
                StepOut {
                    state: ParserV::Start,
                    used: k,
                    frame: Some(FrameV { fin, opcode, payload: Seq::empty() }),
                }
            } else {
                StepOut {
                    state: (ParserV::Body { fin, opcode, len, key: key2, got: Seq::empty() }),
                    used: k,
                    frame: None,
                }
            }
        },
        ParserV::Body { fin, opcode, len, key, got } => {
            let k = vstd::math::min(len - got.len(), buf.len() as int);
            let got2 = got + xor_seq(buf.take(k), key, got.len() as int);
            if got2.len() < len {
                StepOut {
                    state: (ParserV::Body { fin, opcode, len, key, got: got2 }),
                    used: k,
                    frame: None,
                }
            } else {
                StepOut {
                    state: ParserV::Start,
                    used: k,
                    frame: Some(FrameV { fin, opcode, payload: got2 }),
                }
            }
        },
    }
}

/// On a nonempty buffer a well-formed parser always consumes at least one
/// byte, and never more than the buffer holds.
pub proof fn lemma_advance_progress(s: ParserV, buf: Seq<u8>)
    requires
        s.wf(),
        buf.len() > 0,
    ensures
        1 <= spec_advance(s, buf).used <= buf.len(),
{
}

proof fn lemma_ext_accum_bounds(val: int, read: int, bytes: Seq<u8>)
    requires
        0 <= read <= 8,
        read + bytes.len() <= 8,
        0 <= val,
        read < 8 ==> val <= 0x10000000000000000 - 0x100 * ext_weight(read),
        read == 8 ==> val < 0x10000000000000000,
    ensures
        0 <= ext_accum(val, read, bytes),
        read + bytes.len() < 8 ==> ext_accum(val, read, bytes) <= 0x10000000000000000 - 0x100
            * ext_weight(read + bytes.len()),
        ext_accum(val, read, bytes) < 0x10000000000000000,
    decreases bytes.len(),
{
    if bytes.len() == 0 {
        lemma_ext_weight_bounds(read);
    } else {
        lemma_ext_weight_bounds(read);
        lemma_ext_weight_bounds(read + 1);
        let b = bytes[0] as int;
        let w = ext_weight(read);
        assert(b * w <= 255 * w) by (nonlinear_arith)
            requires
                b <= 255,
                0 <= w,
        ;
        assert(0 <= b * w) by (nonlinear_arith)
            requires
                0 <= b,
                0 <= w,
        ;
        lemma_ext_accum_bounds(val + b * w, read + 1, bytes.drop_first());
    }
}

proof fn lemma_ext_accum_append(val: int, read: int, x: Seq<u8>, y: Seq<u8>)
    ensures
        ext_accum(val, read, x + y) == ext_accum(ext_accum(val, read, x), read + x.len(), y),
    decreases x.len(),
{
    if x.len() == 0 {
        assert(x + y =~= y);
    } else {
        assert((x + y)[0] == x[0]);
        assert((x + y).drop_first() =~= x.drop_first() + y);
        lemma_ext_accum_append(val + x[0] * ext_weight(read), read + 1, x.drop_first(), y);
    }
}

proof fn lemma_xor_seq_append(x: Seq<u8>, y: Seq<u8>, key: Seq<u8>, off: int)
    requires
        key.len() == 4,
        off >= 0,
    ensures
        xor_seq(x + y, key, off) == xor_seq(x, key, off) + xor_seq(y, key, off + x.len()),
{
    assert(xor_seq(x + y, key, off) =~= xor_seq(x, key, off) + xor_seq(y, key, off + x.len()));
}

/// A well-formed parser stays well-formed across one step.
pub proof fn lemma_advance_wf(s: ParserV, buf: Seq<u8>)
    requires
        s.wf(),
    ensures
        spec_advance(s, buf).state.wf(),
{
    match s {
        ParserV::ExtLen { read, val, .. } => {
            let k = vstd::math::min(8 - read, buf.len() as int);
            lemma_ext_accum_bounds(val as int, read, buf.take(k));
        },
        _ => {},
    }
}

/// The step taken on a buffer depends only on the bytes it consumes: if the
/// step on `a + b` stops within `a`, the step on `a` alone is the same.
pub proof fn lemma_advance_prefix(s: ParserV, a: Seq<u8>, b: Seq<u8>)
    requires
        s.wf(),
        spec_advance(s, a + b).used <= a.len(),
    ensures
        spec_advance(s, a) == spec_advance(s, a + b),
{
    let ab = a + b;
    match s {
        ParserV::Start => {
            if ab.len() == 0 {
                assert(a =~= Seq::<u8>::empty());
            } else if a.len() == 0 {
                assert(false);
            } else {
                assert(ab[0] == a[0]);
            }
        },
        ParserV::Header { .. } => {
            if ab.len() == 0 {
                assert(a =~= Seq::<u8>::empty());
            } else if a.len() == 0 {
                assert(false);
            } else {
                assert(ab[0] == a[0]);
            }
        },
        ParserV::ExtLen { read, val, .. } => {
            let k = vstd::math::min(8 - read, ab.len() as int);
            assert(k <= a.len());
            assert(vstd::math::min(8 - read, a.len() as int) == k);
            assert(ab.take(k) =~= a.take(k));
        },
        ParserV::MaskKey { key, .. } => {
            let k = vstd::math::min(4 - key.len() as int, ab.len() as int);
            assert(k <= a.len());
            assert(vstd::math::min(4 - key.len() as int, a.len() as int) == k);
            assert(ab.take(k) =~= a.take(k));
        },
        ParserV::Body { len, got, .. } => {
            let k = vstd::math::min(len - got.len(), ab.len() as int);
            assert(k <= a.len());
            assert(vstd::math::min(len - got.len(), a.len() as int) == k);
            assert(ab.take(k) =~= a.take(k));
        },
    }
}

/// If the step on `a + b` consumes past `a`, then `a` alone is swallowed
/// whole without completing anything, and the combined step is the step on
/// `a` followed by the step on `b` from the intermediate state.
#[verifier::rlimit(100)]
pub proof fn lemma_advance_extend(s: ParserV, a: Seq<u8>, b: Seq<u8>)
    requires
        s.wf(),
        spec_advance(s, a + b).used > a.len(),
    ensures
        ({
            let stab = spec_advance(s, a + b);
            let sta = spec_advance(s, a);
            let stb = spec_advance(sta.state, b);
            &&& sta.used == a.len()
            &&& sta.frame is None
            &&& stab.state == stb.state
            &&& stab.used == a.len() + stb.used
            &&& stab.frame == stb.frame
        }),
{
    let ab = a + b;
    let stab = spec_advance(s, ab);
    match s {
        ParserV::Start => {
            assert(a.len() == 0);
            assert(a =~= Seq::<u8>::empty());
            assert(ab =~= b);
        },
        ParserV::Header { .. } => {
            assert(a.len() == 0);
            assert(a =~= Seq::<u8>::empty());
            assert(ab =~= b);
        },
        ParserV::ExtLen { fin, opcode, masked, read, val } => {
            let k = vstd::math::min(8 - read, ab.len() as int);
            assert(k > a.len());
            let ka = vstd::math::min(8 - read, a.len() as int);
            assert(ka == a.len());
            assert(a.take(ka) =~= a);
            let va = ext_accum(val as int, read, a);
            lemma_ext_accum_bounds(val as int, read, a);
            let sta = spec_advance(s, a);
            assert(sta.state == (ParserV::ExtLen {
                fin,
                opcode,
                masked,
                read: read + a.len(),
                val: va as u64,
            }));
            let kb = vstd::math::min(8 - read - a.len(), b.len() as int);
            assert(kb == k - a.len());
            assert(ab.take(k) =~= a + b.take(kb));
            lemma_ext_accum_append(val as int, read, a, b.take(kb));
            lemma_ext_accum_bounds(va, read + a.len() as int, b.take(kb));
            assert(ext_accum(val as int, read, ab.take(k)) == ext_accum(
                va as u64 as int,
                read + a.len(),
                b.take(kb),
            ));
        },
        ParserV::MaskKey { fin, opcode, len, key } => {
            let k = vstd::math::min(4 - key.len() as int, ab.len() as int);
            assert(k > a.len());
            let ka = vstd::math::min(4 - key.len() as int, a.len() as int);
            assert(ka == a.len());
            assert(a.take(ka) =~= a);
            let kb = vstd::math::min(4 - key.len() as int - a.len(), b.len() as int);
            assert(kb == k - a.len());
            assert(ab.take(k) =~= a + b.take(kb));
            assert(key + ab.take(k) =~= (key + a) + b.take(kb));
        },
        ParserV::Body { fin, opcode, len, key, got } => {
            let k = vstd::math::min(len - got.len(), ab.len() as int);
            assert(k > a.len());
            let ka = vstd::math::min(len - got.len(), a.len() as int);
            assert(ka == a.len());
            assert(a.take(ka) =~= a);
            let ga = got + xor_seq(a, key, got.len() as int);
            let kb = vstd::math::min(len - ga.len(), b.len() as int);
            assert(kb == k - a.len());
            assert(ab.take(k) =~= a + b.take(kb));
            lemma_xor_seq_append(a, b.take(kb), key, got.len() as int);
            assert(got + xor_seq(ab.take(k), key, got.len() as int) =~= ga + xor_seq(
                b.take(kb),
                key,
                ga.len() as int,
            ));
        },
    }
}

proof fn lemma_ext_weight_bounds(i: int)
    ensures
        1 <= ext_weight(i) <= 0x100000000000000,
        0 <= i < 7 ==> ext_weight(i) == 0x100 * ext_weight(i + 1),
{
}

pub proof fn lemma_ext_accum_snoc(val: int, read: int, s: Seq<u8>, x: u8)
    ensures
        ext_accum(val, read, s.push(x)) == ext_accum(val, read, s) + x * ext_weight(
            read + s.len(),
        ),
    decreases s.len(),
{
    if s.len() == 0 {
        assert(s.push(x).drop_first() =~= Seq::<u8>::empty());
        assert(s.push(x)[0] == x);
        assert(ext_accum(val, read, s.push(x)) == ext_accum(
            val + x * ext_weight(read),
            read + 1,
            s.push(x).drop_first(),
        ));
        assert(ext_accum(val + x * ext_weight(read), read + 1, s.push(x).drop_first()) == val + x
            * ext_weight(read));
        assert(ext_accum(val, read, s) == val);
        assert(read + s.len() == read);
    } else {
        assert(s.push(x).drop_first() =~= s.drop_first().push(x));
        assert(s.push(x)[0] == s[0]);
        lemma_ext_accum_snoc(val + s[0] * ext_weight(read), read + 1, s.drop_first(), x);
        assert(ext_accum(val, read, s.push(x)) == ext_accum(
            val + s[0] * ext_weight(read),
            read + 1,
            s.drop_first().push(x),
        ));
        assert(ext_accum(val, read, s) == ext_accum(
            val + s[0] * ext_weight(read),
            read + 1,
            s.drop_first(),
        ));
        assert(read + 1 + s.drop_first().len() == read + s.len());
    }
}

proof fn lemma_xor_seq_snoc(b: Seq<u8>, key: Seq<u8>, offset: int, x: u8)
    requires
        key.len() == 4,
        offset >= 0,
    ensures
        xor_seq(b.push(x), key, offset) =~= xor_seq(b, key, offset).push(
            x ^ key[(offset + b.len()) % 4],
        ),
{
}

/// The place value of extended-length byte position `pos`.
fn byte_weight(pos: usize) -> (w: u64)
    requires
        pos < 8,
    ensures
        w as int == ext_weight(pos as int),
{
    if pos == 0 {
        0x100000000000000
    } else if pos == 1 {
        0x1000000000000
    } else if pos == 2 {
        0x10000000000
    } else if pos == 3 {
        0x100000000
    } else if pos == 4 {
        0x1000000
    } else if pos == 5 {
        0x10000
    } else if pos == 6 {
        0x100
    } else {
        1
    }
}

impl ParserState {
    /// The transition taken once the payload length of the current frame is
    /// fully known.
    pub fn done_payload_length(
        bytes_read: usize,
        fin: bool,
        opcode: u8,
        masked: bool,
        payload_len: u64,
    ) -> (r: (ParserState, (usize, Option<ParseResult>)))
        ensures
            ({
                let st = spec_done_payload_length(bytes_read as int, fin, opcode, masked, payload_len);
                &&& r.0@ == st.state
                &&& r.1.0 as int == st.used
                &&& (match r.1.1 {
                    None => st.frame is None,
                    Some(pr) => st.frame == Some(pr@),
                })
                &&& r.0@.wf()
            }),
    {
        if masked {
            let st = ParserState::ReadingMask { fin, opcode, payload_len, mask_so_far: Vec::new() };
            assert(st@ =~= spec_done_payload_length(
                bytes_read as int,
                fin,
                opcode,
                masked,
                payload_len,
            ).state);
            (st, (bytes_read, None))
        } else if payload_len == 0 {
            (
                ParserState::NotStarted,
                (bytes_read, Some(ParseResult { frame: Vec::new(), fin, opcode })),
            )
        } else {
            let mut zeros: Vec<u8> = Vec::new();
            zeros.push(0);
            zeros.push(0);
            zeros.push(0);
            zeros.push(0);
            let st = ParserState::ReadingPayload {
                fin,
                opcode,
                payload_len,
                mask: zeros,
                bytes_so_far: Vec::new(),
            };
            assert(st@ =~= spec_done_payload_length(
                bytes_read as int,
                fin,
                opcode,
                masked,
                payload_len,
            ).state);
            (st, (bytes_read, None))
        }
    }

    /// Consume bytes from `buf` to make one state transition; returns the
    /// number of bytes consumed and the completed frame, if there is one.
    pub fn advance(&mut self, buf: &[u8]) -> (r: (usize, Option<ParseResult>))
        requires
            old(self)@.wf(),
        ensures
            ({
                let st = spec_advance(old(self)@, buf@);
                &&& final(self)@ == st.state
                &&& r.0 as int == st.used
                &&& r.0 <= buf@.len()
                &&& (match r.1 {
                    None => st.frame is None,
                    Some(pr) => st.frame == Some(pr@),
                })
                &&& final(self)@.wf()
            }),
    {
        let mut cur = ParserState::NotStarted;
        core::mem::swap(&mut cur, self);
        match cur {
            ParserState::NotStarted => {
                if buf.len() < 1 {
                    (0, None)
                } else {
                    *self = ParserState::DoneFirstByte {
                        fin: (buf[0] & 0x80) != 0,
                        opcode: buf[0] & 0xf,
                    };
                    (1, None)
                }
            },
            ParserState::DoneFirstByte { fin, opcode } => {
                if buf.len() < 1 {
                    *self = ParserState::DoneFirstByte { fin, opcode };
                    (0, None)
                } else {
                    let masked = (buf[0] & 0x80) != 0;
                    let code = buf[0] & 0x7f;
                    if code == 126 {
                        *self = ParserState::ReadingLongPayloadLength {
                            fin,
                            opcode,
                            masked,
                            payload_len_bytes_read: 6,
                            payload_len_so_far: 0,
                        };
                        (1, None)
                    } else if code == 127 {
                        *self = ParserState::ReadingLongPayloadLength {
                            fin,
                            opcode,
                            masked,
                            payload_len_bytes_read: 0,
                            payload_len_so_far: 0,
                        };
                        (1, None)
                    } else {
                        let (st, ret) = ParserState::done_payload_length(
                            1,
                            fin,
                            opcode,
                            masked,
                            code as u64,
                        );
                        *self = st;
                        ret
                    }
                }
            },
            ParserState::ReadingLongPayloadLength {
                fin,
                opcode,
                masked,
                payload_len_bytes_read,
                payload_len_so_far,
            } => {
                let read: usize = payload_len_bytes_read;
                let ghost read0: int = read as int;
                let ghost val0: int = payload_len_so_far as int;
                let mut so_far: u64 = payload_len_so_far;
                let mut idx: usize = 0;
                while read + idx < 8 && idx < buf.len()
                    invariant
                        0 <= read0 < 8,
                        read == read0,
                        idx <= buf@.len(),
                        read0 + idx <= 8,
                        so_far as int == ext_accum(val0, read0, buf@.take(idx as int)),
                        read0 + idx < 8 ==> so_far as int <= 0x10000000000000000 - 0x100
                            * ext_weight(read0 + idx as int),
                    decreases 8 - read - idx,
                {
                    let w: u64 = byte_weight(read + idx);
                    let b: u64 = buf[idx] as u64;
                    proof {
                        lemma_ext_weight_bounds(read0 + idx as int);
                        assert(b * w <= 255 * w) by (nonlinear_arith)
                            requires
                                b <= 255,
                                0 <= w,
                        ;
                        lemma_ext_accum_snoc(val0, read0, buf@.take(idx as int), buf@[idx as int]);
                        assert(buf@.take(idx as int + 1) =~= buf@.take(idx as int).push(
                            buf@[idx as int],
                        ));
                    }
                    so_far = so_far + b * w;
                    idx = idx + 1;
                    proof {
                        if read0 + idx < 8 {
                            lemma_ext_weight_bounds(read0 + idx - 1);
                        }
                    }
                }
                proof {
                    assert(vstd::math::min(8 - read0, buf@.len() as int) == idx as int);
                }
                if read + idx < 8 {
                    *self = ParserState::ReadingLongPayloadLength {
                        fin,
                        opcode,
                        masked,
                        payload_len_bytes_read: read + idx,
                        payload_len_so_far: so_far,
                    };
                    (idx, None)
                } else {
                    let (st, ret) = ParserState::done_payload_length(
                        idx,
                        fin,
                        opcode,
                        masked,
                        so_far,
                    );
                    *self = st;
                    ret
                }
            },
            ParserState::ReadingMask { fin, opcode, payload_len, mask_so_far } => {
                let mut key = mask_so_far;
                let ghost key0: Seq<u8> = key@;
                let mut idx: usize = 0;
                while key.len() < 4 && idx < buf.len()
                    invariant
                        key0.len() < 4,
                        idx <= buf@.len(),
                        key@.len() == key0.len() + idx,
                        key@.len() <= 4,
                        key@ == key0 + buf@.take(idx as int),
                    decreases 4 - key@.len(),
                {
                    key.push(buf[idx]);
                    idx = idx + 1;
                    proof {
                        assert(buf@.take(idx as int) =~= buf@.take(idx as int - 1).push(
                            buf@[idx as int - 1],
                        ));
                        assert(key@ =~= key0 + buf@.take(idx as int));
                    }
                }
                proof {
                    assert(vstd::math::min(4 - key0.len() as int, buf@.len() as int) == idx as int);
                }
                if key.len() < 4 {
                    *self = ParserState::ReadingMask { fin, opcode, payload_len, mask_so_far: key };
                    (idx, None)
                } else if payload_len == 0 {
                    *self = ParserState::NotStarted;
                    (idx, Some(ParseResult { frame: Vec::new(), fin, opcode }))
                } else {
                    *self = ParserState::ReadingPayload {
                        fin,
                        opcode,
                        payload_len,
                        mask: key,
                        bytes_so_far: Vec::new(),
                    };
                    (idx, None)
                }
            },
            ParserState::ReadingPayload { fin, opcode, payload_len, mask, bytes_so_far } => {
                let mut got = bytes_so_far;
                let ghost got0: Seq<u8> = got@;
                let mut idx: usize = 0;
                while (got.len() as u64) < payload_len && idx < buf.len()
                    invariant
                        mask@.len() == 4,
                        payload_len > 0,
                        got0.len() < payload_len,
                        idx <= buf@.len(),
                        got@.len() == got0.len() + idx,
                        got@.len() <= payload_len,
                        got@ == got0 + xor_seq(buf@.take(idx as int), mask@, got0.len() as int),
                    decreases payload_len - got@.len(),
                {
                    let m: u8 = mask[got.len() % 4];
                    proof {
                        lemma_xor_seq_snoc(
                            buf@.take(idx as int),
                            mask@,
                            got0.len() as int,
                            buf@[idx as int],
                        );
                        assert(buf@.take(idx as int + 1) =~= buf@.take(idx as int).push(
                            buf@[idx as int],
                        ));
                    }
                    got.push(buf[idx] ^ m);
                    idx = idx + 1;
                    proof {
                        assert(got@ =~= got0 + xor_seq(buf@.take(idx as int), mask@, got0.len() as int));
                    }
                }
                proof {
                    assert(vstd::math::min(
                        payload_len - got0.len() as int,
                        buf@.len() as int,
                    ) == idx as int);
                }
                if (got.len() as u64) < payload_len {
                    *self = ParserState::ReadingPayload {
                        fin,
                        opcode,
                        payload_len,
                        mask,
                        bytes_so_far: got,
                    };
                    (idx, None)
                } else {
                    *self = ParserState::NotStarted;
                    (idx, Some(ParseResult { frame: got, fin, opcode }))
                }
            },
        }
    }
}

/// Encode a text message as a single FIN text frame.
pub fn encode_text_message(message: &str) -> (r: Vec<u8>)
    ensures
        r@ == frame_bytes(true, 0x1, message.spec_bytes()),
{
    encode_message(OpCode::Utf8Payload, message.as_bytes())
}

} // verus!
