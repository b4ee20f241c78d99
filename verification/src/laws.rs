//! The library's laws: chunking invariance of `receive`, decode of every
//! length form, mask transparency, and the closed-state guarantees.  Each is
//! proved against the spec functions that the executable functions' own
//! contracts use.

use vstd::prelude::*;

verus! {

use crate::web_socket::{
    ParserV,
    FrameV,
    StepOut,
    spec_advance,
    spec_done_payload_length,
    head_byte,
    be64_bytes,
    xor_seq,
    ext_accum,
    ext_weight,
    lemma_advance_progress,
    lemma_advance_wf,
    lemma_advance_prefix,
    lemma_advance_extend,
    lemma_ext_accum_snoc,
};
use crate::web_socket::frame_bytes;
use crate::adapter::{
    InnerV,
    AccV,
    RecvOut,
    ProtocolViolation,
    receive_v,
    dispatch_frame,
    lemma_text_append_len,
    MESSAGE_SIZE_LIMIT,
};
use vstd::arithmetic::div_mod::{lemma_div_denominator, lemma_fundamental_div_mod};
use vstd::utf8::{valid_utf8, encode_utf8};

/// Frame dispatch never moves the parser cursor, and so keeps it
/// well-formed.
pub proof fn lemma_dispatch_parser(s: InnerV, f: FrameV)
    ensures
        dispatch_frame(s, f).state.parser == s.parser,
{
}

/// Processing bytes keeps the inbound state well-formed.
pub proof fn lemma_receive_wf(s: InnerV, bytes: Seq<u8>)
    requires
        s.wf(),
    ensures
        receive_v(s, bytes).state.wf(),
    decreases bytes.len(),
{
    if s.closed || bytes.len() == 0 {
    } else {
        let st = spec_advance(s.parser, bytes);
        lemma_advance_progress(s.parser, bytes);
        lemma_advance_wf(s.parser, bytes);
        let s1 = s.with_parser(st.state);
        match st.frame {
            None => {
                lemma_receive_wf(s1, bytes.skip(st.used));
            },
            Some(f) => {
                let d = dispatch_frame(s1, f);
                lemma_dispatch_parser(s1, f);
                if d.err is Some {
                } else {
                    lemma_receive_wf(d.state, bytes.skip(st.used));
                }
            },
        }
    }
}

/// Once the adapter is closed, `receive` is a no-op success: no events, no
/// error, no state change.
pub proof fn lemma_closed_receive(s: InnerV, bytes: Seq<u8>)
    requires
        s.closed,
    ensures
        receive_v(s, bytes) == (RecvOut { state: s, events: Seq::empty(), err: None }),
{
}

/// Chunking invariance: splitting a byte stream across two `receive` calls
/// yields the same state, the same events in the same order, and the same
/// error as one call on the concatenation, provided the first call did not
/// fail (an error drops the remainder of that call's buffer).
#[verifier::rlimit(100)]
pub proof fn lemma_receive_chunking(s: InnerV, a: Seq<u8>, b: Seq<u8>)
    requires
        s.wf(),
        receive_v(s, a).err is None,
    ensures
        ({
            let ra = receive_v(s, a);
            let rb = receive_v(ra.state, b);
            receive_v(s, a + b) == (RecvOut {
                state: rb.state,
                events: ra.events + rb.events,
                err: rb.err,
            })
        }),
    decreases a.len(),
{
    let ab = a + b;
    let ra = receive_v(s, a);
    let rb = receive_v(ra.state, b);
    if s.closed {
        assert(ra == (RecvOut { state: s, events: Seq::<crate::adapter::EventV>::empty(), err: None }));
        assert(receive_v(s, ab) == (RecvOut {
            state: s,
            events: Seq::<crate::adapter::EventV>::empty(),
            err: None,
        }));
        assert(rb.events =~= ra.events + rb.events);
        assert(receive_v(s, ab) =~= (RecvOut {
            state: rb.state,
            events: ra.events + rb.events,
            err: rb.err,
        }));
    } else if a.len() == 0 {
        assert(ab =~= b);
        assert(ra.state == s);
        assert(rb.events =~= ra.events + rb.events);
        assert(receive_v(s, ab) =~= (RecvOut {
            state: rb.state,
            events: ra.events + rb.events,
            err: rb.err,
        }));
    } else {
        let stab = spec_advance(s.parser, ab);
        lemma_advance_progress(s.parser, ab);
        lemma_advance_wf(s.parser, ab);
        if stab.used <= a.len() {
            lemma_advance_prefix(s.parser, a, b);
            let st = spec_advance(s.parser, a);
            assert(st == stab);
            lemma_advance_progress(s.parser, a);
            lemma_advance_wf(s.parser, a);
            let s1 = s.with_parser(st.state);
            assert(ab.skip(st.used) =~= a.skip(st.used) + b);
            match st.frame {
                None => {
                    assert(ra == receive_v(s1, a.skip(st.used)));
                    lemma_receive_chunking(s1, a.skip(st.used), b);
                    assert(receive_v(s, ab) == receive_v(s1, a.skip(st.used) + b));
                },
                Some(f) => {
                    let d = dispatch_frame(s1, f);
                    lemma_dispatch_parser(s1, f);
                    if d.err is Some {
                        assert(ra == d);
                        assert(false);
                    } else {
                        let rest_a = receive_v(d.state, a.skip(st.used));
                        assert(ra == (RecvOut {
                            state: rest_a.state,
                            events: d.events + rest_a.events,
                            err: rest_a.err,
                        }));
                        assert(rest_a.err is None);
                        lemma_receive_chunking(d.state, a.skip(st.used), b);
                        let rest_ab = receive_v(d.state, a.skip(st.used) + b);
                        assert(receive_v(s, ab) == (RecvOut {
                            state: rest_ab.state,
                            events: d.events + rest_ab.events,
                            err: rest_ab.err,
                        }));
                        assert(rb == receive_v(rest_a.state, b));
                        assert(d.events + (rest_a.events + rb.events) =~= (d.events
                            + rest_a.events) + rb.events);
                    }
                },
            }
        } else {
            lemma_advance_extend(s.parser, a, b);
            let sta = spec_advance(s.parser, a);
            lemma_advance_wf(s.parser, a);
            let s1 = s.with_parser(sta.state);
            assert(a.skip(sta.used) =~= Seq::<u8>::empty());
            assert(ra == receive_v(s1, a.skip(sta.used)));
            assert(ra.state == s1);
            assert(ra.events =~= Seq::<crate::adapter::EventV>::empty());
            if b.len() == 0 {
                assert(stab.used > ab.len());
                assert(false);
            }
            let stb = spec_advance(sta.state, b);
            lemma_advance_progress(sta.state, b);
            assert(ab.skip(stab.used) =~= b.skip(stb.used));
            match stb.frame {
                None => {
                    assert(rb == receive_v(s1.with_parser(stb.state), b.skip(stb.used)));
                    assert(receive_v(s, ab) == receive_v(
                        s.with_parser(stab.state),
                        ab.skip(stab.used),
                    ));
                    assert(s1.with_parser(stb.state) == s.with_parser(stab.state));
                    assert(ra.events + rb.events =~= rb.events);
                },
                Some(f) => {
                    let d = dispatch_frame(s1.with_parser(stb.state), f);
                    assert(s1.with_parser(stb.state) == s.with_parser(stab.state));
                    if d.err is Some {
                        assert(rb == d);
                        assert(receive_v(s, ab) == d);
                        assert(ra.events + rb.events =~= rb.events);
                    } else {
                        let rest = receive_v(d.state, b.skip(stb.used));
                        assert(rb == (RecvOut {
                            state: rest.state,
                            events: d.events + rest.events,
                            err: rest.err,
                        }));
                        assert(receive_v(s, ab) == (RecvOut {
                            state: rest.state,
                            events: d.events + rest.events,
                            err: rest.err,
                        }));
                        assert(ra.events + rb.events =~= rb.events);
                    }
                },
            }
        }
    }
}

pub open spec fn opt_frame_seq(f: Option<FrameV>) -> Seq<FrameV> {
    match f {
        None => seq![],
        Some(x) => seq![x],
    }
}

/// Running the parser over a whole buffer: repeat `spec_advance` and
/// collect the completed frames in order.
pub open spec fn run_parser(s: ParserV, bytes: Seq<u8>) -> (ParserV, Seq<FrameV>)
    decreases bytes.len(),
{
    if bytes.len() == 0 {
        (s, seq![])
    } else {
        let st = spec_advance(s, bytes);
        if st.used < 1 || st.used > bytes.len() {
            (s, seq![])
        } else {
            let r = run_parser(st.state, bytes.skip(st.used));
            (r.0, opt_frame_seq(st.frame) + r.1)
        }
    }
}

proof fn lemma_run_step(s: ParserV, bytes: Seq<u8>)
    requires
        s.wf(),
        bytes.len() > 0,
    ensures
        ({
            let st = spec_advance(s, bytes);
            let r = run_parser(st.state, bytes.skip(st.used));
            run_parser(s, bytes) == ((r.0, opt_frame_seq(st.frame) + r.1))
        }),
{
    lemma_advance_progress(s, bytes);
}

pub open spec fn mask_bit(masked: bool) -> u8 {
    if masked {
        0x80u8
    } else {
        0u8
    }
}

/// The length-code byte (before the mask bit) for each of the three length
/// forms: the literal length, the 16-bit marker, or the 64-bit marker.
pub open spec fn len_code(form: int, n: nat) -> u8 {
    if form == 0 {
        n as u8
    } else if form == 1 {
        126u8
    } else {
        127u8
    }
}

/// The extended-length bytes that follow the length code.
pub open spec fn ext_len_bytes(form: int, n: nat) -> Seq<u8> {
    if form == 0 {
        seq![]
    } else if form == 1 {
        seq![(n / 0x100 % 0x100) as u8, (n % 0x100) as u8]
    } else {
        be64_bytes(n)
    }
}

/// The wire bytes of one complete frame: header byte, mask bit and length
/// code, extended length, mask key if masked, then the (masked) body.
pub open spec fn wire_frame(
    fin: bool,
    opcode: u8,
    masked: bool,
    key: Seq<u8>,
    form: int,
    body: Seq<u8>,
) -> Seq<u8> {
    seq![head_byte(fin, opcode)] + seq![mask_bit(masked) | len_code(form, body.len())]
        + ext_len_bytes(form, body.len()) + (if masked {
        key
    } else {
        Seq::<u8>::empty()
    }) + body
}

proof fn lemma_head_byte_fields(fin: bool, opcode: u8)
    requires
        opcode < 16,
    ensures
        ((head_byte(fin, opcode) & 0x80) != 0) == fin,
        head_byte(fin, opcode) & 0xf == opcode,
{
    if fin {
        assert((0x80u8 | opcode) & 0x80 == 0x80 && (0x80u8 | opcode) & 0xf == opcode)
            by (bit_vector)
            requires
                opcode < 16,
        ;
    } else {
        assert(opcode & 0x80 == 0 && opcode & 0xf == opcode) by (bit_vector)
            requires
                opcode < 16,
        ;
    }
}

proof fn lemma_second_byte_fields(masked: bool, code: u8)
    requires
        code < 128,
    ensures
        (((mask_bit(masked) | code) & 0x80) != 0) == masked,
        (mask_bit(masked) | code) & 0x7f == code,
{
    if masked {
        assert((0x80u8 | code) & 0x80 == 0x80 && (0x80u8 | code) & 0x7f == code) by (bit_vector)
            requires
                code < 128,
        ;
    } else {
        assert((0u8 | code) & 0x80 == 0 && (0u8 | code) & 0x7f == code) by (bit_vector)
            requires
                code < 128,
        ;
    }
}

/// Unmasking with the all-zero key leaves the body unchanged.
proof fn lemma_xor_zero(b: Seq<u8>)
    ensures
        xor_seq(b, seq![0u8, 0u8, 0u8, 0u8], 0) == b,
{
    assert forall|i: int| 0 <= i < b.len() implies xor_seq(b, seq![0u8, 0u8, 0u8, 0u8], 0)[i]
        == b[i] by {
        let x = b[i];
        assert(x ^ 0 == x) by (bit_vector);
    }
    assert(xor_seq(b, seq![0u8, 0u8, 0u8, 0u8], 0) =~= b);
}

/// Folding the eight big-endian bytes of a 64-bit length recovers the
/// length.
proof fn lemma_be64_accum(n: int)
    requires
        0 <= n < 0x10000000000000000,
    ensures
        ext_accum(0, 0, be64_bytes(n as nat)) == n,
{
    let b = be64_bytes(n as nat);
    assert(b.len() == 8);
    assert(b.take(0) =~= Seq::<u8>::empty());
    assert(b.take(1) =~= b.take(0).push(b[0]));
    assert(b.take(2) =~= b.take(1).push(b[1]));
    assert(b.take(3) =~= b.take(2).push(b[2]));
    assert(b.take(4) =~= b.take(3).push(b[3]));
    assert(b.take(5) =~= b.take(4).push(b[4]));
    assert(b.take(6) =~= b.take(5).push(b[5]));
    assert(b.take(7) =~= b.take(6).push(b[6]));
    assert(b.take(8) =~= b.take(7).push(b[7]));
    assert(b.take(8) =~= b);
    lemma_ext_accum_snoc(0, 0, b.take(0), b[0]);
    lemma_ext_accum_snoc(0, 0, b.take(1), b[1]);
    lemma_ext_accum_snoc(0, 0, b.take(2), b[2]);
    lemma_ext_accum_snoc(0, 0, b.take(3), b[3]);
    lemma_ext_accum_snoc(0, 0, b.take(4), b[4]);
    lemma_ext_accum_snoc(0, 0, b.take(5), b[5]);
    lemma_ext_accum_snoc(0, 0, b.take(6), b[6]);
    lemma_ext_accum_snoc(0, 0, b.take(7), b[7]);
    assert(n / 0x100000000000000 < 0x100);
    // Peel one byte at a time off the quotient chain, most significant
    // first: if the sum so far equals (n / (256 w)) * (256 w), adding the
    // byte at weight w yields (n / w) * w.
    lemma_div_denominator(n, 0x1000000000000, 0x100);
    lemma_fundamental_div_mod(n / 0x1000000000000, 0x100);
    assert(ext_accum(0, 0, b.take(2)) == (n / 0x1000000000000) * 0x1000000000000);
    lemma_div_denominator(n, 0x10000000000, 0x100);
    lemma_fundamental_div_mod(n / 0x10000000000, 0x100);
    assert(ext_accum(0, 0, b.take(3)) == (n / 0x10000000000) * 0x10000000000);
    lemma_div_denominator(n, 0x100000000, 0x100);
    lemma_fundamental_div_mod(n / 0x100000000, 0x100);
    assert(ext_accum(0, 0, b.take(4)) == (n / 0x100000000) * 0x100000000);
    lemma_div_denominator(n, 0x1000000, 0x100);
    lemma_fundamental_div_mod(n / 0x1000000, 0x100);
    assert(ext_accum(0, 0, b.take(5)) == (n / 0x1000000) * 0x1000000);
    lemma_div_denominator(n, 0x10000, 0x100);
    lemma_fundamental_div_mod(n / 0x10000, 0x100);
    assert(ext_accum(0, 0, b.take(6)) == (n / 0x10000) * 0x10000);
    lemma_div_denominator(n, 0x100, 0x100);
    lemma_fundamental_div_mod(n / 0x100, 0x100);
    assert(ext_accum(0, 0, b.take(7)) == (n / 0x100) * 0x100);
    lemma_fundamental_div_mod(n, 0x100);
    assert(ext_accum(0, 0, b.take(8)) == n);
}

/// Decode of every length form, and mask transparency: a frame whose
/// payload length is written in any of the three forms, masked or not,
/// parses from the start state back to the start state as exactly one
/// frame; a masked body comes out XORed byte by byte with the repeating
/// 4-byte key, an unmasked body comes out unchanged.
#[verifier::rlimit(100)]
pub proof fn lemma_wire_frame_decodes(
    fin: bool,
    opcode: u8,
    masked: bool,
    key: Seq<u8>,
    form: int,
    body: Seq<u8>,
)
    requires
        opcode < 16,
        key.len() == 4,
        0 <= form <= 2,
        form == 0 ==> body.len() < 126,
        form == 1 ==> body.len() < 0x10000,
        body.len() < 0x10000000000000000,
    ensures
        ({
            let decoded = if masked {
                xor_seq(body, key, 0)
            } else {
                body
            };
            run_parser(ParserV::Start, wire_frame(fin, opcode, masked, key, form, body)) == ((
                ParserV::Start,
                seq![FrameV { fin, opcode, payload: decoded }],
            ))
        }),
{
    let n: int = body.len() as int;
    let w = wire_frame(fin, opcode, masked, key, form, body);
    let h = head_byte(fin, opcode);
    let b2 = mask_bit(masked) | len_code(form, body.len());
    let lenb = ext_len_bytes(form, body.len());
    let keyb: Seq<u8> = if masked {
        key
    } else {
        Seq::<u8>::empty()
    };
    let zeros: Seq<u8> = seq![0u8, 0u8, 0u8, 0u8];
    let decoded: Seq<u8> = if masked {
        xor_seq(body, key, 0)
    } else {
        body
    };
    assert(w.len() == 2 + lenb.len() + keyb.len() + body.len());
    assert(w[0] == h);
    lemma_head_byte_fields(fin, opcode);
    // step 1: the header byte
    let st1 = spec_advance(ParserV::Start, w);
    assert(st1 == (StepOut {
        state: (ParserV::Header { fin, opcode }),
        used: 1,
        frame: None::<FrameV>,
    }));
    lemma_run_step(ParserV::Start, w);
    let w1 = w.skip(1);
    assert(w1 =~= seq![b2] + lenb + keyb + body);
    // step 2: the mask bit and length code
    assert(len_code(form, body.len()) < 128);
    lemma_second_byte_fields(masked, len_code(form, body.len()));
    assert(w1[0] == b2);
    lemma_run_step(ParserV::Header { fin, opcode }, w1);
    let st2 = spec_advance(ParserV::Header { fin, opcode }, w1);
    let w2 = w1.skip(1);
    assert(w2 =~= lenb + keyb + body);
    // the state once the payload length is fully known, and the bytes left
    let done: StepOut = spec_done_payload_length(0, fin, opcode, masked, n as u64);
    let w3 = keyb + body;
    if form == 0 {
        assert(b2 & 0x7f == body.len() as u8);
        assert((body.len() as u8) as u64 == n as u64);
        assert(st2.state == done.state && st2.frame == done.frame && st2.used == 1);
        assert(w2 =~= w3);
    } else if form == 1 {
        assert(b2 & 0x7f == 126);
        assert(st2 == (StepOut {
            state: (ParserV::ExtLen { fin, opcode, masked, read: 6, val: 0 }),
            used: 1,
            frame: None::<FrameV>,
        }));
        let s_ext = ParserV::ExtLen { fin, opcode, masked, read: 6, val: 0 };
        assert(s_ext.wf());
        lemma_run_step(s_ext, w2);
        let st3 = spec_advance(s_ext, w2);
        assert(w2.len() >= 2);
        assert(vstd::math::min(2, w2.len() as int) == 2);
        assert(w2.take(2) =~= lenb);
        assert(lenb =~= Seq::<u8>::empty().push(lenb[0]).push(lenb[1]));
        lemma_ext_accum_snoc(0, 6, Seq::<u8>::empty(), lenb[0]);
        lemma_ext_accum_snoc(0, 6, Seq::<u8>::empty().push(lenb[0]), lenb[1]);
        assert(n / 0x100 < 0x100);
        lemma_fundamental_div_mod(n, 0x100);
        assert(ext_accum(0, 6, lenb) == n);
        assert(st3.state == done.state && st3.frame == done.frame && st3.used == 2);
        assert(w2.skip(2) =~= w3);
    } else {
        assert(b2 & 0x7f == 127);
        assert(st2 == (StepOut {
            state: (ParserV::ExtLen { fin, opcode, masked, read: 0, val: 0 }),
            used: 1,
            frame: None::<FrameV>,
        }));
        let s_ext = ParserV::ExtLen { fin, opcode, masked, read: 0, val: 0 };
        assert(s_ext.wf());
        lemma_run_step(s_ext, w2);
        let st3 = spec_advance(s_ext, w2);
        assert(w2.len() >= 8);
        assert(vstd::math::min(8, w2.len() as int) == 8);
        assert(w2.take(8) =~= lenb);
        lemma_be64_accum(n);
        assert(ext_accum(0, 0, lenb) == n);
        assert(st3.state == done.state && st3.frame == done.frame && st3.used == 8);
        assert(w2.skip(8) =~= w3);
    }
    lemma_finish_frame(fin, opcode, masked, key, body);
    let fr = FrameV { fin, opcode, payload: decoded };
    let rdone = run_parser(done.state, w3);
    assert(rdone.0 == ParserV::Start);
    assert(opt_frame_seq(done.frame) + rdone.1 == seq![fr]);
    if form == 0 {
        assert(run_parser(ParserV::Header { fin, opcode }, w1) == ((
            rdone.0,
            opt_frame_seq(done.frame) + rdone.1,
        )));
    } else if form == 1 {
        let s_ext = ParserV::ExtLen { fin, opcode, masked, read: 6, val: 0 };
        assert(run_parser(s_ext, w2) == ((rdone.0, opt_frame_seq(done.frame) + rdone.1)));
        assert(opt_frame_seq(None::<FrameV>) + seq![fr] =~= seq![fr]);
        assert(run_parser(ParserV::Header { fin, opcode }, w1) == ((rdone.0, seq![fr])));
    } else {
        let s_ext = ParserV::ExtLen { fin, opcode, masked, read: 0, val: 0 };
        assert(run_parser(s_ext, w2) == ((rdone.0, opt_frame_seq(done.frame) + rdone.1)));
        assert(opt_frame_seq(None::<FrameV>) + seq![fr] =~= seq![fr]);
        assert(run_parser(ParserV::Header { fin, opcode }, w1) == ((rdone.0, seq![fr])));
    }
    assert(run_parser(ParserV::Header { fin, opcode }, w1) == ((ParserV::Start, seq![fr])));
    assert(opt_frame_seq(None::<FrameV>) + seq![fr] =~= seq![fr]);
    assert(run_parser(ParserV::Start, w) == ((ParserV::Start, seq![fr])));
}

/// From the moment the payload length is known, the remaining wire bytes
/// (mask key if masked, then the body) produce exactly the decoded frame
/// and return the parser to its start state.
#[verifier::rlimit(100)]
proof fn lemma_finish_frame(fin: bool, opcode: u8, masked: bool, key: Seq<u8>, body: Seq<u8>)
    requires
        key.len() == 4,
        body.len() < 0x10000000000000000,
    ensures
        ({
            let done = spec_done_payload_length(0, fin, opcode, masked, body.len() as u64);
            let w3 = (if masked {
                key
            } else {
                Seq::<u8>::empty()
            }) + body;
            let decoded = if masked {
                xor_seq(body, key, 0)
            } else {
                body
            };
            &&& done.state.wf()
            &&& run_parser(done.state, w3).0 == ParserV::Start
            &&& opt_frame_seq(done.frame) + run_parser(done.state, w3).1 == seq![
                FrameV { fin, opcode, payload: decoded },
            ]
        }),
{
    let n: int = body.len() as int;
    let done: StepOut = spec_done_payload_length(0, fin, opcode, masked, n as u64);
    let keyb: Seq<u8> = if masked {
        key
    } else {
        Seq::<u8>::empty()
    };
    let w3 = keyb + body;
    let zeros: Seq<u8> = seq![0u8, 0u8, 0u8, 0u8];
    let decoded: Seq<u8> = if masked {
        xor_seq(body, key, 0)
    } else {
        body
    };
    if masked {
        assert(done.state == (ParserV::MaskKey { fin, opcode, len: n as u64, key: Seq::empty() }));
        let s_mask = ParserV::MaskKey { fin, opcode, len: n as u64, key: Seq::<u8>::empty() };
        assert(s_mask.wf());
        lemma_run_step(s_mask, w3);
        let st4 = spec_advance(s_mask, w3);
        assert(w3.len() >= 4);
        assert(vstd::math::min(4, w3.len() as int) == 4);
        assert(w3.take(4) =~= key);
        assert(Seq::<u8>::empty() + w3.take(4) =~= key);
        assert(w3.skip(4) =~= body);
        if n == 0 {
            assert(st4 == (StepOut {
                state: ParserV::Start,
                used: 4,
                frame: Some(FrameV { fin, opcode, payload: Seq::<u8>::empty() }),
            }));
            assert(decoded =~= Seq::<u8>::empty());
            assert(body =~= Seq::<u8>::empty());
        } else {
            assert(st4 == (StepOut {
                state: (ParserV::Body {
                    fin,
                    opcode,
                    len: n as u64,
                    key,
                    got: Seq::<u8>::empty(),
                }),
                used: 4,
                frame: None::<FrameV>,
            }));
            let s_body = ParserV::Body { fin, opcode, len: n as u64, key, got: Seq::<u8>::empty() };
            assert(s_body.wf());
            lemma_run_step(s_body, body);
            let st5 = spec_advance(s_body, body);
            assert(vstd::math::min(n, n) == n);
            assert(body.take(n) =~= body);
            assert(Seq::<u8>::empty() + xor_seq(body, key, 0) =~= xor_seq(body, key, 0));
            assert(st5 == (StepOut {
                state: ParserV::Start,
                used: n,
                frame: Some(FrameV { fin, opcode, payload: xor_seq(body, key, 0) }),
            }));
            assert(body.skip(n) =~= Seq::<u8>::empty());
        }
    } else {
        if n == 0 {
            assert(done.state == ParserV::Start);
            assert(done.frame == Some(FrameV { fin, opcode, payload: Seq::<u8>::empty() }));
            assert(w3 =~= Seq::<u8>::empty());
            assert(decoded =~= Seq::<u8>::empty());
        } else {
            assert(done.state == (ParserV::Body {
                fin,
                opcode,
                len: n as u64,
                key: zeros,
                got: Seq::<u8>::empty(),
            }));
            assert(w3 =~= body);
            let s_body = ParserV::Body {
                fin,
                opcode,
                len: n as u64,
                key: zeros,
                got: Seq::<u8>::empty(),
            };
            assert(s_body.wf());
            lemma_run_step(s_body, body);
            let st5 = spec_advance(s_body, body);
            assert(vstd::math::min(n, n) == n);
            assert(body.take(n) =~= body);
            lemma_xor_zero(body);
            assert(Seq::<u8>::empty() + xor_seq(body, zeros, 0) =~= body);
            assert(st5 == (StepOut {
                state: ParserV::Start,
                used: n,
                frame: Some(FrameV { fin, opcode, payload: body }),
            }));
            assert(body.skip(n) =~= Seq::<u8>::empty());
        }
    }
    let fr = FrameV { fin, opcode, payload: decoded };
    assert(opt_frame_seq(Some(fr)) + Seq::<FrameV>::empty() =~= seq![fr]);
    assert(Seq::<FrameV>::empty() + (opt_frame_seq(Some(fr)) + Seq::<FrameV>::empty()) =~= seq![
        fr,
    ]);
    assert(opt_frame_seq(done.frame) + run_parser(done.state, w3).1 =~= seq![fr]);
}

/// What `encode_message` produces parses back to exactly the frame it was
/// given, whichever of the three length forms the payload length called
/// for.
pub proof fn lemma_encode_parse_roundtrip(fin: bool, opcode: u8, payload: Seq<u8>)
    requires
        opcode < 16,
        payload.len() < 0x10000000000000000,
    ensures
        run_parser(ParserV::Start, frame_bytes(fin, opcode, payload)) == ((
            ParserV::Start,
            seq![FrameV { fin, opcode, payload }],
        )),
{
    let n = payload.len();
    let form: int = if n < 126 {
        0
    } else if n < 0x10000 {
        1
    } else {
        2
    };
    let key: Seq<u8> = seq![0u8, 0u8, 0u8, 0u8];
    lemma_wire_frame_decodes(fin, opcode, false, key, form, payload);
    let c = len_code(form, n);
    assert((0u8 | c) == c) by (bit_vector);
    assert(frame_bytes(fin, opcode, payload) =~= wire_frame(fin, opcode, false, key, form, payload));
}

/// A continuation frame arriving while nothing is accumulating is a
/// protocol violation that leaves the state untouched: the adapter is not
/// torn down, the very same state handles further input.
pub proof fn lemma_unexpected_continuation(s: InnerV, f: FrameV)
    requires
        s.acc is Empty,
        f.opcode == 0x0,
    ensures
        dispatch_frame(s, f) == (RecvOut {
            state: s,
            events: Seq::empty(),
            err: Some(ProtocolViolation::UnexpectedContinuation),
        }),
{
}

/// The size cap fires exactly when a continuation pushes the reassembled
/// message past `MESSAGE_SIZE_LIMIT` bytes — not before.
pub proof fn lemma_size_cap_exact(s: InnerV, f: FrameV)
    requires
        f.opcode == 0x0,
    ensures
        s.acc is Data ==> (dispatch_frame(s, f).err == Some(ProtocolViolation::MessageTooLarge)
            <==> s.acc->Data_0.len() + f.payload.len() > MESSAGE_SIZE_LIMIT as int),
        s.acc is Text && valid_utf8(f.payload) ==> (dispatch_frame(s, f).err == Some(
            ProtocolViolation::MessageTooLarge,
        ) <==> encode_utf8(s.acc->Text_0).len() + f.payload.len() > MESSAGE_SIZE_LIMIT as int),
{
    match s.acc {
        AccV::Text(t) => {
            if valid_utf8(f.payload) {
                lemma_text_append_len(t, f.payload);
            }
        },
        _ => {},
    }
}

} // verus!
