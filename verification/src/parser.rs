//! The streaming parser: a single-byte-at-a-time state machine that consumes
//! a live byte stream, reconstructs CRC-protected frames, and resynchronizes
//! after corruption.
//!
//! A START byte always begins a fresh frame, discarding any partial one; a
//! STOP byte seals the current frame and emits it, valid exactly when its
//! running CRC is zero; a byte following an ESCAPE marker is appended as the
//! one's complement of itself, whatever its value.

use vstd::prelude::*;

use crate::codec::ControlByte;
use crate::codec::ShprotoError;
use crate::codec::ShprotoPacket;
use crate::codec::frame_bytes;
use crate::codec::is_control;
use crate::codec::lemma_wire_of_append;
use crate::codec::preamble;
use crate::codec::stored_len;
use crate::codec::wire_of;
use crate::crc::CRC_INIT;
use crate::crc::crc16_fold;

verus! {

/// The parser's three states.
pub enum ShprotoParserState {
    /// Idle, resynchronizing: waiting for a START byte, ignoring the rest.
    Start,
    /// Accumulating protected bytes of an open frame.
    Data,
    /// The previous byte was an ESCAPE marker; the next byte is an escaped
    /// literal whatever its value.
    EscapedData,
}

/// The outcome of one spec-level step of the parser state machine: the next
/// state, the logical bytes of the frame then open, the logical bytes of a
/// frame emitted by the step, and whether the step fails for capacity.
pub struct ParserStep {
    /// The state after the step.
    pub state: ShprotoParserState,
    /// The logical protected bytes of the in-progress frame after the step.
    pub raw: Seq<u8>,
    /// The logical protected bytes of the frame the step emits, if any.
    pub emit: Option<Seq<u8>>,
    /// Whether the step fails because the stored bytes would exceed the
    /// capacity; the parser then resets to `Start`.
    pub err: bool,
}

/// The parser's transition table, one byte at a time. `raw` is the logical
/// content of the in-progress frame, `cap` the fixed capacity in stored
/// bytes; a frame's stored size is the two preamble bytes plus its escaped
/// protected region, plus one STOP byte once sealed.
pub open spec fn parser_step(
    st: ShprotoParserState,
    raw: Seq<u8>,
    b: u8,
    cap: int,
) -> ParserStep {
    match st {
        ShprotoParserState::Start => if b == ControlByte::START {
            ParserStep { state: ShprotoParserState::Data, raw: Seq::empty(), emit: None, err: false }
        } else {
            ParserStep { state: ShprotoParserState::Start, raw, emit: None, err: false }
        },
        ShprotoParserState::Data => if b == ControlByte::START {
            ParserStep { state: ShprotoParserState::Data, raw: Seq::empty(), emit: None, err: false }
        } else if b == ControlByte::ESCAPE {
            ParserStep { state: ShprotoParserState::EscapedData, raw, emit: None, err: false }
        } else if b == ControlByte::STOP {
            if 2 + wire_of(raw).len() + 1 <= cap {
                ParserStep {
                    state: ShprotoParserState::Start,
                    raw: Seq::empty(),
                    emit: Some(raw),
                    err: false,
                }
            } else {
                ParserStep {
                    state: ShprotoParserState::Start,
                    raw: Seq::empty(),
                    emit: None,
                    err: true,
                }
            }
        } else {
            if 2 + wire_of(raw).len() + stored_len(b) <= cap {
                ParserStep {
                    state: ShprotoParserState::Data,
                    raw: raw.push(b),
                    emit: None,
                    err: false,
                }
            } else {
                ParserStep {
                    state: ShprotoParserState::Start,
                    raw: Seq::empty(),
                    emit: None,
                    err: true,
                }
            }
        },
        ShprotoParserState::EscapedData => {
            let ub = !b;
            if 2 + wire_of(raw).len() + stored_len(ub) <= cap {
                ParserStep {
                    state: ShprotoParserState::Data,
                    raw: raw.push(ub),
                    emit: None,
                    err: false,
                }
            } else {
                ParserStep {
                    state: ShprotoParserState::Start,
                    raw: Seq::empty(),
                    emit: None,
                    err: true,
                }
            }
        },
    }
}

/// The streaming parser: its state tag and the single in-progress frame it
/// owns exclusively.
pub struct ShprotoParser<const N: usize> {
    /// The current state of the machine.
    pub state: ShprotoParserState,
    /// The in-progress frame, discarded and replaced wholesale on every new
    /// START and on every completed or failed frame.
    pub packet: ShprotoPacket<N>,
}

impl<const N: usize> ShprotoParser<N> {
    /// The parser's internal invariant: the in-progress frame is well formed
    /// and never sealed.
    pub open spec fn wf(self) -> bool {
        &&& self.packet.wf()
        &&& !self.packet.completed
    }

    /// Creates an idle parser with an empty in-progress frame.
    pub fn new() -> (p: Self)
        requires
            N >= 2,
        ensures
            p.wf(),
            p.state is Start,
            p.packet.raw@ == Seq::<u8>::empty(),
    {
        ShprotoParser { state: ShprotoParserState::Start, packet: ShprotoPacket::new() }
    }

    /// Consumes one byte of the stream, exactly as `parser_step` says: at
    /// most one completed frame surfaces per well-formed START..STOP span,
    /// a spurious START silently replaces the partial frame, and a capacity
    /// overflow fails hard and resets the parser to idle.
    pub fn parse_byte(&mut self, byte: u8) -> (r: Result<Option<ShprotoPacket<N>>, ShprotoError>)
        requires
            old(self).wf(),
        ensures
            final(self).wf(),
            ({
                let s = parser_step(old(self).state, old(self).packet.raw@, byte, N as int);
                &&& final(self).state == s.state
                &&& final(self).packet.raw@ == s.raw
                &&& (r is Err <==> s.err)
                &&& (r matches Err(e) ==> e is PushFailed)
                &&& (match s.emit {
                    Option::Some(rb) => r matches Ok(p) && p matches Some(f) && {
                        &&& f.wf()
                        &&& f.completed
                        &&& f.raw@ == rb
                        &&& f.crc == crc16_fold(CRC_INIT, rb)
                        &&& f.valid == (f.crc == 0)
                        &&& f.data@ == frame_bytes(rb)
                    },
                    Option::None => r matches Ok(p) ==> p is None,
                })
            }),
    {
        match self.state {
            ShprotoParserState::Start => {
                if byte == ControlByte::START {
                    self.packet = ShprotoPacket::new();
                    self.state = ShprotoParserState::Data;
                }
                Ok(None)
            },
            ShprotoParserState::Data => {
                if byte == ControlByte::START {
                    self.packet = ShprotoPacket::new();
                    self.state = ShprotoParserState::Data;
                    Ok(None)
                } else if byte == ControlByte::ESCAPE {
                    self.state = ShprotoParserState::EscapedData;
                    Ok(None)
                } else if byte == ControlByte::STOP {
                    if self.packet.data.len() < N {
                        self.packet.data.push(ControlByte::STOP);
                        self.packet.completed = true;
                        if self.packet.crc == 0 {
                            self.packet.valid = true;
                        }
                        let mut finished = ShprotoPacket::new();
                        core::mem::swap(&mut self.packet, &mut finished);
                        self.state = ShprotoParserState::Start;
                        proof {
                            assert(finished.data@ =~= (preamble() + wire_of(finished.raw@))
                                + seq![ControlByte::STOP]);
                        }
                        Ok(Some(finished))
                    } else {
                        self.packet = ShprotoPacket::new();
                        self.state = ShprotoParserState::Start;
                        Err(ShprotoError::PushFailed)
                    }
                } else {
                    match self.packet.add_byte(byte) {
                        Ok(()) => Ok(None),
                        Err(e) => {
                            self.packet = ShprotoPacket::new();
                            self.state = ShprotoParserState::Start;
                            Err(e)
                        },
                    }
                }
            },
            ShprotoParserState::EscapedData => {
                let unescaped_byte: u8 = !byte;
                match self.packet.add_byte(unescaped_byte) {
                    Ok(()) => {
                        self.state = ShprotoParserState::Data;
                        Ok(None)
                    },
                    Err(e) => {
                        self.packet = ShprotoPacket::new();
                        self.state = ShprotoParserState::Start;
                        Err(e)
                    },
                }
            },
        }
    }
}

/// The outcome of running the parser over a whole byte sequence: the final
/// state, the logical bytes of the frame left open, every frame emitted in
/// stream order, and whether a step failed for capacity (the run then stops
/// at the failing step).
pub struct ParserRun {
    /// The state after the run.
    pub state: ShprotoParserState,
    /// The logical protected bytes of the frame left open after the run.
    pub raw: Seq<u8>,
    /// The logical protected bytes of every emitted frame, in the order
    /// their STOP bytes appeared in the input.
    pub emits: Seq<Seq<u8>>,
    /// Whether some step failed for capacity.
    pub err: bool,
}

/// The parser as a fold of `parser_step` over an input byte sequence, one
/// byte at a time, collecting emitted frames in order.
pub open spec fn parser_run(
    st: ShprotoParserState,
    raw: Seq<u8>,
    bytes: Seq<u8>,
    cap: int,
) -> ParserRun
    decreases bytes.len(),
{
    if bytes.len() == 0 {
        ParserRun { state: st, raw, emits: Seq::empty(), err: false }
    } else {
        let s = parser_step(st, raw, bytes[0], cap);
        if s.err {
            ParserRun { state: s.state, raw: s.raw, emits: Seq::empty(), err: true }
        } else {
            let rest = parser_run(s.state, s.raw, bytes.skip(1), cap);
            let first = match s.emit {
                Option::Some(rb) => seq![rb],
                Option::None => Seq::empty(),
            };
            ParserRun {
                state: rest.state,
                raw: rest.raw,
                emits: first + rest.emits,
                err: rest.err,
            }
        }
    }
}

/// While idle, any byte but START is ignored: in particular a STOP without
/// a preceding START produces no completed frame and changes nothing.
pub proof fn lemma_stop_without_start(raw: Seq<u8>, b: u8, cap: int)
    requires
        b != ControlByte::START,
    ensures
        ({
            let s = parser_step(ShprotoParserState::Start, raw, b, cap);
            &&& s.state is Start
            &&& s.raw == raw
            &&& s.emit is None
            &&& !s.err
        }),
{
}

/// A spurious START mid-frame discards the partial frame without emitting
/// it: the machine stays in the data state with a fresh empty frame.
pub proof fn lemma_start_discards_partial_frame(raw: Seq<u8>, cap: int)
    ensures
        ({
            let s = parser_step(ShprotoParserState::Data, raw, ControlByte::START, cap);
            &&& s.state is Data
            &&& s.raw == Seq::<u8>::empty()
            &&& s.emit is None
            &&& !s.err
        }),
{
}

/// Running the parser over a concatenation is running it over the parts in
/// turn, with the emitted frames concatenated in order, provided the first
/// part runs without a capacity failure.
pub proof fn lemma_parser_run_append(
    st: ShprotoParserState,
    raw: Seq<u8>,
    a: Seq<u8>,
    b: Seq<u8>,
    cap: int,
)
    requires
        !parser_run(st, raw, a, cap).err,
    ensures
        ({
            let ra = parser_run(st, raw, a, cap);
            let rb = parser_run(ra.state, ra.raw, b, cap);
            let rab = parser_run(st, raw, a + b, cap);
            &&& rab.state == rb.state
            &&& rab.raw == rb.raw
            &&& rab.emits == ra.emits + rb.emits
            &&& rab.err == rb.err
        }),
    decreases a.len(),
{
    let ra = parser_run(st, raw, a, cap);
    let rb = parser_run(ra.state, ra.raw, b, cap);
    if a.len() == 0 {
        assert(a + b =~= b);
        assert(ra.emits + rb.emits =~= rb.emits);
    } else {
        let s = parser_step(st, raw, a[0], cap);
        assert((a + b)[0] == a[0]);
        assert((a + b).skip(1) =~= a.skip(1) + b);
        lemma_parser_run_append(s.state, s.raw, a.skip(1), b, cap);
        let first = match s.emit {
            Option::Some(rb0) => seq![rb0],
            Option::None => Seq::<Seq<u8>>::empty(),
        };
        let ra1 = parser_run(s.state, s.raw, a.skip(1), cap);
        assert(first + (ra1.emits + rb.emits) =~= (first + ra1.emits) + rb.emits);
    }
}

/// From the data state, consuming the wire encoding of a logical sequence
/// appends exactly that sequence to the open frame: no frame is emitted, no
/// failure occurs, and the machine ends back in the data state. The escaped
/// byte after each ESCAPE marker is restored by complementing, whatever its
/// value.
pub proof fn lemma_parser_run_wire(raw0: Seq<u8>, s: Seq<u8>, cap: int)
    requires
        2 + wire_of(raw0 + s).len() <= cap,
    ensures
        ({
            let run = parser_run(ShprotoParserState::Data, raw0, wire_of(s), cap);
            &&& !run.err
            &&& run.state is Data
            &&& run.raw == raw0 + s
            &&& run.emits == Seq::<Seq<u8>>::empty()
        }),
    decreases s.len(),
{
    reveal_with_fuel(parser_run, 3);
    lemma_wire_of_append(raw0, s);
    if s.len() == 0 {
        assert(wire_of(s) == Seq::<u8>::empty());
        assert(raw0 + s =~= raw0);
    } else {
        let b = s[0];
        let w = wire_of(s);
        let rest = wire_of(s.skip(1));
        assert(raw0.push(b) + s.skip(1) =~= raw0 + s);
        lemma_wire_of_append(raw0.push(b), s.skip(1));
        if is_control(b) {
            assert(w =~= seq![ControlByte::ESCAPE, !b] + rest);
            assert(w[0] == ControlByte::ESCAPE);
            let s1 = parser_step(ShprotoParserState::Data, raw0, ControlByte::ESCAPE, cap);
            assert(s1.state is EscapedData && s1.raw == raw0 && s1.emit is None && !s1.err);
            assert(w.skip(1)[0] == !b);
            assert(!(!b) == b) by (bit_vector);
            assert(2 + wire_of(raw0).len() + stored_len(b) <= cap);
            let s2 = parser_step(ShprotoParserState::EscapedData, raw0, !b, cap);
            assert(s2.state is Data && s2.raw == raw0.push(b) && s2.emit is None && !s2.err);
            assert(w.skip(1).skip(1) =~= rest);
            lemma_parser_run_wire(raw0.push(b), s.skip(1), cap);
            let run_rest = parser_run(ShprotoParserState::Data, raw0.push(b), rest, cap);
            assert(parser_run(ShprotoParserState::Data, raw0, w, cap).emits =~= run_rest.emits);
        } else {
            assert(w =~= seq![b] + rest);
            assert(w[0] == b);
            assert(b != ControlByte::START && b != ControlByte::ESCAPE && b != ControlByte::STOP);
            assert(2 + wire_of(raw0).len() + stored_len(b) <= cap);
            let s1 = parser_step(ShprotoParserState::Data, raw0, b, cap);
            assert(s1.state is Data && s1.raw == raw0.push(b) && s1.emit is None && !s1.err);
            assert(w.skip(1) =~= rest);
            lemma_parser_run_wire(raw0.push(b), s.skip(1), cap);
            let run_rest = parser_run(ShprotoParserState::Data, raw0.push(b), rest, cap);
            assert(parser_run(ShprotoParserState::Data, raw0, w, cap).emits =~= run_rest.emits);
        }
    }
}

/// The single-frame round trip: feeding a complete frame's wire bytes to an
/// idle parser emits exactly that frame's logical bytes, once, with no
/// failure, and leaves the parser idle again.
pub proof fn lemma_frame_round_trip(raw: Seq<u8>, cap: int)
    requires
        2 + wire_of(raw).len() + 1 <= cap,
    ensures
        ({
            let run = parser_run(
                ShprotoParserState::Start,
                Seq::empty(),
                frame_bytes(raw),
                cap,
            );
            &&& !run.err
            &&& run.emits == seq![raw]
            &&& run.state is Start
            &&& run.raw == Seq::<u8>::empty()
        }),
{
    reveal_with_fuel(parser_run, 4);
    let a = preamble();
    let b = wire_of(raw) + seq![ControlByte::STOP];
    assert(frame_bytes(raw) =~= a + b);
    // The two preamble bytes: the sync byte is ignored while idle, then
    // START opens a fresh frame.
    assert(a[0] == 0xFF && a[1] == ControlByte::START);
    assert(a.skip(1) =~= seq![ControlByte::START]);
    assert(seq![ControlByte::START].skip(1) =~= Seq::<u8>::empty());
    let ra = parser_run(ShprotoParserState::Start, Seq::empty(), a, cap);
    assert(ra.state is Data && ra.raw == Seq::<u8>::empty() && !ra.err);
    assert(ra.emits =~= Seq::<Seq<u8>>::empty());
    lemma_parser_run_append(ShprotoParserState::Start, Seq::empty(), a, b, cap);
    // The escaped protected region accumulates exactly `raw`.
    assert(Seq::<u8>::empty() + raw =~= raw);
    lemma_parser_run_wire(Seq::empty(), raw, cap);
    lemma_parser_run_append(ShprotoParserState::Data, Seq::empty(), wire_of(raw), seq![
        ControlByte::STOP,
    ], cap);
    assert(wire_of(raw) + seq![ControlByte::STOP] =~= b);
    // The STOP byte seals and emits the frame.
    let sstop = parser_step(ShprotoParserState::Data, raw, ControlByte::STOP, cap);
    assert(sstop.emit == Some(raw) && !sstop.err && sstop.state is Start);
    assert(seq![ControlByte::STOP].skip(1) =~= Seq::<u8>::empty());
    let rstop = parser_run(ShprotoParserState::Data, raw, seq![ControlByte::STOP], cap);
    assert(rstop.emits =~= seq![raw]);
    let run = parser_run(ShprotoParserState::Start, Seq::empty(), frame_bytes(raw), cap);
    assert(run.emits =~= seq![raw]);
}

/// The end-to-end round trip: the stored wire bytes of any sealed frame,
/// fed one at a time to an idle parser of the same capacity, yield exactly
/// one completed frame carrying the same logical bytes; and a frame the
/// builder sealed is emitted as valid, since its running CRC is zero.
pub proof fn lemma_sealed_frame_parses<const N: usize>(p: ShprotoPacket<N>)
    requires
        p.wf(),
        p.completed,
    ensures
        ({
            let run = parser_run(ShprotoParserState::Start, Seq::empty(), p.data@, N as int);
            &&& !run.err
            &&& run.emits == seq![p.raw@]
            &&& run.state is Start
            &&& p.valid ==> crc16_fold(CRC_INIT, p.raw@) == 0
        }),
{
    assert(p.data@.len() == 2 + wire_of(p.raw@).len() + 1);
    lemma_frame_round_trip(p.raw@, N as int);
}

/// Order preservation: a stream holding frame F1 then frame F2, with no
/// corruption between them, makes the parser emit F1 fully before F2.
pub proof fn lemma_order_preservation(raw1: Seq<u8>, raw2: Seq<u8>, cap: int)
    requires
        2 + wire_of(raw1).len() + 1 <= cap,
        2 + wire_of(raw2).len() + 1 <= cap,
    ensures
        ({
            let run = parser_run(
                ShprotoParserState::Start,
                Seq::empty(),
                frame_bytes(raw1) + frame_bytes(raw2),
                cap,
            );
            &&& !run.err
            &&& run.emits == seq![raw1, raw2]
            &&& run.state is Start
        }),
{
    lemma_frame_round_trip(raw1, cap);
    lemma_frame_round_trip(raw2, cap);
    lemma_parser_run_append(
        ShprotoParserState::Start,
        Seq::empty(),
        frame_bytes(raw1),
        frame_bytes(raw2),
        cap,
    );
    assert(seq![raw1] + seq![raw2] =~= seq![raw1, raw2]);
}

} // verus!
