//! The frame codec: reserved control bytes, byte escaping, and the packet
//! builder that assembles a command plus payload bytes into a wire-ready,
//! CRC-protected frame.
//!
//! Wire format: a literal 0xFF sync byte, a literal START byte, then the
//! protected region (command, payload, two little-endian CRC bytes, each
//! escaped when it collides with a control byte and each folded into the
//! running CRC), closed by a literal STOP byte.

use vstd::prelude::*;

use crate::crc::CRC_INIT;
use crate::crc::crc16_fold;
use crate::crc::crc16_step;
use crate::crc::crc16_update;
use crate::crc::crc_hi;
use crate::crc::crc_lo;
use crate::crc::lemma_crc16_fold_push;
use crate::crc::lemma_crc16_self_check;

verus! {

/// The error a builder or parser operation can fail with.
#[derive(Debug, Copy, Clone)]
pub enum ShprotoError {
    /// Storing a byte (raw or as an escape pair) would exceed the frame's
    /// fixed capacity.
    PushFailed,
}

/// The namespace of the three reserved byte values with fixed meaning on the
/// wire. They are plain named constants compared by value, not variants of a
/// tagged union.
pub struct ControlByte;

impl ControlByte {
    /// Marks the beginning of a frame's protected region.
    pub const START: u8 = 0xFE;

    /// Marks that the following byte is an escaped literal.
    pub const ESCAPE: u8 = 0xFD;

    /// Marks the end of a frame's protected region.
    pub const STOP: u8 = 0xA5;
}

/// Whether a byte collides with a reserved control byte and therefore cannot
/// appear literally inside the protected region.
pub open spec fn is_control(b: u8) -> bool {
    b == ControlByte::START || b == ControlByte::ESCAPE || b == ControlByte::STOP
}

/// The wire encoding of one logical byte of the protected region: an ESCAPE
/// marker followed by the one's complement for a control-byte collision, the
/// byte itself otherwise.
pub open spec fn escape_bytes(b: u8) -> Seq<u8> {
    if is_control(b) {
        seq![ControlByte::ESCAPE, !b]
    } else {
        seq![b]
    }
}

/// How many stored bytes one logical byte of the protected region occupies.
pub open spec fn stored_len(b: u8) -> int {
    escape_bytes(b).len() as int
}

/// The wire encoding of a whole logical byte sequence, each byte escaped
/// independently.
pub open spec fn wire_of(s: Seq<u8>) -> Seq<u8>
    decreases s.len(),
{
    if s.len() == 0 {
        Seq::empty()
    } else {
        escape_bytes(s[0]) + wire_of(s.skip(1))
    }
}

/// Appending one logical byte appends its escape encoding to the wire form.
pub proof fn lemma_wire_of_push(s: Seq<u8>, b: u8)
    ensures
        wire_of(s.push(b)) == wire_of(s) + escape_bytes(b),
    decreases s.len(),
{
    if s.len() == 0 {
        assert(s.push(b)[0] == b);
        assert(s.push(b).skip(1) =~= Seq::<u8>::empty());
        assert(wire_of(Seq::<u8>::empty()) == Seq::<u8>::empty());
        assert(wire_of(s.push(b)) =~= wire_of(s) + escape_bytes(b));
    } else {
        assert(s.push(b).skip(1) =~= s.skip(1).push(b));
        lemma_wire_of_push(s.skip(1), b);
        assert(wire_of(s.push(b)) =~= wire_of(s) + escape_bytes(b));
    }
}

/// Escaping a whole sequence escapes each part independently.
pub proof fn lemma_wire_of_append(a: Seq<u8>, b: Seq<u8>)
    ensures
        wire_of(a + b) == wire_of(a) + wire_of(b),
    decreases b.len(),
{
    if b.len() == 0 {
        assert(a + b =~= a);
        assert(wire_of(b) == Seq::<u8>::empty());
        assert(wire_of(a) + wire_of(b) =~= wire_of(a));
    } else {
        let x = b.last();
        assert(a + b =~= (a + b.drop_last()).push(x));
        lemma_wire_of_append(a, b.drop_last());
        lemma_wire_of_push(a + b.drop_last(), x);
        lemma_wire_of_push(b.drop_last(), x);
        assert(b.drop_last().push(x) =~= b);
        assert(wire_of(a + b) =~= wire_of(a) + wire_of(b));
    }
}

/// The decoding of a wire fragment back to logical bytes: the byte after an
/// ESCAPE marker is taken as the one's complement of itself, every other
/// byte passes through.
pub open spec fn unescape_wire(w: Seq<u8>) -> Seq<u8>
    decreases w.len(),
{
    if w.len() == 0 {
        Seq::empty()
    } else if w[0] == ControlByte::ESCAPE && w.len() >= 2 {
        seq![!w[1]] + unescape_wire(w.skip(2))
    } else {
        seq![w[0]] + unescape_wire(w.skip(1))
    }
}

/// The escape round trip for a single byte: encoding then decoding through
/// the escape/unescape pair restores the byte, for every byte value. The
/// one's complement is self-inverse, so decode is the same operation as
/// encode.
pub proof fn lemma_escape_round_trip(b: u8)
    ensures
        unescape_wire(escape_bytes(b)) == seq![b],
{
    assert(!(!b) == b) by (bit_vector);
    assert(unescape_wire(Seq::<u8>::empty()) == Seq::<u8>::empty());
    if is_control(b) {
        let w = escape_bytes(b);
        assert(w[0] == ControlByte::ESCAPE && w.len() == 2);
        assert(w.skip(2) =~= Seq::<u8>::empty());
        assert(unescape_wire(w) =~= seq![b]);
    } else {
        let w = escape_bytes(b);
        assert(w[0] == b && b != ControlByte::ESCAPE);
        assert(w.skip(1) =~= Seq::<u8>::empty());
        assert(unescape_wire(w) =~= seq![b]);
    }
}

/// The escape round trip for a whole sequence: unescaping the wire encoding
/// of any logical byte sequence restores that sequence exactly.
pub proof fn lemma_unescape_wire_of(s: Seq<u8>)
    ensures
        unescape_wire(wire_of(s)) == s,
    decreases s.len(),
{
    if s.len() == 0 {
        assert(unescape_wire(wire_of(s)) =~= s);
    } else {
        let b = s[0];
        let w = wire_of(s);
        let rest = wire_of(s.skip(1));
        lemma_unescape_wire_of(s.skip(1));
        assert(!(!b) == b) by (bit_vector);
        if is_control(b) {
            assert(w =~= seq![ControlByte::ESCAPE, !b] + rest);
            assert(w[0] == ControlByte::ESCAPE && w.len() >= 2);
            assert(w[1] == !b);
            assert(w.skip(2) =~= rest);
            assert(unescape_wire(w) =~= seq![b] + s.skip(1));
        } else {
            assert(w =~= seq![b] + rest);
            assert(w[0] == b && b != ControlByte::ESCAPE);
            assert(w.skip(1) =~= rest);
            assert(unescape_wire(w) =~= seq![b] + s.skip(1));
        }
        assert(seq![b] + s.skip(1) =~= s);
    }
}

/// The preamble every frame starts with: the sync byte, then the literal
/// START marker. Neither is escaped or folded into the CRC.
pub open spec fn preamble() -> Seq<u8> {
    seq![0xFFu8, ControlByte::START]
}

/// The complete wire image of a sealed frame with logical protected bytes
/// `s`: preamble, escaped protected region, closing STOP byte.
pub open spec fn frame_bytes(s: Seq<u8>) -> Seq<u8> {
    preamble() + wire_of(s) + seq![ControlByte::STOP]
}

/// A frame under construction or as reconstructed by the parser.
///
/// `data` holds the wire bytes stored so far; `raw` is the ghost sequence of
/// logical protected-region bytes they encode. The capacity `N` bounds the
/// stored bytes; exceeding it is a hard failure, never silent truncation.
pub struct ShprotoPacket<const N: usize> {
    /// The stored wire bytes: preamble, escaped protected region, and, once
    /// completed, the closing STOP byte.
    pub data: Vec<u8>,
    /// The running CRC over the logical protected-region bytes.
    pub crc: u16,
    /// Whether the frame has been sealed.
    pub completed: bool,
    /// Whether the frame is sealed and its running CRC is zero.
    pub valid: bool,
    /// The logical (unescaped) protected-region bytes stored so far.
    pub raw: Ghost<Seq<u8>>,
}

impl<const N: usize> ShprotoPacket<N> {
    /// The packet's internal invariant: the stored bytes are exactly the
    /// preamble plus the wire encoding of the logical bytes (plus STOP once
    /// sealed), the CRC reflects every logical byte, the capacity is kept,
    /// and validity is the sealed zero-CRC self-check.
    pub open spec fn wf(self) -> bool {
        &&& self.crc == crc16_fold(CRC_INIT, self.raw@)
        &&& self.data@.len() <= N
        &&& self.data@ == if self.completed {
            frame_bytes(self.raw@)
        } else {
            preamble() + wire_of(self.raw@)
        }
        &&& self.valid == (self.completed && self.crc == 0)
    }

    /// Creates an empty frame: CRC seeded, the two preamble bytes already
    /// stored, nothing protected yet.
    pub fn new() -> (p: Self)
        requires
            N >= 2,
        ensures
            p.wf(),
            !p.completed,
            !p.valid,
            p.crc == CRC_INIT,
            p.raw@ == Seq::<u8>::empty(),
            p.data@ == preamble(),
    {
        let mut data: Vec<u8> = Vec::new();
        data.push(0xFF);
        data.push(ControlByte::START);
        let p = ShprotoPacket {
            data,
            crc: CRC_INIT,
            completed: false,
            valid: false,
            raw: Ghost(Seq::empty()),
        };
        proof {
            assert(p.data@ =~= preamble());
            assert(preamble() + wire_of(Seq::<u8>::empty()) =~= preamble());
        }
        p
    }

    /// Folds one byte into the running CRC. Nothing else changes.
    fn crc16(&mut self, byte: u8)
        ensures
            final(self).crc == crc16_step(old(self).crc, byte),
            final(self).data == old(self).data,
            final(self).completed == old(self).completed,
            final(self).valid == old(self).valid,
            final(self).raw == old(self).raw,
    {
        self.crc = crc16_update(self.crc, byte);
    }

    /// Appends the command byte through the protected-append path.
    pub fn start(&mut self, command: u8) -> (r: Result<(), ShprotoError>)
        requires
            old(self).wf(),
            !old(self).completed,
        ensures
            final(self).wf(),
            !final(self).completed,
            !final(self).valid,
            if old(self).data@.len() + stored_len(command) <= N {
                &&& r is Ok
                &&& final(self).raw@ == old(self).raw@.push(command)
                &&& final(self).crc == crc16_step(old(self).crc, command)
                &&& final(self).data@ == old(self).data@ + escape_bytes(command)
            } else {
                &&& r matches Err(e) && e is PushFailed
                &&& *final(self) == *old(self)
            },
    {
        self.add_byte(command)
    }

    /// Appends one logical byte of the protected region: folds it into the
    /// CRC and stores it, escaped when it collides with a control byte.
    /// Fails, leaving the frame untouched, when the stored bytes would
    /// exceed the capacity.
    pub fn add_byte(&mut self, byte: u8) -> (r: Result<(), ShprotoError>)
        requires
            old(self).wf(),
            !old(self).completed,
        ensures
            final(self).wf(),
            !final(self).completed,
            !final(self).valid,
            if old(self).data@.len() + stored_len(byte) <= N {
                &&& r is Ok
                &&& final(self).raw@ == old(self).raw@.push(byte)
                &&& final(self).crc == crc16_step(old(self).crc, byte)
                &&& final(self).data@ == old(self).data@ + escape_bytes(byte)
            } else {
                &&& r matches Err(e) && e is PushFailed
                &&& *final(self) == *old(self)
            },
    {
        let need_escape: bool = byte == ControlByte::START || byte == ControlByte::ESCAPE || byte
            == ControlByte::STOP;
        let needed: usize = if need_escape {
            2
        } else {
            1
        };
        if N - self.data.len() < needed {
            return Err(ShprotoError::PushFailed);
        }
        self.crc16(byte);
        if need_escape {
            self.data.push(ControlByte::ESCAPE);
            self.data.push(!byte);
        } else {
            self.data.push(byte);
        }
        proof {
            lemma_crc16_fold_push(CRC_INIT, old(self).raw@, byte);
            lemma_wire_of_push(old(self).raw@, byte);
            assert(self.data@ =~= old(self).data@ + escape_bytes(byte));
            assert(preamble() + wire_of(old(self).raw@.push(byte)) =~= (preamble() + wire_of(
                old(self).raw@,
            )) + escape_bytes(byte));
        }
        self.raw = Ghost(self.raw@.push(byte));
        Ok(())
    }

    /// Seals the frame: appends the two CRC bytes (low, then high, each
    /// through the protected-append path, each folded into the CRC) and the
    /// literal STOP byte. The self-checking CRC then runs to exactly zero,
    /// so the sealed frame is always valid.
    pub fn complete(&mut self)
        requires
            old(self).wf(),
            !old(self).completed,
            old(self).data@.len() + stored_len(crc_lo(old(self).crc)) + stored_len(
                crc_hi(old(self).crc),
            ) + 1 <= N,
        ensures
            final(self).wf(),
            final(self).completed,
            final(self).crc == 0,
            final(self).valid,
            final(self).raw@ == old(self).raw@.push(crc_lo(old(self).crc)).push(
                crc_hi(old(self).crc),
            ),
            final(self).data@ == old(self).data@ + escape_bytes(crc_lo(old(self).crc))
                + escape_bytes(crc_hi(old(self).crc)) + seq![ControlByte::STOP],
    {
        let lo: u8 = (self.crc & 0xFF) as u8;
        let hi: u8 = ((self.crc >> 8) & 0xFF) as u8;
        proof {
            lemma_crc16_self_check(old(self).crc);
        }
        // Neither append can fail: the capacity precondition reserves room
        // for both CRC bytes and the STOP byte.
        let _ = self.add_byte(lo);
        let _ = self.add_byte(hi);
        self.data.push(ControlByte::STOP);
        self.completed = true;
        if self.crc == 0 {
            self.valid = true;
        }
        proof {
            assert(self.data@ =~= (preamble() + wire_of(self.raw@)) + seq![ControlByte::STOP]);
        }
    }

    /// Decodes the stored wire bytes back to the logical protected-region
    /// bytes: command, payload and CRC bytes, unescaped, without the
    /// preamble or the closing STOP byte.
    pub fn raw_bytes(&self) -> (r: Vec<u8>)
        requires
            self.wf(),
        ensures
            r@ == self.raw@,
    {
        let ghost raw = self.raw@;
        let end: usize = if self.completed {
            self.data.len() - 1
        } else {
            self.data.len()
        };
        let mut out: Vec<u8> = Vec::new();
        let mut j: usize = 2;
        let ghost mut k: int = 0;
        proof {
            assert(raw.take(0) =~= Seq::<u8>::empty());
            assert(wire_of(raw.take(0)) == Seq::<u8>::empty());
        }
        while j < end
            invariant
                self.wf(),
                raw == self.raw@,
                end == 2 + wire_of(raw).len(),
                end <= self.data@.len(),
                0 <= k <= raw.len(),
                out@ == raw.take(k),
                j == 2 + wire_of(raw.take(k)).len(),
                j <= end,
            decreases end - j,
        {
            proof {
                if k == raw.len() {
                    assert(raw.take(k) =~= raw);
                }
                assert(raw.take(k) + raw.skip(k) =~= raw);
                lemma_wire_of_append(raw.take(k), raw.skip(k));
                assert(raw.skip(k)[0] == raw[k]);
                assert(raw.skip(k).skip(1) =~= raw.skip(k + 1));
                assert(raw.take(k).push(raw[k]) =~= raw.take(k + 1));
                lemma_wire_of_push(raw.take(k), raw[k]);
                assert(raw.take(k + 1) + raw.skip(k + 1) =~= raw);
                lemma_wire_of_append(raw.take(k + 1), raw.skip(k + 1));
                assert(self.data@[j as int] == wire_of(raw)[j - 2]);
                assert(wire_of(raw)[j - 2] == escape_bytes(raw[k])[0]);
            }
            let byte = self.data[j];
            if byte == ControlByte::ESCAPE {
                proof {
                    assert(is_control(raw[k]));
                    assert(self.data@[j + 1] == wire_of(raw)[j - 1]);
                    assert(wire_of(raw)[j - 1] == escape_bytes(raw[k])[1]);
                    let b = raw[k];
                    assert(!(!b) == b) by (bit_vector);
                }
                let escaped = self.data[j + 1];
                out.push(!escaped);
                j = j + 2;
            } else {
                proof {
                    assert(!is_control(raw[k]));
                }
                out.push(byte);
                j = j + 1;
            }
            proof {
                k = k + 1;
                assert(out@ =~= raw.take(k));
            }
        }
        proof {
            if k < raw.len() {
                assert(raw.take(k) + raw.skip(k) =~= raw);
                lemma_wire_of_append(raw.take(k), raw.skip(k));
                assert(wire_of(raw.skip(k)).len() >= escape_bytes(raw.skip(k)[0]).len());
                assert(false);
            }
            assert(raw.take(k) =~= raw);
        }
        out
    }
}

} // verus!
