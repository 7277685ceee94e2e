//! A fixed-size UDP packet buffer with a read/write cursor.

use vstd::prelude::*;
use vstd::string::{StringExecFns, StringSliceAdditionalSpecFns};
use crate::text::{decode_lossy, lossy_utf8, lowercase, to_lower};

verus! {

/// Size in bytes of a DNS message carried over UDP.
pub const PACKET_SIZE: usize = 512;

/// Why a buffer operation was refused.
#[derive(Clone, Copy, Debug, PartialEq, Eq, Structural)]
pub enum BufferError {
    /// A read or write reached past the end of the packet.
    EndOfBuffer,
    /// A compressed name followed more jumps than allowed.
    JumpLimitExceeded,
    /// A label of a name to be written is too long.
    LabelTooLong,
}

/// UDP packet structure.
pub struct BytePacketBuffer {
    pub buf: [u8; 512],
    pub pos: usize,
}

/// The packet bytes `data` after `bytes` are written from `pos` on; writes that
/// would land past the end of the packet are dropped.
pub open spec fn written(data: Seq<u8>, pos: int, bytes: Seq<u8>) -> Seq<u8> {
    Seq::new(data.len(), |j: int| if pos <= j < pos + bytes.len() { bytes[j - pos] } else { data[j] })
}

/// The cursor after `n` bytes are read or written from `pos`: it advances by `n`
/// when they fit, and otherwise stops at the end of the packet (or stays where it
/// was, if already there).
pub open spec fn cursor_after(pos: int, n: int) -> int {
    if pos + n <= PACKET_SIZE {
        pos + n
    } else if pos >= PACKET_SIZE {
        pos
    } else {
        PACKET_SIZE as int
    }
}

/// Whether `n` bytes fit from `pos` to the end of the packet.
pub open spec fn fits(pos: int, n: int) -> bool {
    pos + n <= PACKET_SIZE
}

/// The value of two bytes in network (big-endian) order.
pub open spec fn be16(b0: u8, b1: u8) -> int {
    b0 * 256 + b1
}

/// The value of four bytes in network (big-endian) order.
pub open spec fn be32(b0: u8, b1: u8, b2: u8, b3: u8) -> int {
    b0 * 0x100_0000 + b1 * 0x1_0000 + b2 * 0x100 + b3
}

/// The two bytes of `v` in network order.
pub open spec fn be16_bytes(v: u16) -> Seq<u8> {
    seq![(v / 256) as u8, (v % 256) as u8]
}

/// The four bytes of `v` in network order.
pub open spec fn be32_bytes(v: u32) -> Seq<u8> {
    seq![
        (v / 0x100_0000) as u8,
        ((v / 0x1_0000) % 256) as u8,
        ((v / 0x100) % 256) as u8,
        (v % 256) as u8,
    ]
}

impl BytePacketBuffer {
    /// The packet's bytes.
    pub open spec fn data(&self) -> Seq<u8> {
        self.buf@
    }

    /// `self` is `old` after `bytes` were written at its cursor one by one.
    pub open spec fn wrote(self, old: Self, bytes: Seq<u8>) -> bool {
        &&& self.data() == written(old.data(), old.pos as int, bytes)
        &&& self.pos == cursor_after(old.pos as int, bytes.len() as int)
    }

    /// `self` is `old` after `n` bytes were read at its cursor one by one.
    pub open spec fn advanced(self, old: Self, n: int) -> bool {
        &&& self.data() == old.data()
        &&& self.pos == cursor_after(old.pos as int, n)
    }

    /// An empty packet with the cursor at its start.
    pub fn new() -> (b: BytePacketBuffer)
        ensures
            b.data() == Seq::new(512, |i: int| 0u8),
            b.pos == 0,
    {
        let b = BytePacketBuffer { buf: [0u8; 512], pos: 0 };
        assert(b.data() =~= Seq::new(512, |i: int| 0u8));
        b
    }

    /// The cursor.
    pub fn pos(&self) -> (p: usize)
        ensures
            p == self.pos,
    {
        self.pos
    }

    /// Moves the cursor forward by `steps`.
    pub fn step(&mut self, steps: usize) -> (res: Result<(), BufferError>)
        requires
            old(self).pos + steps <= usize::MAX,
        ensures
            res is Ok,
            final(self).data() == old(self).data(),
            final(self).pos == old(self).pos + steps,
    {
        self.pos = self.pos + steps;
        Ok(())
    }

    /// Moves the cursor to `pos`.
    pub fn seek(&mut self, pos: usize) -> (res: Result<(), BufferError>)
        ensures
            res is Ok,
            final(self).data() == old(self).data(),
            final(self).pos == pos,
    {
        self.pos = pos;
        Ok(())
    }

    /// Reads the byte at the cursor and moves past it.
    pub fn read(&mut self) -> (res: Result<u8, BufferError>)
        ensures
            final(self).advanced(*old(self), 1),
            fits(old(self).pos as int, 1) ==> res == Ok::<u8, BufferError>(old(self).data()[old(self).pos as int]),
            !fits(old(self).pos as int, 1) ==> res == Err::<u8, BufferError>(BufferError::EndOfBuffer),
    {
        if self.pos >= PACKET_SIZE {
            return Err(BufferError::EndOfBuffer);
        }
        let res = self.buf[self.pos];
        self.pos = self.pos + 1;
        Ok(res)
    }
}


/// Bytes written one after the other compose: once a first run of writes fits,
/// a second run continues where it stopped.
pub proof fn lemma_wrote_then(b0: BytePacketBuffer, b1: BytePacketBuffer, b2: BytePacketBuffer, s1: Seq<u8>, s2: Seq<u8>)
    requires
        b0.data().len() == PACKET_SIZE,
        b1.wrote(b0, s1),
        b2.wrote(b1, s2),
        s1.len() == 0 || fits(b0.pos as int, s1.len() as int),
    ensures
        b2.wrote(b0, s1 + s2),
{
    assert(b2.data() =~= written(b0.data(), b0.pos as int, s1 + s2));
}

/// Once a run of writes does not fit, it has the effect of any longer run that
/// starts with it.
pub proof fn lemma_wrote_stop(b0: BytePacketBuffer, b1: BytePacketBuffer, s1: Seq<u8>, s2: Seq<u8>)
    requires
        b0.data().len() == PACKET_SIZE,
        b1.wrote(b0, s1),
        !fits(b0.pos as int, s1.len() as int),
    ensures
        b1.wrote(b0, s1 + s2),
{
    assert(b1.data() =~= written(b0.data(), b0.pos as int, s1 + s2));
}

impl BytePacketBuffer {
    /// The byte at `pos`; the cursor does not move.
    pub fn get(&mut self, pos: usize) -> (res: Result<u8, BufferError>)
        ensures
            *final(self) == *old(self),
            pos < PACKET_SIZE ==> res == Ok::<u8, BufferError>(old(self).data()[pos as int]),
            pos >= PACKET_SIZE ==> res == Err::<u8, BufferError>(BufferError::EndOfBuffer),
    {
        if pos >= PACKET_SIZE {
            return Err(BufferError::EndOfBuffer);
        }
        Ok(self.buf[pos])
    }

    /// The `len` bytes from `start` on; the cursor does not move. A range that
    /// reaches the last byte of the packet is refused too.
    pub fn get_range(&mut self, start: usize, len: usize) -> (res: Result<&[u8], BufferError>)
        requires
            start + len <= usize::MAX,
        ensures
            *final(self) == *old(self),
            start + len < PACKET_SIZE ==> (res matches Ok(r) && r@ == old(self).data().subrange(start as int, start + len)),
            start + len >= PACKET_SIZE ==> res == Err::<&[u8], BufferError>(BufferError::EndOfBuffer),
    {
        if start + len >= PACKET_SIZE {
            return Err(BufferError::EndOfBuffer);
        }
        Ok(vstd::slice::slice_subrange(self.buf.as_slice(), start, start + len))
    }

    /// Reads a 16-bit integer in network order at the cursor and moves past it.
    pub fn read_u16(&mut self) -> (res: Result<u16, BufferError>)
        ensures
            final(self).advanced(*old(self), 2),
            fits(old(self).pos as int, 2) ==> (res matches Ok(v)
                && v == be16(old(self).data()[old(self).pos as int], old(self).data()[old(self).pos + 1])),
            !fits(old(self).pos as int, 2) ==> res == Err::<u16, BufferError>(BufferError::EndOfBuffer),
    {
        let b0 = self.read()?;
        let b1 = self.read()?;
        let v = ((b0 as u16) << 8) | (b1 as u16);
        assert(v == b0 * 256 + b1) by (bit_vector)
            requires
                v == ((b0 as u16) << 8) | (b1 as u16),
        ;
        Ok(v)
    }

    /// Reads a 32-bit integer in network order at the cursor and moves past it.
    pub fn read_u32(&mut self) -> (res: Result<u32, BufferError>)
        ensures
            final(self).advanced(*old(self), 4),
            fits(old(self).pos as int, 4) ==> (res matches Ok(v) && v == be32(
                old(self).data()[old(self).pos as int],
                old(self).data()[old(self).pos + 1],
                old(self).data()[old(self).pos + 2],
                old(self).data()[old(self).pos + 3],
            )),
            !fits(old(self).pos as int, 4) ==> res == Err::<u32, BufferError>(BufferError::EndOfBuffer),
    {
        let b0 = self.read()?;
        let b1 = self.read()?;
        let b2 = self.read()?;
        let b3 = self.read()?;
        let v = ((b0 as u32) << 24) | ((b1 as u32) << 16) | ((b2 as u32) << 8) | ((b3 as u32) << 0);
        assert(v == b0 * 0x100_0000 + b1 * 0x1_0000 + b2 * 0x100 + b3) by (bit_vector)
            requires
                v == ((b0 as u32) << 24) | ((b1 as u32) << 16) | ((b2 as u32) << 8) | ((b3 as u32) << 0),
        ;
        Ok(v)
    }

    /// Reads `len` bytes at the cursor and moves past them.
    pub fn read_bytes(&mut self, len: usize) -> (res: Result<Vec<u8>, BufferError>)
        ensures
            final(self).advanced(*old(self), len as int),
            len == 0 || fits(old(self).pos as int, len as int) ==> (res matches Ok(v)
                && v@ == Seq::new(len as nat, |k: int| old(self).data()[old(self).pos + k])),
            len > 0 && !fits(old(self).pos as int, len as int) ==> res == Err::<Vec<u8>, BufferError>(
                BufferError::EndOfBuffer,
            ),
    {
        let ghost start = self.pos as int;
        let mut res: Vec<u8> = Vec::with_capacity(len);
        let mut i: usize = 0;
        assert(res@ =~= Seq::new(0, |k: int| old(self).data()[start + k]));
        while i < len
            invariant
                i <= len,
                i > 0 ==> start + i <= PACKET_SIZE,
                self.data() == old(self).data(),
                self.pos == start + i,
                start == old(self).pos,
                res@ == Seq::new(i as nat, |k: int| old(self).data()[start + k]),
            decreases len - i,
        {
            let b = self.read()?;
            res.push(b);
            i = i + 1;
            assert(res@ =~= Seq::new(i as nat, |k: int| old(self).data()[start + k]));
        }
        Ok(res)
    }

    /// Writes `val` at the cursor and moves past it.
    pub fn write(&mut self, val: u8) -> (res: Result<(), BufferError>)
        ensures
            final(self).wrote(*old(self), seq![val]),
            res is Ok <==> fits(old(self).pos as int, 1),
            res is Err ==> res == Err::<(), BufferError>(BufferError::EndOfBuffer),
    {
        if self.pos >= PACKET_SIZE {
            assert(self.data() =~= written(self.data(), self.pos as int, seq![val]));
            return Err(BufferError::EndOfBuffer);
        }
        self.buf[self.pos] = val;
        self.pos = self.pos + 1;
        assert(self.data() =~= written(old(self).data(), old(self).pos as int, seq![val]));
        Ok(())
    }

    /// Writes `val` at the cursor and moves past it.
    pub fn write_u8(&mut self, val: u8) -> (res: Result<(), BufferError>)
        ensures
            final(self).wrote(*old(self), seq![val]),
            res is Ok <==> fits(old(self).pos as int, 1),
            res is Err ==> res == Err::<(), BufferError>(BufferError::EndOfBuffer),
    {
        self.write(val)?;
        Ok(())
    }

    /// Writes `val` in network order at the cursor and moves past it.
    pub fn write_u16(&mut self, val: u16) -> (res: Result<(), BufferError>)
        ensures
            final(self).wrote(*old(self), be16_bytes(val)),
            res is Ok <==> fits(old(self).pos as int, 2),
            res is Err ==> res == Err::<(), BufferError>(BufferError::EndOfBuffer),
    {
        let hi = (val >> 8) as u8;
        let lo = (val & 0xFF) as u8;
        assert(hi == val / 256 && lo == val % 256) by (bit_vector)
            requires
                hi == (val >> 8) as u8,
                lo == (val & 0xFF) as u8,
        ;
        let ghost b0 = *self;
        assert(be16_bytes(val) =~= seq![hi] + seq![lo]);
        let r = self.write(hi);
        if r.is_err() {
            proof { lemma_wrote_stop(b0, *self, seq![hi], seq![lo]); }
            return r;
        }
        let ghost b1 = *self;
        let r = self.write(lo);
        proof { lemma_wrote_then(b0, b1, *self, seq![hi], seq![lo]); }
        r
    }
}


impl BytePacketBuffer {
    /// Writes `val` in network order at the cursor and moves past it.
    pub fn write_u32(&mut self, val: u32) -> (res: Result<(), BufferError>)
        ensures
            final(self).wrote(*old(self), be32_bytes(val)),
            res is Ok <==> fits(old(self).pos as int, 4),
            res is Err ==> res == Err::<(), BufferError>(BufferError::EndOfBuffer),
    {
        let a = ((val >> 24) & 0xFF) as u8;
        let b = ((val >> 16) & 0xFF) as u8;
        let c = ((val >> 8) & 0xFF) as u8;
        let d = ((val >> 0) & 0xFF) as u8;
        assert(a == val / 0x100_0000 && b == (val / 0x1_0000) % 256 && c == (val / 0x100) % 256 && d
            == val % 256) by (bit_vector)
            requires
                a == ((val >> 24) & 0xFF) as u8,
                b == ((val >> 16) & 0xFF) as u8,
                c == ((val >> 8) & 0xFF) as u8,
                d == ((val >> 0) & 0xFF) as u8,
        ;
        assert(be32_bytes(val) =~= seq![a] + seq![b] + seq![c] + seq![d]);
        let ghost b0 = *self;
        let r = self.write(a);
        if r.is_err() {
            proof { lemma_wrote_stop(b0, *self, seq![a], seq![b] + seq![c] + seq![d]); }
            assert(seq![a] + (seq![b] + seq![c] + seq![d]) =~= be32_bytes(val));
            return r;
        }
        let ghost b1 = *self;
        let r = self.write(b);
        proof { lemma_wrote_then(b0, b1, *self, seq![a], seq![b]); }
        if r.is_err() {
            proof { lemma_wrote_stop(b0, *self, seq![a] + seq![b], seq![c] + seq![d]); }
            assert(seq![a] + seq![b] + (seq![c] + seq![d]) =~= be32_bytes(val));
            return r;
        }
        let ghost b2 = *self;
        let r = self.write(c);
        proof { lemma_wrote_then(b0, b2, *self, seq![a] + seq![b], seq![c]); }
        if r.is_err() {
            proof { lemma_wrote_stop(b0, *self, seq![a] + seq![b] + seq![c], seq![d]); }
            return r;
        }
        let ghost b3 = *self;
        let r = self.write(d);
        proof { lemma_wrote_then(b0, b3, *self, seq![a] + seq![b] + seq![c], seq![d]); }
        r
    }

    /// Puts `val` at `pos`; the cursor does not move.
    pub fn set(&mut self, pos: usize, val: u8) -> (res: Result<(), BufferError>)
        requires
            pos < PACKET_SIZE,
        ensures
            res is Ok,
            final(self).data() == old(self).data().update(pos as int, val),
            final(self).pos == old(self).pos,
    {
        self.buf[pos] = val;
        Ok(())
    }

    /// Puts `val` in network order at `pos`; the cursor does not move.
    pub fn set_u16(&mut self, pos: usize, val: u16) -> (res: Result<(), BufferError>)
        requires
            pos + 1 < PACKET_SIZE,
        ensures
            res is Ok,
            final(self).data() == written(old(self).data(), pos as int, be16_bytes(val)),
            final(self).pos == old(self).pos,
    {
        let hi = (val >> 8) as u8;
        let lo = (val & 0xFF) as u8;
        assert(hi == val / 256 && lo == val % 256) by (bit_vector)
            requires
                hi == (val >> 8) as u8,
                lo == (val & 0xFF) as u8,
        ;
        self.set(pos, hi)?;
        self.set(pos + 1, lo)?;
        assert(self.data() =~= written(old(self).data(), pos as int, be16_bytes(val)));
        Ok(())
    }
}


/// The greatest number of compression jumps that reading a name follows.
pub const MAX_JUMPS: usize = 5;

/// What reading a (possibly compressed) name from a packet amounts to.
pub struct NameWalk {
    /// The raw bytes of the labels read, in order.
    pub labels: Seq<Seq<u8>>,
    /// A label's delimiter was emitted but its bytes lay past the packet's end.
    pub dangling: bool,
    /// Where the buffer's cursor was put, if it was moved.
    pub cursor: Option<int>,
    /// Why reading stopped early, if it did.
    pub error: Option<BufferError>,
}

/// Nothing read yet.
pub open spec fn walk_start() -> NameWalk {
    NameWalk { labels: Seq::empty(), dangling: false, cursor: None, error: None }
}

/// The text a label's bytes stand for in a name: the bytes read as UTF-8 (invalid
/// sequences replaced) and lower-cased.
pub open spec fn label_text(label: Seq<u8>) -> Seq<char> {
    lowercase(lossy_utf8(label))
}

/// The labels' texts joined with dots.
pub open spec fn render_labels(labels: Seq<Seq<u8>>) -> Seq<char>
    decreases labels.len(),
{
    if labels.len() == 0 {
        Seq::empty()
    } else {
        render_labels(labels.drop_last()) + (if labels.len() > 1 { seq!['.'] } else { Seq::empty() })
            + label_text(labels.last())
    }
}

/// The text that reading a name appends to its output.
pub open spec fn walk_text(w: NameWalk) -> Seq<char> {
    render_labels(w.labels) + (if w.dangling && w.labels.len() > 0 { seq!['.'] } else { Seq::empty() })
}

/// Reads a name from `data` at `pos`, where `jumps` compression pointers have
/// been followed so far (`jumped` when at least one), `acc` holding what was
/// read before. A length byte with its two top bits set is a pointer: its six low
/// bits and the next byte give the offset to go on from; the first pointer puts
/// the cursor just past itself. A zero length ends the name and, when no pointer
/// was followed, puts the cursor past it.
pub open spec fn name_walk(data: Seq<u8>, pos: int, jumped: bool, jumps: int, acc: NameWalk) -> NameWalk
    decreases 6 - jumps, PACKET_SIZE - pos,
{
    if jumps > MAX_JUMPS {
        NameWalk { error: Some(BufferError::JumpLimitExceeded), ..acc }
    } else if pos < 0 || pos >= PACKET_SIZE {
        NameWalk { error: Some(BufferError::EndOfBuffer), ..acc }
    } else {
        let len = data[pos];
        if len >= 0xC0 {
            let acc1 = if !jumped { NameWalk { cursor: Some(pos + 2), ..acc } } else { acc };
            if pos + 1 >= PACKET_SIZE {
                NameWalk { error: Some(BufferError::EndOfBuffer), ..acc1 }
            } else {
                let offset = (len - 0xC0) * 256 + data[pos + 1];
                name_walk(data, offset, true, jumps + 1, acc1)
            }
        } else if len == 0 {
            if !jumped { NameWalk { cursor: Some(pos + 1), ..acc } } else { acc }
        } else if pos + 1 + len >= PACKET_SIZE {
            NameWalk { dangling: true, error: Some(BufferError::EndOfBuffer), ..acc }
        } else {
            let label = data.subrange(pos + 1, pos + 1 + len);
            name_walk(data, pos + 1 + len, jumped, jumps, NameWalk { labels: acc.labels.push(label), ..acc })
        }
    }
}

/// Reading a name from the start of `b`.
pub open spec fn read_name_spec(b: BytePacketBuffer) -> NameWalk {
    name_walk(b.data(), b.pos as int, false, 0, walk_start())
}

impl BytePacketBuffer {
    /// Reads a domain name at the cursor and appends it to `outstr`: a name like
    /// \[3\]www\[6\]google\[3\]com\[0\] appends `www.google.com`. Labels are
    /// lower-cased; compression pointers are followed, at most five of them.
    pub fn read_qname(&mut self, outstr: &mut String) -> (res: Result<(), BufferError>)
        ensures
            final(self).data() == old(self).data(),
            final(self).pos == (match read_name_spec(*old(self)).cursor {
                Some(c) => c,
                None => old(self).pos as int,
            }),
            final(outstr)@ == old(outstr)@ + walk_text(read_name_spec(*old(self))),
            res is Ok <==> read_name_spec(*old(self)).error is None,
            read_name_spec(*old(self)).error matches Some(e) ==> res == Err::<(), BufferError>(e),
    {
        let ghost data = self.data();
        let ghost start = self.pos;
        let ghost target = read_name_spec(*self);
        let ghost mut acc = walk_start();
        let mut pos = self.pos;
        let mut jumped = false;
        let mut delim = "";
        let max_jumps = MAX_JUMPS;
        let mut jumps_performed: usize = 0;
        proof {
            reveal_strlit("");
            reveal_strlit(".");
        }
        assert(outstr@ =~= old(outstr)@ + render_labels(acc.labels));
        loop
            invariant_except_break
                name_walk(data, pos as int, jumped, jumps_performed as int, acc) == target,
            invariant
                self.data() == data,
                data == old(self).data(),
                data.len() == PACKET_SIZE,
                start == old(self).pos,
                target == read_name_spec(*old(self)),
                jumps_performed <= 6,
                max_jumps == MAX_JUMPS,
                acc.error is None,
                !acc.dangling,
                jumped <==> acc.cursor is Some,
                self.pos == (match acc.cursor {
                    Some(c) => c,
                    None => start as int,
                }),
                outstr@ == old(outstr)@ + render_labels(acc.labels),
                delim@ == (if acc.labels.len() > 0 { seq!['.'] } else { Seq::<char>::empty() }),
                ""@ == Seq::<char>::empty(),
                "."@ == seq!['.'],
            ensures
                target == (if !jumped { NameWalk { cursor: Some(pos as int), ..acc } } else { acc }),
            decreases 6 - jumps_performed, PACKET_SIZE - pos,
        {
            if jumps_performed > max_jumps {
                return Err(BufferError::JumpLimitExceeded);
            }
            let len = self.get(pos)?;
            if (len & 0xC0) == 0xC0 {
                assert(len >= 0xC0) by (bit_vector)
                    requires
                        (len & 0xC0) == 0xC0,
                ;
                if !jumped {
                    self.seek(pos + 2)?;
                    proof { acc = NameWalk { cursor: Some(pos + 2), ..acc }; }
                }
                let b2 = self.get(pos + 1)? as u16;
                let offset = (((len as u16) ^ 0xC0) << 8) | b2;
                assert(offset == (len - 0xC0) * 256 + b2) by (bit_vector)
                    requires
                        len >= 0xC0,
                        b2 < 256,
                        offset == (((len as u16) ^ 0xC0) << 8) | b2,
                ;
                pos = offset as usize;
                jumped = true;
                jumps_performed = jumps_performed + 1;
                continue;
            }
            assert(len < 0xC0) by (bit_vector)
                requires
                    (len & 0xC0) != 0xC0,
            ;
            pos = pos + 1;
            if len == 0 {
                break;
            }
            let ghost pre = outstr@;
            outstr.append(delim);
            let str_buffer = match self.get_range(pos, len as usize) {
                Ok(r) => r,
                Err(e) => {
                    proof { acc = NameWalk { dangling: true, error: Some(BufferError::EndOfBuffer), ..acc }; }
                    assert(outstr@ =~= old(outstr)@ + walk_text(acc));
                    return Err(e);
                },
            };
            let decoded = decode_lossy(str_buffer);
            let lowered = to_lower(decoded.as_str());
            outstr.append(lowered.as_str());
            let ghost label = data.subrange(pos as int, pos + len);
            proof {
                let old_labels = acc.labels;
                acc = NameWalk { labels: acc.labels.push(label), ..acc };
                assert(acc.labels.drop_last() =~= old_labels);
            }
            assert(outstr@ =~= old(outstr)@ + render_labels(acc.labels));
            delim = ".";
            pos = pos + len as usize;
        }
        if !jumped {
            self.seek(pos)?;
        }
        Ok(())
    }
}


/// The longest label that writing a name accepts.
pub const MAX_LABEL_LEN: usize = 0x3F;

/// The byte that separates the labels of a name.
pub const DOT: u8 = 0x2E;

/// The index of the first dot in `bytes` at or after `from`, or the length of
/// `bytes` if there is none.
pub open spec fn first_dot(bytes: Seq<u8>, from: int) -> int
    decreases bytes.len() - from,
{
    if from >= bytes.len() {
        bytes.len() as int
    } else if bytes[from] == DOT {
        from
    } else {
        first_dot(bytes, from + 1)
    }
}

/// Where the first dot at or after `from` lies.
pub proof fn lemma_first_dot(bytes: Seq<u8>, from: int)
    requires
        0 <= from <= bytes.len(),
    ensures
        from <= first_dot(bytes, from) <= bytes.len(),
        forall|k: int| from <= k < first_dot(bytes, from) ==> bytes[k] != DOT,
        first_dot(bytes, from) < bytes.len() ==> bytes[first_dot(bytes, from)] == DOT,
    decreases bytes.len() - from,
{
    if from < bytes.len() && bytes[from] != DOT {
        lemma_first_dot(bytes, from + 1);
    }
}

/// The labels of `bytes` from `from` on, split at each dot (as `str::split('.')`
/// does: empty labels are kept).
pub open spec fn labels_from(bytes: Seq<u8>, from: int) -> Seq<Seq<u8>>
    decreases bytes.len() - from,
{
    if from < 0 || from > bytes.len() {
        Seq::empty()
    } else {
        let end = first_dot(bytes, from);
        proof {
            lemma_first_dot(bytes, from);
        }
        if end >= bytes.len() {
            seq![bytes.subrange(from, bytes.len() as int)]
        } else {
            seq![bytes.subrange(from, end)] + labels_from(bytes, end + 1)
        }
    }
}

/// The labels of a name given by its bytes.
pub open spec fn name_labels(bytes: Seq<u8>) -> Seq<Seq<u8>> {
    labels_from(bytes, 0)
}

/// The labels in wire form: each preceded by its length.
pub open spec fn labels_wire(labels: Seq<Seq<u8>>) -> Seq<u8>
    decreases labels.len(),
{
    if labels.len() == 0 {
        Seq::empty()
    } else {
        labels_wire(labels.drop_last()) + seq![labels.last().len() as u8] + labels.last()
    }
}

/// The index of the first label from `i` on that is too long to be written, or
/// the number of labels if there is none.
pub open spec fn first_long_label(labels: Seq<Seq<u8>>, i: int) -> int
    decreases labels.len() - i,
{
    if i < 0 || i >= labels.len() {
        labels.len() as int
    } else if labels[i].len() > MAX_LABEL_LEN {
        i
    } else {
        first_long_label(labels, i + 1)
    }
}

/// The bytes that writing a name with these labels emits: every label in wire
/// form and a closing zero, or, where a label is too long, the labels before it.
pub open spec fn name_emitted(labels: Seq<Seq<u8>>) -> Seq<u8> {
    let k = first_long_label(labels, 0);
    if k < labels.len() {
        labels_wire(labels.take(k))
    } else {
        labels_wire(labels) + seq![0u8]
    }
}

/// The wire form of fewer labels is a prefix of that of more.
pub proof fn lemma_wire_prefix(labels: Seq<Seq<u8>>, j: int, m: int)
    requires
        0 <= j <= m <= labels.len(),
    ensures
        labels_wire(labels.take(j)).len() <= labels_wire(labels.take(m)).len(),
        labels_wire(labels.take(m)).take(labels_wire(labels.take(j)).len() as int) == labels_wire(
            labels.take(j),
        ),
    decreases m - j,
{
    if j < m {
        lemma_wire_prefix(labels, j, m - 1);
        assert(labels.take(m).drop_last() =~= labels.take(m - 1));
        let a = labels_wire(labels.take(j));
        let b = labels_wire(labels.take(m - 1));
        let c = labels_wire(labels.take(m));
        assert(c.take(a.len() as int) =~= b.take(a.len() as int));
    } else {
        assert(labels_wire(labels.take(m)).take(labels_wire(labels.take(j)).len() as int) =~= labels_wire(
            labels.take(j),
        ));
    }
}

/// Locates the first too-long label when all before `i` are short.
pub proof fn lemma_first_long_label(labels: Seq<Seq<u8>>, i: int, j: int)
    requires
        0 <= i <= j <= labels.len(),
        forall|m: int| i <= m < j ==> labels[m].len() <= MAX_LABEL_LEN,
        j < labels.len() ==> labels[j].len() > MAX_LABEL_LEN,
    ensures
        first_long_label(labels, i) == j,
    decreases j - i,
{
    if i < j {
        lemma_first_long_label(labels, i + 1, j);
    }
}

/// The first long label from `i` on is not before `i`.
pub proof fn lemma_first_long_label_from(labels: Seq<Seq<u8>>, i: int)
    requires
        0 <= i <= labels.len(),
    ensures
        first_long_label(labels, i) >= i,
    decreases labels.len() - i,
{
    if i < labels.len() && labels[i].len() <= MAX_LABEL_LEN {
        lemma_first_long_label_from(labels, i + 1);
    }
}

/// When the labels from `i` up to `j` are short, the first long one is not before `j`.
pub proof fn lemma_first_long_label_at_least(labels: Seq<Seq<u8>>, i: int, j: int)
    requires
        0 <= i <= j <= labels.len(),
        forall|m: int| i <= m < j ==> labels[m].len() <= MAX_LABEL_LEN,
    ensures
        first_long_label(labels, i) >= j,
    decreases j - i,
{
    if i < j {
        assert(labels[i].len() <= MAX_LABEL_LEN);
        lemma_first_long_label_at_least(labels, i + 1, j);
    } else {
        lemma_first_long_label_from(labels, i);
    }
}

/// The index of the first dot in `bytes` at or after `from`, or its length.
fn next_dot(bytes: &[u8], from: usize) -> (end: usize)
    requires
        from <= bytes@.len(),
    ensures
        end == first_dot(bytes@, from as int),
{
    let mut i = from;
    while i < bytes.len()
        invariant
            from <= i <= bytes@.len(),
            first_dot(bytes@, from as int) == first_dot(bytes@, i as int),
        decreases bytes@.len() - i,
    {
        if bytes[i] == DOT {
            return i;
        }
        i = i + 1;
    }
    i
}

impl BytePacketBuffer {
    /// Writes `qname` as a domain name at the cursor: each dot-separated label
    /// preceded by its length, then a zero. A label longer than `MAX_LABEL_LEN`
    /// bytes is refused; the labels before it stay written.
    pub fn write_qname(&mut self, qname: &str) -> (res: Result<(), BufferError>)
        ensures
            ({
                let labels = name_labels(qname.spec_bytes());
                let emitted = name_emitted(labels);
                let written_ok = emitted.len() == 0 || fits(old(self).pos as int, emitted.len() as int);
                &&& final(self).wrote(*old(self), emitted)
                &&& (res is Ok <==> written_ok && first_long_label(labels, 0) == labels.len())
                &&& (written_ok && first_long_label(labels, 0) < labels.len() ==> res == Err::<(), BufferError>(
                    BufferError::LabelTooLong,
                ))
                &&& (!written_ok ==> res == Err::<(), BufferError>(BufferError::EndOfBuffer))
            }),
    {
        let bytes = qname.as_bytes();
        let n = bytes.len();
        let ghost labels = name_labels(bytes@);
        let ghost emitted = name_emitted(labels);
        let ghost b0 = *self;
        let mut start: usize = 0;
        let ghost mut d: int = 0;
        assert(labels.take(0) =~= Seq::<Seq<u8>>::empty());
        assert(labels_from(bytes@, 0) =~= labels.skip(0));
        assert(written(b0.data(), b0.pos as int, Seq::<u8>::empty()) =~= b0.data());
        loop
            invariant_except_break
                start <= n,
                labels_from(bytes@, start as int) == labels.skip(d),
            invariant
                n == bytes@.len(),
                bytes@ == qname.spec_bytes(),
                labels == name_labels(bytes@),
                emitted == name_emitted(labels),
                b0 == *old(self),
                b0.data().len() == PACKET_SIZE,
                0 <= d <= labels.len(),
                forall|m: int| 0 <= m < d ==> labels[m].len() <= MAX_LABEL_LEN,
                self.wrote(b0, labels_wire(labels.take(d))),
                labels_wire(labels.take(d)).len() == 0 || fits(b0.pos as int, labels_wire(labels.take(d)).len() as int),
            ensures
                d == labels.len(),
            decreases n - start,
        {
            proof {
                lemma_first_dot(bytes@, start as int);
            }
            let end = next_dot(bytes, start);
            let len = end - start;
            let ghost label = bytes@.subrange(start as int, end as int);
            assert(labels.skip(d)[0] == label);
            assert(labels.skip(d).len() >= 1);
            assert(labels.skip(d)[0] == labels[d]);
            if len > MAX_LABEL_LEN {
                proof {
                    lemma_first_long_label(labels, 0, d);
                }
                return Err(BufferError::LabelTooLong);
            }
            let ghost pre = labels_wire(labels.take(d));
            let ghost w = pre + seq![len as u8] + label;
            proof {
                assert(labels.take(d + 1).drop_last() =~= labels.take(d));
                assert(labels_wire(labels.take(d + 1)) == w);
                let k = first_long_label(labels, 0);
                let full = if k < labels.len() { k } else { labels.len() as int };
                // the label just started is short, so what is emitted extends `w`
                lemma_first_long_label_at_least(labels, 0, d + 1);
                lemma_wire_prefix(labels, d + 1, full);
                assert(labels.take(labels.len() as int) =~= labels);
                assert(emitted.take(w.len() as int) =~= w);
                assert(emitted.len() >= w.len());
                assert(pre + seq![len as u8] =~= w.take(pre.len() as int + 1));
                assert(emitted.take(pre.len() as int + 1) =~= emitted.take(w.len() as int).take(pre.len() as int + 1));
            }
            let ghost b1 = *self;
            let r = self.write_u8(len as u8);
            if r.is_err() {
                proof {
                    lemma_wrote_then(b0, b1, *self, pre, seq![len as u8]);
                    lemma_wrote_stop(b0, *self, pre + seq![len as u8], emitted.skip(pre.len() as int + 1));
                    assert(pre + seq![len as u8] + emitted.skip(pre.len() as int + 1) =~= emitted);
                }
                return r;
            }
            proof {
                lemma_wrote_then(b0, b1, *self, pre, seq![len as u8]);
            }
            let mut i = start;
            while i < end
                invariant
                    start <= i <= end <= n,
                    n == bytes@.len(),
                    len == end - start,
                    label == bytes@.subrange(start as int, end as int),
                    b0.data().len() == PACKET_SIZE,
                    b0 == *old(self),
                    bytes@ == qname.spec_bytes(),
                    labels == name_labels(bytes@),
                    emitted.take(w.len() as int) == w,
                    emitted.len() >= w.len(),
                    w == pre + seq![len as u8] + label,
                    emitted == name_emitted(labels),
                    self.wrote(b0, pre + seq![len as u8] + label.take(i - start)),
                    fits(b0.pos as int, pre.len() + 1 + (i - start)),
                decreases end - i,
            {
                let ghost b2 = *self;
                let ghost sofar = pre + seq![len as u8] + label.take(i - start);
                let r = self.write_u8(bytes[i]);
                proof {
                    lemma_wrote_then(b0, b2, *self, sofar, seq![bytes@[i as int]]);
                    assert(sofar + seq![bytes@[i as int]] =~= pre + seq![len as u8] + label.take(i + 1 - start));
                }
                if r.is_err() {
                    proof {
                        let now = sofar + seq![bytes@[i as int]];
                        assert(now =~= w.take(now.len() as int));
                        assert(emitted.take(now.len() as int) =~= emitted.take(w.len() as int).take(now.len() as int));
                        assert(now =~= emitted.take(now.len() as int));
                        assert(sofar.len() == pre.len() + 1 + (i - start));
                        assert(b2.pos == b0.pos + sofar.len());
                        assert(!fits(b0.pos as int, now.len() as int));
                        assert(emitted.len() >= now.len());
                        lemma_wrote_stop(b0, *self, now, emitted.skip(now.len() as int));
                        assert(now + emitted.skip(now.len() as int) =~= emitted);
                    }
                    return r;
                }
                i = i + 1;
            }
            proof {
                assert(label.take(end - start) =~= label);
                d = d + 1;
            }
            if end >= n {
                proof {
                    assert(labels.skip(d - 1).len() == 1);
                }
                break;
            }
            start = end + 1;
            assert(labels.skip(d) =~= labels.skip(d - 1).drop_first());
        }
        proof {
            assert(labels.take(d) =~= labels);
            lemma_first_long_label(labels, 0, labels.len() as int);
        }
        let ghost pre = labels_wire(labels);
        let ghost b3 = *self;
        let r = self.write_u8(0);
        proof {
            lemma_wrote_then(b0, b3, *self, pre, seq![0u8]);
        }
        if r.is_err() {
            return r;
        }
        Ok(())
    }
}


/// A 16-bit integer written in network order reads back as itself.
pub proof fn law_u16_roundtrip(data: Seq<u8>, pos: int, v: u16)
    requires
        data.len() == PACKET_SIZE,
        0 <= pos,
        fits(pos, 2),
    ensures
        be16(written(data, pos, be16_bytes(v))[pos], written(data, pos, be16_bytes(v))[pos + 1]) == v,
{
}

/// A 32-bit integer written in network order reads back as itself.
pub proof fn law_u32_roundtrip(data: Seq<u8>, pos: int, v: u32)
    requires
        data.len() == PACKET_SIZE,
        0 <= pos,
        fits(pos, 4),
    ensures
        ({
            let d = written(data, pos, be32_bytes(v));
            be32(d[pos], d[pos + 1], d[pos + 2], d[pos + 3]) == v
        }),
{
}

/// A byte written reads back as itself.
pub proof fn law_u8_roundtrip(data: Seq<u8>, pos: int, v: u8)
    requires
        data.len() == PACKET_SIZE,
        0 <= pos,
        fits(pos, 1),
    ensures
        written(data, pos, seq![v])[pos] == v,
{
}

/// Whether every label of a name can be written and read back as it is: none is
/// empty or longer than `MAX_LABEL_LEN` bytes.
pub open spec fn plain_labels(labels: Seq<Seq<u8>>) -> bool {
    forall|i: int| 0 <= i < labels.len() ==> 0 < #[trigger] labels[i].len() <= MAX_LABEL_LEN
}

/// Reading the wire form of `labels` from the label at index `j` on.
proof fn lemma_walk_wire(data: Seq<u8>, pos: int, labels: Seq<Seq<u8>>, j: int)
    requires
        data.len() == PACKET_SIZE,
        0 <= pos,
        plain_labels(labels),
        fits(pos, labels_wire(labels).len() as int + 1),
        0 <= j <= labels.len(),
        forall|k: int| 0 <= k < labels_wire(labels).len() + 1 ==> data[pos + k] == (labels_wire(labels)
            + seq![0u8])[k],
    ensures
        name_walk(
            data,
            pos + labels_wire(labels.take(j)).len(),
            false,
            0,
            NameWalk { labels: labels.take(j), dangling: false, cursor: None, error: None },
        ) == (NameWalk {
            labels: labels,
            dangling: false,
            cursor: Some(pos + labels_wire(labels).len() + 1),
            error: None,
        }),
    decreases labels.len() - j,
{
    let wire = labels_wire(labels);
    let wj = labels_wire(labels.take(j));
    let q = pos + wj.len();
    assert(labels.take(labels.len() as int) =~= labels);
    lemma_wire_prefix(labels, j, labels.len() as int);
    if j == labels.len() {
        assert(data[pos + wire.len()] == (wire + seq![0u8])[wire.len() as int]);
    } else {
        let l = labels[j];
        assert(0 < l.len() <= MAX_LABEL_LEN);
        lemma_wire_prefix(labels, j + 1, labels.len() as int);
        assert(labels.take(j + 1).drop_last() =~= labels.take(j));
        let wj1 = labels_wire(labels.take(j + 1));
        assert(wj1 == wj + seq![l.len() as u8] + l);
        assert(wire.take(wj1.len() as int) == wj1);
        assert(wj1.len() <= wire.len());
        assert(data[pos + wj.len()] == (wire + seq![0u8])[wj.len() as int]);
        assert(data[q] == wire[wj.len() as int]);
        assert(wire[wj.len() as int] == wj1[wj.len() as int]);
        assert(data[q] == l.len() as u8);
        assert(data.subrange(q + 1, q + 1 + l.len()) =~= l) by {
            assert forall|k: int| 0 <= k < l.len() implies data.subrange(q + 1, q + 1 + l.len())[k] == l[k] by {
                assert(data[q + 1 + k] == (wire + seq![0u8])[wj.len() + 1 + k]);
                assert(wire[wj.len() + 1 + k] == wj1[wj.len() + 1 + k]);
            }
        }
        assert(labels.take(j).push(l) =~= labels.take(j + 1));
        lemma_walk_wire(data, pos, labels, j + 1);
    }
}

/// A name written and then read back at the same place gives back its labels, in
/// order, and leaves the cursor after it: what is appended is those labels' texts
/// joined by dots. This holds for names whose labels are all non-empty and short
/// enough, written where they fit.
pub proof fn law_qname_roundtrip(b0: BytePacketBuffer, b1: BytePacketBuffer, reader: BytePacketBuffer, name: Seq<u8>)
    requires
        b0.data().len() == PACKET_SIZE,
        plain_labels(name_labels(name)),
        fits(b0.pos as int, name_emitted(name_labels(name)).len() as int),
        b1.wrote(b0, name_emitted(name_labels(name))),
        reader.data() == b1.data(),
        reader.pos == b0.pos,
    ensures
        read_name_spec(reader) == (NameWalk {
            labels: name_labels(name),
            dangling: false,
            cursor: Some(b1.pos as int),
            error: None,
        }),
        walk_text(read_name_spec(reader)) == render_labels(name_labels(name)),
{
    let labels = name_labels(name);
    lemma_first_long_label_at_least(labels, 0, labels.len() as int);
    assert(name_emitted(labels) == labels_wire(labels) + seq![0u8]);
    assert(labels.take(0) =~= Seq::<Seq<u8>>::empty());
    assert(walk_start() == NameWalk { labels: labels.take(0), dangling: false, cursor: None, error: None });
    lemma_walk_wire(reader.data(), b0.pos as int, labels, 0);
}

/// Reading a name laid out as length-prefixed labels closed by a zero byte, from
/// a buffer's cursor: every label is read, in order, the cursor ends just past
/// the zero byte, and the text appended is the labels' texts joined by dots. This
/// holds for any such layout whose labels are non-empty and at most
/// `MAX_LABEL_LEN` bytes long and which ends inside the packet.
pub proof fn law_read_name(b: BytePacketBuffer, labels: Seq<Seq<u8>>)
    requires
        plain_labels(labels),
        fits(b.pos as int, labels_wire(labels).len() as int + 1),
        forall|k: int|
            0 <= k < labels_wire(labels).len() + 1 ==> b.data()[b.pos + k] == (labels_wire(labels) + seq![0u8])[k],
    ensures
        read_name_spec(b) == (NameWalk {
            labels: labels,
            dangling: false,
            cursor: Some(b.pos + labels_wire(labels).len() + 1),
            error: None,
        }),
        walk_text(read_name_spec(b)) == render_labels(labels),
{
    assert(labels.take(0) =~= Seq::<Seq<u8>>::empty());
    assert(walk_start() == NameWalk { labels: labels.take(0), dangling: false, cursor: None, error: None });
    lemma_walk_wire(b.data(), b.pos as int, labels, 0);
}

/// The wire form of two runs of labels is the wire form of each, one after the
/// other.
proof fn lemma_wire_concat(a: Seq<Seq<u8>>, b: Seq<Seq<u8>>)
    ensures
        labels_wire(a + b) == labels_wire(a) + labels_wire(b),
    decreases b.len(),
{
    if b.len() == 0 {
        assert(a + b =~= a);
        assert(labels_wire(a) + labels_wire(b) =~= labels_wire(a));
    } else {
        assert((a + b).drop_last() =~= a + b.drop_last());
        assert((a + b).last() == b.last());
        lemma_wire_concat(a, b.drop_last());
        assert(labels_wire(a + b) =~= labels_wire(a) + labels_wire(b));
    }
}

/// The labels of the bytes from `from` on take, in wire form, one byte more than
/// those bytes: each dot becomes a length byte, and one more length byte leads.
proof fn lemma_labels_wire_len(bytes: Seq<u8>, from: int)
    requires
        0 <= from <= bytes.len(),
    ensures
        labels_wire(labels_from(bytes, from)).len() == bytes.len() - from + 1,
    decreases bytes.len() - from,
{
    lemma_first_dot(bytes, from);
    let end = first_dot(bytes, from);
    let first = seq![bytes.subrange(from, end)];
    assert(first.drop_last() =~= Seq::<Seq<u8>>::empty());
    assert(labels_wire(Seq::<Seq<u8>>::empty()).len() == 0);
    assert(first.last() == bytes.subrange(from, end));
    assert(labels_wire(first) == labels_wire(first.drop_last()) + seq![first.last().len() as u8] + first.last());
    assert(labels_wire(first).len() == end - from + 1);
    if end < bytes.len() {
        lemma_labels_wire_len(bytes, end + 1);
        lemma_wire_concat(first, labels_from(bytes, end + 1));
    }
}

/// Writing a name none of whose labels is too long emits each label preceded by
/// its length, then a zero: two bytes more than the name has. So writing it
/// succeeds exactly when that many bytes fit from the cursor.
pub proof fn law_write_name(name: Seq<u8>, pos: int)
    requires
        first_long_label(name_labels(name), 0) == name_labels(name).len(),
    ensures
        name_emitted(name_labels(name)) == labels_wire(name_labels(name)) + seq![0u8],
        name_emitted(name_labels(name)).len() == name.len() + 2,
        (name_emitted(name_labels(name)).len() == 0 || fits(pos, name_emitted(name_labels(name)).len() as int))
            <==> fits(pos, name.len() as int + 2),
{
    lemma_labels_wire_len(name, 0);
}

/// Once a compression pointer has been followed, nothing met after it moves the
/// cursor: whatever the walk reads on, the cursor stays where it was.
proof fn lemma_jumped_keeps_cursor(data: Seq<u8>, pos: int, jumps: int, acc: NameWalk)
    ensures
        name_walk(data, pos, true, jumps, acc).cursor == acc.cursor,
    decreases 6 - jumps, PACKET_SIZE - pos,
{
    if jumps <= MAX_JUMPS && 0 <= pos < PACKET_SIZE {
        let len = data[pos];
        if len >= 0xC0 {
            if pos + 1 < PACKET_SIZE {
                lemma_jumped_keeps_cursor(data, (len - 0xC0) * 256 + data[pos + 1], jumps + 1, acc);
            }
        } else if len != 0 && pos + 1 + len < PACKET_SIZE {
            let label = data.subrange(pos + 1, pos + 1 + len);
            lemma_jumped_keeps_cursor(data, pos + 1 + len, jumps, NameWalk { labels: acc.labels.push(label), ..acc });
        }
    }
}

/// After reading a name, the cursor lies just past the first compression pointer
/// met: a name at the cursor that is itself a pointer leaves the cursor two bytes
/// on, whatever the name it points to holds, later pointers included; labels
/// read before such a pointer move it past the pointer likewise.
pub proof fn law_cursor_after_pointer(b: BytePacketBuffer, labels: Seq<Seq<u8>>)
    requires
        plain_labels(labels),
        fits(b.pos as int, labels_wire(labels).len() as int + 2),
        forall|k: int|
            0 <= k < labels_wire(labels).len() ==> b.data()[b.pos + k] == labels_wire(labels)[k],
        b.data()[b.pos + labels_wire(labels).len()] >= 0xC0,
    ensures
        read_name_spec(b).cursor == Some(b.pos + labels_wire(labels).len() + 2),
{
    assert(labels.take(0) =~= Seq::<Seq<u8>>::empty());
    assert(walk_start() == NameWalk { labels: labels.take(0), dangling: false, cursor: None, error: None });
    lemma_walk_to_pointer(b.data(), b.pos as int, labels, 0);
}

/// Reading the labels of `labels` from index `j` on, laid out from `pos` and
/// followed by a pointer, reaches the pointer with no cursor set yet, and the
/// pointer sets it just past itself.
proof fn lemma_walk_to_pointer(data: Seq<u8>, pos: int, labels: Seq<Seq<u8>>, j: int)
    requires
        data.len() == PACKET_SIZE,
        0 <= pos,
        plain_labels(labels),
        fits(pos, labels_wire(labels).len() as int + 2),
        0 <= j <= labels.len(),
        forall|k: int| 0 <= k < labels_wire(labels).len() ==> data[pos + k] == labels_wire(labels)[k],
        data[pos + labels_wire(labels).len()] >= 0xC0,
    ensures
        name_walk(
            data,
            pos + labels_wire(labels.take(j)).len(),
            false,
            0,
            NameWalk { labels: labels.take(j), dangling: false, cursor: None, error: None },
        ).cursor == Some(pos + labels_wire(labels).len() + 2),
    decreases labels.len() - j,
{
    let wire = labels_wire(labels);
    let wj = labels_wire(labels.take(j));
    let q = pos + wj.len();
    assert(labels.take(labels.len() as int) =~= labels);
    lemma_wire_prefix(labels, j, labels.len() as int);
    if j == labels.len() {
        let len = data[q];
        let acc1 = NameWalk { cursor: Some(q + 2), ..NameWalk { labels: labels.take(j), dangling: false, cursor: None, error: None } };
        lemma_jumped_keeps_cursor(data, (len - 0xC0) * 256 + data[q + 1], 1, acc1);
    } else {
        let l = labels[j];
        assert(0 < l.len() <= MAX_LABEL_LEN);
        lemma_wire_prefix(labels, j + 1, labels.len() as int);
        assert(labels.take(j + 1).drop_last() =~= labels.take(j));
        let wj1 = labels_wire(labels.take(j + 1));
        assert(wj1 == wj + seq![l.len() as u8] + l);
        assert(wire.take(wj1.len() as int) == wj1);
        assert(wj1.len() <= wire.len());
        assert(data[q] == wire[wj.len() as int]);
        assert(wire[wj.len() as int] == wj1[wj.len() as int]);
        assert(data[q] == l.len() as u8);
        assert(data.subrange(q + 1, q + 1 + l.len()) =~= l) by {
            assert forall|k: int| 0 <= k < l.len() implies data.subrange(q + 1, q + 1 + l.len())[k] == l[k] by {
                assert(data[q + 1 + k] == wire[wj.len() + 1 + k]);
                assert(wire[wj.len() + 1 + k] == wj1[wj.len() + 1 + k]);
            }
        }
        assert(labels.take(j).push(l) =~= labels.take(j + 1));
        lemma_walk_to_pointer(data, pos, labels, j + 1);
    }
}

} // verus!
