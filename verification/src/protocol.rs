//! The DNS message header and the codes it carries.

use vstd::prelude::*;
use crate::buffer::{be16, be16_bytes, fits, written, BufferError, BytePacketBuffer, PACKET_SIZE};

verus! {

/// The response code of a DNS message.
#[derive(Copy, Clone, Debug, PartialEq, Eq, Structural)]
pub enum ResultCode {
    NOERROR,
    FORMERR,
    SERVFAIL,
    NXDOMAIN,
    NOTIMP,
    REFUSED,
}

/// The code that a number on the wire stands for; unknown numbers read as `NOERROR`.
pub open spec fn result_code_of(num: u8) -> ResultCode {
    if num == 1 {
        ResultCode::FORMERR
    } else if num == 2 {
        ResultCode::SERVFAIL
    } else if num == 3 {
        ResultCode::NXDOMAIN
    } else if num == 4 {
        ResultCode::NOTIMP
    } else if num == 5 {
        ResultCode::REFUSED
    } else {
        ResultCode::NOERROR
    }
}

/// The number that stands for a code on the wire.
pub open spec fn result_code_num(code: ResultCode) -> u8 {
    match code {
        ResultCode::NOERROR => 0,
        ResultCode::FORMERR => 1,
        ResultCode::SERVFAIL => 2,
        ResultCode::NXDOMAIN => 3,
        ResultCode::NOTIMP => 4,
        ResultCode::REFUSED => 5,
    }
}

impl ResultCode {
    /// The code that `num` stands for; unknown numbers read as `NOERROR`.
    pub fn from_num(num: u8) -> (code: ResultCode)
        ensures
            code == result_code_of(num),
    {
        match num {
            1 => ResultCode::FORMERR,
            2 => ResultCode::SERVFAIL,
            3 => ResultCode::NXDOMAIN,
            4 => ResultCode::NOTIMP,
            5 => ResultCode::REFUSED,
            _ => ResultCode::NOERROR,
        }
    }

    /// The number that stands for this code.
    pub fn to_num(&self) -> (num: u8)
        ensures
            num == result_code_num(*self),
    {
        match self {
            ResultCode::NOERROR => 0,
            ResultCode::FORMERR => 1,
            ResultCode::SERVFAIL => 2,
            ResultCode::NXDOMAIN => 3,
            ResultCode::NOTIMP => 4,
            ResultCode::REFUSED => 5,
        }
    }
}

/// Every code reads back from its number.
pub proof fn law_result_code_roundtrip(code: ResultCode)
    ensures
        result_code_of(result_code_num(code)) == code,
        result_code_num(code) <= 5,
{
}

/// The numbers up to five are read back as themselves; any other as `NOERROR`.
pub proof fn law_result_code_num_roundtrip(num: u8)
    ensures
        num <= 5 ==> result_code_num(result_code_of(num)) == num,
        num > 5 ==> result_code_of(num) == ResultCode::NOERROR,
{
}

/// The result codes carry the numbers RFC 1035 gives them: 0 no error, 1 format
/// error, 2 server failure, 3 name error, 4 not implemented, 5 refused; both
/// ways.
pub proof fn law_result_code_numbers()
    ensures
        result_code_of(0) == ResultCode::NOERROR,
        result_code_of(1) == ResultCode::FORMERR,
        result_code_of(2) == ResultCode::SERVFAIL,
        result_code_of(3) == ResultCode::NXDOMAIN,
        result_code_of(4) == ResultCode::NOTIMP,
        result_code_of(5) == ResultCode::REFUSED,
        result_code_num(ResultCode::NOERROR) == 0,
        result_code_num(ResultCode::FORMERR) == 1,
        result_code_num(ResultCode::SERVFAIL) == 2,
        result_code_num(ResultCode::NXDOMAIN) == 3,
        result_code_num(ResultCode::NOTIMP) == 4,
        result_code_num(ResultCode::REFUSED) == 5,
{
}

/// The record type a query asks for.
#[derive(PartialEq, Eq, Debug, Clone, Hash, Copy, Structural)]
pub enum QueryType {
    UNKNOWN(u16),
    A,
    NS,
    CNAME,
    MX,
    AAAA,
}

/// The number that stands for a query type on the wire.
pub open spec fn query_type_num(q: QueryType) -> u16 {
    match q {
        QueryType::UNKNOWN(x) => x,
        QueryType::A => 1,
        QueryType::NS => 2,
        QueryType::CNAME => 5,
        QueryType::MX => 15,
        QueryType::AAAA => 28,
    }
}

/// The query type that a number stands for.
pub open spec fn query_type_of(num: u16) -> QueryType {
    if num == 1 {
        QueryType::A
    } else if num == 2 {
        QueryType::NS
    } else if num == 5 {
        QueryType::CNAME
    } else if num == 15 {
        QueryType::MX
    } else if num == 28 {
        QueryType::AAAA
    } else {
        QueryType::UNKNOWN(num)
    }
}

/// Whether `num` stands for one of the named query types.
pub open spec fn is_known_query_num(num: u16) -> bool {
    num == 1 || num == 2 || num == 5 || num == 15 || num == 28
}

impl QueryType {
    /// The number that stands for this query type.
    pub fn to_num(&self) -> (num: u16)
        ensures
            num == query_type_num(*self),
    {
        match *self {
            QueryType::UNKNOWN(x) => x,
            QueryType::A => 1,
            QueryType::NS => 2,
            QueryType::CNAME => 5,
            QueryType::MX => 15,
            QueryType::AAAA => 28,
        }
    }

    /// The query type that `num` stands for.
    pub fn from_num(num: u16) -> (q: QueryType)
        ensures
            q == query_type_of(num),
    {
        match num {
            1 => QueryType::A,
            2 => QueryType::NS,
            5 => QueryType::CNAME,
            15 => QueryType::MX,
            28 => QueryType::AAAA,
            _ => QueryType::UNKNOWN(num),
        }
    }
}

/// Every number reads back as itself.
pub proof fn law_query_type_num_roundtrip(num: u16)
    ensures
        query_type_num(query_type_of(num)) == num,
{
}

/// Every query type reads back from its number, but an `UNKNOWN` holding the
/// number of a named type, which reads back as that type.
pub proof fn law_query_type_roundtrip(q: QueryType)
    ensures
        !(q matches QueryType::UNKNOWN(x) && is_known_query_num(x)) ==> query_type_of(query_type_num(q)) == q,
        q matches QueryType::UNKNOWN(x) && is_known_query_num(x) ==> query_type_of(query_type_num(q)) != q,
{
}


/// The header of a DNS message.
#[derive(Clone, Copy, Debug, PartialEq, Eq, Structural)]
pub struct DnsHeader {
    pub id: u16,
    pub recursion_desired: bool,
    pub truncated_message: bool,
    pub authoritative_answer: bool,
    pub opcode: u8,
    pub response: bool,
    pub rescode: ResultCode,
    pub checking_disabled: bool,
    pub authed_data: bool,
    pub z: bool,
    pub recursion_available: bool,
    pub questions: u16,
    pub answers: u16,
    pub authoritative_entries: u16,
    pub resource_entries: u16,
}

/// The bit that stands for a flag.
pub open spec fn bit(b: bool) -> u8 {
    if b {
        1
    } else {
        0
    }
}

/// The header's first flags byte: recursion desired, truncated, authoritative,
/// the opcode (which must fit in four bits to be read back) and response.
pub open spec fn flags_hi(h: DnsHeader) -> u8 {
    bit(h.recursion_desired) | (bit(h.truncated_message) << 1u8) | (bit(h.authoritative_answer) << 2u8) | (
    h.opcode << 3u8) | (bit(h.response) << 7u8)
}

/// The header's second flags byte: result code, checking disabled, authenticated
/// data, the reserved bit and recursion available.
pub open spec fn flags_lo(h: DnsHeader) -> u8 {
    result_code_num(h.rescode) | (bit(h.checking_disabled) << 4u8) | (bit(h.authed_data) << 5u8) | (bit(
        h.z,
    ) << 6u8) | (bit(h.recursion_available) << 7u8)
}

/// The twelve bytes of a header on the wire.
pub open spec fn header_bytes(h: DnsHeader) -> Seq<u8> {
    be16_bytes(h.id) + seq![flags_hi(h), flags_lo(h)] + be16_bytes(h.questions) + be16_bytes(h.answers)
        + be16_bytes(h.authoritative_entries) + be16_bytes(h.resource_entries)
}

/// The 16-bit word at `p`.
pub open spec fn word_at(d: Seq<u8>, p: int) -> u16 {
    be16(d[p], d[p + 1]) as u16
}

/// `h` with its flags taken from the two flags bytes `a` and `b`: bit 0 of `a`
/// is recursion desired, bit 1 truncated, bit 2 authoritative, bits 3 to 6 the
/// opcode and bit 7 response; the low four bits of `b` are the result code, then
/// come checking disabled, authenticated data, the reserved bit and recursion
/// available.
pub open spec fn with_flags(h: DnsHeader, a: u8, b: u8) -> DnsHeader {
    DnsHeader {
        recursion_desired: a % 2 == 1,
        truncated_message: (a / 2) % 2 == 1,
        authoritative_answer: (a / 4) % 2 == 1,
        opcode: ((a / 8) % 16) as u8,
        response: a >= 128,
        rescode: result_code_of(b % 16),
        checking_disabled: (b / 16) % 2 == 1,
        authed_data: (b / 32) % 2 == 1,
        z: (b / 64) % 2 == 1,
        recursion_available: b >= 128,
        ..h
    }
}

/// `h` after a header was read from `d` at `p`: each field whose bytes lie
/// within the packet is taken from them (the flags as `with_flags` says), the
/// others stay as they were.
pub open spec fn header_read(h: DnsHeader, d: Seq<u8>, p: int) -> DnsHeader {
    let w2 = fits(p, 4);
    let a = d[p + 2];
    let b = d[p + 3];
    DnsHeader {
        id: if fits(p, 2) { word_at(d, p) } else { h.id },
        recursion_desired: if w2 { a % 2 == 1 } else { h.recursion_desired },
        truncated_message: if w2 { (a / 2) % 2 == 1 } else { h.truncated_message },
        authoritative_answer: if w2 { (a / 4) % 2 == 1 } else { h.authoritative_answer },
        opcode: if w2 { ((a / 8) % 16) as u8 } else { h.opcode },
        response: if w2 { a >= 128 } else { h.response },
        rescode: if w2 { result_code_of(b % 16) } else { h.rescode },
        checking_disabled: if w2 { (b / 16) % 2 == 1 } else { h.checking_disabled },
        authed_data: if w2 { (b / 32) % 2 == 1 } else { h.authed_data },
        z: if w2 { (b / 64) % 2 == 1 } else { h.z },
        recursion_available: if w2 { b >= 128 } else { h.recursion_available },
        questions: if fits(p, 6) { word_at(d, p + 4) } else { h.questions },
        answers: if fits(p, 8) { word_at(d, p + 6) } else { h.answers },
        authoritative_entries: if fits(p, 10) { word_at(d, p + 8) } else { h.authoritative_entries },
        resource_entries: if fits(p, 12) { word_at(d, p + 10) } else { h.resource_entries },
    }
}

/// Writing `next` after `done` composes, and once a write does not fit the
/// buffer is as after writing all of `total`.
proof fn lemma_write_step(
    b0: BytePacketBuffer,
    b1: BytePacketBuffer,
    b2: BytePacketBuffer,
    done: Seq<u8>,
    next: Seq<u8>,
    total: Seq<u8>,
)
    requires
        b0.data().len() == PACKET_SIZE,
        b1.wrote(b0, done),
        done.len() == 0 || fits(b0.pos as int, done.len() as int),
        b2.wrote(b1, next),
        total.len() >= done.len() + next.len(),
        total.take((done.len() + next.len()) as int) == done + next,
    ensures
        b2.wrote(b0, done + next),
        !fits(b0.pos as int, (done.len() + next.len()) as int) ==> b2.wrote(b0, total),
{
    crate::buffer::lemma_wrote_then(b0, b1, b2, done, next);
    if !fits(b0.pos as int, (done.len() + next.len()) as int) {
        crate::buffer::lemma_wrote_stop(b0, b2, done + next, total.skip((done.len() + next.len()) as int));
        assert(done + next + total.skip((done.len() + next.len()) as int) =~= total);
    }
}

impl DnsHeader {
    /// The header with every field zero, false or `NOERROR`.
    pub open spec fn spec_new() -> DnsHeader {
        DnsHeader {
            id: 0,
            recursion_desired: false,
            truncated_message: false,
            authoritative_answer: false,
            opcode: 0,
            response: false,
            rescode: ResultCode::NOERROR,
            checking_disabled: false,
            authed_data: false,
            z: false,
            recursion_available: false,
            questions: 0,
            answers: 0,
            authoritative_entries: 0,
            resource_entries: 0,
        }
    }

    /// A header with every field zero, false or `NOERROR`.
    pub fn new() -> (h: DnsHeader)
        ensures
            h == DnsHeader::spec_new(),
    {
        DnsHeader {
            id: 0,
            recursion_desired: false,
            truncated_message: false,
            authoritative_answer: false,
            opcode: 0,
            response: false,
            rescode: ResultCode::NOERROR,
            checking_disabled: false,
            authed_data: false,
            z: false,
            recursion_available: false,
            questions: 0,
            answers: 0,
            authoritative_entries: 0,
            resource_entries: 0,
        }
    }

    /// Reads a header at the buffer's cursor. Fields are set as their bytes are
    /// read; when the packet ends early, the fields read before stay set.
    #[verifier::spinoff_prover]
    pub fn read(&mut self, buffer: &mut BytePacketBuffer) -> (res: Result<(), BufferError>)
        ensures
            final(buffer).advanced(*old(buffer), 12),
            *final(self) == header_read(*old(self), old(buffer).data(), old(buffer).pos as int),
            res is Ok <==> fits(old(buffer).pos as int, 12),
            res is Err ==> res == Err::<(), BufferError>(BufferError::EndOfBuffer),
    {
        let ghost d = buffer.data();
        let ghost p = buffer.pos as int;
        self.read_head(buffer)?;
        assert(buffer.data() == d && buffer.pos == p + 4);
        self.read_counts(buffer)?;
        Ok(())
    }

    /// Reads the identifier and the flags at the buffer's cursor. Each is set as
    /// it is read.
    fn read_head(&mut self, buffer: &mut BytePacketBuffer) -> (res: Result<(), BufferError>)
        ensures
            final(buffer).advanced(*old(buffer), 4),
            ({
                let d = old(buffer).data();
                let p = old(buffer).pos as int;
                let h1 = if fits(p, 2) { DnsHeader { id: word_at(d, p), ..*old(self) } } else { *old(self) };
                *final(self) == if fits(p, 4) { with_flags(h1, d[p + 2], d[p + 3]) } else { h1 }
            }),
            res is Ok <==> fits(old(buffer).pos as int, 4),
            res is Err ==> res == Err::<(), BufferError>(BufferError::EndOfBuffer),
    {
        self.id = buffer.read_u16()?;
        self.read_flags(buffer)?;
        Ok(())
    }

    /// Reads the four section counts at the buffer's cursor. Each is set as it is
    /// read; when the packet ends early, the counts read before stay set.
    fn read_counts(&mut self, buffer: &mut BytePacketBuffer) -> (res: Result<(), BufferError>)
        ensures
            final(buffer).advanced(*old(buffer), 8),
            ({
                let d = old(buffer).data();
                let p = old(buffer).pos as int;
                *final(self) == DnsHeader {
                    questions: if fits(p, 2) { word_at(d, p) } else { old(self).questions },
                    answers: if fits(p, 4) { word_at(d, p + 2) } else { old(self).answers },
                    authoritative_entries: if fits(p, 6) { word_at(d, p + 4) } else { old(self).authoritative_entries },
                    resource_entries: if fits(p, 8) { word_at(d, p + 6) } else { old(self).resource_entries },
                    ..*old(self)
                }
            }),
            res is Ok <==> fits(old(buffer).pos as int, 8),
            res is Err ==> res == Err::<(), BufferError>(BufferError::EndOfBuffer),
    {
        self.questions = buffer.read_u16()?;
        self.answers = buffer.read_u16()?;
        self.authoritative_entries = buffer.read_u16()?;
        self.resource_entries = buffer.read_u16()?;
        Ok(())
    }

    /// Reads the two flags bytes at the buffer's cursor into the header's flags.
    fn read_flags(&mut self, buffer: &mut BytePacketBuffer) -> (res: Result<(), BufferError>)
        ensures
            final(buffer).advanced(*old(buffer), 2),
            fits(old(buffer).pos as int, 2) ==> res is Ok && *final(self) == with_flags(
                *old(self),
                old(buffer).data()[old(buffer).pos as int],
                old(buffer).data()[old(buffer).pos + 1],
            ),
            !fits(old(buffer).pos as int, 2) ==> res == Err::<(), BufferError>(BufferError::EndOfBuffer)
                && *final(self) == *old(self),
    {
        let ghost d = buffer.data();
        let ghost p = buffer.pos as int;
        let flags = buffer.read_u16()?;
        let a = (flags >> 8) as u8;
        let b = (flags & 0xFF) as u8;
        let ghost d0 = d[p];
        let ghost d1 = d[p + 1];
        assert(a == d0 && b == d1) by (bit_vector)
            requires
                flags == d0 * 256 + d1,
                a == (flags >> 8) as u8,
                b == (flags & 0xFF) as u8,
        ;
        let rd = (a & (1 << 0)) > 0;
        let tc = (a & (1 << 1)) > 0;
        let aa = (a & (1 << 2)) > 0;
        let op = (a >> 3) & 0x0F;
        let qr = (a & (1 << 7)) > 0;
        let rc = b & 0x0F;
        let cd = (b & (1 << 4)) > 0;
        let ad = (b & (1 << 5)) > 0;
        let zz = (b & (1 << 6)) > 0;
        let ra = (b & (1 << 7)) > 0;
        assert(rd == (a % 2 == 1) && tc == ((a / 2) % 2 == 1) && aa == ((a / 4) % 2 == 1) && op == (a / 8) % 16
            && qr == (a >= 128)) by (bit_vector)
            requires
                rd == ((a & (1u8 << 0u8)) > 0),
                tc == ((a & (1u8 << 1u8)) > 0),
                aa == ((a & (1u8 << 2u8)) > 0),
                op == (a >> 3u8) & 0x0Fu8,
                qr == ((a & (1u8 << 7u8)) > 0),
        ;
        assert(rc == b % 16 && cd == ((b / 16) % 2 == 1) && ad == ((b / 32) % 2 == 1) && zz == ((b / 64) % 2 == 1)
            && ra == (b >= 128)) by (bit_vector)
            requires
                rc == b & 0x0Fu8,
                cd == ((b & (1u8 << 4u8)) > 0),
                ad == ((b & (1u8 << 5u8)) > 0),
                zz == ((b & (1u8 << 6u8)) > 0),
                ra == ((b & (1u8 << 7u8)) > 0),
        ;
        self.recursion_desired = rd;
        self.truncated_message = tc;
        self.authoritative_answer = aa;
        self.opcode = op;
        self.response = qr;
        self.rescode = ResultCode::from_num(rc);
        self.checking_disabled = cd;
        self.authed_data = ad;
        self.z = zz;
        self.recursion_available = ra;
        Ok(())
    }


    /// Writes the header at the buffer's cursor.
    pub fn write(&self, buffer: &mut BytePacketBuffer) -> (res: Result<(), BufferError>)
        ensures
            final(buffer).wrote(*old(buffer), header_bytes(*self)),
            res is Ok <==> fits(old(buffer).pos as int, 12),
            res is Err ==> res == Err::<(), BufferError>(BufferError::EndOfBuffer),
    {
        let ghost total = header_bytes(*self);
        let ghost b0 = *buffer;
        let ghost head = be16_bytes(self.id) + seq![flags_hi(*self), flags_lo(*self)];
        let ghost counts = be16_bytes(self.questions) + be16_bytes(self.answers) + be16_bytes(
            self.authoritative_entries,
        ) + be16_bytes(self.resource_entries);
        assert(total =~= head + counts);
        let r = self.write_head(buffer);
        if r.is_err() {
            proof {
                crate::buffer::lemma_wrote_stop(b0, *buffer, head, counts);
            }
            return r;
        }
        let ghost b1 = *buffer;
        let r = self.write_counts(buffer);
        proof {
            crate::buffer::lemma_wrote_then(b0, b1, *buffer, head, counts);
        }
        r
    }

    /// Writes the identifier and the two flags bytes at the buffer's cursor.
    fn write_head(&self, buffer: &mut BytePacketBuffer) -> (res: Result<(), BufferError>)
        ensures
            final(buffer).wrote(*old(buffer), be16_bytes(self.id) + seq![flags_hi(*self), flags_lo(*self)]),
            res is Ok <==> fits(old(buffer).pos as int, 4),
            res is Err ==> res == Err::<(), BufferError>(BufferError::EndOfBuffer),
    {
        let ghost total = be16_bytes(self.id) + seq![flags_hi(*self), flags_lo(*self)];
        let ghost b0 = *buffer;
        let r = buffer.write_u16(self.id);
        if r.is_err() {
            proof {
                crate::buffer::lemma_wrote_stop(b0, *buffer, be16_bytes(self.id), seq![flags_hi(*self), flags_lo(*self)]);
            }
            return r;
        }
        let hi = (if self.recursion_desired { 1u8 } else { 0u8 }) | ((if self.truncated_message { 1u8 } else { 0u8 })
            << 1) | ((if self.authoritative_answer { 1u8 } else { 0u8 }) << 2) | (self.opcode << 3) | ((
        if self.response { 1u8 } else { 0u8 }) << 7);
        assert(hi == flags_hi(*self));
        let ghost b1 = *buffer;
        let r = buffer.write_u8(hi);
        proof {
            crate::buffer::lemma_wrote_then(b0, b1, *buffer, be16_bytes(self.id), seq![hi]);
        }
        if r.is_err() {
            proof {
                crate::buffer::lemma_wrote_stop(b0, *buffer, be16_bytes(self.id) + seq![hi], seq![flags_lo(*self)]);
                assert(be16_bytes(self.id) + seq![hi] + seq![flags_lo(*self)] =~= total);
            }
            return r;
        }
        let lo = self.rescode.to_num() | ((if self.checking_disabled { 1u8 } else { 0u8 }) << 4) | ((
        if self.authed_data { 1u8 } else { 0u8 }) << 5) | ((if self.z { 1u8 } else { 0u8 }) << 6) | ((
        if self.recursion_available { 1u8 } else { 0u8 }) << 7);
        assert(lo == flags_lo(*self));
        let ghost b2 = *buffer;
        let r = buffer.write_u8(lo);
        proof {
            crate::buffer::lemma_wrote_then(b0, b2, *buffer, be16_bytes(self.id) + seq![hi], seq![lo]);
            assert(be16_bytes(self.id) + seq![hi] + seq![lo] =~= total);
        }
        r
    }

    /// Writes the four section counts at the buffer's cursor.
    fn write_counts(&self, buffer: &mut BytePacketBuffer) -> (res: Result<(), BufferError>)
        ensures
            final(buffer).wrote(
                *old(buffer),
                be16_bytes(self.questions) + be16_bytes(self.answers) + be16_bytes(self.authoritative_entries)
                    + be16_bytes(self.resource_entries),
            ),
            res is Ok <==> fits(old(buffer).pos as int, 8),
            res is Err ==> res == Err::<(), BufferError>(BufferError::EndOfBuffer),
    {
        let ghost total = be16_bytes(self.questions) + be16_bytes(self.answers) + be16_bytes(
            self.authoritative_entries,
        ) + be16_bytes(self.resource_entries);
        let ghost b0 = *buffer;
        assert(written(b0.data(), b0.pos as int, Seq::<u8>::empty()) =~= b0.data());
        let ghost done = Seq::<u8>::empty();
        let r = buffer.write_u16(self.questions);
        proof {
            assert(total.take(2) =~= done + be16_bytes(self.questions));
            lemma_write_step(b0, b0, *buffer, done, be16_bytes(self.questions), total);
            done = done + be16_bytes(self.questions);
        }
        if r.is_err() {
            return r;
        }
        let ghost b1 = *buffer;
        let r = buffer.write_u16(self.answers);
        proof {
            assert(total.take(4) =~= done + be16_bytes(self.answers));
            lemma_write_step(b0, b1, *buffer, done, be16_bytes(self.answers), total);
            done = done + be16_bytes(self.answers);
        }
        if r.is_err() {
            return r;
        }
        let ghost b2 = *buffer;
        let r = buffer.write_u16(self.authoritative_entries);
        proof {
            assert(total.take(6) =~= done + be16_bytes(self.authoritative_entries));
            lemma_write_step(b0, b2, *buffer, done, be16_bytes(self.authoritative_entries), total);
            done = done + be16_bytes(self.authoritative_entries);
        }
        if r.is_err() {
            return r;
        }
        let ghost b3 = *buffer;
        let r = buffer.write_u16(self.resource_entries);
        proof {
            assert(total.take(8) =~= done + be16_bytes(self.resource_entries));
            lemma_write_step(b0, b3, *buffer, done, be16_bytes(self.resource_entries), total);
            assert(done + be16_bytes(self.resource_entries) =~= total);
        }
        r
    }
}


/// Decoding the first flags byte gives back what was packed into it.
proof fn lemma_flags_hi_decode(rd: u8, tc: u8, aa: u8, op: u8, qr: u8)
    by (bit_vector)
    requires
        rd <= 1,
        tc <= 1,
        aa <= 1,
        qr <= 1,
        op < 16,
    ensures
        ({
            let a = rd | (tc << 1u8) | (aa << 2u8) | (op << 3u8) | (qr << 7u8);
            &&& a % 2 == rd
            &&& (a / 2) % 2 == tc
            &&& (a / 4) % 2 == aa
            &&& (a / 8) % 16 == op
            &&& (a >= 128) == (qr == 1)
        }),
{
}

/// Decoding the second flags byte gives back what was packed into it.
proof fn lemma_flags_lo_decode(rc: u8, cd: u8, ad: u8, z: u8, ra: u8)
    by (bit_vector)
    requires
        rc < 16,
        cd <= 1,
        ad <= 1,
        z <= 1,
        ra <= 1,
    ensures
        ({
            let b = rc | (cd << 4u8) | (ad << 5u8) | (z << 6u8) | (ra << 7u8);
            &&& b % 16 == rc
            &&& (b / 16) % 2 == cd
            &&& (b / 32) % 2 == ad
            &&& (b / 64) % 2 == z
            &&& (b >= 128) == (ra == 1)
        }),
{
}

/// A header written and then read back at the same place is the header that was
/// written, whatever the header read into held before, as long as its opcode
/// fits in the four bits the wire gives it.
pub proof fn law_header_roundtrip(h: DnsHeader, before: DnsHeader, data: Seq<u8>, pos: int)
    requires
        data.len() == PACKET_SIZE,
        0 <= pos,
        fits(pos, 12),
        h.opcode < 16,
    ensures
        header_read(before, written(data, pos, header_bytes(h)), pos) == h,
{
    let d = written(data, pos, header_bytes(h));
    let bytes = header_bytes(h);
    assert(d[pos + 2] == flags_hi(h));
    assert(d[pos + 3] == flags_lo(h));
    lemma_flags_hi_decode(bit(h.recursion_desired), bit(h.truncated_message), bit(h.authoritative_answer), h.opcode, bit(h.response));
    lemma_flags_lo_decode(result_code_num(h.rescode), bit(h.checking_disabled), bit(h.authed_data), bit(h.z), bit(h.recursion_available));
    law_result_code_roundtrip(h.rescode);
    assert(word_at(d, pos) == h.id);
    assert(word_at(d, pos + 4) == h.questions);
    assert(word_at(d, pos + 6) == h.answers);
    assert(word_at(d, pos + 8) == h.authoritative_entries);
    assert(word_at(d, pos + 10) == h.resource_entries);
}


/// A DNS message, as far as it is carried here: its header.
#[derive(Clone, Copy, Debug, PartialEq, Eq, Structural)]
pub struct DnsPacket {
    pub header: DnsHeader,
}

impl DnsPacket {
    /// A message with an empty header.
    pub fn new() -> (p: DnsPacket)
        ensures
            p.header == DnsHeader::spec_new(),
    {
        DnsPacket { header: DnsHeader::new() }
    }
}

} // verus!
