//! The twelve-byte header of a message: an identifier, two bytes of flags and
//! four section counts.
//!
//! ```text
//! first flag byte:   bit 7 response, bits 6-3 opcode, bit 2 authoritative,
//!                    bit 1 truncated, bit 0 recursion desired
//! second flag byte:  bit 7 recursion available, bit 6 z, bit 5 authentic data,
//!                    bit 4 checking disabled, bits 3-0 response code
//! ```

use vstd::prelude::*;
use crate::buffer::{holds_at, splice, u16_at, u16_wire, BytePacketBuffer};
use crate::buffer::{lemma_splice_append, lemma_u16_round_trip};
use crate::codes::ResultCode;
use crate::error::DnsError;

verus! {

/// The length of a header on the wire.
pub const HEADER_LEN: usize = 12;

/// The mask of the truncation bit in the first flag byte.
pub const TC_MASK: u8 = 0x02;

#[derive(Clone, Copy, Debug, PartialEq, Eq)]
pub struct DnsHeader {
    pub id: u16,
    pub recursion_desired: bool,
    pub truncated_message: bool,
    pub authoritative_answer: bool,
    pub opcode: u8,
    pub response: bool,
    pub rescode: ResultCode,
    pub checking_disabled: bool,
    pub authed_data: bool,
    pub z: bool,
    pub recursion_available: bool,
    pub questions: u16,
    pub answers: u16,
    pub authoritative_entries: u16,
    pub resource_entries: u16,
}

/// A flag as a bit.
pub open spec fn bit(flag: bool) -> u8 {
    if flag {
        1u8
    } else {
        0u8
    }
}

/// The first flag byte of a header.
pub open spec fn flags_first(h: DnsHeader) -> u8 {
    bit(h.recursion_desired) | (bit(h.truncated_message) << 1) | (bit(h.authoritative_answer)
        << 2) | ((h.opcode & 0x0F) << 3) | (bit(h.response) << 7)
}

/// The second flag byte of a header.
pub open spec fn flags_second(h: DnsHeader) -> u8 {
    (h.rescode.num() & 0x0F) | (bit(h.checking_disabled) << 4) | (bit(h.authed_data) << 5) | (bit(
        h.z,
    ) << 6) | (bit(h.recursion_available) << 7)
}

/// A header on the wire.
pub open spec fn header_wire(h: DnsHeader) -> Seq<u8> {
    u16_wire(h.id) + seq![flags_first(h), flags_second(h)] + u16_wire(h.questions) + u16_wire(
        h.answers,
    ) + u16_wire(h.authoritative_entries) + u16_wire(h.resource_entries)
}

/// The header that the twelve bytes at `pos` spell.
pub open spec fn header_at(bytes: Seq<u8>, pos: int) -> DnsHeader {
    let a = bytes[pos + 2];
    let b = bytes[pos + 3];
    DnsHeader {
        id: u16_at(bytes, pos),
        recursion_desired: (a & 0x01) != 0,
        truncated_message: (a & 0x02) != 0,
        authoritative_answer: (a & 0x04) != 0,
        opcode: (a >> 3) & 0x0F,
        response: (a & 0x80) != 0,
        rescode: ResultCode::of_num(b & 0x0F),
        checking_disabled: (b & 0x10) != 0,
        authed_data: (b & 0x20) != 0,
        z: (b & 0x40) != 0,
        recursion_available: (b & 0x80) != 0,
        questions: u16_at(bytes, pos + 4),
        answers: u16_at(bytes, pos + 6),
        authoritative_entries: u16_at(bytes, pos + 8),
        resource_entries: u16_at(bytes, pos + 10),
    }
}

/// The opcode of a header fits its four bits.
pub open spec fn header_ok(h: DnsHeader) -> bool {
    h.opcode < 16
}

proof fn lemma_flags_first(rd: u8, tc: u8, aa: u8, opcode: u8, qr: u8)
    by (bit_vector)
    requires
        rd <= 1,
        tc <= 1,
        aa <= 1,
        qr <= 1,
        opcode < 16,
    ensures
        ({
            let a = rd | (tc << 1) | (aa << 2) | ((opcode & 0x0F) << 3) | (qr << 7);
            &&& ((a & 0x01) != 0) == (rd == 1)
            &&& ((a & 0x02) != 0) == (tc == 1)
            &&& ((a & 0x04) != 0) == (aa == 1)
            &&& ((a & 0x80) != 0) == (qr == 1)
            &&& (a >> 3) & 0x0F == opcode
        }),
{
}

proof fn lemma_flags_second(rcode: u8, cd: u8, ad: u8, z: u8, ra: u8)
    by (bit_vector)
    requires
        cd <= 1,
        ad <= 1,
        z <= 1,
        ra <= 1,
        rcode <= 5,
    ensures
        ({
            let b = (rcode & 0x0F) | (cd << 4) | (ad << 5) | (z << 6) | (ra << 7);
            &&& ((b & 0x10) != 0) == (cd == 1)
            &&& ((b & 0x20) != 0) == (ad == 1)
            &&& ((b & 0x40) != 0) == (z == 1)
            &&& ((b & 0x80) != 0) == (ra == 1)
            &&& b & 0x0F == rcode
        }),
{
}

proof fn lemma_tc_bit(rd: u8, tc: u8, aa: u8, opcode: u8, qr: u8)
    by (bit_vector)
    requires
        tc <= 1,
    ensures
        (rd | (tc << 1) | (aa << 2) | ((opcode & 0x0F) << 3) | (qr << 7)) | 0x02 == rd | (1u8
            << 1) | (aa << 2) | ((opcode & 0x0F) << 3) | (qr << 7),
{
}

/// Setting the truncation bit in the first flag byte of a written header
/// gives the header written with its truncation flag up.
pub proof fn lemma_set_truncated(h: DnsHeader)
    ensures
        header_wire(h).len() == HEADER_LEN,
        header_wire(DnsHeader { truncated_message: true, ..h }) == header_wire(h).update(
            2,
            header_wire(h)[2] | TC_MASK,
        ),
{
    let up = DnsHeader { truncated_message: true, ..h };
    let w = header_wire(h);
    let wu = header_wire(up);
    let patched = w.update(2, w[2] | TC_MASK);
    assert(flags_first(up) == flags_first(h) | TC_MASK) by {
        lemma_tc_bit(
            bit(h.recursion_desired),
            bit(h.truncated_message),
            bit(h.authoritative_answer),
            h.opcode,
            bit(h.response),
        );
    }
    assert(w.len() == 12 && wu.len() == 12);
    assert(w[2] == flags_first(h) && wu[2] == flags_first(up));
    assert(w[0] == wu[0] && w[1] == wu[1]);
    assert(w[3] == wu[3]);
    assert(w[4] == wu[4] && w[5] == wu[5] && w[6] == wu[6] && w[7] == wu[7]);
    assert(w[8] == wu[8] && w[9] == wu[9] && w[10] == wu[10] && w[11] == wu[11]);
    assert forall|i: int| 0 <= i < 12 implies wu[i] == patched[i] by {
        if i == 2 {
        } else if i < 6 {
        } else {
        }
    }
    assert(wu =~= patched);
}

proof fn lemma_tc_flag(rd: u8, tc: u8, aa: u8, opcode: u8, qr: u8)
    by (bit_vector)
    requires
        rd <= 1,
        tc <= 1,
        aa <= 1,
        qr <= 1,
    ensures
        (((rd | (tc << 1) | (aa << 2) | ((opcode & 0x0F) << 3) | (qr << 7)) & 0x02) != 0) == (tc
            == 1),
{
}

/// The truncation flag of a written header reads back as it was written, whatever the opcode.
pub proof fn lemma_truncation_flag(bytes: Seq<u8>, pos: int, h: DnsHeader)
    requires
        holds_at(bytes, pos, header_wire(h)),
    ensures
        header_at(bytes, pos).truncated_message == h.truncated_message,
{
    let w = header_wire(h);
    assert(w.len() == 12);
    assert(bytes[pos + 2] == bytes.subrange(pos, pos + 12)[2]);
    assert(w[2] == flags_first(h));
    lemma_tc_flag(
        bit(h.recursion_desired),
        bit(h.truncated_message),
        bit(h.authoritative_answer),
        h.opcode,
        bit(h.response),
    );
}

/// The identifier of a written header reads back as it was written, whatever the opcode.
pub proof fn lemma_header_id(bytes: Seq<u8>, pos: int, h: DnsHeader)
    requires
        holds_at(bytes, pos, header_wire(h)),
    ensures
        header_at(bytes, pos).id == h.id,
{
    let w = header_wire(h);
    assert(w.len() == 12);
    assert(bytes[pos] == bytes.subrange(pos, pos + 12)[0]);
    assert(bytes[pos + 1] == bytes.subrange(pos, pos + 12)[1]);
    assert(w[0] == u16_wire(h.id)[0] && w[1] == u16_wire(h.id)[1]);
    lemma_u16_round_trip(h.id);
    assert(u16_at(bytes, pos) == u16_at(u16_wire(h.id), 0));
}

/// A written header reads back as itself: where the wire form of a header
/// with a four-bit opcode stands at `pos`, the header read at `pos` is that header.
pub proof fn lemma_header_round_trip(bytes: Seq<u8>, pos: int, h: DnsHeader)
    requires
        header_ok(h),
        holds_at(bytes, pos, header_wire(h)),
    ensures
        header_at(bytes, pos) == h,
{
    let w = header_wire(h);
    assert(w.len() == 12);
    assert forall|i: int| 0 <= i < 12 implies bytes[pos + i] == #[trigger] w[i] by {
        assert(bytes.subrange(pos, pos + 12)[i] == bytes[pos + i]);
    }
    lemma_u16_round_trip(h.id);
    lemma_u16_round_trip(h.questions);
    lemma_u16_round_trip(h.answers);
    lemma_u16_round_trip(h.authoritative_entries);
    lemma_u16_round_trip(h.resource_entries);
    assert(w[0] == u16_wire(h.id)[0] && w[1] == u16_wire(h.id)[1]);
    assert(w[2] == flags_first(h) && w[3] == flags_second(h));
    assert(w[4] == u16_wire(h.questions)[0] && w[5] == u16_wire(h.questions)[1]);
    assert(w[6] == u16_wire(h.answers)[0] && w[7] == u16_wire(h.answers)[1]);
    assert(w[8] == u16_wire(h.authoritative_entries)[0] && w[9] == u16_wire(
        h.authoritative_entries,
    )[1]);
    assert(w[10] == u16_wire(h.resource_entries)[0] && w[11] == u16_wire(h.resource_entries)[1]);
    lemma_flags_first(
        bit(h.recursion_desired),
        bit(h.truncated_message),
        bit(h.authoritative_answer),
        h.opcode,
        bit(h.response),
    );
    lemma_flags_second(
        h.rescode.num(),
        bit(h.checking_disabled),
        bit(h.authed_data),
        bit(h.z),
        bit(h.recursion_available),
    );
    ResultCode::lemma_of_num_num(h.rescode);
    assert(u16_at(bytes, pos) == h.id);
    assert(u16_at(bytes, pos + 4) == h.questions);
    assert(u16_at(bytes, pos + 6) == h.answers);
    assert(u16_at(bytes, pos + 8) == h.authoritative_entries);
    assert(u16_at(bytes, pos + 10) == h.resource_entries);
}

fn flag_bit(flag: bool) -> (b: u8)
    ensures
        b == bit(flag),
{
    if flag {
        1
    } else {
        0
    }
}

impl Default for DnsHeader {
    fn default() -> (h: Self)
        ensures
            h == DnsHeader::blank(),
    {
        DnsHeader {
            id: 0,
            recursion_desired: false,
            truncated_message: false,
            authoritative_answer: false,
            opcode: 0,
            response: false,
            rescode: ResultCode::NOERROR,
            checking_disabled: false,
            authed_data: false,
            z: false,
            recursion_available: false,
            questions: 0,
            answers: 0,
            authoritative_entries: 0,
            resource_entries: 0,
        }
    }
}

impl DnsHeader {
    /// The header of an empty query: every number zero, every flag down.
    pub open spec fn blank() -> DnsHeader {
        DnsHeader {
            id: 0,
            recursion_desired: false,
            truncated_message: false,
            authoritative_answer: false,
            opcode: 0,
            response: false,
            rescode: ResultCode::NOERROR,
            checking_disabled: false,
            authed_data: false,
            z: false,
            recursion_available: false,
            questions: 0,
            answers: 0,
            authoritative_entries: 0,
            resource_entries: 0,
        }
    }

    pub fn new() -> (h: Self)
        ensures
            h == DnsHeader::blank(),
    {
        Self::default()
    }

    /// Reads a header at the cursor into `self`. On failure nothing changes.
    pub fn read(&mut self, buffer: &mut BytePacketBuffer) -> (res: Result<(), DnsError>)
        ensures
            final(buffer).buf == old(buffer).buf,
            match res {
                Ok(()) => {
                    &&& old(buffer).pos + HEADER_LEN <= old(buffer).buf@.len()
                    &&& *final(self) == header_at(old(buffer).buf@, old(buffer).pos as int)
                    &&& final(buffer).pos == old(buffer).pos + HEADER_LEN
                },
                Err(e) => {
                    &&& e == DnsError::OutOfBounds
                    &&& old(buffer).pos + HEADER_LEN > old(buffer).buf@.len()
                    &&& *final(self) == *old(self)
                    &&& final(buffer).pos == old(buffer).pos
                },
            },
    {
        if buffer.pos > buffer.buf.len() || buffer.buf.len() - buffer.pos < HEADER_LEN {
            return Err(DnsError::OutOfBounds);
        }
        let id = buffer.read_u16()?;
        let a = buffer.read()?;
        let b = buffer.read()?;
        let questions = buffer.read_u16()?;
        let answers = buffer.read_u16()?;
        let authoritative_entries = buffer.read_u16()?;
        let resource_entries = buffer.read_u16()?;

        self.id = id;
        self.recursion_desired = (a & 0x01) != 0;
        self.truncated_message = (a & 0x02) != 0;
        self.authoritative_answer = (a & 0x04) != 0;
        self.opcode = (a >> 3) & 0x0F;
        self.response = (a & 0x80) != 0;
        self.rescode = ResultCode::from(b & 0x0F);
        self.checking_disabled = (b & 0x10) != 0;
        self.authed_data = (b & 0x20) != 0;
        self.z = (b & 0x40) != 0;
        self.recursion_available = (b & 0x80) != 0;
        self.questions = questions;
        self.answers = answers;
        self.authoritative_entries = authoritative_entries;
        self.resource_entries = resource_entries;
        Ok(())
    }

    /// Writes the header at the cursor and returns the position of its first
    /// flag byte, where the truncation bit can be set later. On failure
    /// nothing changes.
    pub fn write(&self, buffer: &mut BytePacketBuffer) -> (res: Result<usize, DnsError>)
        ensures
            match res {
                Ok(flags_pos) => {
                    &&& old(buffer).pos + HEADER_LEN <= old(buffer).buf@.len()
                    &&& flags_pos == old(buffer).pos + 2
                    &&& final(buffer).buf@ == splice(
                        old(buffer).buf@,
                        old(buffer).pos as int,
                        header_wire(*self),
                    )
                    &&& final(buffer).pos == old(buffer).pos + HEADER_LEN
                },
                Err(e) => {
                    &&& e == DnsError::OutOfBounds
                    &&& old(buffer).pos + HEADER_LEN > old(buffer).buf@.len()
                    &&& *final(buffer) == *old(buffer)
                },
            },
    {
        if buffer.pos > buffer.buf.len() || buffer.buf.len() - buffer.pos < HEADER_LEN {
            return Err(DnsError::OutOfBounds);
        }
        let ghost before = buffer.buf@;
        let ghost start = buffer.pos as int;
        buffer.write_u16(self.id)?;

        let initial_pos = buffer.pos;
        let first = flag_bit(self.recursion_desired) | (flag_bit(self.truncated_message) << 1) | (
        flag_bit(self.authoritative_answer) << 2) | ((self.opcode & 0x0F) << 3) | (flag_bit(
            self.response,
        ) << 7);
        buffer.write_u8(first)?;

        let second = (self.rescode.to_num() & 0x0F) | (flag_bit(self.checking_disabled) << 4) | (
        flag_bit(self.authed_data) << 5) | (flag_bit(self.z) << 6) | (flag_bit(
            self.recursion_available,
        ) << 7);
        buffer.write_u8(second)?;
        let ghost flags = buffer.buf@;
        assert(flags =~= splice(before, start, u16_wire(self.id) + seq![first, second]));

        buffer.write_u16(self.questions)?;
        buffer.write_u16(self.answers)?;
        let ghost half = buffer.buf@;
        assert(half =~= splice(
            flags,
            start + 4,
            u16_wire(self.questions) + u16_wire(self.answers),
        ));
        buffer.write_u16(self.authoritative_entries)?;
        buffer.write_u16(self.resource_entries)?;
        assert(buffer.buf@ =~= splice(
            half,
            start + 8,
            u16_wire(self.authoritative_entries) + u16_wire(self.resource_entries),
        ));
        proof {
            let a = u16_wire(self.id) + seq![first, second];
            let b = u16_wire(self.questions) + u16_wire(self.answers);
            let c = u16_wire(self.authoritative_entries) + u16_wire(self.resource_entries);
            lemma_splice_append(before, start, a, b);
            lemma_splice_append(before, start, a + b, c);
            assert(a + b + c =~= header_wire(*self));
        }

        Ok(initial_pos)
    }
}

} // verus!
