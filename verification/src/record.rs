//! Resource records: an owner name, a type, a time to live, and data whose
//! shape the type decides.
//!
//! An address is held as the number that its bytes spell in network order:
//! 32 bits for an `A` record, 128 bits for an `AAAA` record.

use vstd::prelude::*;
use crate::buffer::{holds_at, splice, u16_at, u16_wire, u32_at, u32_wire, BytePacketBuffer};
use crate::buffer::{lemma_holds_split, lemma_splice_append, lemma_u16_holds, lemma_u32_holds};
use crate::buffer::lemma_splice_patch;
use crate::codes::QueryType;
use crate::error::DnsError;
use crate::name::{canonical_name, labels_fit, lemma_labels_round_trip, lemma_name_wire_len};
use crate::name::{name_end, name_ok, name_text};
use crate::name::{name_wire, parse_labels, split_labels, split_name};
use crate::question::name_whole;

verus! {

/// The largest RDATA that the 16-bit RDLENGTH can announce.
pub const MAX_RDATA_LEN: usize = 0xFFFF;

#[derive(Debug, Clone, PartialEq, Eq, Hash, PartialOrd, Ord)]
pub enum DnsRecord {
    UNKNOWN { domain: String, qtype: u16, data_len: u16, ttl: u32 },
    A { domain: String, addr: u32, ttl: u32 },
    NS { domain: String, host: String, ttl: u32 },
    CNAME { domain: String, host: String, ttl: u32 },
    MX { domain: String, priority: u16, host: String, ttl: u32 },
    AAAA { domain: String, addr: u128, ttl: u32 },
}

/// A record as a value, its names as texts.
pub enum RecordView {
    UNKNOWN { domain: Seq<char>, qtype: u16, data_len: u16, ttl: u32 },
    A { domain: Seq<char>, addr: u32, ttl: u32 },
    NS { domain: Seq<char>, host: Seq<char>, ttl: u32 },
    CNAME { domain: Seq<char>, host: Seq<char>, ttl: u32 },
    MX { domain: Seq<char>, priority: u16, host: Seq<char>, ttl: u32 },
    AAAA { domain: Seq<char>, addr: u128, ttl: u32 },
}

impl View for DnsRecord {
    type V = RecordView;

    open spec fn view(&self) -> RecordView {
        match *self {
            DnsRecord::UNKNOWN { domain, qtype, data_len, ttl } => RecordView::UNKNOWN {
                domain: domain@,
                qtype,
                data_len,
                ttl,
            },
            DnsRecord::A { domain, addr, ttl } => RecordView::A { domain: domain@, addr, ttl },
            DnsRecord::NS { domain, host, ttl } => RecordView::NS {
                domain: domain@,
                host: host@,
                ttl,
            },
            DnsRecord::CNAME { domain, host, ttl } => RecordView::CNAME {
                domain: domain@,
                host: host@,
                ttl,
            },
            DnsRecord::MX { domain, priority, host, ttl } => RecordView::MX {
                domain: domain@,
                priority,
                host: host@,
                ttl,
            },
            DnsRecord::AAAA { domain, addr, ttl } => RecordView::AAAA {
                domain: domain@,
                addr,
                ttl,
            },
        }
    }
}

impl RecordView {
    /// The owner name.
    pub open spec fn domain(self) -> Seq<char> {
        match self {
            RecordView::UNKNOWN { domain, .. } => domain,
            RecordView::A { domain, .. } => domain,
            RecordView::NS { domain, .. } => domain,
            RecordView::CNAME { domain, .. } => domain,
            RecordView::MX { domain, .. } => domain,
            RecordView::AAAA { domain, .. } => domain,
        }
    }

    /// The time to live, in seconds.
    pub open spec fn ttl(self) -> u32 {
        match self {
            RecordView::UNKNOWN { ttl, .. } => ttl,
            RecordView::A { ttl, .. } => ttl,
            RecordView::NS { ttl, .. } => ttl,
            RecordView::CNAME { ttl, .. } => ttl,
            RecordView::MX { ttl, .. } => ttl,
            RecordView::AAAA { ttl, .. } => ttl,
        }
    }

    /// The number of the record's type.
    pub open spec fn type_num(self) -> u16 {
        match self {
            RecordView::UNKNOWN { qtype, .. } => qtype,
            RecordView::A { .. } => 1,
            RecordView::NS { .. } => 2,
            RecordView::CNAME { .. } => 5,
            RecordView::MX { .. } => 15,
            RecordView::AAAA { .. } => 28,
        }
    }

    /// The same record with both its names in the form in which they come back from the wire.
    pub open spec fn canonical(self) -> RecordView {
        match self {
            RecordView::UNKNOWN { domain, qtype, data_len, ttl } => RecordView::UNKNOWN {
                domain: canonical_name(domain),
                qtype,
                data_len,
                ttl,
            },
            RecordView::A { domain, addr, ttl } => RecordView::A {
                domain: canonical_name(domain),
                addr,
                ttl,
            },
            RecordView::NS { domain, host, ttl } => RecordView::NS {
                domain: canonical_name(domain),
                host: canonical_name(host),
                ttl,
            },
            RecordView::CNAME { domain, host, ttl } => RecordView::CNAME {
                domain: canonical_name(domain),
                host: canonical_name(host),
                ttl,
            },
            RecordView::MX { domain, priority, host, ttl } => RecordView::MX {
                domain: canonical_name(domain),
                priority,
                host: canonical_name(host),
                ttl,
            },
            RecordView::AAAA { domain, addr, ttl } => RecordView::AAAA {
                domain: canonical_name(domain),
                addr,
                ttl,
            },
        }
    }
}

/// The sixteen bytes of a 128-bit number, most significant first.
pub open spec fn u128_wire(val: u128) -> Seq<u8> {
    u32_wire((val >> 96) as u32) + u32_wire((val >> 64) as u32) + u32_wire((val >> 32) as u32)
        + u32_wire(val as u32)
}

/// The 128-bit number that the sixteen bytes at `pos` spell.
pub open spec fn u128_at(bytes: Seq<u8>, pos: int) -> u128 {
    ((u32_at(bytes, pos) as u128) << 96) | ((u32_at(bytes, pos + 4) as u128) << 64) | ((u32_at(
        bytes,
        pos + 8,
    ) as u128) << 32) | (u32_at(bytes, pos + 12) as u128)
}

/// What every record starts with: owner name, type, class 1 and time to live.
pub open spec fn record_prefix(domain: Seq<char>, qtype: u16, ttl: u32) -> Seq<u8> {
    name_wire(domain) + u16_wire(qtype) + u16_wire(1) + u32_wire(ttl)
}

/// A record on the wire, given its data: the prefix, the length of the data, the data.
pub open spec fn record_with(domain: Seq<char>, qtype: u16, ttl: u32, rdata: Seq<u8>) -> Seq<u8> {
    record_prefix(domain, qtype, ttl) + u16_wire(rdata.len() as u16) + rdata
}

/// The data of a record on the wire. A record of unknown type has none.
pub open spec fn record_rdata(r: RecordView) -> Seq<u8> {
    match r {
        RecordView::UNKNOWN { .. } => Seq::<u8>::empty(),
        RecordView::A { addr, .. } => u32_wire(addr),
        RecordView::NS { host, .. } => name_wire(host),
        RecordView::CNAME { host, .. } => name_wire(host),
        RecordView::MX { priority, host, .. } => u16_wire(priority) + name_wire(host),
        RecordView::AAAA { addr, .. } => u128_wire(addr),
    }
}

/// A record on the wire. A record of unknown type is skipped: it has no wire form.
pub open spec fn record_wire(r: RecordView) -> Seq<u8> {
    if r is UNKNOWN {
        Seq::<u8>::empty()
    } else {
        record_with(r.domain(), r.type_num(), r.ttl(), record_rdata(r))
    }
}

/// Every label of every name that would be written fits a length byte.
pub open spec fn record_names_ok(r: RecordView) -> bool {
    match r {
        RecordView::UNKNOWN { .. } => true,
        RecordView::A { domain, .. } => name_ok(domain),
        RecordView::NS { domain, host, .. } => name_ok(domain) && name_ok(host),
        RecordView::CNAME { domain, host, .. } => name_ok(domain) && name_ok(host),
        RecordView::MX { domain, host, .. } => name_ok(domain) && name_ok(host),
        RecordView::AAAA { domain, .. } => name_ok(domain),
    }
}

/// No name that would be written has an empty label.
pub open spec fn record_names_whole(r: RecordView) -> bool {
    match r {
        RecordView::UNKNOWN { .. } => true,
        RecordView::A { domain, .. } => name_whole(domain),
        RecordView::NS { domain, host, .. } => name_whole(domain) && name_whole(host),
        RecordView::CNAME { domain, host, .. } => name_whole(domain) && name_whole(host),
        RecordView::MX { domain, host, .. } => name_whole(domain) && name_whole(host),
        RecordView::AAAA { domain, .. } => name_whole(domain),
    }
}

/// The record can be written: its names are in order and RDLENGTH can hold the length of its data.
pub open spec fn record_ok(r: RecordView) -> bool {
    record_names_ok(r) && record_rdata(r).len() <= MAX_RDATA_LEN
}

/// Why a record is not written, where it is not: a label is too long; or the
/// data is longer than RDLENGTH can say; or the room does not suffice.
pub open spec fn record_refusal(r: RecordView) -> DnsError {
    if !record_names_ok(r) {
        DnsError::LabelTooLong
    } else if record_rdata(r).len() > MAX_RDATA_LEN {
        DnsError::ProtocolError
    } else {
        DnsError::OutOfBounds
    }
}

/// The data of a record that stands at `at`, read by the record's type, and the position behind it.
pub open spec fn parse_rdata(
    bytes: Seq<u8>,
    at: int,
    domain: Seq<char>,
    qtype: u16,
    ttl: u32,
    data_len: u16,
) -> Result<(RecordView, int), DnsError> {
    match QueryType::of_num(qtype) {
        QueryType::A => if at + 4 > bytes.len() {
            Err(DnsError::OutOfBounds)
        } else {
            Ok((RecordView::A { domain, addr: u32_at(bytes, at), ttl }, at + 4))
        },
        QueryType::AAAA => if at + 16 > bytes.len() {
            Err(DnsError::OutOfBounds)
        } else {
            Ok((RecordView::AAAA { domain, addr: u128_at(bytes, at), ttl }, at + 16))
        },
        QueryType::NS => match parse_labels(bytes, at, 0) {
            Err(e) => Err(e),
            Ok(labels) => Ok(
                (RecordView::NS { domain, host: name_text(labels), ttl }, name_end(bytes, at)),
            ),
        },
        QueryType::CNAME => match parse_labels(bytes, at, 0) {
            Err(e) => Err(e),
            Ok(labels) => Ok(
                (RecordView::CNAME { domain, host: name_text(labels), ttl }, name_end(bytes, at)),
            ),
        },
        QueryType::MX => if at + 2 > bytes.len() {
            Err(DnsError::OutOfBounds)
        } else {
            match parse_labels(bytes, at + 2, 0) {
                Err(e) => Err(e),
                Ok(labels) => Ok(
                    (
                        RecordView::MX {
                            domain,
                            priority: u16_at(bytes, at),
                            host: name_text(labels),
                            ttl,
                        },
                        name_end(bytes, at + 2),
                    ),
                ),
            }
        },
        QueryType::UNKNOWN(_) => if at + data_len > bytes.len() {
            Err(DnsError::OutOfBounds)
        } else {
            Ok((RecordView::UNKNOWN { domain, qtype, data_len, ttl }, at + data_len))
        },
    }
}

/// The record that stands at `pos`, and the position behind it.
///
/// The owner name is read first, then type, class (dropped), time to live and
/// RDLENGTH; the data is read by the type. For a type that the codec does not
/// know the data is stepped over and its length kept.
pub open spec fn parse_record(bytes: Seq<u8>, pos: int) -> Result<(RecordView, int), DnsError> {
    match parse_labels(bytes, pos, 0) {
        Err(e) => Err(e),
        Ok(labels) => {
            let fixed = name_end(bytes, pos);
            if fixed + 10 > bytes.len() {
                Err(DnsError::OutOfBounds)
            } else {
                parse_rdata(
                    bytes,
                    fixed + 10,
                    name_text(labels),
                    u16_at(bytes, fixed),
                    u32_at(bytes, fixed + 4),
                    u16_at(bytes, fixed + 8),
                )
            }
        },
    }
}

proof fn lemma_u128_parts(val: u128)
    by (bit_vector)
    ensures
        ((((val >> 96) as u32) as u128) << 96) | ((((val >> 64) as u32) as u128) << 64) | ((((val
            >> 32) as u32) as u128) << 32) | ((val as u32) as u128) == val,
{
}

/// Where the sixteen bytes of a number stand, the number is read.
pub proof fn lemma_u128_holds(bytes: Seq<u8>, pos: int, val: u128)
    requires
        holds_at(bytes, pos, u128_wire(val)),
    ensures
        u128_at(bytes, pos) == val,
{
    let a = u32_wire((val >> 96) as u32);
    let b = u32_wire((val >> 64) as u32);
    let c = u32_wire((val >> 32) as u32);
    let d = u32_wire(val as u32);
    lemma_holds_split(bytes, pos, a + b + c, d);
    lemma_holds_split(bytes, pos, a + b, c);
    lemma_holds_split(bytes, pos, a, b);
    lemma_u32_holds(bytes, pos, (val >> 96) as u32);
    lemma_u32_holds(bytes, pos + 4, (val >> 64) as u32);
    lemma_u32_holds(bytes, pos + 8, (val >> 32) as u32);
    lemma_u32_holds(bytes, pos + 12, val as u32);
    lemma_u128_parts(val);
}

/// A record on the wire is twelve bytes longer than its owner name in dotted form and its data.
pub proof fn lemma_record_with_len(domain: Seq<char>, qtype: u16, ttl: u32, rdata: Seq<u8>)
    ensures
        record_with(domain, qtype, ttl, rdata).len() == vstd::utf8::encode_utf8(domain).len() + 12
            + rdata.len(),
{
    lemma_name_wire_len(vstd::utf8::encode_utf8(domain));
}

/// Where a record with data stands at `pos`, its owner name, type and time to
/// live are read there, and its data stands twelve bytes behind the name.
proof fn lemma_record_head(
    bytes: Seq<u8>,
    pos: int,
    domain: Seq<char>,
    qtype: u16,
    ttl: u32,
    rdata: Seq<u8>,
)
    requires
        name_ok(domain),
        name_whole(domain),
        holds_at(bytes, pos, record_with(domain, qtype, ttl, rdata)),
    ensures
        parse_labels(bytes, pos, 0) == Ok::<Seq<Seq<u8>>, DnsError>(
            split_labels(vstd::utf8::encode_utf8(domain)),
        ),
        name_end(bytes, pos) == pos + name_wire(domain).len(),
        u16_at(bytes, pos + name_wire(domain).len()) == qtype,
        u32_at(bytes, pos + name_wire(domain).len() + 4) == ttl,
        holds_at(bytes, pos + name_wire(domain).len() + 10, rdata),
        record_with(domain, qtype, ttl, rdata).len() == name_wire(domain).len() + 10
            + rdata.len(),
{
    let name = name_wire(domain);
    let a = u16_wire(qtype);
    let b = u16_wire(1);
    let c = u32_wire(ttl);
    let d = u16_wire(rdata.len() as u16);
    lemma_holds_split(bytes, pos, name + a + b + c + d, rdata);
    lemma_holds_split(bytes, pos, name + a + b + c, d);
    lemma_holds_split(bytes, pos, name + a + b, c);
    lemma_holds_split(bytes, pos, name + a, b);
    lemma_holds_split(bytes, pos, name, a);
    lemma_labels_round_trip(bytes, pos, split_labels(vstd::utf8::encode_utf8(domain)), 0);
    lemma_u16_holds(bytes, pos + name.len(), qtype);
    lemma_u32_holds(bytes, pos + name.len() + 4, ttl);
}

/// A written record reads back as itself with its names in canonical form:
/// where the wire form of a record of a known type stands at `pos` and the
/// labels of its names hold 1 to 63 bytes each, reading at `pos` yields the
/// record and ends behind it.
pub proof fn lemma_record_round_trip(bytes: Seq<u8>, pos: int, r: RecordView)
    requires
        !(r is UNKNOWN),
        record_names_ok(r),
        record_names_whole(r),
        holds_at(bytes, pos, record_wire(r)),
    ensures
        parse_record(bytes, pos) == Ok::<(RecordView, int), DnsError>(
            (r.canonical(), pos + record_wire(r).len()),
        ),
{
    let rdata = record_rdata(r);
    lemma_record_head(bytes, pos, r.domain(), r.type_num(), r.ttl(), rdata);
    let at = pos + name_wire(r.domain()).len() + 10;
    match r {
        RecordView::UNKNOWN { .. } => {},
        RecordView::A { addr, .. } => {
            lemma_u32_holds(bytes, at, addr);
        },
        RecordView::AAAA { addr, .. } => {
            assert(u128_wire(addr).len() == 16);
            lemma_u128_holds(bytes, at, addr);
        },
        RecordView::NS { host, .. } => {
            lemma_labels_round_trip(bytes, at, split_labels(vstd::utf8::encode_utf8(host)), 0);
        },
        RecordView::CNAME { host, .. } => {
            lemma_labels_round_trip(bytes, at, split_labels(vstd::utf8::encode_utf8(host)), 0);
        },
        RecordView::MX { priority, host, .. } => {
            lemma_holds_split(bytes, at, u16_wire(priority), name_wire(host));
            lemma_u16_holds(bytes, at, priority);
            lemma_labels_round_trip(
                bytes,
                at + 2,
                split_labels(vstd::utf8::encode_utf8(host)),
                0,
            );
        },
    }
}

/// What is left of `room` once `a` and `b` are taken from it, if that much is there.
pub fn shrink(room: usize, a: usize, b: usize) -> (left: Option<usize>)
    ensures
        match left {
            Some(left) => left + a + b == room,
            None => a + b > room,
        },
{
    if a > room || b > room - a {
        None
    } else {
        Some(room - a - b)
    }
}

impl DnsRecord {
    /// Reads a record at the cursor. On failure the cursor stays where it was.
    pub fn read(buffer: &mut BytePacketBuffer) -> (res: Result<Self, DnsError>)
        ensures
            final(buffer).buf == old(buffer).buf,
            match res {
                Ok(record) => {
                    &&& parse_record(old(buffer).buf@, old(buffer).pos as int) matches Ok(
                        (r, end),
                    )
                    &&& record@ == r
                    &&& final(buffer).pos == end
                },
                Err(e) => {
                    &&& parse_record(old(buffer).buf@, old(buffer).pos as int) == Err::<
                        (RecordView, int),
                        DnsError,
                    >(e)
                    &&& final(buffer).pos == old(buffer).pos
                },
            },
    {
        let start = buffer.pos;
        let size = buffer.buf.len();
        let mut domain = String::new();
        buffer.read_qname(&mut domain)?;
        assert(Seq::<char>::empty() + domain@ =~= domain@);
        if size - buffer.pos < 10 {
            buffer.pos = start;
            return Err(DnsError::OutOfBounds);
        }
        let qtype_num = buffer.read_u16()?;
        let qtype = QueryType::from_num(qtype_num);
        let _ = buffer.read_u16()?;
        let ttl = buffer.read_u32()?;
        let data_len = buffer.read_u16()?;

        match qtype {
            QueryType::A => {
                match buffer.read_u32() {
                    Ok(addr) => Ok(Self::A { domain, addr, ttl }),
                    Err(e) => {
                        buffer.pos = start;
                        Err(e)
                    },
                }
            },
            QueryType::AAAA => {
                if size - buffer.pos < 16 {
                    buffer.pos = start;
                    return Err(DnsError::OutOfBounds);
                }
                let raw_addr1 = buffer.read_u32()?;
                let raw_addr2 = buffer.read_u32()?;
                let raw_addr3 = buffer.read_u32()?;
                let raw_addr4 = buffer.read_u32()?;
                let addr = ((raw_addr1 as u128) << 96) | ((raw_addr2 as u128) << 64) | ((
                raw_addr3 as u128) << 32) | (raw_addr4 as u128);
                Ok(Self::AAAA { domain, addr, ttl })
            },
            QueryType::NS => {
                let mut ns = String::new();
                match buffer.read_qname(&mut ns) {
                    Ok(()) => {
                        assert(Seq::<char>::empty() + ns@ =~= ns@);
                        Ok(Self::NS { domain, host: ns, ttl })
                    },
                    Err(e) => {
                        buffer.pos = start;
                        Err(e)
                    },
                }
            },
            QueryType::CNAME => {
                let mut host = String::new();
                match buffer.read_qname(&mut host) {
                    Ok(()) => {
                        assert(Seq::<char>::empty() + host@ =~= host@);
                        Ok(Self::CNAME { domain, host, ttl })
                    },
                    Err(e) => {
                        buffer.pos = start;
                        Err(e)
                    },
                }
            },
            QueryType::MX => {
                let priority = match buffer.read_u16() {
                    Ok(priority) => priority,
                    Err(e) => {
                        buffer.pos = start;
                        return Err(e);
                    },
                };
                let mut mx = String::new();
                match buffer.read_qname(&mut mx) {
                    Ok(()) => {
                        assert(Seq::<char>::empty() + mx@ =~= mx@);
                        Ok(Self::MX { domain, priority, host: mx, ttl })
                    },
                    Err(e) => {
                        buffer.pos = start;
                        Err(e)
                    },
                }
            },
            QueryType::UNKNOWN(_) => {
                match buffer.step(data_len as usize) {
                    Ok(()) => Ok(Self::UNKNOWN { domain, qtype: qtype_num, data_len, ttl }),
                    Err(e) => {
                        buffer.pos = start;
                        Err(e)
                    },
                }
            },
        }
    }

    /// Writes what all records start with: owner name, type, class, time to
    /// live, and a length for the data that follows.
    fn write_prefix(
        buffer: &mut BytePacketBuffer,
        domain: &String,
        qtype: QueryType,
        ttl: u32,
        rdlen: u16,
    ) -> (res: Result<(), DnsError>)
        requires
            name_ok(domain@),
            old(buffer).fits(record_prefix(domain@, qtype.num(), ttl) + u16_wire(rdlen)),
        ensures
            res is Ok,
            old(buffer).wrote(
                final(buffer),
                record_prefix(domain@, qtype.num(), ttl) + u16_wire(rdlen),
            ),
    {
        let ghost before = buffer.buf@;
        let ghost start = buffer.pos as int;
        let ghost name = name_wire(domain@);
        let ghost num = u16_wire(qtype.num());
        buffer.write_qname(domain.as_str())?;
        buffer.write_u16(qtype.to_num())?;
        proof {
            lemma_splice_append(before, start, name, num);
        }
        buffer.write_u16(1)?;
        proof {
            lemma_splice_append(before, start, name + num, u16_wire(1));
        }
        buffer.write_u32(ttl)?;
        proof {
            lemma_splice_append(before, start, name + num + u16_wire(1), u32_wire(ttl));
        }
        buffer.write_u16(rdlen)?;
        proof {
            lemma_splice_append(
                before,
                start,
                name + num + u16_wire(1) + u32_wire(ttl),
                u16_wire(rdlen),
            );
        }
        Ok(())
    }

    /// Whether the room behind the cursor holds a record with an owner name
    /// of `domain_len` bytes in dotted form and `rdata_len` bytes of data.
    fn has_room(buffer: &BytePacketBuffer, domain_len: usize, rdata_len: usize) -> (ok: bool)
        ensures
            ok == (buffer.pos + domain_len + 12 + rdata_len <= buffer.buf@.len()),
    {
        if buffer.pos > buffer.buf.len() {
            return false;
        }
        let room = buffer.buf.len() - buffer.pos;
        if room < 12 || domain_len > room - 12 {
            return false;
        }
        rdata_len <= room - 12 - domain_len
    }

    /// Writes a record whose data is one name: the length of the data is
    /// first written as zero and set once the name stands behind it.
    fn write_record(
        buffer: &mut BytePacketBuffer,
        qtype: QueryType,
        domain: &String,
        host: &String,
        ttl: u32,
    ) -> (res: Result<(), DnsError>)
        ensures
            res is Ok <==> {
                &&& name_ok(domain@)
                &&& name_ok(host@)
                &&& name_wire(host@).len() <= MAX_RDATA_LEN
                &&& old(buffer).fits(record_with(domain@, qtype.num(), ttl, name_wire(host@)))
            },
            res is Ok ==> old(buffer).wrote(
                final(buffer),
                record_with(domain@, qtype.num(), ttl, name_wire(host@)),
            ),
            res is Err ==> *final(buffer) == *old(buffer),
            res matches Err(e) ==> e == (if !(name_ok(domain@) && name_ok(host@)) {
                DnsError::LabelTooLong
            } else if name_wire(host@).len() > MAX_RDATA_LEN {
                DnsError::ProtocolError
            } else {
                DnsError::OutOfBounds
            }),
    {
        let host_labels = split_name(host.as_str());
        if !crate::name::name_fits(domain.as_str()) || !labels_fit(&host_labels) {
            return Err(DnsError::LabelTooLong);
        }
        proof {
            lemma_name_wire_len(vstd::utf8::encode_utf8(host@));
            lemma_record_with_len(domain@, qtype.num(), ttl, name_wire(host@));
        }
        let host_len = host.as_str().as_bytes().len();
        if host_len > MAX_RDATA_LEN - 2 {
            return Err(DnsError::ProtocolError);
        }
        if !Self::has_room(buffer, domain.as_str().as_bytes().len(), host_len + 2) {
            return Err(DnsError::OutOfBounds);
        }
        let ghost before = buffer.buf@;
        let ghost start = buffer.pos as int;
        let ghost prefix = record_prefix(domain@, qtype.num(), ttl);
        let ghost rdata = name_wire(host@);
        proof {
            lemma_name_wire_len(vstd::utf8::encode_utf8(domain@));
        }
        Self::write_prefix(buffer, domain, qtype, ttl, 0)?;

        let pos = buffer.pos - 2;
        buffer.write_labels(&host_labels)?;
        proof {
            lemma_splice_append(before, start, prefix + u16_wire(0), rdata);
        }

        let size = buffer.pos - (pos + 2);
        buffer.set_u16(pos, size as u16)?;
        proof {
            lemma_splice_patch(before, start, prefix, u16_wire(0), u16_wire(size as u16), rdata);
        }
        Ok(())
    }

    /// Writes an `A` record: four bytes of data, the address.
    fn write_a(buffer: &mut BytePacketBuffer, domain: &String, addr: u32, ttl: u32) -> (res:
        Result<(), DnsError>)
        ensures
            res is Ok <==> name_ok(domain@) && old(buffer).fits(
                record_with(domain@, 1, ttl, u32_wire(addr)),
            ),
            res is Ok ==> old(buffer).wrote(
                final(buffer),
                record_with(domain@, 1, ttl, u32_wire(addr)),
            ),
            res is Err ==> *final(buffer) == *old(buffer),
            res matches Err(e) ==> e == (if name_ok(domain@) {
                DnsError::OutOfBounds
            } else {
                DnsError::LabelTooLong
            }),
    {
        if !crate::name::name_fits(domain.as_str()) {
            return Err(DnsError::LabelTooLong);
        }
        proof {
            lemma_record_with_len(domain@, 1, ttl, u32_wire(addr));
            lemma_name_wire_len(vstd::utf8::encode_utf8(domain@));
        }
        if !Self::has_room(buffer, domain.as_str().as_bytes().len(), 4) {
            return Err(DnsError::OutOfBounds);
        }
        let ghost before = buffer.buf@;
        let ghost start = buffer.pos as int;
        Self::write_prefix(buffer, domain, QueryType::A, ttl, 4)?;
        buffer.write_u32(addr)?;
        proof {
            lemma_splice_append(
                before,
                start,
                record_prefix(domain@, 1, ttl) + u16_wire(4),
                u32_wire(addr),
            );
        }
        Ok(())
    }

    /// Writes an `AAAA` record: sixteen bytes of data, the address.
    fn write_aaaa(buffer: &mut BytePacketBuffer, domain: &String, addr: u128, ttl: u32) -> (res:
        Result<(), DnsError>)
        ensures
            res is Ok <==> name_ok(domain@) && old(buffer).fits(
                record_with(domain@, 28, ttl, u128_wire(addr)),
            ),
            res is Ok ==> old(buffer).wrote(
                final(buffer),
                record_with(domain@, 28, ttl, u128_wire(addr)),
            ),
            res is Err ==> *final(buffer) == *old(buffer),
            res matches Err(e) ==> e == (if name_ok(domain@) {
                DnsError::OutOfBounds
            } else {
                DnsError::LabelTooLong
            }),
    {
        if !crate::name::name_fits(domain.as_str()) {
            return Err(DnsError::LabelTooLong);
        }
        proof {
            lemma_record_with_len(domain@, 28, ttl, u128_wire(addr));
            lemma_name_wire_len(vstd::utf8::encode_utf8(domain@));
        }
        if !Self::has_room(buffer, domain.as_str().as_bytes().len(), 16) {
            return Err(DnsError::OutOfBounds);
        }
        let ghost before = buffer.buf@;
        let ghost start = buffer.pos as int;
        Self::write_prefix(buffer, domain, QueryType::AAAA, ttl, 16)?;
        let ghost head = record_prefix(domain@, 28, ttl) + u16_wire(16);
        let a = #[verifier::truncate] ((addr >> 96) as u32);
        let b = #[verifier::truncate] ((addr >> 64) as u32);
        let c = #[verifier::truncate] ((addr >> 32) as u32);
        let d = #[verifier::truncate] (addr as u32);
        buffer.write_u32(a)?;
        proof {
            lemma_splice_append(before, start, head, u32_wire(a));
        }
        buffer.write_u32(b)?;
        proof {
            lemma_splice_append(before, start, head + u32_wire(a), u32_wire(b));
        }
        buffer.write_u32(c)?;
        proof {
            lemma_splice_append(before, start, head + u32_wire(a) + u32_wire(b), u32_wire(c));
        }
        buffer.write_u32(d)?;
        proof {
            lemma_splice_append(
                before,
                start,
                head + u32_wire(a) + u32_wire(b) + u32_wire(c),
                u32_wire(d),
            );
            assert(head + u32_wire(a) + u32_wire(b) + u32_wire(c) + u32_wire(d) =~= head
                + u128_wire(addr));
        }
        Ok(())
    }

    /// Writes an `MX` record: the data is the priority and the name of the
    /// exchange; its length is first written as zero and set afterwards.
    fn write_mx(
        buffer: &mut BytePacketBuffer,
        domain: &String,
        priority: u16,
        host: &String,
        ttl: u32,
    ) -> (res: Result<(), DnsError>)
        ensures
            res is Ok <==> {
                &&& name_ok(domain@)
                &&& name_ok(host@)
                &&& (u16_wire(priority) + name_wire(host@)).len() <= MAX_RDATA_LEN
                &&& old(buffer).fits(
                    record_with(domain@, 15, ttl, u16_wire(priority) + name_wire(host@)),
                )
            },
            res is Ok ==> old(buffer).wrote(
                final(buffer),
                record_with(domain@, 15, ttl, u16_wire(priority) + name_wire(host@)),
            ),
            res is Err ==> *final(buffer) == *old(buffer),
            res matches Err(e) ==> e == (if !(name_ok(domain@) && name_ok(host@)) {
                DnsError::LabelTooLong
            } else if (u16_wire(priority) + name_wire(host@)).len() > MAX_RDATA_LEN {
                DnsError::ProtocolError
            } else {
                DnsError::OutOfBounds
            }),
    {
        let host_labels = split_name(host.as_str());
        if !crate::name::name_fits(domain.as_str()) || !labels_fit(&host_labels) {
            return Err(DnsError::LabelTooLong);
        }
        let ghost rdata = u16_wire(priority) + name_wire(host@);
        proof {
            lemma_name_wire_len(vstd::utf8::encode_utf8(host@));
            lemma_name_wire_len(vstd::utf8::encode_utf8(domain@));
            lemma_record_with_len(domain@, 15, ttl, rdata);
        }
        let host_len = host.as_str().as_bytes().len();
        if host_len > MAX_RDATA_LEN - 4 {
            return Err(DnsError::ProtocolError);
        }
        if !Self::has_room(buffer, domain.as_str().as_bytes().len(), host_len + 4) {
            return Err(DnsError::OutOfBounds);
        }
        let ghost before = buffer.buf@;
        let ghost start = buffer.pos as int;
        let ghost prefix = record_prefix(domain@, 15, ttl);
        Self::write_prefix(buffer, domain, QueryType::MX, ttl, 0)?;

        let pos = buffer.pos - 2;
        buffer.write_u16(priority)?;
        proof {
            lemma_splice_append(before, start, prefix + u16_wire(0), u16_wire(priority));
        }
        buffer.write_labels(&host_labels)?;
        proof {
            lemma_splice_append(
                before,
                start,
                prefix + u16_wire(0) + u16_wire(priority),
                name_wire(host@),
            );
            assert(prefix + u16_wire(0) + u16_wire(priority) + name_wire(host@) =~= prefix
                + u16_wire(0) + rdata);
        }

        let size = buffer.pos - (pos + 2);
        buffer.set_u16(pos, size as u16)?;
        proof {
            lemma_splice_patch(before, start, prefix, u16_wire(0), u16_wire(size as u16), rdata);
        }
        Ok(())
    }

    /// Writes the record at the cursor and returns the number of bytes written.
    ///
    /// A record of unknown type is skipped: nothing is written and the count
    /// is zero. A record is refused where a label of one of its names is
    /// longer than 63 bytes, where its data is longer than RDLENGTH can say,
    /// and where the room does not suffice; on failure nothing changes.
    pub fn write(&self, buffer: &mut BytePacketBuffer) -> (res: Result<usize, DnsError>)
        ensures
            res is Ok <==> record_ok(self@) && old(buffer).fits(record_wire(self@)),
            res matches Ok(n) ==> n == record_wire(self@).len() && old(buffer).wrote(
                final(buffer),
                record_wire(self@),
            ),
            res is Err ==> *final(buffer) == *old(buffer),
            res matches Err(e) ==> e == record_refusal(self@),
    {
        let start_pos = buffer.pos;

        match self {
            Self::A { domain, addr, ttl } => {
                assert(u32_wire(*addr).len() == 4);
                Self::write_a(buffer, domain, *addr, *ttl)?;
            },
            Self::AAAA { domain, addr, ttl } => {
                assert(u128_wire(*addr).len() == 16);
                Self::write_aaaa(buffer, domain, *addr, *ttl)?;
            },
            Self::NS { domain, host, ttl } => {
                Self::write_record(buffer, QueryType::NS, domain, host, *ttl)?;
            },
            Self::CNAME { domain, host, ttl } => {
                Self::write_record(buffer, QueryType::CNAME, domain, host, *ttl)?;
            },
            Self::MX { domain, priority, host, ttl } => {
                Self::write_mx(buffer, domain, *priority, host, *ttl)?;
            },
            Self::UNKNOWN { .. } => {
                if buffer.pos > buffer.buf.len() {
                    return Err(DnsError::OutOfBounds);
                }
                assert(buffer.buf@ =~= splice(
                    buffer.buf@,
                    buffer.pos as int,
                    Seq::<u8>::empty(),
                ));
            },
        }

        Ok(buffer.pos - start_pos)
    }

    /// Whether every label of every name that would be written fits a length byte.
    pub fn names_fit(&self) -> (ok: bool)
        ensures
            ok == record_names_ok(self@),
    {
        match self {
            Self::A { domain, .. } => crate::name::name_fits(domain.as_str()),
            Self::AAAA { domain, .. } => crate::name::name_fits(domain.as_str()),
            Self::NS { domain, host, .. } => crate::name::name_fits(domain.as_str())
                && crate::name::name_fits(host.as_str()),
            Self::CNAME { domain, host, .. } => crate::name::name_fits(domain.as_str())
                && crate::name::name_fits(host.as_str()),
            Self::MX { domain, host, .. } => crate::name::name_fits(domain.as_str())
                && crate::name::name_fits(host.as_str()),
            Self::UNKNOWN { .. } => true,
        }
    }

    /// Whether RDLENGTH can hold the length of the data that would be written.
    pub fn data_fits(&self) -> (ok: bool)
        ensures
            ok == (record_rdata(self@).len() <= MAX_RDATA_LEN),
    {
        match self {
            Self::A { addr, .. } => {
                assert(u32_wire(*addr).len() == 4);
                true
            },
            Self::AAAA { addr, .. } => {
                assert(u128_wire(*addr).len() == 16);
                true
            },
            Self::NS { host, .. } => {
                proof {
                    lemma_name_wire_len(vstd::utf8::encode_utf8(host@));
                }
                host.as_str().as_bytes().len() <= MAX_RDATA_LEN - 2
            },
            Self::CNAME { host, .. } => {
                proof {
                    lemma_name_wire_len(vstd::utf8::encode_utf8(host@));
                }
                host.as_str().as_bytes().len() <= MAX_RDATA_LEN - 2
            },
            Self::MX { host, .. } => {
                proof {
                    lemma_name_wire_len(vstd::utf8::encode_utf8(host@));
                }
                host.as_str().as_bytes().len() <= MAX_RDATA_LEN - 4
            },
            Self::UNKNOWN { .. } => true,
        }
    }

    /// The room that is left of `room` bytes once the record is written, if it fits.
    pub fn room_after(&self, room: usize) -> (left: Option<usize>)
        ensures
            match left {
                Some(left) => left + record_wire(self@).len() == room,
                None => record_wire(self@).len() > room,
            },
    {
        proof {
            lemma_record_with_len(
                self@.domain(),
                self@.type_num(),
                self@.ttl(),
                record_rdata(self@),
            );
        }
        match self {
            Self::A { domain, addr, .. } => {
                assert(u32_wire(*addr).len() == 4);
                shrink(room, domain.as_str().as_bytes().len(), 16)
            },
            Self::AAAA { domain, addr, .. } => {
                assert(u128_wire(*addr).len() == 16);
                shrink(room, domain.as_str().as_bytes().len(), 28)
            },
            Self::NS { domain, host, .. } => {
                proof {
                    lemma_name_wire_len(vstd::utf8::encode_utf8(host@));
                }
                match shrink(room, domain.as_str().as_bytes().len(), 14) {
                    Some(left) => shrink(left, host.as_str().as_bytes().len(), 0),
                    None => None,
                }
            },
            Self::CNAME { domain, host, .. } => {
                proof {
                    lemma_name_wire_len(vstd::utf8::encode_utf8(host@));
                }
                match shrink(room, domain.as_str().as_bytes().len(), 14) {
                    Some(left) => shrink(left, host.as_str().as_bytes().len(), 0),
                    None => None,
                }
            },
            Self::MX { domain, host, .. } => {
                proof {
                    lemma_name_wire_len(vstd::utf8::encode_utf8(host@));
                }
                match shrink(room, domain.as_str().as_bytes().len(), 16) {
                    Some(left) => shrink(left, host.as_str().as_bytes().len(), 0),
                    None => None,
                }
            },
            Self::UNKNOWN { .. } => Some(room),
        }
    }

    /// The owner name of the record.
    pub fn domain(&self) -> (domain: String)
        ensures
            domain@ == self@.domain(),
    {
        match self {
            Self::A { domain, .. } => domain.clone(),
            Self::AAAA { domain, .. } => domain.clone(),
            Self::NS { domain, .. } => domain.clone(),
            Self::CNAME { domain, .. } => domain.clone(),
            Self::MX { domain, .. } => domain.clone(),
            Self::UNKNOWN { domain, .. } => domain.clone(),
        }
    }

    /// The time to live of the record, in seconds.
    pub fn ttl(&self) -> (ttl: u32)
        ensures
            ttl == self@.ttl(),
    {
        match self {
            Self::A { ttl, .. } => *ttl,
            Self::AAAA { ttl, .. } => *ttl,
            Self::NS { ttl, .. } => *ttl,
            Self::CNAME { ttl, .. } => *ttl,
            Self::MX { ttl, .. } => *ttl,
            Self::UNKNOWN { ttl, .. } => *ttl,
        }
    }

    /// A copy of the record.
    pub fn duplicate(&self) -> (copy: Self)
        ensures
            copy@ == self@,
    {
        match self {
            Self::A { domain, addr, ttl } => Self::A {
                domain: domain.clone(),
                addr: *addr,
                ttl: *ttl,
            },
            Self::AAAA { domain, addr, ttl } => Self::AAAA {
                domain: domain.clone(),
                addr: *addr,
                ttl: *ttl,
            },
            Self::NS { domain, host, ttl } => Self::NS {
                domain: domain.clone(),
                host: host.clone(),
                ttl: *ttl,
            },
            Self::CNAME { domain, host, ttl } => Self::CNAME {
                domain: domain.clone(),
                host: host.clone(),
                ttl: *ttl,
            },
            Self::MX { domain, priority, host, ttl } => Self::MX {
                domain: domain.clone(),
                priority: *priority,
                host: host.clone(),
                ttl: *ttl,
            },
            Self::UNKNOWN { domain, qtype, data_len, ttl } => Self::UNKNOWN {
                domain: domain.clone(),
                qtype: *qtype,
                data_len: *data_len,
                ttl: *ttl,
            },
        }
    }
}

} // verus!

