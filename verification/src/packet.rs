//! A whole message: a header and four sections, with the queries that the
//! resolver puts to a reply.

use vstd::prelude::*;
use crate::buffer::BytePacketBuffer;
use crate::codes::QueryType;
use crate::error::DnsError;
use crate::header::{header_at, DnsHeader, HEADER_LEN};
use crate::question::{parse_question, DnsQuestion, QuestionView};
use crate::record::{parse_record, DnsRecord, RecordView};
use crate::text::{is_suffix, text_ends_with};

verus! {

#[derive(Clone, Debug)]
pub struct DnsPacket {
    pub header: DnsHeader,
    pub questions: Vec<DnsQuestion>,
    pub answers: Vec<DnsRecord>,
    pub authorities: Vec<DnsRecord>,
    pub resources: Vec<DnsRecord>,
}

/// A message as a value.
pub struct PacketView {
    pub header: DnsHeader,
    pub questions: Seq<QuestionView>,
    pub answers: Seq<RecordView>,
    pub authorities: Seq<RecordView>,
    pub resources: Seq<RecordView>,
}

/// The views of a vector of questions.
pub open spec fn questions_view(questions: Seq<DnsQuestion>) -> Seq<QuestionView> {
    questions.map_values(|q: DnsQuestion| q@)
}

/// The views of a vector of records.
pub open spec fn records_view(records: Seq<DnsRecord>) -> Seq<RecordView> {
    records.map_values(|r: DnsRecord| r@)
}

impl View for DnsPacket {
    type V = PacketView;

    open spec fn view(&self) -> PacketView {
        PacketView {
            header: self.header,
            questions: questions_view(self.questions@),
            answers: records_view(self.answers@),
            authorities: records_view(self.authorities@),
            resources: records_view(self.resources@),
        }
    }
}

/// The address of the first `A` record, if there is one.
pub open spec fn first_a(records: Seq<RecordView>) -> Option<u32>
    decreases records.len(),
{
    if records.len() == 0 {
        None
    } else {
        match records[0] {
            RecordView::A { addr, .. } => Some(addr),
            _ => first_a(records.drop_first()),
        }
    }
}

/// The first `CNAME` record, if there is one.
pub open spec fn first_cname(records: Seq<RecordView>) -> Option<RecordView>
    decreases records.len(),
{
    if records.len() == 0 {
        None
    } else if records[0] is CNAME {
        Some(records[0])
    } else {
        first_cname(records.drop_first())
    }
}

/// The `A` records, in their order.
pub open spec fn a_records(records: Seq<RecordView>) -> Seq<RecordView>
    decreases records.len(),
{
    if records.len() == 0 {
        Seq::<RecordView>::empty()
    } else if records.last() is A {
        a_records(records.drop_last()).push(records.last())
    } else {
        a_records(records.drop_last())
    }
}

/// An `NS` record whose owner name is the end of `qname`.
pub open spec fn delegates(record: RecordView, qname: Seq<char>) -> bool {
    record matches RecordView::NS { domain, .. } && is_suffix(domain, qname)
}

/// The name servers that the records name for `qname`: the targets of the
/// `NS` records whose owner name is the end of `qname`, in their order.
pub open spec fn ns_hosts(records: Seq<RecordView>, qname: Seq<char>) -> Seq<Seq<char>>
    decreases records.len(),
{
    if records.len() == 0 {
        Seq::<Seq<char>>::empty()
    } else if delegates(records.last(), qname) {
        ns_hosts(records.drop_last(), qname).push(records.last()->NS_host)
    } else {
        ns_hosts(records.drop_last(), qname)
    }
}

/// The address that the first `A` record owned by `host` gives, if there is one.
pub open spec fn glue(records: Seq<RecordView>, host: Seq<char>) -> Option<u32>
    decreases records.len(),
{
    if records.len() == 0 {
        None
    } else {
        match records[0] {
            RecordView::A { domain, addr, .. } if domain == host => Some(addr),
            _ => glue(records.drop_first(), host),
        }
    }
}

/// The first address that the records give for one of the hosts, the hosts taken in their order.
pub open spec fn first_glue(hosts: Seq<Seq<char>>, records: Seq<RecordView>) -> Option<u32>
    decreases hosts.len(),
{
    if hosts.len() == 0 {
        None
    } else {
        match glue(records, hosts[0]) {
            Some(addr) => Some(addr),
            None => first_glue(hosts.drop_first(), records),
        }
    }
}

impl PacketView {
    /// The address of a name server for `qname` that the message itself
    /// gives: a delegation in the authority section with its glue in the
    /// additional section.
    pub open spec fn resolved_ns(self, qname: Seq<char>) -> Option<u32> {
        first_glue(ns_hosts(self.authorities, qname), self.resources)
    }

    /// The name of the first name server that the authority section names for `qname`.
    pub open spec fn unresolved_ns(self, qname: Seq<char>) -> Option<Seq<char>> {
        let hosts = ns_hosts(self.authorities, qname);
        if hosts.len() == 0 {
            None
        } else {
            Some(hosts[0])
        }
    }

    /// The message after `response` is merged into it: the answers of the
    /// response behind its own, and the response code of the response.
    pub open spec fn merged(self, response: PacketView) -> PacketView {
        PacketView {
            header: DnsHeader { rescode: response.header.rescode, ..self.header },
            answers: self.answers + response.answers,
            ..self
        }
    }
}

/// The `count` questions that stand one behind the other from `pos` on, and
/// the position behind the last.
pub open spec fn parse_questions(bytes: Seq<u8>, pos: int, count: nat) -> Result<
    (Seq<QuestionView>, int),
    DnsError,
>
    decreases count,
{
    if count == 0 {
        Ok((Seq::<QuestionView>::empty(), pos))
    } else {
        match parse_questions(bytes, pos, (count - 1) as nat) {
            Err(e) => Err(e),
            Ok((before, at)) => match parse_question(bytes, at) {
                Err(e) => Err(e),
                Ok((q, end)) => Ok((before.push(q), end)),
            },
        }
    }
}

/// The `count` records that stand one behind the other from `pos` on, and
/// the position behind the last.
pub open spec fn parse_records(bytes: Seq<u8>, pos: int, count: nat) -> Result<
    (Seq<RecordView>, int),
    DnsError,
>
    decreases count,
{
    if count == 0 {
        Ok((Seq::<RecordView>::empty(), pos))
    } else {
        match parse_records(bytes, pos, (count - 1) as nat) {
            Err(e) => Err(e),
            Ok((before, at)) => match parse_record(bytes, at) {
                Err(e) => Err(e),
                Ok((r, end)) => Ok((before.push(r), end)),
            },
        }
    }
}

/// The message that stands at `pos`, and the position behind it: the header,
/// then as many questions, answers, authority records and additional records
/// as the header counts.
pub open spec fn parse_packet(bytes: Seq<u8>, pos: int) -> Result<(PacketView, int), DnsError> {
    if pos + HEADER_LEN > bytes.len() {
        Err(DnsError::OutOfBounds)
    } else {
        let header = header_at(bytes, pos);
        match parse_questions(bytes, pos + HEADER_LEN, header.questions as nat) {
            Err(e) => Err(e),
            Ok((questions, at_answers)) => match parse_records(
                bytes,
                at_answers,
                header.answers as nat,
            ) {
                Err(e) => Err(e),
                Ok((answers, at_authorities)) => match parse_records(
                    bytes,
                    at_authorities,
                    header.authoritative_entries as nat,
                ) {
                    Err(e) => Err(e),
                    Ok((authorities, at_resources)) => match parse_records(
                        bytes,
                        at_resources,
                        header.resource_entries as nat,
                    ) {
                        Err(e) => Err(e),
                        Ok((resources, end)) => Ok(
                            (
                                PacketView { header, questions, answers, authorities, resources },
                                end,
                            ),
                        ),
                    },
                },
            },
        }
    }
}

/// A section that fails to read after `count` entries fails the same way for every larger count.
pub proof fn lemma_questions_fail(bytes: Seq<u8>, pos: int, count: nat, more: nat)
    requires
        parse_questions(bytes, pos, count) is Err,
        count <= more,
    ensures
        parse_questions(bytes, pos, more) == parse_questions(bytes, pos, count),
    decreases more,
{
    if count < more {
        lemma_questions_fail(bytes, pos, count, (more - 1) as nat);
    }
}

/// A section that fails to read after `count` entries fails the same way for every larger count.
pub proof fn lemma_records_fail(bytes: Seq<u8>, pos: int, count: nat, more: nat)
    requires
        parse_records(bytes, pos, count) is Err,
        count <= more,
    ensures
        parse_records(bytes, pos, more) == parse_records(bytes, pos, count),
    decreases more,
{
    if count < more {
        lemma_records_fail(bytes, pos, count, (more - 1) as nat);
    }
}

/// Reads `count` questions at the cursor. On failure the cursor is left where the failure was met.
fn read_questions(buffer: &mut BytePacketBuffer, count: u16) -> (res: Result<
    Vec<DnsQuestion>,
    DnsError,
>)
    ensures
        final(buffer).buf == old(buffer).buf,
        match res {
            Ok(questions) => {
                &&& parse_questions(old(buffer).buf@, old(buffer).pos as int, count as nat)
                    matches Ok((qs, end))
                &&& questions_view(questions@) == qs
                &&& final(buffer).pos == end
            },
            Err(e) => parse_questions(old(buffer).buf@, old(buffer).pos as int, count as nat)
                == Err::<(Seq<QuestionView>, int), DnsError>(e),
        },
{
    let ghost bytes = buffer.buf@;
    let ghost start = buffer.pos as int;
    let mut questions: Vec<DnsQuestion> = Vec::new();
    let mut i: u16 = 0;
    assert(questions_view(questions@) =~= Seq::<QuestionView>::empty());
    while i < count
        invariant
            i <= count,
            buffer.buf@ == bytes,
            buffer.buf == old(buffer).buf,
            start == old(buffer).pos,
            parse_questions(bytes, start, i as nat) == Ok::<(Seq<QuestionView>, int), DnsError>(
                (questions_view(questions@), buffer.pos as int),
            ),
        decreases count - i,
    {
        let mut question = DnsQuestion::new(String::new(), QueryType::UNKNOWN(0));
        match question.read(buffer) {
            Ok(()) => {},
            Err(e) => {
                proof {
                    assert(parse_questions(bytes, start, (i + 1) as nat) == Err::<
                        (Seq<QuestionView>, int),
                        DnsError,
                    >(e));
                    lemma_questions_fail(bytes, start, (i + 1) as nat, count as nat);
                }
                return Err(e);
            },
        }
        let ghost before = questions@;
        questions.push(question);
        proof {
            assert(Seq::<char>::empty() + question@.name =~= question@.name);
            assert(questions_view(questions@) =~= questions_view(before).push(question@));
        }
        i = i + 1;
    }
    Ok(questions)
}

/// Reads `count` records at the cursor. On failure the cursor is left where the failure was met.
fn read_records(buffer: &mut BytePacketBuffer, count: u16) -> (res: Result<
    Vec<DnsRecord>,
    DnsError,
>)
    ensures
        final(buffer).buf == old(buffer).buf,
        match res {
            Ok(records) => {
                &&& parse_records(old(buffer).buf@, old(buffer).pos as int, count as nat)
                    matches Ok((rs, end))
                &&& records_view(records@) == rs
                &&& final(buffer).pos == end
            },
            Err(e) => parse_records(old(buffer).buf@, old(buffer).pos as int, count as nat)
                == Err::<(Seq<RecordView>, int), DnsError>(e),
        },
{
    let ghost bytes = buffer.buf@;
    let ghost start = buffer.pos as int;
    let mut records: Vec<DnsRecord> = Vec::new();
    let mut i: u16 = 0;
    assert(records_view(records@) =~= Seq::<RecordView>::empty());
    while i < count
        invariant
            i <= count,
            buffer.buf@ == bytes,
            buffer.buf == old(buffer).buf,
            start == old(buffer).pos,
            parse_records(bytes, start, i as nat) == Ok::<(Seq<RecordView>, int), DnsError>(
                (records_view(records@), buffer.pos as int),
            ),
        decreases count - i,
    {
        match DnsRecord::read(buffer) {
            Ok(rec) => {
                let ghost before = records@;
                records.push(rec);
                proof {
                    assert(records_view(records@) =~= records_view(before).push(rec@));
                }
            },
            Err(e) => {
                proof {
                    assert(parse_records(bytes, start, (i + 1) as nat) == Err::<
                        (Seq<RecordView>, int),
                        DnsError,
                    >(e));
                    lemma_records_fail(bytes, start, (i + 1) as nat, count as nat);
                }
                return Err(e);
            },
        }
        i = i + 1;
    }
    Ok(records)
}

impl Default for DnsPacket {
    fn default() -> (packet: Self)
        ensures
            packet@ == DnsPacket::blank(),
    {
        let packet = Self {
            header: DnsHeader::new(),
            questions: Vec::new(),
            answers: Vec::new(),
            authorities: Vec::new(),
            resources: Vec::new(),
        };
        assert(packet@.questions =~= Seq::<QuestionView>::empty());
        assert(packet@.answers =~= Seq::<RecordView>::empty());
        assert(packet@.authorities =~= Seq::<RecordView>::empty());
        assert(packet@.resources =~= Seq::<RecordView>::empty());
        packet
    }
}

impl DnsPacket {
    /// The empty message: a blank header and no entry in any section.
    pub open spec fn blank() -> PacketView {
        PacketView {
            header: DnsHeader::blank(),
            questions: Seq::<QuestionView>::empty(),
            answers: Seq::<RecordView>::empty(),
            authorities: Seq::<RecordView>::empty(),
            resources: Seq::<RecordView>::empty(),
        }
    }

    pub fn new() -> (packet: Self)
        ensures
            packet@ == DnsPacket::blank(),
    {
        Self::default()
    }

    /// Reads a message at the cursor: the header, then the four sections with
    /// as many entries as the header counts. On failure the cursor stays
    /// where it was.
    pub fn from_buffer(buffer: &mut BytePacketBuffer) -> (res: Result<Self, DnsError>)
        ensures
            final(buffer).buf == old(buffer).buf,
            match res {
                Ok(packet) => {
                    &&& parse_packet(old(buffer).buf@, old(buffer).pos as int) matches Ok(
                        (p, end),
                    )
                    &&& packet@ == p
                    &&& final(buffer).pos == end
                },
                Err(e) => {
                    &&& parse_packet(old(buffer).buf@, old(buffer).pos as int) == Err::<
                        (PacketView, int),
                        DnsError,
                    >(e)
                    &&& final(buffer).pos == old(buffer).pos
                },
            },
    {
        let start = buffer.pos;
        let mut result = Self::new();
        result.header.read(buffer)?;

        match read_questions(buffer, result.header.questions) {
            Ok(questions) => {
                result.questions = questions;
            },
            Err(e) => {
                buffer.pos = start;
                return Err(e);
            },
        }

        match read_records(buffer, result.header.answers) {
            Ok(records) => {
                result.answers = records;
            },
            Err(e) => {
                buffer.pos = start;
                return Err(e);
            },
        }

        match read_records(buffer, result.header.authoritative_entries) {
            Ok(records) => {
                result.authorities = records;
            },
            Err(e) => {
                buffer.pos = start;
                return Err(e);
            },
        }

        match read_records(buffer, result.header.resource_entries) {
            Ok(records) => {
                result.resources = records;
            },
            Err(e) => {
                buffer.pos = start;
                return Err(e);
            },
        }

        Ok(result)
    }

    /// The address of the first `A` record among the answers.
    pub fn get_random_a(&self) -> (res: Option<u32>)
        ensures
            res == first_a(self@.answers),
    {
        let ghost all = self@.answers;
        let n = self.answers.len();
        let mut i: usize = 0;
        assert(all.skip(0) =~= all);
        while i < n
            invariant
                i <= n,
                n == self.answers@.len(),
                all == self@.answers,
                first_a(all) == first_a(all.skip(i as int)),
            decreases n - i,
        {
            proof {
                assert(all.skip(i as int)[0] == self.answers@[i as int]@);
                assert(all.skip(i as int).drop_first() =~= all.skip(i + 1));
            }
            match &self.answers[i] {
                DnsRecord::A { addr, .. } => {
                    return Some(*addr);
                },
                _ => {},
            }
            i = i + 1;
        }
        None
    }

    /// The targets of the `NS` records in the authority section whose owner
    /// name is the end of `qname`, in their order.
    pub fn get_ns<'a>(&'a self, qname: &str) -> (hosts: Vec<&'a str>)
        ensures
            hosts@.map_values(|h: &str| h@) == ns_hosts(self@.authorities, qname@),
    {
        let ghost all = self@.authorities;
        let mut hosts: Vec<&'a str> = Vec::new();
        let n = self.authorities.len();
        let mut i: usize = 0;
        assert(all.take(0) =~= Seq::<RecordView>::empty());
        assert(hosts@.map_values(|h: &str| h@) =~= Seq::<Seq<char>>::empty());
        while i < n
            invariant
                i <= n,
                n == self.authorities@.len(),
                all == self@.authorities,
                hosts@.map_values(|h: &str| h@) == ns_hosts(all.take(i as int), qname@),
            decreases n - i,
        {
            proof {
                assert(all.take(i + 1).drop_last() =~= all.take(i as int));
                assert(all.take(i + 1).last() == self.authorities@[i as int]@);
            }
            match &self.authorities[i] {
                DnsRecord::NS { domain, host, .. } => {
                    if text_ends_with(qname, domain.as_str()) {
                        let ghost before = hosts@;
                        hosts.push(host.as_str());
                        assert(hosts@.map_values(|h: &str| h@) =~= before.map_values(
                            |h: &str| h@,
                        ).push(host@));
                    }
                },
                _ => {},
            }
            i = i + 1;
        }
        assert(all.take(n as int) =~= all);
        hosts
    }

    /// The address that the first `A` record owned by `host` in the additional section gives.
    fn get_glue(&self, host: &str) -> (res: Option<u32>)
        ensures
            res == glue(self@.resources, host@),
    {
        let ghost all = self@.resources;
        let n = self.resources.len();
        let mut i: usize = 0;
        assert(all.skip(0) =~= all);
        while i < n
            invariant
                i <= n,
                n == self.resources@.len(),
                all == self@.resources,
                glue(all, host@) == glue(all.skip(i as int), host@),
            decreases n - i,
        {
            proof {
                assert(all.skip(i as int)[0] == self.resources@[i as int]@);
                assert(all.skip(i as int).drop_first() =~= all.skip(i + 1));
            }
            match &self.resources[i] {
                DnsRecord::A { domain, addr, .. } => {
                    if text_eq(domain.as_str(), host) {
                        return Some(*addr);
                    }
                },
                _ => {},
            }
            i = i + 1;
        }
        None
    }

    /// The address of a name server for `qname` that the message itself
    /// gives: the first delegation in the authority section whose target
    /// owns an `A` record in the additional section.
    pub fn get_resolved_ns(&self, qname: &str) -> (res: Option<u32>)
        ensures
            res == self@.resolved_ns(qname@),
    {
        let hosts = self.get_ns(qname);
        let ghost names = ns_hosts(self@.authorities, qname@);
        let n = hosts.len();
        let mut i: usize = 0;
        assert(names.skip(0) =~= names);
        while i < n
            invariant
                i <= n,
                n == hosts@.len(),
                names == hosts@.map_values(|h: &str| h@),
                names == ns_hosts(self@.authorities, qname@),
                first_glue(names, self@.resources) == first_glue(
                    names.skip(i as int),
                    self@.resources,
                ),
            decreases n - i,
        {
            proof {
                assert(names.skip(i as int)[0] == hosts@[i as int]@);
                assert(names.skip(i as int).drop_first() =~= names.skip(i + 1));
            }
            match self.get_glue(hosts[i]) {
                Some(addr) => {
                    return Some(addr);
                },
                None => {},
            }
            i = i + 1;
        }
        None
    }

    /// The name of the first name server that the authority section names for `qname`.
    pub fn get_unresolved_ns<'a>(&'a self, qname: &str) -> (res: Option<&'a str>)
        ensures
            match res {
                Some(host) => self@.unresolved_ns(qname@) == Some(host@),
                None => self@.unresolved_ns(qname@) is None,
            },
    {
        let hosts = self.get_ns(qname);
        if hosts.len() > 0 {
            Some(hosts[0])
        } else {
            None
        }
    }

    /// A copy of the first `CNAME` record among the answers.
    pub fn get_cname(&self) -> (res: Option<DnsRecord>)
        ensures
            match res {
                Some(record) => first_cname(self@.answers) == Some(record@),
                None => first_cname(self@.answers) is None,
            },
    {
        let ghost all = self@.answers;
        let n = self.answers.len();
        let mut i: usize = 0;
        assert(all.skip(0) =~= all);
        while i < n
            invariant
                i <= n,
                n == self.answers@.len(),
                all == self@.answers,
                first_cname(all) == first_cname(all.skip(i as int)),
            decreases n - i,
        {
            proof {
                assert(all.skip(i as int)[0] == self.answers@[i as int]@);
                assert(all.skip(i as int).drop_first() =~= all.skip(i + 1));
            }
            match &self.answers[i] {
                DnsRecord::CNAME { host, domain, ttl } => {
                    return Some(
                        DnsRecord::CNAME { domain: domain.clone(), host: host.clone(), ttl: *ttl },
                    );
                },
                _ => {},
            }
            i = i + 1;
        }
        None
    }

    /// The `A` records among the answers, in their order.
    pub fn final_answers(&self) -> (found: Vec<&DnsRecord>)
        ensures
            found@.map_values(|r: &DnsRecord| r@) == a_records(self@.answers),
    {
        let ghost all = self@.answers;
        let mut found: Vec<&DnsRecord> = Vec::new();
        let n = self.answers.len();
        let mut i: usize = 0;
        assert(all.take(0) =~= Seq::<RecordView>::empty());
        assert(found@.map_values(|r: &DnsRecord| r@) =~= Seq::<RecordView>::empty());
        while i < n
            invariant
                i <= n,
                n == self.answers@.len(),
                all == self@.answers,
                found@.map_values(|r: &DnsRecord| r@) == a_records(all.take(i as int)),
            decreases n - i,
        {
            proof {
                assert(all.take(i + 1).drop_last() =~= all.take(i as int));
                assert(all.take(i + 1).last() == self.answers@[i as int]@);
            }
            let ans = &self.answers[i];
            match ans {
                DnsRecord::A { .. } => {
                    let ghost before = found@;
                    found.push(ans);
                    assert(found@.map_values(|r: &DnsRecord| r@) =~= before.map_values(
                        |r: &DnsRecord| r@,
                    ).push(ans@));
                },
                _ => {},
            }
            i = i + 1;
        }
        assert(all.take(n as int) =~= all);
        found
    }

    /// Takes the answers of `response` behind its own, and its response code.
    /// The other sections of `response` are dropped.
    pub fn merge(&mut self, response: Self)
        ensures
            final(self)@ == old(self)@.merged(response@),
    {
        let mut response = response;
        let ghost mine = self.answers@;
        let ghost theirs = response.answers@;
        self.answers.append(&mut response.answers);
        self.header.rescode = response.header.rescode;
        assert(records_view(mine + theirs) =~= records_view(mine) + records_view(theirs));
    }
}

/// Whether two texts are the same.
fn text_eq(a: &str, b: &str) -> (same: bool)
    ensures
        same == (a@ == b@),
{
    let x = a.as_bytes();
    let y = b.as_bytes();
    proof {
        vstd::utf8::encode_utf8_decode_utf8(a@);
        vstd::utf8::encode_utf8_decode_utf8(b@);
    }
    if x.len() != y.len() {
        return false;
    }
    let n = x.len();
    let mut i: usize = 0;
    while i < n
        invariant
            i <= n,
            n == x@.len(),
            n == y@.len(),
            x@ == vstd::utf8::encode_utf8(a@),
            y@ == vstd::utf8::encode_utf8(b@),
            forall|k: int| 0 <= k < i ==> x@[k] == y@[k],
        decreases n - i,
    {
        if x[i] != y[i] {
            return false;
        }
        i = i + 1;
    }
    assert(x@ =~= y@);
    true
}

} // verus!
