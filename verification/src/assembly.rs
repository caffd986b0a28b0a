//! Putting a message on the wire: the header with its counts set to the
//! lengths of the sections, the four sections in order, and the truncation
//! bit set afterwards where a UDP message grew past 512 bytes.

use vstd::prelude::*;
use crate::buffer::{holds_at, splice, BytePacketBuffer};
use crate::buffer::{lemma_holds_split, lemma_splice_append, lemma_splice_holds};
use crate::dotted::{is_lowercase, lemma_canonical_lowercase};
use crate::error::DnsError;
use crate::header::{header_at, header_ok, header_wire, DnsHeader, HEADER_LEN, TC_MASK};
use crate::header::{lemma_header_round_trip, lemma_set_truncated, lemma_truncation_flag};
use crate::name::{lemma_name_wire_len, name_fits, name_ok};
use crate::packet::{parse_packet, parse_questions, parse_records};
use crate::packet::{questions_view, records_view, DnsPacket, PacketView};
use crate::question::{canonical_question, lemma_question_round_trip, name_whole};
use crate::question::{question_wire, DnsQuestion, QuestionView};
use crate::record::{lemma_record_round_trip, record_names_ok, record_names_whole};
use crate::record::{record_rdata, record_wire, shrink, DnsRecord, RecordView, MAX_RDATA_LEN};

verus! {

/// The largest UDP message that is not marked as truncated.
pub const UDP_LIMIT: usize = 512;

/// The most entries that a section can hold: what its 16-bit count can say.
pub const MAX_ENTRIES: usize = 0xFFFF;

/// Questions on the wire, one behind the other.
pub open spec fn questions_wire(questions: Seq<QuestionView>) -> Seq<u8>
    decreases questions.len(),
{
    if questions.len() == 0 {
        Seq::<u8>::empty()
    } else {
        questions_wire(questions.drop_last()) + question_wire(questions.last())
    }
}

/// Records on the wire, one behind the other.
pub open spec fn records_wire(records: Seq<RecordView>) -> Seq<u8>
    decreases records.len(),
{
    if records.len() == 0 {
        Seq::<u8>::empty()
    } else {
        records_wire(records.drop_last()) + record_wire(records.last())
    }
}

/// Every label of every question's name fits a length byte.
pub open spec fn questions_ok(questions: Seq<QuestionView>) -> bool {
    forall|i: int| 0 <= i < questions.len() ==> name_ok((#[trigger] questions[i]).name)
}

/// Every label of every name that the records would write fits a length byte.
pub open spec fn records_names_ok(records: Seq<RecordView>) -> bool {
    forall|i: int| 0 <= i < records.len() ==> record_names_ok(#[trigger] records[i])
}

/// RDLENGTH can hold the length of the data of every record.
pub open spec fn records_sizes_ok(records: Seq<RecordView>) -> bool {
    forall|i: int|
        0 <= i < records.len() ==> record_rdata(#[trigger] records[i]).len() <= MAX_RDATA_LEN
}

impl PacketView {
    /// Every label of every name that would be written fits a length byte.
    pub open spec fn names_ok(self) -> bool {
        &&& questions_ok(self.questions)
        &&& records_names_ok(self.answers)
        &&& records_names_ok(self.authorities)
        &&& records_names_ok(self.resources)
    }

    /// Every count and every RDLENGTH can hold what it has to say.
    pub open spec fn sizes_ok(self) -> bool {
        &&& self.questions.len() <= MAX_ENTRIES
        &&& self.answers.len() <= MAX_ENTRIES
        &&& self.authorities.len() <= MAX_ENTRIES
        &&& self.resources.len() <= MAX_ENTRIES
        &&& records_sizes_ok(self.answers)
        &&& records_sizes_ok(self.authorities)
        &&& records_sizes_ok(self.resources)
    }

    /// The message can be written, room permitting.
    pub open spec fn writable(self) -> bool {
        self.names_ok() && self.sizes_ok()
    }

    /// Why the message is not written, where it is not: a label is too long;
    /// or a count or an RDLENGTH cannot say what it has to; or the room does
    /// not suffice.
    pub open spec fn refusal(self) -> DnsError {
        if !self.names_ok() {
            DnsError::LabelTooLong
        } else if !self.sizes_ok() {
            DnsError::ProtocolError
        } else {
            DnsError::OutOfBounds
        }
    }

    /// The header with its four counts set to the lengths of the sections.
    pub open spec fn counted_header(self) -> DnsHeader {
        DnsHeader {
            questions: self.questions.len() as u16,
            answers: self.answers.len() as u16,
            authoritative_entries: self.authorities.len() as u16,
            resource_entries: self.resources.len() as u16,
            ..self.header
        }
    }

    /// The four sections on the wire.
    pub open spec fn sections_wire(self) -> Seq<u8> {
        questions_wire(self.questions) + records_wire(self.answers) + records_wire(
            self.authorities,
        ) + records_wire(self.resources)
    }

    /// The message is longer than a UDP message may be, and goes out by UDP.
    pub open spec fn truncates(self, is_udp: bool) -> bool {
        is_udp && HEADER_LEN + self.sections_wire().len() > UDP_LIMIT
    }

    /// The header as it is written: the counts set, and the truncation flag
    /// up where it was up before or the message is truncated.
    pub open spec fn emitted_header(self, is_udp: bool) -> DnsHeader {
        DnsHeader {
            truncated_message: self.header.truncated_message || self.truncates(is_udp),
            ..self.counted_header()
        }
    }

    /// The message as it is written: its header in the written form.
    pub open spec fn emitted(self, is_udp: bool) -> PacketView {
        PacketView { header: self.emitted_header(is_udp), ..self }
    }

    /// The message on the wire.
    pub open spec fn wire(self, is_udp: bool) -> Seq<u8> {
        header_wire(self.emitted_header(is_udp)) + self.sections_wire()
    }
}

/// The first `k` questions take no more room than all of them.
pub proof fn lemma_questions_prefix(questions: Seq<QuestionView>, k: int)
    requires
        0 <= k <= questions.len(),
    ensures
        questions_wire(questions.take(k)).len() <= questions_wire(questions).len(),
    decreases questions.len() - k,
{
    if k == questions.len() {
        assert(questions.take(k) =~= questions);
    } else {
        lemma_questions_prefix(questions, k + 1);
        assert(questions.take(k + 1).drop_last() =~= questions.take(k));
    }
}

/// The first `k` records take no more room than all of them.
pub proof fn lemma_records_prefix(records: Seq<RecordView>, k: int)
    requires
        0 <= k <= records.len(),
    ensures
        records_wire(records.take(k)).len() <= records_wire(records).len(),
    decreases records.len() - k,
{
    if k == records.len() {
        assert(records.take(k) =~= records);
    } else {
        lemma_records_prefix(records, k + 1);
        assert(records.take(k + 1).drop_last() =~= records.take(k));
    }
}

/// Whether every label of every question's name fits a length byte.
fn questions_fit(questions: &Vec<DnsQuestion>) -> (ok: bool)
    ensures
        ok == questions_ok(questions_view(questions@)),
{
    let n = questions.len();
    let mut i: usize = 0;
    while i < n
        invariant
            i <= n,
            n == questions@.len(),
            forall|k: int| 0 <= k < i ==> name_ok((#[trigger] questions_view(questions@)[k]).name),
        decreases n - i,
    {
        if !name_fits(questions[i].name.as_str()) {
            assert(!name_ok(questions_view(questions@)[i as int].name));
            return false;
        }
        i = i + 1;
    }
    true
}

/// Whether every label of every name that the records would write fits a length byte.
fn records_fit(records: &Vec<DnsRecord>) -> (ok: bool)
    ensures
        ok == records_names_ok(records_view(records@)),
{
    let n = records.len();
    let mut i: usize = 0;
    while i < n
        invariant
            i <= n,
            n == records@.len(),
            forall|k: int| 0 <= k < i ==> record_names_ok(#[trigger] records_view(records@)[k]),
        decreases n - i,
    {
        if !records[i].names_fit() {
            assert(!record_names_ok(records_view(records@)[i as int]));
            return false;
        }
        i = i + 1;
    }
    true
}

/// Whether RDLENGTH can hold the length of the data of every record.
fn records_sized(records: &Vec<DnsRecord>) -> (ok: bool)
    ensures
        ok == records_sizes_ok(records_view(records@)),
{
    let n = records.len();
    let mut i: usize = 0;
    while i < n
        invariant
            i <= n,
            n == records@.len(),
            forall|k: int|
                0 <= k < i ==> record_rdata(#[trigger] records_view(records@)[k]).len()
                    <= MAX_RDATA_LEN,
        decreases n - i,
    {
        if !records[i].data_fits() {
            assert(record_rdata(records_view(records@)[i as int]).len() > MAX_RDATA_LEN);
            return false;
        }
        i = i + 1;
    }
    true
}

/// The room that is left of `room` bytes once the questions are written, if they fit.
fn questions_room(questions: &Vec<DnsQuestion>, room: usize) -> (left: Option<usize>)
    ensures
        match left {
            Some(left) => left + questions_wire(questions_view(questions@)).len() == room,
            None => questions_wire(questions_view(questions@)).len() > room,
        },
{
    let ghost all = questions_view(questions@);
    let n = questions.len();
    let mut left = room;
    let mut i: usize = 0;
    assert(all.take(0) =~= Seq::<QuestionView>::empty());
    while i < n
        invariant
            i <= n,
            n == questions@.len(),
            all == questions_view(questions@),
            left + questions_wire(all.take(i as int)).len() == room,
        decreases n - i,
    {
        proof {
            assert(all.take(i + 1).drop_last() =~= all.take(i as int));
            assert(all.take(i + 1).last() == questions@[i as int]@);
            lemma_name_wire_len(vstd::utf8::encode_utf8(questions@[i as int].name@));
        }
        match shrink(left, questions[i].name.as_str().as_bytes().len(), 6) {
            Some(rest) => {
                left = rest;
            },
            None => {
                proof {
                    lemma_questions_prefix(all, i + 1);
                }
                return None;
            },
        }
        i = i + 1;
    }
    assert(all.take(n as int) =~= all);
    Some(left)
}

/// The room that is left of `room` bytes once the records are written, if they fit.
fn records_room(records: &Vec<DnsRecord>, room: usize) -> (left: Option<usize>)
    ensures
        match left {
            Some(left) => left + records_wire(records_view(records@)).len() == room,
            None => records_wire(records_view(records@)).len() > room,
        },
{
    let ghost all = records_view(records@);
    let n = records.len();
    let mut left = room;
    let mut i: usize = 0;
    assert(all.take(0) =~= Seq::<RecordView>::empty());
    while i < n
        invariant
            i <= n,
            n == records@.len(),
            all == records_view(records@),
            left + records_wire(all.take(i as int)).len() == room,
        decreases n - i,
    {
        proof {
            assert(all.take(i + 1).drop_last() =~= all.take(i as int));
            assert(all.take(i + 1).last() == records@[i as int]@);
        }
        match records[i].room_after(left) {
            Some(rest) => {
                left = rest;
            },
            None => {
                proof {
                    lemma_records_prefix(all, i + 1);
                }
                return None;
            },
        }
        i = i + 1;
    }
    assert(all.take(n as int) =~= all);
    Some(left)
}

/// Writes questions that are known to be in order and to fit.
fn write_questions(buffer: &mut BytePacketBuffer, questions: &Vec<DnsQuestion>) -> (res: Result<
    (),
    DnsError,
>)
    requires
        questions_ok(questions_view(questions@)),
        old(buffer).fits(questions_wire(questions_view(questions@))),
    ensures
        res is Ok,
        old(buffer).wrote(final(buffer), questions_wire(questions_view(questions@))),
{
    let ghost all = questions_view(questions@);
    let ghost before = buffer.buf@;
    let ghost start = buffer.pos as int;
    let n = questions.len();
    let mut i: usize = 0;
    assert(all.take(0) =~= Seq::<QuestionView>::empty());
    assert(buffer.buf@ =~= splice(before, start, Seq::<u8>::empty()));
    while i < n
        invariant
            i <= n,
            n == questions@.len(),
            all == questions_view(questions@),
            questions_ok(all),
            0 <= start,
            start + questions_wire(all).len() <= before.len(),
            buffer.pos == start + questions_wire(all.take(i as int)).len(),
            buffer.buf@ == splice(before, start, questions_wire(all.take(i as int))),
        decreases n - i,
    {
        proof {
            assert(all.take(i + 1).drop_last() =~= all.take(i as int));
            assert(all.take(i + 1).last() == questions@[i as int]@);
            assert(all[i as int] == questions@[i as int]@);
            lemma_questions_prefix(all, i + 1);
            lemma_splice_append(
                before,
                start,
                questions_wire(all.take(i as int)),
                question_wire(questions@[i as int]@),
            );
        }
        questions[i].write(buffer)?;
        i = i + 1;
    }
    assert(all.take(n as int) =~= all);
    Ok(())
}

/// Writes records that are known to be in order and to fit.
fn write_records(buffer: &mut BytePacketBuffer, records: &Vec<DnsRecord>) -> (res: Result<
    (),
    DnsError,
>)
    requires
        records_names_ok(records_view(records@)),
        records_sizes_ok(records_view(records@)),
        old(buffer).fits(records_wire(records_view(records@))),
    ensures
        res is Ok,
        old(buffer).wrote(final(buffer), records_wire(records_view(records@))),
{
    let ghost all = records_view(records@);
    let ghost before = buffer.buf@;
    let ghost start = buffer.pos as int;
    let n = records.len();
    let mut i: usize = 0;
    assert(all.take(0) =~= Seq::<RecordView>::empty());
    assert(buffer.buf@ =~= splice(before, start, Seq::<u8>::empty()));
    while i < n
        invariant
            i <= n,
            n == records@.len(),
            all == records_view(records@),
            records_names_ok(all),
            records_sizes_ok(all),
            0 <= start,
            start + records_wire(all).len() <= before.len(),
            buffer.pos == start + records_wire(all.take(i as int)).len(),
            buffer.buf@ == splice(before, start, records_wire(all.take(i as int))),
        decreases n - i,
    {
        proof {
            assert(all.take(i + 1).drop_last() =~= all.take(i as int));
            assert(all.take(i + 1).last() == records@[i as int]@);
            assert(all[i as int] == records@[i as int]@);
            lemma_records_prefix(all, i + 1);
            lemma_splice_append(
                before,
                start,
                records_wire(all.take(i as int)),
                record_wire(records@[i as int]@),
            );
        }
        records[i].write(buffer)?;
        i = i + 1;
    }
    assert(all.take(n as int) =~= all);
    Ok(())
}


impl DnsPacket {
    /// Whether the message can be written, room permitting; and if not, why not.
    pub fn check(&self) -> (res: Result<(), DnsError>)
        ensures
            res is Ok <==> self@.writable(),
            res matches Err(e) ==> e == self@.refusal() && e != DnsError::OutOfBounds,
    {
        if !questions_fit(&self.questions) || !records_fit(&self.answers) || !records_fit(
            &self.authorities,
        ) || !records_fit(&self.resources) {
            return Err(DnsError::LabelTooLong);
        }
        if self.questions.len() > MAX_ENTRIES || self.answers.len() > MAX_ENTRIES
            || self.authorities.len() > MAX_ENTRIES || self.resources.len() > MAX_ENTRIES {
            return Err(DnsError::ProtocolError);
        }
        if !records_sized(&self.answers) || !records_sized(&self.authorities) || !records_sized(
            &self.resources,
        ) {
            return Err(DnsError::ProtocolError);
        }
        Ok(())
    }

    /// Whether the room behind the cursor holds the message.
    pub fn has_room(&self, buffer: &BytePacketBuffer) -> (ok: bool)
        ensures
            ok == (buffer.pos + HEADER_LEN + self@.sections_wire().len() <= buffer.buf@.len()),
    {
        if buffer.pos > buffer.buf.len() || buffer.buf.len() - buffer.pos < HEADER_LEN {
            return false;
        }
        let room = buffer.buf.len() - buffer.pos - HEADER_LEN;
        let room = match questions_room(&self.questions, room) {
            Some(left) => left,
            None => {
                return false;
            },
        };
        let room = match records_room(&self.answers, room) {
            Some(left) => left,
            None => {
                return false;
            },
        };
        let room = match records_room(&self.authorities, room) {
            Some(left) => left,
            None => {
                return false;
            },
        };
        records_room(&self.resources, room).is_some()
    }

    /// Writes `header` and the four sections of a message that is known to be
    /// in order and to fit, and returns the position of the first flag byte.
    fn emit(&self, buffer: &mut BytePacketBuffer, header: &DnsHeader) -> (res: Result<
        usize,
        DnsError,
    >)
        requires
            self@.writable(),
            old(buffer).fits(header_wire(*header) + self@.sections_wire()),
        ensures
            res matches Ok(flags_pos) && flags_pos == old(buffer).pos + 2,
            old(buffer).wrote(final(buffer), header_wire(*header) + self@.sections_wire()),
    {
        let ghost view = self@;
        let ghost before = buffer.buf@;
        let ghost start = buffer.pos as int;
        let ghost w0 = header_wire(*header);
        let ghost w1 = w0 + questions_wire(view.questions);
        let ghost w2 = w1 + records_wire(view.answers);
        let ghost w3 = w2 + records_wire(view.authorities);
        let ghost w4 = w3 + records_wire(view.resources);
        assert(w4 =~= w0 + view.sections_wire());

        let header_pos = header.write(buffer)?;

        write_questions(buffer, &self.questions)?;
        proof {
            lemma_splice_append(before, start, w0, questions_wire(view.questions));
        }

        write_records(buffer, &self.answers)?;
        proof {
            lemma_splice_append(before, start, w1, records_wire(view.answers));
        }

        write_records(buffer, &self.authorities)?;
        proof {
            lemma_splice_append(before, start, w2, records_wire(view.authorities));
        }

        write_records(buffer, &self.resources)?;
        proof {
            lemma_splice_append(before, start, w3, records_wire(view.resources));
        }
        Ok(header_pos)
    }

    /// Writes the message at the cursor.
    ///
    /// The four counts of the header are set to the lengths of the sections;
    /// the header goes out first, then questions, answers, authority records
    /// and additional records. Where the message is longer than 512 bytes and
    /// goes out by UDP, the truncation bit is then set in the written header.
    /// `self.header` ends as the header that was written.
    ///
    /// Nothing is written, and `self` stays as it was, where a label is
    /// longer than 63 bytes, where a section has more than 65535 entries or a
    /// record more than 65535 bytes of data, and where the room does not
    /// suffice.
    pub fn write(&mut self, buffer: &mut BytePacketBuffer, is_udp: bool) -> (res: Result<
        (),
        DnsError,
    >)
        ensures
            res is Ok <==> old(self)@.writable() && old(buffer).fits(old(self)@.wire(is_udp)),
            res is Ok ==> old(buffer).wrote(final(buffer), old(self)@.wire(is_udp)),
            res is Ok ==> final(self)@ == old(self)@.emitted(is_udp),
            res is Err ==> *final(buffer) == *old(buffer) && *final(self) == *old(self),
            res matches Err(e) ==> e == old(self)@.refusal(),
    {
        let ghost view = self@;
        let ghost before = buffer.buf@;
        let ghost start = buffer.pos as int;
        proof {
            lemma_set_truncated(view.emitted_header(is_udp));
            lemma_set_truncated(view.counted_header());
        }
        self.check()?;
        if !self.has_room(buffer) {
            return Err(DnsError::OutOfBounds);
        }
        let from = buffer.pos;
        let mut header = self.header;
        header.questions = self.questions.len() as u16;
        header.answers = self.answers.len() as u16;
        header.authoritative_entries = self.authorities.len() as u16;
        header.resource_entries = self.resources.len() as u16;
        assert(header == view.counted_header());

        let header_pos = self.emit(buffer, &header)?;

        if buffer.pos - from > UDP_LIMIT && is_udp {
            header.truncated_message = true;
            mark_truncated(buffer, header_pos)?;
            proof {
                let plain = header_wire(view.counted_header());
                let up = header_wire(view.emitted_header(is_udp));
                assert(header == view.emitted_header(is_udp));
                assert((plain + view.sections_wire())[2] == plain[2]);
                assert(buffer.buf@ =~= splice(before, start, up + view.sections_wire()));
            }
        }
        self.header = header;
        Ok(())
    }
}

/// Sets the truncation bit in the flag byte at `pos`.
fn mark_truncated(buffer: &mut BytePacketBuffer, pos: usize) -> (res: Result<(), DnsError>)
    requires
        pos < old(buffer).buf@.len(),
    ensures
        res is Ok,
        final(buffer).pos == old(buffer).pos,
        final(buffer).buf@ == old(buffer).buf@.update(
            pos as int,
            old(buffer).buf@[pos as int] | TC_MASK,
        ),
{
    let mut old_header = buffer.get(pos)?;
    old_header = old_header | TC_MASK;
    buffer.set(pos, old_header)?;
    Ok(())
}


/// Every question reads back whole: no label of its name is empty, and
/// `UNKNOWN` carries no number of a named type.
pub open spec fn questions_whole(questions: Seq<QuestionView>) -> bool {
    forall|i: int|
        0 <= i < questions.len() ==> name_whole((#[trigger] questions[i]).name)
            && questions[i].qtype.canonical()
}

/// Every record reads back whole: it is of a known type, and no label of its names is empty.
pub open spec fn records_whole(records: Seq<RecordView>) -> bool {
    forall|i: int|
        0 <= i < records.len() ==> !((#[trigger] records[i]) is UNKNOWN) && record_names_whole(
            records[i],
        )
}

/// The questions with their names in the form in which they come back from the wire.
pub open spec fn canonical_questions(questions: Seq<QuestionView>) -> Seq<QuestionView> {
    questions.map_values(|q: QuestionView| canonical_question(q))
}

/// The records with their names in the form in which they come back from the wire.
pub open spec fn canonical_records(records: Seq<RecordView>) -> Seq<RecordView> {
    records.map_values(|r: RecordView| r.canonical())
}

impl PacketView {
    /// The message reads back whole: its opcode fits four bits, and every
    /// question and every record reads back whole.
    pub open spec fn whole(self) -> bool {
        &&& header_ok(self.header)
        &&& questions_whole(self.questions)
        &&& records_whole(self.answers)
        &&& records_whole(self.authorities)
        &&& records_whole(self.resources)
    }

    /// The message with every name in the form in which it comes back from the wire.
    pub open spec fn canonical(self) -> PacketView {
        PacketView {
            header: self.header,
            questions: canonical_questions(self.questions),
            answers: canonical_records(self.answers),
            authorities: canonical_records(self.authorities),
            resources: canonical_records(self.resources),
        }
    }
}

/// Written questions read back, one after the other, as themselves with
/// their names in canonical form.
pub proof fn lemma_questions_round_trip(bytes: Seq<u8>, pos: int, questions: Seq<QuestionView>)
    requires
        questions_ok(questions),
        questions_whole(questions),
        holds_at(bytes, pos, questions_wire(questions)),
    ensures
        parse_questions(bytes, pos, questions.len()) == Ok::<(Seq<QuestionView>, int), DnsError>(
            (canonical_questions(questions), pos + questions_wire(questions).len()),
        ),
    decreases questions.len(),
{
    if questions.len() == 0 {
        assert(canonical_questions(questions) =~= Seq::<QuestionView>::empty());
    } else {
        let init = questions.drop_last();
        let last = questions.last();
        lemma_holds_split(bytes, pos, questions_wire(init), question_wire(last));
        assert forall|i: int| 0 <= i < init.len() implies name_ok((#[trigger] init[i]).name)
            && name_whole(init[i].name) && init[i].qtype.canonical() by {
            assert(init[i] == questions[i]);
        }
        lemma_questions_round_trip(bytes, pos, init);
        lemma_question_round_trip(bytes, pos + questions_wire(init).len(), last);
        assert(canonical_questions(init).push(canonical_question(last)) =~= canonical_questions(
            questions,
        ));
    }
}

/// Written records read back, one after the other, as themselves with their
/// names in canonical form.
pub proof fn lemma_records_round_trip(bytes: Seq<u8>, pos: int, records: Seq<RecordView>)
    requires
        records_names_ok(records),
        records_whole(records),
        holds_at(bytes, pos, records_wire(records)),
    ensures
        parse_records(bytes, pos, records.len()) == Ok::<(Seq<RecordView>, int), DnsError>(
            (canonical_records(records), pos + records_wire(records).len()),
        ),
    decreases records.len(),
{
    if records.len() == 0 {
        assert(canonical_records(records) =~= Seq::<RecordView>::empty());
    } else {
        let init = records.drop_last();
        let last = records.last();
        lemma_holds_split(bytes, pos, records_wire(init), record_wire(last));
        assert forall|i: int| 0 <= i < init.len() implies record_names_ok(#[trigger] init[i])
            && !(init[i] is UNKNOWN) && record_names_whole(init[i]) by {
            assert(init[i] == records[i]);
        }
        lemma_records_round_trip(bytes, pos, init);
        lemma_record_round_trip(bytes, pos + records_wire(init).len(), last);
        assert(canonical_records(init).push(last.canonical()) =~= canonical_records(records));
    }
}

/// A written message reads back as itself, with the header as it was written
/// and every name in canonical form.
///
/// This holds of a message whose sections have at most 65535 entries, whose
/// opcode fits four bits, whose records are of known types, whose names have
/// labels of 1 to 63 bytes, and whose questions ask for a named type or for a
/// number that no named type has. The counts that are read back are the
/// lengths of the sections.
pub proof fn lemma_packet_round_trip(bytes: Seq<u8>, pos: int, p: PacketView, is_udp: bool)
    requires
        p.names_ok(),
        p.whole(),
        p.questions.len() <= MAX_ENTRIES,
        p.answers.len() <= MAX_ENTRIES,
        p.authorities.len() <= MAX_ENTRIES,
        p.resources.len() <= MAX_ENTRIES,
        holds_at(bytes, pos, p.wire(is_udp)),
    ensures
        parse_packet(bytes, pos) == Ok::<(PacketView, int), DnsError>(
            (p.emitted(is_udp).canonical(), pos + p.wire(is_udp).len()),
        ),
        p.emitted(is_udp).header.questions == p.questions.len(),
        p.emitted(is_udp).header.answers == p.answers.len(),
        p.emitted(is_udp).header.authoritative_entries == p.authorities.len(),
        p.emitted(is_udp).header.resource_entries == p.resources.len(),
{
    let h = p.emitted_header(is_udp);
    let w0 = header_wire(h);
    let q = questions_wire(p.questions);
    let a1 = records_wire(p.answers);
    let a2 = records_wire(p.authorities);
    let a3 = records_wire(p.resources);
    assert(w0.len() == HEADER_LEN);
    assert(p.wire(is_udp) =~= w0 + q + a1 + a2 + a3);
    lemma_holds_split(bytes, pos, w0 + q + a1 + a2, a3);
    lemma_holds_split(bytes, pos, w0 + q + a1, a2);
    lemma_holds_split(bytes, pos, w0 + q, a1);
    lemma_holds_split(bytes, pos, w0, q);
    lemma_header_round_trip(bytes, pos, h);
    let at_questions = pos + HEADER_LEN;
    lemma_questions_round_trip(bytes, at_questions, p.questions);
    let at_answers = at_questions + q.len();
    lemma_records_round_trip(bytes, at_answers, p.answers);
    let at_authorities = at_answers + a1.len();
    lemma_records_round_trip(bytes, at_authorities, p.authorities);
    let at_resources = at_authorities + a2.len();
    lemma_records_round_trip(bytes, at_resources, p.resources);
}

/// The truncation bit on the wire is up exactly where the header's flag was
/// up before, or the message is longer than 512 bytes and goes out by UDP.
/// So a message of more than 512 bytes whose flag was down goes out by UDP
/// with the bit up, and by TCP with the bit down.
pub proof fn lemma_truncation_bit(bytes: Seq<u8>, pos: int, p: PacketView, is_udp: bool)
    requires
        holds_at(bytes, pos, p.wire(is_udp)),
    ensures
        header_at(bytes, pos).truncated_message == (p.header.truncated_message || (is_udp
            && p.wire(is_udp).len() > UDP_LIMIT)),
{
    let h = p.emitted_header(is_udp);
    lemma_set_truncated(h);
    lemma_holds_split(bytes, pos, header_wire(h), p.sections_wire());
    lemma_truncation_flag(bytes, pos, h);
}


/// The name of every question has its labels in lower case.
pub open spec fn questions_lowercase(questions: Seq<QuestionView>) -> bool {
    forall|i: int| 0 <= i < questions.len() ==> is_lowercase((#[trigger] questions[i]).name)
}

/// Both names of every record have their labels in lower case.
pub open spec fn records_lowercase(records: Seq<RecordView>) -> bool {
    forall|i: int|
        0 <= i < records.len() ==> is_lowercase((#[trigger] records[i]).domain()) && (
        match records[i] {
            RecordView::NS { host, .. } => is_lowercase(host),
            RecordView::CNAME { host, .. } => is_lowercase(host),
            RecordView::MX { host, .. } => is_lowercase(host),
            _ => true,
        })
}

impl PacketView {
    /// Every name in the message has its labels in lower case.
    pub open spec fn lowercase(self) -> bool {
        &&& questions_lowercase(self.questions)
        &&& records_lowercase(self.answers)
        &&& records_lowercase(self.authorities)
        &&& records_lowercase(self.resources)
    }
}

/// Records whose names are in lower case are their own canonical form.
pub proof fn lemma_records_lowercase(records: Seq<RecordView>)
    requires
        records_lowercase(records),
    ensures
        canonical_records(records) == records,
{
    assert forall|i: int| 0 <= i < records.len() implies (#[trigger] records[i]).canonical()
        == records[i] by {
        let r = records[i];
        lemma_canonical_lowercase(r.domain());
        match r {
            RecordView::NS { host, .. } => {
                lemma_canonical_lowercase(host);
            },
            RecordView::CNAME { host, .. } => {
                lemma_canonical_lowercase(host);
            },
            RecordView::MX { host, .. } => {
                lemma_canonical_lowercase(host);
            },
            _ => {},
        }
    }
    assert(canonical_records(records) =~= records);
}

/// A message whose names are in lower case is its own canonical form.
pub proof fn lemma_packet_lowercase(p: PacketView)
    requires
        p.lowercase(),
    ensures
        p.canonical() == p,
{
    assert forall|i: int| 0 <= i < p.questions.len() implies canonical_question(
        #[trigger] p.questions[i],
    ) == p.questions[i] by {
        lemma_canonical_lowercase(p.questions[i].name);
    }
    assert(canonical_questions(p.questions) =~= p.questions);
    lemma_records_lowercase(p.answers);
    lemma_records_lowercase(p.authorities);
    lemma_records_lowercase(p.resources);
}

/// What `write` put into a buffer, `from_buffer` reads from it: where a
/// message that reads back whole was written at the cursor, reading at the
/// same place yields the message as it was written, with every name in
/// canonical form, and ends where the writing ended. A message whose names
/// are in lower case comes back as it was written.
pub proof fn lemma_written_reads_back(
    before: BytePacketBuffer,
    after: BytePacketBuffer,
    p: PacketView,
    is_udp: bool,
)
    requires
        p.writable(),
        p.whole(),
        before.wrote(&after, p.wire(is_udp)),
    ensures
        parse_packet(after.buf@, before.pos as int) == Ok::<(PacketView, int), DnsError>(
            (p.emitted(is_udp).canonical(), after.pos as int),
        ),
        p.lowercase() ==> p.emitted(is_udp).canonical() == p.emitted(is_udp),
{
    lemma_splice_holds(before.buf@, before.pos as int, p.wire(is_udp));
    lemma_packet_round_trip(after.buf@, before.pos as int, p, is_udp);
    if p.lowercase() {
        lemma_packet_lowercase(p.emitted(is_udp));
    }
}

} // verus!
