//! The question of a message: a name and the type asked for. The class on the
//! wire is always 1 (Internet); on the way in it is read and dropped.

use vstd::prelude::*;
use vstd::string::StringExecFns;
use crate::buffer::{holds_at, u16_at, u16_wire, BytePacketBuffer};
use crate::buffer::{lemma_holds_split, lemma_splice_append, lemma_u16_holds};
use crate::codes::QueryType;
use crate::error::DnsError;
use crate::name::{canonical_name, labels_fit, lemma_labels_round_trip, lemma_name_wire_len};
use crate::name::{labels_nonempty, name_end, name_ok, name_text, name_wire, parse_labels};
use crate::name::{split_labels, split_name};

verus! {

#[derive(Debug, Clone, PartialEq, Eq)]
pub struct DnsQuestion {
    pub name: String,
    pub qtype: QueryType,
}

/// A question as a value: the text of its name and its type.
pub struct QuestionView {
    pub name: Seq<char>,
    pub qtype: QueryType,
}

impl View for DnsQuestion {
    type V = QuestionView;

    open spec fn view(&self) -> QuestionView {
        QuestionView { name: self.name@, qtype: self.qtype }
    }
}

/// No label of a dotted name is empty.
pub open spec fn name_whole(name: Seq<char>) -> bool {
    labels_nonempty(split_labels(vstd::utf8::encode_utf8(name)))
}

/// A question on the wire: its name, its type and the class 1.
pub open spec fn question_wire(q: QuestionView) -> Seq<u8> {
    name_wire(q.name) + u16_wire(q.qtype.num()) + u16_wire(1)
}

/// The question that stands at `pos`, and the position behind it.
pub open spec fn parse_question(bytes: Seq<u8>, pos: int) -> Result<(QuestionView, int), DnsError> {
    match parse_labels(bytes, pos, 0) {
        Err(e) => Err(e),
        Ok(labels) => {
            let end = name_end(bytes, pos);
            if end + 4 > bytes.len() {
                Err(DnsError::OutOfBounds)
            } else {
                Ok(
                    (
                        QuestionView {
                            name: name_text(labels),
                            qtype: QueryType::of_num(u16_at(bytes, end)),
                        },
                        end + 4,
                    ),
                )
            }
        },
    }
}

/// A question in the form in which it comes back from the wire.
pub open spec fn canonical_question(q: QuestionView) -> QuestionView {
    QuestionView { name: canonical_name(q.name), qtype: q.qtype }
}

/// A written question reads back as itself with its name in canonical form:
/// where the wire form of a question stands at `pos`, the labels of its name
/// hold 1 to 63 bytes each and `UNKNOWN` carries no number of a named type,
/// reading at `pos` yields the question and ends behind it.
pub proof fn lemma_question_round_trip(bytes: Seq<u8>, pos: int, q: QuestionView)
    requires
        name_ok(q.name),
        name_whole(q.name),
        q.qtype.canonical(),
        holds_at(bytes, pos, question_wire(q)),
    ensures
        parse_question(bytes, pos) == Ok::<(QuestionView, int), DnsError>(
            (canonical_question(q), pos + question_wire(q).len()),
        ),
{
    let labels = split_labels(vstd::utf8::encode_utf8(q.name));
    let name = name_wire(q.name);
    let qtype = u16_wire(q.qtype.num());
    lemma_holds_split(bytes, pos, name + qtype, u16_wire(1));
    lemma_holds_split(bytes, pos, name, qtype);
    lemma_labels_round_trip(bytes, pos, labels, 0);
    lemma_u16_holds(bytes, pos + name.len(), q.qtype.num());
    QueryType::lemma_of_num_num(q.qtype);
}

impl DnsQuestion {
    pub fn new(name: String, qtype: QueryType) -> (q: Self)
        ensures
            q.name == name,
            q.qtype == qtype,
    {
        Self { name, qtype }
    }

    /// Reads a question at the cursor: its name is appended to `self.name`,
    /// its type replaces `self.qtype`, its class is dropped. On failure
    /// nothing changes.
    pub fn read(&mut self, buffer: &mut BytePacketBuffer) -> (res: Result<(), DnsError>)
        ensures
            final(buffer).buf == old(buffer).buf,
            match res {
                Ok(()) => {
                    &&& parse_question(old(buffer).buf@, old(buffer).pos as int) matches Ok(
                        (q, end),
                    )
                    &&& final(self)@ == (QuestionView {
                        name: old(self).name@ + q.name,
                        qtype: q.qtype,
                    })
                    &&& final(buffer).pos == end
                },
                Err(e) => {
                    &&& parse_question(old(buffer).buf@, old(buffer).pos as int) == Err::<
                        (QuestionView, int),
                        DnsError,
                    >(e)
                    &&& *final(self) == *old(self)
                    &&& final(buffer).pos == old(buffer).pos
                },
            },
    {
        let start = buffer.pos;
        let mut name = String::new();
        buffer.read_qname(&mut name)?;
        if buffer.buf.len() - buffer.pos < 4 {
            buffer.pos = start;
            return Err(DnsError::OutOfBounds);
        }
        let num = buffer.read_u16()?;
        let _ = buffer.read_u16()?;
        self.name.append(name.as_str());
        self.qtype = QueryType::from_num(num);
        assert(Seq::<char>::empty() + name@ =~= name@);
        Ok(())
    }

    /// Writes the question at the cursor. A name with a label of more than 63
    /// bytes is refused, and so is a question for which the room does not
    /// suffice; on failure nothing changes.
    pub fn write(&self, buffer: &mut BytePacketBuffer) -> (res: Result<(), DnsError>)
        ensures
            res is Ok <==> name_ok(self.name@) && old(buffer).fits(question_wire(self@)),
            res is Ok ==> old(buffer).wrote(final(buffer), question_wire(self@)),
            res is Err ==> *final(buffer) == *old(buffer),
            res matches Err(e) ==> e == (if name_ok(self.name@) {
                DnsError::OutOfBounds
            } else {
                DnsError::LabelTooLong
            }),
    {
        let labels = split_name(self.name.as_str());
        if !labels_fit(&labels) {
            return Err(DnsError::LabelTooLong);
        }
        proof {
            lemma_name_wire_len(vstd::utf8::encode_utf8(self.name@));
        }
        let name_len = self.name.as_str().as_bytes().len();
        if buffer.pos > buffer.buf.len() || buffer.buf.len() - buffer.pos < 6 || name_len
            > buffer.buf.len() - buffer.pos - 6 {
            return Err(DnsError::OutOfBounds);
        }
        let ghost before = buffer.buf@;
        let ghost start = buffer.pos as int;
        let ghost name = name_wire(self.name@);
        let ghost qtype = u16_wire(self.qtype.num());
        buffer.write_labels(&labels)?;
        buffer.write_u16(self.qtype.to_num())?;
        buffer.write_u16(1)?;
        proof {
            lemma_splice_append(before, start, name, qtype);
            lemma_splice_append(before, start, name + qtype, u16_wire(1));
        }
        Ok(())
    }
}

} // verus!
