//! The way of a request through the server: it is read, its question is
//! handed to the resolver, and what the resolver gathered is sent back under
//! the identifier of the request.
//!
//! Every request whose header can be read gets a response. A request that
//! cannot be read further is answered `SERVFAIL`, one without a question
//! `FORMERR`, and so is answered `SERVFAIL` a resolution that ran out of
//! queries or gathered what cannot be written.

use vstd::prelude::*;
use crate::buffer::{blank_bytes, splice, BytePacketBuffer, BUF_LEN};
use crate::buffer::{lemma_holds_split, lemma_splice_holds};
use crate::codes::ResultCode;
use crate::error::DnsError;
use crate::header::{header_at, header_wire, lemma_header_id, DnsHeader, HEADER_LEN};
use crate::packet::{parse_packet, questions_view, DnsPacket, PacketView};
use crate::question::{DnsQuestion, QuestionView};
use crate::resolver::{Action, ActionView};

verus! {

/// What is to be done with a request once it is read.
pub enum Opened {
    /// The request has a question: resolve it, gathering into `response`.
    Question { response: DnsPacket, question: DnsQuestion },
    /// The request cannot be served: `response` goes back as it is.
    Reply { response: DnsPacket },
}

/// An opened request as a value.
pub enum OpenedView {
    Question { response: PacketView, question: QuestionView },
    Reply { response: PacketView },
}

impl View for Opened {
    type V = OpenedView;

    open spec fn view(&self) -> OpenedView {
        match *self {
            Opened::Question { response, question } => OpenedView::Question {
                response: response@,
                question: question@,
            },
            Opened::Reply { response } => OpenedView::Reply { response: response@ },
        }
    }
}

/// The response to a request with the identifier `id`, before anything is
/// gathered: a response that desires and offers recursion, with the given
/// response code and no records.
pub open spec fn response_view(id: u16, rescode: ResultCode) -> PacketView {
    PacketView {
        header: DnsHeader {
            id,
            recursion_desired: true,
            recursion_available: true,
            response: true,
            rescode,
            ..DnsHeader::blank()
        },
        ..DnsPacket::blank()
    }
}

/// What is to be done with the request that stands at `pos`, if its header can be read.
///
/// A request that reads whole and has a question is resolved: the question
/// is the last one it has. A request without a question is answered
/// `FORMERR`, and one that does not read whole `SERVFAIL`.
pub open spec fn opened(bytes: Seq<u8>, pos: int) -> OpenedView {
    match parse_packet(bytes, pos) {
        Ok((request, end)) => if request.questions.len() > 0 {
            OpenedView::Question {
                response: response_view(request.header.id, ResultCode::NOERROR),
                question: request.questions.last(),
            }
        } else {
            OpenedView::Reply { response: response_view(request.header.id, ResultCode::FORMERR) }
        },
        Err(e) => OpenedView::Reply {
            response: response_view(header_at(bytes, pos).id, ResultCode::SERVFAIL),
        },
    }
}

/// The message that closes a resolution, if the action closes one.
///
/// What a resolution gathered goes back with the question behind it. Where
/// the resolution ran out of queries, what it had gathered goes back with
/// the response code `SERVFAIL` and without the question.
pub open spec fn concluded(action: ActionView, question: QuestionView) -> Option<PacketView> {
    match action {
        ActionView::Done(packet) => Some(
            PacketView { questions: packet.questions.push(question), ..packet },
        ),
        ActionView::Exhausted(packet) => Some(
            PacketView {
                header: DnsHeader { rescode: ResultCode::SERVFAIL, ..packet.header },
                ..packet
            },
        ),
        ActionView::Ask(_) => None,
    }
}

/// The message that goes out for `packet`: the packet itself where it can be
/// written into a fresh buffer, else the bare response `SERVFAIL` under the
/// same identifier.
pub open spec fn sent(packet: PacketView, is_udp: bool) -> PacketView {
    if packet.writable() && packet.wire(is_udp).len() <= BUF_LEN {
        packet
    } else {
        response_view(packet.header.id, ResultCode::SERVFAIL)
    }
}

/// A response with nothing gathered yet.
fn new_response(id: u16, rescode: ResultCode) -> (packet: DnsPacket)
    ensures
        packet@ == response_view(id, rescode),
{
    let mut packet = DnsPacket::new();
    packet.header.id = id;
    packet.header.recursion_desired = true;
    packet.header.recursion_available = true;
    packet.header.response = true;
    packet.header.rescode = rescode;
    packet
}

/// Reads a request at the cursor and says what is to be done with it.
///
/// Only a request whose header cannot be read is refused: there is no
/// identifier to answer under. The cursor ends behind a request that read
/// whole, and stays where it was otherwise.
pub fn open_request(req_buffer: &mut BytePacketBuffer) -> (res: Result<Opened, DnsError>)
    ensures
        final(req_buffer).buf == old(req_buffer).buf,
        res is Ok <==> old(req_buffer).pos + HEADER_LEN <= old(req_buffer).buf@.len(),
        res matches Ok(request) ==> request@ == opened(
            old(req_buffer).buf@,
            old(req_buffer).pos as int,
        ),
        res matches Err(e) ==> e == DnsError::OutOfBounds,
        final(req_buffer).pos == (match parse_packet(
            old(req_buffer).buf@,
            old(req_buffer).pos as int,
        ) {
            Ok((request, end)) => end,
            Err(e) => old(req_buffer).pos as int,
        }),
{
    let start = req_buffer.pos;
    let mut header = DnsHeader::new();
    header.read(req_buffer)?;
    req_buffer.pos = start;

    match DnsPacket::from_buffer(req_buffer) {
        Ok(request) => {
            let mut request = request;
            let ghost asked = request@.questions;
            match request.questions.pop() {
                Some(question) => {
                    assert(question@ == asked.last());
                    Ok(
                        Opened::Question {
                            response: new_response(request.header.id, ResultCode::NOERROR),
                            question,
                        },
                    )
                },
                None => Ok(
                    Opened::Reply {
                        response: new_response(request.header.id, ResultCode::FORMERR),
                    },
                ),
            }
        },
        Err(_) => Ok(Opened::Reply { response: new_response(header.id, ResultCode::SERVFAIL) }),
    }
}

/// The message that closes a resolution, if `action` closes one.
pub fn conclude(action: Action, question: DnsQuestion) -> (res: Option<DnsPacket>)
    ensures
        match res {
            Some(packet) => concluded(action@, question@) == Some(packet@),
            None => concluded(action@, question@) is None,
        },
{
    match action {
        Action::Done(packet) => {
            let mut packet = packet;
            let ghost before = packet.questions@;
            packet.questions.push(question);
            assert(questions_view(packet.questions@) =~= questions_view(before).push(question@));
            Some(packet)
        },
        Action::Exhausted(packet) => {
            let mut packet = packet;
            packet.header.rescode = ResultCode::SERVFAIL;
            Some(packet)
        },
        Action::Ask(_) => None,
    }
}

/// Writes a response into a fresh buffer: what is to be sent is what stands
/// before the cursor. A response that cannot be written goes out as the bare
/// response `SERVFAIL` under the same identifier.
pub fn respond(packet: DnsPacket, is_udp: bool) -> (res_buffer: BytePacketBuffer)
    ensures
        res_buffer.buf@ == splice(blank_bytes(), 0, sent(packet@, is_udp).wire(is_udp)),
        res_buffer.pos == sent(packet@, is_udp).wire(is_udp).len(),
        res_buffer.pos <= BUF_LEN,
        header_at(res_buffer.buf@, 0).id == packet@.header.id,
{
    let mut packet = packet;
    let id = packet.header.id;
    let mut res_buffer = BytePacketBuffer::new();
    proof {
        let out = sent(packet@, is_udp);
        let failure = response_view(id, ResultCode::SERVFAIL);
        crate::header::lemma_set_truncated(failure.emitted_header(is_udp));
        assert(failure.sections_wire() =~= Seq::<u8>::empty());
        assert(out.wire(is_udp).len() <= BUF_LEN);
        lemma_splice_holds(blank_bytes(), 0, out.wire(is_udp));
        lemma_holds_split(
            splice(blank_bytes(), 0, out.wire(is_udp)),
            0,
            header_wire(out.emitted_header(is_udp)),
            out.sections_wire(),
        );
        lemma_header_id(
            splice(blank_bytes(), 0, out.wire(is_udp)),
            0,
            out.emitted_header(is_udp),
        );
    }
    match packet.write(&mut res_buffer, is_udp) {
        Ok(()) => res_buffer,
        Err(_) => {
            let mut failure = new_response(id, ResultCode::SERVFAIL);
            proof {
                let view = failure@;
                crate::header::lemma_set_truncated(view.emitted_header(is_udp));
                assert(view.sections_wire() =~= Seq::<u8>::empty());
                assert(view.wire(is_udp).len() == HEADER_LEN);
                assert(view.writable());
            }
            match failure.write(&mut res_buffer, is_udp) {
                Ok(()) => {},
                Err(_) => {},
            }
            res_buffer
        },
    }
}


/// The response to a request that could be opened is a response under the
/// identifier of the request, which desires and offers recursion.
pub proof fn lemma_opened_header(bytes: Seq<u8>, pos: int)
    ensures
        ({
            let response = match opened(bytes, pos) {
                OpenedView::Question { response, .. } => response,
                OpenedView::Reply { response } => response,
            };
            &&& response.header.id == header_at(bytes, pos).id
            &&& response.header.response
            &&& response.header.recursion_desired
            &&& response.header.recursion_available
            &&& response.answers.len() == 0
        }),
{
}

/// Closing a resolution and sending the response change nothing of the
/// header but the response code and the counts: the identifier stays, and a
/// response stays a response.
pub proof fn lemma_closing_keeps_header(
    action: ActionView,
    question: QuestionView,
    is_udp: bool,
)
    requires
        !(action is Ask),
    ensures
        concluded(action, question) is Some,
        ({
            let gathered = match action {
                ActionView::Done(packet) => packet,
                ActionView::Exhausted(packet) => packet,
                ActionView::Ask(_) => DnsPacket::blank(),
            };
            let closed = concluded(action, question)->0;
            &&& closed.header.id == gathered.header.id
            &&& closed.header.response == gathered.header.response
            &&& closed.answers == gathered.answers
            &&& sent(closed, is_udp).header.id == gathered.header.id
            &&& gathered.header.response ==> sent(closed, is_udp).header.response
        }),
{
}

} // verus!
