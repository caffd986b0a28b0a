//! The decisions of an iterative resolution, as a state machine.
//!
//! A resolution starts at a root server and is handed one reply after the
//! other. Each reply is judged: it answers the question, or names an alias to
//! chase, or says that the name does not exist, or delegates to a name server
//! whose address it gives or does not give, or leads nowhere. The machine
//! says which server to ask next, or that the resolution is done. Asking is
//! left to the caller.

use vstd::prelude::*;
use crate::codes::{QueryType, ResultCode};
use crate::header::DnsHeader;
use crate::packet::{a_records, first_a, first_cname, DnsPacket, PacketView};
use crate::record::{DnsRecord, RecordView};

verus! {

/// The address of `a.root-servers.net`, 198.41.0.4, where every resolution starts.
pub const ROOT_SERVER: u32 = 0xC629_0004;

/// The number of queries that one resolution may ask, sub-resolutions included.
pub const MAX_QUERIES: usize = 16;

/// What a reply means to the resolution that waits for it.
pub enum Verdict {
    /// It holds an `A` record and reports no error.
    Answer,
    /// It holds a `CNAME` record: the name is an alias of the target.
    Alias(String),
    /// It says that the name does not exist.
    Negative,
    /// It delegates to a name server and gives the server's address.
    Glue(u32),
    /// It delegates to a name server and gives only the server's name.
    Delegation(String),
    /// It leads nowhere.
    Dead,
}

/// A verdict as a value.
pub enum VerdictView {
    Answer,
    Alias(Seq<char>),
    Negative,
    Glue(u32),
    Delegation(Seq<char>),
    Dead,
}

impl View for Verdict {
    type V = VerdictView;

    open spec fn view(&self) -> VerdictView {
        match *self {
            Verdict::Answer => VerdictView::Answer,
            Verdict::Alias(host) => VerdictView::Alias(host@),
            Verdict::Negative => VerdictView::Negative,
            Verdict::Glue(addr) => VerdictView::Glue(addr),
            Verdict::Delegation(name) => VerdictView::Delegation(name@),
            Verdict::Dead => VerdictView::Dead,
        }
    }
}

/// What `reply` means to a resolution of `qname`. The first of these that
/// holds decides: an answer, an alias, a negative answer, a delegation with
/// glue, a delegation without.
pub open spec fn verdict(reply: PacketView, qname: Seq<char>) -> VerdictView {
    if a_records(reply.answers).len() > 0 && reply.header.rescode == ResultCode::NOERROR {
        VerdictView::Answer
    } else {
        match first_cname(reply.answers) {
            Some(RecordView::CNAME { host, .. }) => VerdictView::Alias(host),
            _ => if reply.header.rescode == ResultCode::NXDOMAIN {
                VerdictView::Negative
            } else {
                match reply.resolved_ns(qname) {
                    Some(addr) => VerdictView::Glue(addr),
                    None => match reply.unresolved_ns(qname) {
                        Some(name) => VerdictView::Delegation(name),
                        None => VerdictView::Dead,
                    },
                }
            },
        }
    }
}

/// Judges a reply to a query for `qname`.
pub fn classify(reply: &DnsPacket, qname: &str) -> (res: Verdict)
    ensures
        res@ == verdict(reply@, qname@),
{
    if reply.final_answers().len() > 0 && reply.header.rescode == ResultCode::NOERROR {
        return Verdict::Answer;
    }
    match reply.get_cname() {
        Some(DnsRecord::CNAME { host, .. }) => {
            return Verdict::Alias(host);
        },
        _ => {},
    }
    if reply.header.rescode == ResultCode::NXDOMAIN {
        return Verdict::Negative;
    }
    match reply.get_resolved_ns(qname) {
        Some(addr) => {
            return Verdict::Glue(addr);
        },
        None => {},
    }
    match reply.get_unresolved_ns(qname) {
        Some(name) => Verdict::Delegation(name.to_owned()),
        None => Verdict::Dead,
    }
}

/// One resolution under way: the name and type it asks for, the server it
/// asks next, and the answers it has gathered.
pub struct Frame {
    pub qname: String,
    pub qtype: QueryType,
    pub ns: u32,
    pub acc: DnsPacket,
}

/// A resolution under way, as a value.
pub struct FrameView {
    pub qname: Seq<char>,
    pub qtype: QueryType,
    pub ns: u32,
    pub acc: PacketView,
}

impl View for Frame {
    type V = FrameView;

    open spec fn view(&self) -> FrameView {
        FrameView { qname: self.qname@, qtype: self.qtype, ns: self.ns, acc: self.acc@ }
    }
}

/// The views of a stack of resolutions.
pub open spec fn frames_view(frames: Seq<Frame>) -> Seq<FrameView> {
    frames.map_values(|f: Frame| f@)
}

/// A query to put to a server.
pub struct Query {
    pub server: u32,
    pub qname: String,
    pub qtype: QueryType,
}

/// A query as a value.
pub struct QueryView {
    pub server: u32,
    pub qname: Seq<char>,
    pub qtype: QueryType,
}

impl View for Query {
    type V = QueryView;

    open spec fn view(&self) -> QueryView {
        QueryView { server: self.server, qname: self.qname@, qtype: self.qtype }
    }
}

/// What the resolver wants done next.
pub enum Action {
    /// Put this query to its server and hand back the reply.
    Ask(Query),
    /// The resolution is over; this is what it gathered.
    Done(DnsPacket),
    /// The resolution would need more queries than it may ask; this is what
    /// it had gathered for the client by then.
    Exhausted(DnsPacket),
}

/// An action as a value.
pub enum ActionView {
    Ask(QueryView),
    Done(PacketView),
    Exhausted(PacketView),
}

impl View for Action {
    type V = ActionView;

    open spec fn view(&self) -> ActionView {
        match *self {
            Action::Ask(query) => ActionView::Ask(query@),
            Action::Done(packet) => ActionView::Done(packet@),
            Action::Exhausted(packet) => ActionView::Exhausted(packet@),
        }
    }
}

/// The state of a resolver: the resolution for the client at the bottom,
/// above it the resolutions of name servers' names that it waits for, and
/// the number of queries that may still be asked.
pub struct Resolver {
    pub frames: Vec<Frame>,
    pub budget: usize,
}

/// The state of a resolver, as a value.
pub struct ResolverView {
    pub frames: Seq<FrameView>,
    pub budget: nat,
}

impl View for Resolver {
    type V = ResolverView;

    open spec fn view(&self) -> ResolverView {
        ResolverView { frames: frames_view(self.frames@), budget: self.budget as nat }
    }
}

/// The resolver has nothing under way.
pub open spec fn idle(budget: nat) -> ResolverView {
    ResolverView { frames: Seq::<FrameView>::empty(), budget }
}

/// The top resolution wants its query asked: it is asked if a query is
/// left, else the whole resolution is given up.
pub open spec fn ask(frames: Seq<FrameView>, budget: nat) -> (ResolverView, ActionView) {
    if budget == 0 {
        (idle(0), ActionView::Exhausted(frames[0].acc))
    } else {
        (
            ResolverView { frames, budget: (budget - 1) as nat },
            ActionView::Ask(
                QueryView {
                    server: frames.last().ns,
                    qname: frames.last().qname,
                    qtype: frames.last().qtype,
                },
            ),
        )
    }
}

/// The resolution above `frames` is over and gathered `result`.
///
/// With nothing below, the whole resolution is done. Else the resolution
/// below waited for the address of a name server: if `result` holds one, it
/// asks that server next; if not, it takes `result` into what it gathered
/// and is over itself.
pub open spec fn unwind(frames: Seq<FrameView>, budget: nat, result: PacketView) -> (
    ResolverView,
    ActionView,
)
    decreases frames.len(),
{
    if frames.len() == 0 {
        (idle(budget), ActionView::Done(result))
    } else {
        let parent = frames.last();
        match first_a(result.answers) {
            Some(addr) => ask(
                frames.drop_last().push(FrameView { ns: addr, ..parent }),
                budget,
            ),
            None => unwind(frames.drop_last(), budget, parent.acc.merged(result)),
        }
    }
}

/// What a resolver with something under way does with a reply to the query
/// it asked last.
///
/// - An answer, a negative answer and a reply that leads nowhere are taken
///   into what the top resolution gathered, and that resolution is over.
/// - An alias is taken in likewise. Where the question was for the alias
///   itself, the resolution is over; else it starts again at the root, for
///   the address of the target.
/// - A delegation with glue sends the resolution to the server named.
/// - A delegation without glue starts a resolution of its own, at the root,
///   for the address of the server named.
pub open spec fn step(state: ResolverView, reply: PacketView) -> (ResolverView, ActionView) {
    let top = state.frames.last();
    let below = state.frames.drop_last();
    match verdict(reply, top.qname) {
        VerdictView::Answer => unwind(below, state.budget, top.acc.merged(reply)),
        VerdictView::Negative => unwind(below, state.budget, top.acc.merged(reply)),
        VerdictView::Dead => unwind(below, state.budget, top.acc.merged(reply)),
        VerdictView::Alias(host) => if top.qtype == QueryType::CNAME {
            unwind(below, state.budget, top.acc.merged(reply))
        } else {
            ask(
                below.push(
                    FrameView {
                        qname: host,
                        qtype: QueryType::A,
                        ns: ROOT_SERVER,
                        acc: top.acc.merged(reply),
                    },
                ),
                state.budget,
            )
        },
        VerdictView::Glue(addr) => ask(below.push(FrameView { ns: addr, ..top }), state.budget),
        VerdictView::Delegation(name) => ask(
            state.frames.push(
                FrameView {
                    qname: name,
                    qtype: QueryType::A,
                    ns: ROOT_SERVER,
                    acc: DnsPacket::blank(),
                },
            ),
            state.budget,
        ),
    }
}

/// The reply that stands for a server that did not answer: no records, and
/// the response code `SERVFAIL`.
pub open spec fn no_reply() -> PacketView {
    PacketView {
        header: DnsHeader { rescode: ResultCode::SERVFAIL, ..DnsHeader::blank() },
        ..DnsPacket::blank()
    }
}

impl Resolver {
    /// The state in which a resolution starts, and its first action: the
    /// question is put to the root server, and answers are gathered into
    /// `accumulator`.
    pub fn start(qname: String, qtype: QueryType, accumulator: DnsPacket) -> (res: (
        Resolver,
        Action,
    ))
        ensures
            (res.0@, res.1@) == ask(
                seq![
                    FrameView { qname: qname@, qtype, ns: ROOT_SERVER, acc: accumulator@ },
                ],
                MAX_QUERIES as nat,
            ),
    {
        let mut resolver = Resolver { frames: Vec::new(), budget: MAX_QUERIES };
        resolver.frames.push(Frame { qname, qtype, ns: ROOT_SERVER, acc: accumulator });
        assert(frames_view(resolver.frames@) =~= seq![
            FrameView { qname: qname@, qtype, ns: ROOT_SERVER, acc: accumulator@ },
        ]);
        let action = resolver.ask_top();
        (resolver, action)
    }

    /// Asks the query of the top resolution, or gives up where no query is left.
    fn ask_top(&mut self) -> (action: Action)
        requires
            old(self).frames@.len() > 0,
        ensures
            (final(self)@, action@) == ask(old(self)@.frames, old(self)@.budget),
    {
        if self.budget == 0 {
            let bottom = self.frames.swap_remove(0);
            self.frames.clear();
            assert(frames_view(self.frames@) =~= Seq::<FrameView>::empty());
            Action::Exhausted(bottom.acc)
        } else {
            self.budget = self.budget - 1;
            let top = &self.frames[self.frames.len() - 1];
            Action::Ask(Query { server: top.ns, qname: top.qname.clone(), qtype: top.qtype })
        }
    }

    /// Ends the top resolution, which was popped already, with what it gathered.
    fn finish(&mut self, result: DnsPacket) -> (action: Action)
        ensures
            (final(self)@, action@) == unwind(old(self)@.frames, old(self)@.budget, result@),
    {
        let ghost frames0 = self@.frames;
        let ghost result0 = result@;
        let mut gathered = result;
        loop
            invariant
                self.budget == old(self).budget,
                frames0 == old(self)@.frames,
                result0 == result@,
                unwind(self@.frames, self@.budget, gathered@) == unwind(
                    frames0,
                    self@.budget,
                    result0,
                ),
            decreases self.frames@.len(),
        {
            let ghost frames = self@.frames;
            match self.frames.pop() {
                None => {
                    assert(frames_view(self.frames@) =~= Seq::<FrameView>::empty());
                    return Action::Done(gathered);
                },
                Some(parent) => {
                    assert(frames_view(self.frames@) =~= frames.drop_last());
                    assert(parent@ == frames.last());
                    match gathered.get_random_a() {
                        Some(addr) => {
                            self.frames.push(
                                Frame {
                                    qname: parent.qname,
                                    qtype: parent.qtype,
                                    ns: addr,
                                    acc: parent.acc,
                                },
                            );
                            assert(frames_view(self.frames@) =~= frames.drop_last().push(
                                FrameView { ns: addr, ..frames.last() },
                            ));
                            return self.ask_top();
                        },
                        None => {
                            let mut acc = parent.acc;
                            acc.merge(gathered);
                            gathered = acc;
                        },
                    }
                },
            }
        }
    }

    /// Takes the reply to the query that was asked last, and says what to do
    /// next. A resolver with nothing under way takes no replies: it answers
    /// `Exhausted` with an empty message.
    pub fn step(&mut self, reply: DnsPacket) -> (action: Action)
        ensures
            old(self)@.frames.len() > 0 ==> (final(self)@, action@) == step(old(self)@, reply@),
            old(self)@.frames.len() == 0 ==> final(self)@ == old(self)@ && action@
                == ActionView::Exhausted(DnsPacket::blank()),
    {
        let ghost frames = self@.frames;
        let top = match self.frames.pop() {
            Some(top) => top,
            None => {
                assert(frames_view(self.frames@) =~= frames);
                return Action::Exhausted(DnsPacket::new());
            },
        };
        assert(frames_view(self.frames@) =~= frames.drop_last());
        assert(top@ == frames.last());
        let ghost below = self@.frames;
        match classify(&reply, top.qname.as_str()) {
            Verdict::Alias(host) => {
                let mut acc = top.acc;
                acc.merge(reply);
                if top.qtype == QueryType::CNAME {
                    self.finish(acc)
                } else {
                    let ghost merged = acc@;
                    self.frames.push(
                        Frame { qname: host, qtype: QueryType::A, ns: ROOT_SERVER, acc },
                    );
                    assert(frames_view(self.frames@) =~= below.push(
                        FrameView {
                            qname: host@,
                            qtype: QueryType::A,
                            ns: ROOT_SERVER,
                            acc: merged,
                        },
                    ));
                    self.ask_top()
                }
            },
            Verdict::Glue(addr) => {
                self.frames.push(
                    Frame { qname: top.qname, qtype: top.qtype, ns: addr, acc: top.acc },
                );
                assert(frames_view(self.frames@) =~= below.push(
                    FrameView { ns: addr, ..frames.last() },
                ));
                self.ask_top()
            },
            Verdict::Delegation(name) => {
                self.frames.push(top);
                assert(frames_view(self.frames@) =~= frames);
                self.frames.push(
                    Frame {
                        qname: name,
                        qtype: QueryType::A,
                        ns: ROOT_SERVER,
                        acc: DnsPacket::new(),
                    },
                );
                assert(frames_view(self.frames@) =~= frames.push(
                    FrameView {
                        qname: name@,
                        qtype: QueryType::A,
                        ns: ROOT_SERVER,
                        acc: DnsPacket::blank(),
                    },
                ));
                self.ask_top()
            },
            _ => {
                let mut acc = top.acc;
                acc.merge(reply);
                self.finish(acc)
            },
        }
    }

    /// Takes note that the query asked last got no reply: the server counts
    /// as one that had nothing to say, and the resolution goes on as after a
    /// reply without records and with the response code `SERVFAIL`.
    pub fn step_failed(&mut self) -> (action: Action)
        ensures
            old(self)@.frames.len() > 0 ==> (final(self)@, action@) == step(
                old(self)@,
                no_reply(),
            ),
            old(self)@.frames.len() == 0 ==> final(self)@ == old(self)@ && action@
                == ActionView::Exhausted(DnsPacket::blank()),
    {
        let mut reply = DnsPacket::new();
        reply.header.rescode = ResultCode::SERVFAIL;
        self.step(reply)
    }
}

/// A query that is asked costs one of the queries that were left, and leaves
/// the resolution that asked it under way.
pub proof fn lemma_ask_costs(frames: Seq<FrameView>, budget: nat)
    requires
        frames.len() > 0,
    ensures
        ask(frames, budget).1 is Ask ==> ask(frames, budget).0.budget + 1 == budget && ask(
            frames,
            budget,
        ).0.frames.len() > 0,
        ask(frames, budget).0.budget <= budget,
{
}

/// The end of a resolution asks at most one query, and that one costs one
/// of the queries that were left.
pub proof fn lemma_unwind_costs(frames: Seq<FrameView>, budget: nat, result: PacketView)
    ensures
        unwind(frames, budget, result).1 is Ask ==> unwind(frames, budget, result).0.budget + 1
            == budget && unwind(frames, budget, result).0.frames.len() > 0,
        unwind(frames, budget, result).0.budget <= budget,
    decreases frames.len(),
{
    if frames.len() > 0 {
        let parent = frames.last();
        match first_a(result.answers) {
            Some(addr) => {
                lemma_ask_costs(frames.drop_last().push(FrameView { ns: addr, ..parent }), budget);
            },
            None => {
                lemma_unwind_costs(frames.drop_last(), budget, parent.acc.merged(result));
            },
        }
    }
}

/// No reply makes the resolver ask more than one query, and every query that
/// it asks costs one of the queries that were left: a resolution asks at
/// most `MAX_QUERIES` queries in all.
pub proof fn lemma_step_costs(state: ResolverView, reply: PacketView)
    requires
        state.frames.len() > 0,
    ensures
        step(state, reply).1 is Ask ==> step(state, reply).0.budget + 1 == state.budget && step(
            state,
            reply,
        ).0.frames.len() > 0,
        step(state, reply).0.budget <= state.budget,
{
    let top = state.frames.last();
    let below = state.frames.drop_last();
    lemma_unwind_costs(below, state.budget, top.acc.merged(reply));
    match verdict(reply, top.qname) {
        VerdictView::Alias(host) => {
            lemma_ask_costs(
                below.push(
                    FrameView {
                        qname: host,
                        qtype: QueryType::A,
                        ns: ROOT_SERVER,
                        acc: top.acc.merged(reply),
                    },
                ),
                state.budget,
            );
        },
        VerdictView::Glue(addr) => {
            lemma_ask_costs(below.push(FrameView { ns: addr, ..top }), state.budget);
        },
        VerdictView::Delegation(name) => {
            lemma_ask_costs(
                state.frames.push(
                    FrameView {
                        qname: name,
                        qtype: QueryType::A,
                        ns: ROOT_SERVER,
                        acc: DnsPacket::blank(),
                    },
                ),
                state.budget,
            );
        },
        _ => {},
    }
}


/// `later` is `earlier` after answers were gathered into it: the answers of
/// `earlier` head its answers, its response code may differ, and everything
/// else is as it was.
pub open spec fn gathered(later: PacketView, earlier: PacketView) -> bool {
    &&& later.header == DnsHeader { rescode: later.header.rescode, ..earlier.header }
    &&& later.questions == earlier.questions
    &&& later.authorities == earlier.authorities
    &&& later.resources == earlier.resources
    &&& earlier.answers.is_prefix_of(later.answers)
}

/// What an action leaves of the message that is gathered for the client:
/// the message it hands out, or the one that the bottom resolution holds.
pub open spec fn client_packet(state: ResolverView, action: ActionView) -> PacketView {
    match action {
        ActionView::Ask(_) => state.frames[0].acc,
        ActionView::Done(packet) => packet,
        ActionView::Exhausted(packet) => packet,
    }
}

/// Merging a reply into a message only gathers answers into it.
pub proof fn lemma_merged_gathers(acc: PacketView, reply: PacketView)
    ensures
        gathered(acc.merged(reply), acc),
{
    assert(acc.answers.is_prefix_of(acc.answers + reply.answers));
}

/// Asking the query of the top resolution leaves the client's message as it is.
pub proof fn lemma_ask_keeps(frames: Seq<FrameView>, budget: nat)
    requires
        frames.len() > 0,
    ensures
        client_packet(ask(frames, budget).0, ask(frames, budget).1) == frames[0].acc,
{
}

/// The end of a resolution above others leaves the client's message as it
/// is, or gathers answers into it.
pub proof fn lemma_unwind_keeps(frames: Seq<FrameView>, budget: nat, result: PacketView)
    requires
        frames.len() > 0,
    ensures
        gathered(
            client_packet(unwind(frames, budget, result).0, unwind(frames, budget, result).1),
            frames[0].acc,
        ),
    decreases frames.len(),
{
    let parent = frames.last();
    let below = frames.drop_last();
    assert(frames[0].acc.answers.is_prefix_of(frames[0].acc.answers));
    match first_a(result.answers) {
        Some(addr) => {
            let next = below.push(FrameView { ns: addr, ..parent });
            lemma_ask_keeps(next, budget);
            if below.len() > 0 {
                assert(next[0] == below[0]);
                assert(below[0] == frames[0]);
            }
            assert(next[0].acc == frames[0].acc);
        },
        None => {
            let merged = parent.acc.merged(result);
            lemma_merged_gathers(parent.acc, result);
            if below.len() > 0 {
                lemma_unwind_keeps(below, budget, merged);
                assert(below[0] == frames[0]);
            } else {
                assert(unwind(below, budget, merged) == (idle(budget), ActionView::Done(merged)));
            }
        },
    }
}

/// Whatever the reply, the resolver changes nothing of the message that it
/// gathers for the client but its answers, to which it only adds, and its
/// response code. The identifier under which the client asked stays.
pub proof fn lemma_step_keeps(state: ResolverView, reply: PacketView)
    requires
        state.frames.len() > 0,
    ensures
        gathered(
            client_packet(step(state, reply).0, step(state, reply).1),
            state.frames[0].acc,
        ),
{
    let top = state.frames.last();
    let below = state.frames.drop_last();
    let merged = top.acc.merged(reply);
    lemma_merged_gathers(top.acc, reply);
    assert(state.frames[0].acc.answers.is_prefix_of(state.frames[0].acc.answers));
    if below.len() > 0 {
        lemma_unwind_keeps(below, state.budget, merged);
        assert(below[0] == state.frames[0]);
    } else {
        assert(unwind(below, state.budget, merged) == (
            idle(state.budget),
            ActionView::Done(merged),
        ));
    }
    match verdict(reply, top.qname) {
        VerdictView::Alias(host) => {
            let next = below.push(
                FrameView { qname: host, qtype: QueryType::A, ns: ROOT_SERVER, acc: merged },
            );
            lemma_ask_keeps(next, state.budget);
            if below.len() > 0 {
                assert(next[0] == state.frames[0]);
            }
        },
        VerdictView::Glue(addr) => {
            let next = below.push(FrameView { ns: addr, ..top });
            lemma_ask_keeps(next, state.budget);
            assert(next[0].acc == state.frames[0].acc);
        },
        VerdictView::Delegation(name) => {
            let next = state.frames.push(
                FrameView {
                    qname: name,
                    qtype: QueryType::A,
                    ns: ROOT_SERVER,
                    acc: DnsPacket::blank(),
                },
            );
            lemma_ask_keeps(next, state.budget);
            assert(next[0] == state.frames[0]);
        },
        _ => {},
    }
}

} // verus!
