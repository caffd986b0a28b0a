//! One hop of a resolution: the query that goes out, the cache that is asked
//! first, and the reply that is stored when the network has answered.
//!
//! The network itself is not here. What is here is everything around it: a
//! query is answered from the cache where the cache gives a record out, and
//! the resolver is driven on with such replies until it wants a query that
//! only the network can answer.

use vstd::prelude::*;
use crate::assembly::questions_ok;
use crate::buffer::{blank_bytes, splice, BytePacketBuffer, BUF_LEN};
use crate::cache::DnsCache;
use crate::codes::QueryType;
use crate::error::DnsError;
use crate::header::DnsHeader;
use crate::name::name_ok;
use crate::packet::{DnsPacket, PacketView};
use crate::question::{DnsQuestion, QuestionView};
use crate::record::{DnsRecord, RecordView};
use crate::resolver::{lemma_step_costs, step, Action, ActionView, Query, Resolver, ResolverView};

verus! {

/// The identifier that every query to a name server carries.
pub const QUERY_ID: u16 = 6666;

/// The message that puts a question to a name server: the fixed identifier,
/// recursion desired, and the one question.
pub open spec fn query_view(qname: Seq<char>, qtype: QueryType) -> PacketView {
    PacketView {
        header: DnsHeader {
            id: QUERY_ID,
            questions: 1,
            recursion_desired: true,
            ..DnsHeader::blank()
        },
        questions: seq![QuestionView { name: qname, qtype }],
        ..DnsPacket::blank()
    }
}

/// The reply that stands for a cached record: the query with the record as its one answer.
pub open spec fn cached_view(qname: Seq<char>, qtype: QueryType, record: RecordView) -> PacketView {
    PacketView { answers: seq![record], ..query_view(qname, qtype) }
}

/// What the cache holds after the answers are stored in it, one after the
/// other, each under its owner name, if nothing is dropped for want of room.
pub open spec fn stored(entries: Map<Seq<char>, RecordView>, answers: Seq<RecordView>) -> Map<
    Seq<char>,
    RecordView,
>
    decreases answers.len(),
{
    if answers.len() == 0 {
        entries
    } else {
        stored(entries, answers.drop_last()).insert(answers.last().domain(), answers.last())
    }
}

/// State and action of a resolver after `hits` queries in a row were
/// answered from the cache; nothing, where one of them could not be.
pub open spec fn fed(
    entries: Map<Seq<char>, RecordView>,
    state: ResolverView,
    action: ActionView,
    hits: nat,
) -> Option<(ResolverView, ActionView)>
    decreases hits,
{
    if hits == 0 {
        Some((state, action))
    } else {
        match action {
            ActionView::Ask(query) => if state.frames.len() > 0 && entries.contains_key(
                query.qname,
            ) {
                let next = step(state, cached_view(query.qname, query.qtype, entries[query.qname]));
                fed(entries, next.0, next.1, (hits - 1) as nat)
            } else {
                None
            },
            _ => None,
        }
    }
}

/// Storing answers adds to what is held and takes nothing away.
pub proof fn lemma_stored_grows(entries: Map<Seq<char>, RecordView>, answers: Seq<RecordView>)
    requires
        entries.dom().finite(),
    ensures
        stored(entries, answers).dom().finite(),
        entries.dom().subset_of(stored(entries, answers).dom()),
        entries.dom().len() <= stored(entries, answers).dom().len(),
    decreases answers.len(),
{
    if answers.len() > 0 {
        lemma_stored_grows(entries, answers.drop_last());
        let before = stored(entries, answers.drop_last());
        let after = stored(entries, answers);
        assert(before.dom().subset_of(after.dom()));
        vstd::set_lib::lemma_len_subset(before.dom(), after.dom());
    } else {
        vstd::set_lib::lemma_len_subset(entries.dom(), entries.dom());
    }
}

/// The message that asks a name server for `qtype` of `qname`.
pub fn query_packet(qname: &str, qtype: QueryType) -> (packet: DnsPacket)
    ensures
        packet@ == query_view(qname@, qtype),
{
    let mut packet = DnsPacket::new();

    packet.header.id = QUERY_ID;
    packet.header.questions = 1;
    packet.header.recursion_desired = true;
    packet.questions.push(DnsQuestion::new(qname.to_owned(), qtype));
    assert(packet@.questions =~= seq![QuestionView { name: qname@, qtype }]);
    packet
}

/// The reply that stands for a record that the cache gave out for a query:
/// the query with the record as its one answer.
pub fn cached_packet(qname: &str, qtype: QueryType, record: DnsRecord) -> (packet: DnsPacket)
    ensures
        packet@ == cached_view(qname@, qtype, record@),
{
    let mut packet = query_packet(qname, qtype);
    packet.answers.push(record);
    assert(packet@.answers =~= seq![record@]);
    packet
}

/// Asks the cache for a record under the name of the query, and makes a
/// reply of it. The cache may withhold what it holds.
pub fn lookup_cached(cache: &DnsCache, query: &Query) -> (res: Option<DnsPacket>)
    ensures
        res matches Some(packet) ==> cache.entries().contains_key(query@.qname) && packet@
            == cached_view(query@.qname, query@.qtype, cache.entries()[query@.qname]),
{
    match cache.get(query.qname.as_str()) {
        Some(cached) => Some(cached_packet(query.qname.as_str(), query.qtype, cached)),
        None => None,
    }
}

/// The bytes of a query, in a buffer of their own: what is to be sent is
/// what stands before the cursor.
pub fn encode_query(query: &Query, is_udp: bool) -> (res: Result<BytePacketBuffer, DnsError>)
    ensures
        res is Ok <==> name_ok(query@.qname) && query_view(query@.qname, query@.qtype).wire(
            is_udp,
        ).len() <= BUF_LEN,
        res matches Ok(buffer) ==> {
            &&& buffer.pos == query_view(query@.qname, query@.qtype).wire(is_udp).len()
            &&& buffer.buf@ == splice(
                blank_bytes(),
                0,
                query_view(query@.qname, query@.qtype).wire(is_udp),
            )
        },
        res matches Err(e) ==> e == (if name_ok(query@.qname) {
            DnsError::OutOfBounds
        } else {
            DnsError::LabelTooLong
        }),
{
    let mut packet = query_packet(query.qname.as_str(), query.qtype);
    let mut req_buf = BytePacketBuffer::new();
    proof {
        let view = packet@;
        assert(view.questions[0].name == query@.qname);
        assert(questions_ok(view.questions) <==> name_ok(query@.qname));
        assert(view.writable() <==> name_ok(query@.qname));
    }
    match packet.write(&mut req_buf, is_udp) {
        Ok(()) => Ok(req_buf),
        Err(e) => Err(e),
    }
}

/// Stores every answer of a reply in the cache, under its owner name and
/// for its own time to live.
///
/// Nothing is held afterwards that was not held before or stored now; and
/// where the cache has room for all of it, it holds exactly that.
pub fn store_answers(cache: &mut DnsCache, reply: &DnsPacket)
    ensures
        final(cache).limit() == old(cache).limit(),
        final(cache).entries().submap_of(stored(old(cache).entries(), reply@.answers)),
        stored(old(cache).entries(), reply@.answers).dom().len() <= old(cache).limit()
            ==> final(cache).entries() == stored(old(cache).entries(), reply@.answers),
{
    let ghost before = cache.entries();
    let ghost all = reply@.answers;
    proof {
        use_type_invariant(&*cache);
    }
    let n = reply.answers.len();
    let mut i: usize = 0;
    assert(all.take(0) =~= Seq::<RecordView>::empty());
    while i < n
        invariant
            i <= n,
            n == reply.answers@.len(),
            all == reply@.answers,
            before == old(cache).entries(),
            before.dom().finite(),
            cache.limit() == old(cache).limit(),
            cache.entries().submap_of(stored(before, all.take(i as int))),
            stored(before, all.take(i as int)).dom().len() <= cache.limit() ==> cache.entries()
                == stored(before, all.take(i as int)),
        decreases n - i,
    {
        let ans = &reply.answers[i];
        proof {
            use_type_invariant(&*cache);
            let upto = all.take(i + 1);
            assert(upto.drop_last() =~= all.take(i as int));
            assert(upto.last() == ans@);
            lemma_stored_grows(before, all.take(i as int));
            lemma_stored_grows(before, upto);
            let prev = stored(before, all.take(i as int));
            let next = stored(before, upto);
            assert(prev.dom().subset_of(next.dom()));
            vstd::set_lib::lemma_len_subset(prev.dom(), next.dom());
        }
        let ghost held = cache.entries();
        cache.insert(ans.domain(), ans.duplicate(), ans.ttl());
        proof {
            let prev = stored(before, all.take(i as int));
            let next = stored(before, all.take(i + 1));
            let full = held.insert(ans@.domain(), ans@);
            assert(next == prev.insert(ans@.domain(), ans@));
            assert forall|k: Seq<char>| #[trigger] full.contains_key(k) implies next.contains_key(
                k,
            ) && next[k] == full[k] by {
                if k != ans@.domain() {
                    assert(held.contains_key(k));
                }
            }
            assert(full.submap_of(next));
            assert(cache.entries().submap_of(full));
            assert forall|k: Seq<char>| #[trigger]
                cache.entries().dom().contains(k) implies next.dom().contains(k)
                && cache.entries()[k] == next[k] by {
                assert(full.dom().contains(k));
                assert(full.contains_key(k));
            }
            assert(cache.entries().submap_of(next));
            if next.dom().len() <= cache.limit() {
                assert(held == prev);
            }
        }
        i = i + 1;
    }
    assert(all.take(n as int) =~= all);
}

/// Drives the resolver on for as long as the cache answers its queries, and
/// returns the first action that the cache does not settle: a query that is
/// left to the network, or the end of the resolution.
///
/// Which queries the cache answers is up to the cache. Whatever it does, the
/// outcome is what the resolver makes of some number of cached replies in a
/// row, each the record held under the name that was asked for.
pub fn settle(resolver: &mut Resolver, cache: &DnsCache, action: Action) -> (res: Action)
    ensures
        exists|hits: nat|
            fed(cache.entries(), old(resolver)@, action@, hits) == Some(
                (final(resolver)@, res@),
            ),
{
    let ghost entries = cache.entries();
    let ghost state0 = resolver@;
    let ghost action0 = action@;
    let ghost mut hits: nat = 0;
    let mut current = action;
    loop
        invariant
            entries == cache.entries(),
            state0 == old(resolver)@,
            action0 == action@,
            forall|more: nat|
                (#[trigger] fed(entries, resolver@, current@, more)) is Some ==> fed(
                    entries,
                    state0,
                    action0,
                    hits + more,
                ) == fed(entries, resolver@, current@, more),
        ensures
            fed(entries, state0, action0, hits) == Some((resolver@, current@)),
        decreases resolver.budget,
    {
        let reply = match &current {
            Action::Ask(query) => {
                if resolver.frames.len() == 0 {
                    None
                } else {
                    lookup_cached(cache, query)
                }
            },
            _ => None,
        };
        match reply {
            None => {
                assert(fed(entries, resolver@, current@, 0) == Some((resolver@, current@)));
                break ;
            },
            Some(packet) => {
                let ghost state = resolver@;
                let ghost asked = current@;
                proof {
                    lemma_step_costs(state, packet@);
                }
                let next = resolver.step(packet);
                proof {
                    assert forall|more: nat|
                        (#[trigger] fed(entries, resolver@, next@, more)) is Some implies fed(
                        entries,
                        state0,
                        action0,
                        (hits + 1) + more,
                    ) == fed(entries, resolver@, next@, more) by {
                        assert(fed(entries, state, asked, more + 1) == fed(
                            entries,
                            resolver@,
                            next@,
                            more,
                        ));
                        assert(hits + (more + 1) == (hits + 1) + more);
                    }
                    hits = hits + 1;
                }
                match next {
                    Action::Ask(query) => {
                        current = Action::Ask(query);
                    },
                    other => {
                        current = other;
                        assert(fed(entries, resolver@, current@, 0) == Some(
                            (resolver@, current@),
                        ));
                        break ;
                    },
                }
            },
        }
    }
    current
}

/// Hands the resolver what came of the query it asked last, and drives it
/// on to the next action that the cache does not settle.
///
/// A reply from the network is first stored in the cache, answer by answer.
/// No reply counts as a reply without records and with the response code
/// `SERVFAIL`.
pub fn advance(resolver: &mut Resolver, cache: &mut DnsCache, reply: Option<DnsPacket>) -> (res:
    Action)
    ensures
        final(cache).limit() == old(cache).limit(),
        final(cache).entries().submap_of(
            stored(old(cache).entries(), reply_view(reply).answers),
        ),
        old(resolver)@.frames.len() > 0 ==> exists|hits: nat|
            fed(
                final(cache).entries(),
                step(old(resolver)@, reply_view(reply)).0,
                step(old(resolver)@, reply_view(reply)).1,
                hits,
            ) == Some((final(resolver)@, res@)),
        old(resolver)@.frames.len() == 0 ==> final(resolver)@ == old(resolver)@ && res@
            == ActionView::Exhausted(DnsPacket::blank()),
{
    let ghost handed = reply_view(reply);
    let action = match reply {
        Some(packet) => {
            store_answers(cache, &packet);
            resolver.step(packet)
        },
        None => {
            assert(stored(cache.entries(), crate::resolver::no_reply().answers)
                == cache.entries());
            resolver.step_failed()
        },
    };
    let ghost mid = resolver@;
    let ghost asked = action@;
    let res = settle(resolver, cache, action);
    proof {
        let hits = choose|hits: nat|
            fed(cache.entries(), mid, asked, hits) == Some((resolver@, res@));
        if old(resolver)@.frames.len() > 0 {
            assert(mid == step(old(resolver)@, handed).0);
            assert(asked == step(old(resolver)@, handed).1);
            assert(fed(
                cache.entries(),
                step(old(resolver)@, handed).0,
                step(old(resolver)@, handed).1,
                hits,
            ) == Some((resolver@, res@)));
        } else {
            if hits > 0 {
                assert(fed(cache.entries(), mid, asked, hits) is None);
            }
        }
    }
    res
}

/// What the resolver is handed where the network gave `reply`, or nothing.
pub open spec fn reply_view(reply: Option<DnsPacket>) -> PacketView {
    match reply {
        Some(packet) => packet@,
        None => crate::resolver::no_reply(),
    }
}

} // verus!
