use crate::cache::Session;
use crate::mqtt5::{effective_client_id, retained_after, retained_answer, session_resumed, unsubscribed, SubscribeFilter};
use crate::subscribe::{SubKey, Subscriber};
use crate::types::{MessageView, PublishPacket};
use vstd::prelude::*;

verus! {

/// A client that connects, disconnects (which leaves sessions alone) and
/// connects again under the same non-empty client id without a clean start
/// gets its session back.
pub proof fn lemma_reconnect_resumes_session(
    before: Map<Seq<char>, Session>,
    first: Session,
    requested: Seq<char>,
    first_generated: Seq<char>,
    second_generated: Seq<char>,
)
    requires
        requested.len() > 0,
    ensures
        session_resumed(
            before.insert(effective_client_id(requested, first_generated), first),
            requested,
            second_generated,
            false,
        ),
{
}

/// Subscribing a client to a filter it was not subscribed to, then
/// unsubscribing it from that filter, gives back the registry it started from.
pub proof fn lemma_subscribe_unsubscribe(
    before: Map<SubKey, Subscriber>,
    after_subscribe: Map<SubKey, Subscriber>,
    c: Seq<char>,
    filter: Seq<char>,
)
    requires
        !before.contains_key((c, filter)),
        forall|k: SubKey| #[trigger] after_subscribe.contains_key(k) <==> before.contains_key(k) || k == (c, filter),
        forall|k: SubKey| k != (c, filter) && before.contains_key(k) ==> #[trigger] after_subscribe[k] == before[k],
    ensures
        unsubscribed(after_subscribe, c, seq![filter]) == before,
{
    let r = unsubscribed(after_subscribe, c, seq![filter]);
    assert forall|k: SubKey| r.contains_key(k) <==> before.contains_key(k) by {
        if k.0 == c && k.1 == filter {
            assert(seq![filter][0] == k.1);
        }
        if seq![filter].contains(k.1) {
            let j = choose|j: int| 0 <= j < 1 && seq![filter][j] == k.1;
        }
    }
    assert(r =~= before);
}

/// A retained PUBLISH with a payload is handed to a later subscriber of the
/// topic, unless no-local filters out the subscriber's own message.
pub proof fn lemma_retained_delivered(
    retained: Map<Seq<char>, MessageView>,
    t: Seq<char>,
    m: MessageView,
    f: SubscribeFilter,
    c: Seq<char>,
    pkid: u16,
    answer: Option<PublishPacket>,
)
    requires
        m.retain,
        m.payload.len() > 0,
        !(f.nolocal && m.client_id == c),
        retained_answer(answer, f, t, retained_after(retained, t, m), c, pkid),
    ensures
        answer matches Some(p) && p.payload@ == m.payload,
{
}

/// A retained PUBLISH with an empty payload clears the topic's retained
/// message: a later subscriber gets none.
pub proof fn lemma_retained_cleared(
    retained: Map<Seq<char>, MessageView>,
    t: Seq<char>,
    m: MessageView,
    f: SubscribeFilter,
    c: Seq<char>,
    pkid: u16,
    answer: Option<PublishPacket>,
)
    requires
        m.retain,
        m.payload.len() == 0,
        retained_answer(answer, f, t, retained_after(retained, t, m), c, pkid),
    ensures
        answer is None,
{
}

} // verus!
