use crate::table::StrTable;
use crate::types::{
    decimal, min_qos, offset_key, offset_property, qos_level, Message, MessageView, MqttProtocol,
    PublishPacket, QoS,
};
use vstd::prelude::*;

verus! {

/// One client's subscription to one topic filter.
pub struct Subscriber {
    pub protocol: MqttProtocol,
    pub client_id: String,
    pub topic_name: String,
    pub topic_id: String,
    pub qos: QoS,
    pub nolocal: bool,
    pub preserve_retain: bool,
    pub subscription_identifier: Option<usize>,
    pub packet_identifier: u16,
}

impl Subscriber {
    pub fn duplicate(&self) -> (r: Subscriber)
        ensures
            r == *self,
    {
        Subscriber {
            protocol: self.protocol,
            client_id: self.client_id.clone(),
            topic_name: self.topic_name.clone(),
            topic_id: self.topic_id.clone(),
            qos: self.qos,
            nolocal: self.nolocal,
            preserve_retain: self.preserve_retain,
            subscription_identifier: self.subscription_identifier,
            packet_identifier: self.packet_identifier,
        }
    }
}

pub type SubKey = (Seq<char>, Seq<char>);

/// The subscriptions left once every one of a client is dropped.
pub open spec fn without_client(m: Map<SubKey, Subscriber>, c: Seq<char>) -> Map<SubKey, Subscriber> {
    m.restrict(m.dom().filter(|k: SubKey| k.0 != c))
}

/// Exclusive subscriptions keyed by client id and topic filter.
pub struct SubscribeManager {
    by_client: StrTable<StrTable<Subscriber>>,
}

impl SubscribeManager {
    pub closed spec fn subs(&self) -> Map<SubKey, Subscriber> {
        Map::new(
            |k: SubKey| self.by_client@.contains_key(k.0) && self.by_client@[k.0]@.contains_key(k.1),
            |k: SubKey| self.by_client@[k.0]@[k.1],
        )
    }

    pub closed spec fn wf(&self) -> bool {
        &&& self.by_client.wf()
        &&& forall|c: Seq<char>| #[trigger] self.by_client@.contains_key(c) ==> self.by_client@[c].wf()
        &&& forall|k: SubKey| #[trigger] self.subs().contains_key(k) ==> self.subs()[k].client_id@ == k.0
            && self.subs()[k].topic_name@ == k.1
    }

    pub fn new() -> (r: Self)
        ensures
            r.wf(),
            r.subs() == Map::<SubKey, Subscriber>::empty(),
    {
        let r = SubscribeManager { by_client: StrTable::new() };
        assert(r.subs() =~= Map::<SubKey, Subscriber>::empty());
        r
    }

    pub fn get(&self, client: &String, filter: &String) -> (r: Option<Subscriber>)
        requires
            self.wf(),
        ensures
            r is None <==> !self.subs().contains_key((client@, filter@)),
            r matches Some(s) ==> self.subs().contains_key((client@, filter@)) && s == self.subs()[(
                client@,
                filter@,
            )],
    {
        match self.by_client.get(client) {
            None => None,
            Some(inner) => match inner.get(filter) {
                None => None,
                Some(s) => Some(s.duplicate()),
            },
        }
    }

    /// Adds or replaces the subscription of its client to its filter.
    pub fn add(&mut self, sub: Subscriber)
        requires
            old(self).wf(),
        ensures
            final(self).wf(),
            final(self).subs() == old(self).subs().insert((sub.client_id@, sub.topic_name@), sub),
    {
        let ghost key = (sub.client_id@, sub.topic_name@);
        let ghost gs = sub;
        let client = sub.client_id.clone();
        let mut inner = match self.by_client.remove(&client) {
            None => StrTable::new(),
            Some(t) => t,
        };
        inner.insert(sub.topic_name.clone(), sub);
        self.by_client.insert(client, inner);
        assert(self.subs() =~= old(self).subs().insert(key, gs));
    }

    /// Drops the subscription of a client to a filter.
    pub fn remove(&mut self, client: &String, filter: &String)
        requires
            old(self).wf(),
        ensures
            final(self).wf(),
            final(self).subs() == old(self).subs().remove((client@, filter@)),
    {
        match self.by_client.remove(client) {
            None => {
                assert(self.subs() =~= old(self).subs().remove((client@, filter@)));
            },
            Some(mut inner) => {
                let _ = inner.remove(filter);
                self.by_client.insert(client.clone(), inner);
                assert(self.subs() =~= old(self).subs().remove((client@, filter@)));
            },
        }
    }

    /// Drops every subscription of a client.
    pub fn remove_client(&mut self, client: &String)
        requires
            old(self).wf(),
        ensures
            final(self).wf(),
            final(self).subs() == without_client(old(self).subs(), client@),
    {
        let _ = self.by_client.remove(client);
        assert(self.subs() =~= without_client(old(self).subs(), client@));
    }
}

/// What a subscriber receives for a stored message: nothing for its own message
/// under no-local, else a PUBLISH at the lower QoS on the subscription's topic.
pub open spec fn forwards(sub: Subscriber, m: MessageView) -> bool {
    !(sub.nolocal && m.client_id == sub.client_id@)
}

pub open spec fn carries_offset(props: Seq<(String, String)>, offset: Option<u64>) -> bool {
    match offset {
        Some(o) => props.len() == 1 && props[0].0@ == offset_key() && props[0].1@ == decimal(
            o as nat,
        ),
        None => props.len() == 0,
    }
}

pub open spec fn is_publish_for(
    p: PublishPacket,
    sub: Subscriber,
    m: MessageView,
    offset: Option<u64>,
) -> bool {
    &&& carries_offset(p.user_properties@, offset)
    &&& qos_level(p.qos) == if qos_level(m.qos) <= qos_level(sub.qos) {
        qos_level(m.qos)
    } else {
        qos_level(sub.qos)
    }
    &&& p.retain == (sub.preserve_retain && m.retain)
    &&& p.pkid == sub.packet_identifier
    &&& p.topic@ == sub.topic_name@
    &&& p.payload@ == m.payload
    &&& p.subscription_identifiers@ == match sub.subscription_identifier {
        Some(id) => seq![id],
        None => Seq::<usize>::empty(),
    }
}

/// Builds the PUBLISH a subscriber gets for a stored message; a record read
/// from the log carries its offset as a user property.
pub fn publish_for(sub: &Subscriber, msg: &Message, offset: Option<u64>) -> (r: Option<PublishPacket>)
    ensures
        r is None <==> !forwards(*sub, msg@),
        r matches Some(p) ==> is_publish_for(p, *sub, msg@, offset),
{
    if sub.nolocal && msg.client_id == sub.client_id {
        return None;
    }
    let qos = min_qos(msg.qos, sub.qos);
    let retain = if sub.preserve_retain {
        msg.retain
    } else {
        false
    };
    let mut ids: Vec<usize> = Vec::new();
    match sub.subscription_identifier {
        Some(id) => ids.push(id),
        None => {},
    }
    let mut user_properties: Vec<(String, String)> = Vec::new();
    match offset {
        Some(o) => user_properties.push(offset_property(o)),
        None => {},
    }
    let payload = msg.payload.clone();
    assert(payload@ =~= msg.payload@);
    let p = PublishPacket {
        qos,
        pkid: sub.packet_identifier,
        retain,
        topic: sub.topic_name.clone(),
        payload,
        subscription_identifiers: ids,
        user_properties,
    };
    assert(p.subscription_identifiers@ =~= match sub.subscription_identifier {
        Some(id) => seq![id],
        None => Seq::<usize>::empty(),
    });
    Some(p)
}

} // verus!
