use crate::cache::{inverse_bindings, unbind, unbind_clients, MetadataCache, Session, Topic};
use crate::heartbeat::{is_expired, ConnectionLiveTime, HeartbeatManager};
use crate::inflight::{FlightKey, InFlight, InFlightTable};
use crate::store::{MessageStore, StorageError};
use crate::subscribe::{
    forwards, is_publish_for, publish_for, without_client, SubKey, SubscribeManager, Subscriber,
};
use crate::types::{
    decimal, offset_key, offset_property, qos_level, DisconnectReasonCode, LastWill, Message,
    MessageView, MqttPacket, MqttProtocol, PublishPacket, QoS,
};
use vstd::prelude::*;

verus! {

/// The fields of a CONNECT packet the broker acts on.
pub struct Connect {
    pub client_id: String,
    pub clean_session: bool,
    pub keep_alive: u16,
    pub session_expiry_interval: u32,
}

/// The fields of a PUBLISH packet the broker acts on.
pub struct Publish {
    pub topic: String,
    pub payload: Vec<u8>,
    pub qos: QoS,
    pub retain: bool,
    pub pkid: u16,
}

/// The shard id a topic name resolves to: its own if the topic is known,
/// else the fresh one.
pub open spec fn topic_id_for(topics: Map<Seq<char>, Topic>, name: Seq<char>, fresh: Seq<char>) -> Seq<
    char,
> {
    if topics.contains_key(name) {
        topics[name].topic_id@
    } else {
        fresh
    }
}

/// Retained messages after a message is stored on a shard.
pub open spec fn retained_after(
    retained: Map<Seq<char>, MessageView>,
    t: Seq<char>,
    m: MessageView,
) -> Map<Seq<char>, MessageView> {
    if !m.retain {
        retained
    } else if m.payload.len() == 0 {
        retained.remove(t)
    } else {
        retained.insert(t, m)
    }
}

/// The user properties of an acknowledgement: those of the PUBLISH, then the offset.
pub open spec fn ack_properties(
    props: Seq<(String, String)>,
    given: Seq<(String, String)>,
    offset: nat,
) -> bool {
    &&& props.len() == given.len() + 1
    &&& forall|i: int| 0 <= i < given.len() ==> props[i] == given[i]
    &&& props[given.len() as int].0@ == offset_key()
    &&& props[given.len() as int].1@ == decimal(offset)
}

/// One topic filter of a SUBSCRIBE packet with its options.
pub struct SubscribeFilter {
    pub path: String,
    pub qos: QoS,
    pub nolocal: bool,
    pub preserve_retain: bool,
}

/// What one turn of a subscription's push loop did.
pub enum PushStep {
    /// The subscription is gone: the loop ends.
    Stop,
    /// The client has no live connection.
    Offline,
    /// Nothing new in the log.
    Idle,
    /// A delivery under the subscription's packet id awaits acknowledgement.
    Waiting,
    /// A batch was read; each record gives the PUBLISH to send on the
    /// connection, or none when the subscription filters it out. The batch
    /// ends at the first delivery that needs an acknowledgement.
    Delivered { conn: u64, packets: Vec<Option<PublishPacket>> },
}

pub const PUSH_BATCH: usize = 5;

pub open spec fn group_prefix() -> Seq<char> {
    seq!['s', 'y', 's', 't', 'e', 'm', '_', 's', 'u', 'b', '_']
}

/// A record whose delivery waits for PUBACK or PUBCOMP before its offset is committed.
pub open spec fn needs_ack(s: Subscriber, m: MessageView) -> bool {
    forwards(s, m) && qos_level(m.qos) > 0 && qos_level(s.qos) > 0
}

/// Index of the first record from `i` on whose delivery needs an
/// acknowledgement, or `n` if none does.
pub open spec fn first_acked(s: Subscriber, recs: Seq<MessageView>, start: int, i: int, n: int) -> int
    decreases n - i,
{
    if i >= n {
        n
    } else if needs_ack(s, recs[start + i]) {
        i
    } else {
        first_acked(s, recs, start, i + 1, n)
    }
}

/// The consumer group of a client's exclusive subscriptions.
pub open spec fn group_of(client: Seq<char>) -> Seq<char> {
    group_prefix() + client
}

/// The subscription a SUBSCRIBE filter describes.
pub open spec fn describes(
    s: Subscriber,
    c: Seq<char>,
    f: SubscribeFilter,
    topic_id: Seq<char>,
    pkid: u16,
    sub_id: Option<usize>,
) -> bool {
    &&& s.protocol == MqttProtocol::Mqtt5
    &&& s.client_id@ == c
    &&& s.topic_name@ == f.path@
    &&& s.topic_id@ == topic_id
    &&& s.qos == f.qos
    &&& s.nolocal == f.nolocal
    &&& s.preserve_retain == f.preserve_retain
    &&& s.subscription_identifier == sub_id
    &&& s.packet_identifier == pkid
}

/// The retained message a new subscription is answered with, if any.
pub open spec fn retained_answer(
    p: Option<PublishPacket>,
    f: SubscribeFilter,
    t: Seq<char>,
    ret: Map<Seq<char>, MessageView>,
    c: Seq<char>,
    pkid: u16,
) -> bool {
    &&& (p is Some <==> ret.contains_key(t) && !(f.nolocal && ret[t].client_id == c))
    &&& p matches Some(q) ==> q.payload@ == ret[t].payload && q.topic@ == f.path@ && q.pkid == pkid
        && q.retain == (f.preserve_retain && ret[t].retain) && qos_level(q.qos) == if qos_level(
        ret[t].qos,
    ) <= qos_level(f.qos) {
        qos_level(ret[t].qos)
    } else {
        qos_level(f.qos)
    }
}

/// No later filter of the list has the same path.
pub open spec fn last_with_path(fs: Seq<SubscribeFilter>, j: int, n: int) -> bool {
    forall|k: int| j < k < n ==> #[trigger] fs[k].path@ != fs[j].path@
}

pub open spec fn names_path(fs: Seq<SubscribeFilter>, n: int, p: Seq<char>) -> bool {
    exists|j: int| 0 <= j < n && #[trigger] fs[j].path@ == p
}

/// The subscriptions left once a client leaves the given filters.
pub open spec fn unsubscribed(
    m: Map<SubKey, Subscriber>,
    c: Seq<char>,
    fs: Seq<Seq<char>>,
) -> Map<SubKey, Subscriber> {
    m.restrict(m.dom().filter(|k: SubKey| !(k.0 == c && fs.contains(k.1))))
}

/// A client bound to a connection whose keep-alive ran out at `now`.
pub open spec fn reaped_client(
    clients: Map<u64, Seq<char>>,
    live: Map<u64, ConnectionLiveTime>,
    now: u64,
    c: Seq<char>,
) -> bool {
    exists|n: u64| #[trigger] clients.contains_key(n) && live.contains_key(n) && is_expired(live[n], now) && clients[n] == c
}

pub open spec fn reaped_upto(clients: Map<u64, Seq<char>>, ex: Seq<u64>, i: int, c: Seq<char>) -> bool {
    exists|j: int| 0 <= j < i && #[trigger] clients.contains_key(ex[j]) && clients[ex[j]] == c
}

pub open spec fn among(s: Seq<u64>, i: int, c: u64) -> bool {
    exists|j: int| 0 <= j < i && #[trigger] s[j] == c
}

/// The MQTT v5 packet handlers over the broker's in-memory state.
pub struct Mqtt5Service {
    metadata_cache: MetadataCache,
    subscribe_manager: SubscribeManager,
    heartbeat_manager: HeartbeatManager,
    message_storage: MessageStore,
    in_flight: InFlightTable<InFlight>,
    held: InFlightTable<Publish>,
}

pub open spec fn is_disconnect(p: MqttPacket, reason: DisconnectReasonCode) -> bool {
    p matches MqttPacket::Disconnect { reason: r, .. } && r == reason
}

/// A DISCONNECT with the given reason code that carries the given text.
pub open spec fn disconnect_says(p: MqttPacket, reason: DisconnectReasonCode, text: Seq<char>) -> bool {
    p matches MqttPacket::Disconnect { reason: r, message: Some(m) } && r == reason && m@ == text
}

pub open spec fn answers_disconnect(r: Option<MqttPacket>, reason: DisconnectReasonCode, text: Seq<char>) -> bool {
    r matches Some(p) && disconnect_says(p, reason, text)
}

pub open spec fn descriptors_backed(
    clients: Map<u64, Seq<char>>,
    sessions: Map<Seq<char>, Session>,
    topics: Map<Seq<char>, Topic>,
    subs: Map<SubKey, Subscriber>,
) -> bool {
    &&& forall|n: u64| #[trigger] clients.contains_key(n) ==> sessions.contains_key(clients[n])
    &&& forall|k: SubKey| #[trigger] subs.contains_key(k) ==> sessions.contains_key(k.0)
        && topics.contains_key(k.1) && topics[k.1].topic_id@ == subs[k].topic_id@
}

/// The log, its commits and the retained messages are as they were.
pub open spec fn log_unchanged(before: MessageStore, after: MessageStore) -> bool {
    &&& forall|u: Seq<char>| #[trigger] after.records(u) == before.records(u)
    &&& forall|u: Seq<char>| #[trigger] after.has_shard(u) == before.has_shard(u)
    &&& forall|u: Seq<char>, g: Seq<char>| #[trigger] after.committed(u, g) == before.committed(u, g)
    &&& after.retained() == before.retained()
}

/// Whether a CONNECT resumes an existing session.
pub open spec fn session_resumed(
    sessions: Map<Seq<char>, Session>,
    requested: Seq<char>,
    generated: Seq<char>,
    clean_session: bool,
) -> bool {
    !clean_session && sessions.contains_key(effective_client_id(requested, generated))
}

/// The client id a CONNECT ends up with.
pub open spec fn effective_client_id(requested: Seq<char>, generated: Seq<char>) -> Seq<char> {
    if requested.len() == 0 {
        generated
    } else {
        requested
    }
}

impl Mqtt5Service {
    pub closed spec fn cache(&self) -> MetadataCache {
        self.metadata_cache
    }

    pub closed spec fn registry(&self) -> SubscribeManager {
        self.subscribe_manager
    }

    pub closed spec fn heartbeats(&self) -> HeartbeatManager {
        self.heartbeat_manager
    }

    pub closed spec fn storage(&self) -> MessageStore {
        self.message_storage
    }

    /// Deliveries awaiting acknowledgement, by client id and packet id.
    pub closed spec fn flights(&self) -> Map<FlightKey, InFlight> {
        self.in_flight@
    }

    /// QoS 2 messages received and not yet released, by client id and packet id.
    pub closed spec fn held_messages(&self) -> Map<FlightKey, Publish> {
        self.held@
    }

    pub open spec fn clients(&self) -> Map<u64, Seq<char>> {
        self.cache().clients()
    }

    pub open spec fn connections(&self) -> Map<Seq<char>, u64> {
        self.cache().connections()
    }

    pub open spec fn sessions(&self) -> Map<Seq<char>, Session> {
        self.cache().sessions()
    }

    pub open spec fn subs(&self) -> Map<SubKey, Subscriber> {
        self.registry().subs()
    }

    pub open spec fn live(&self) -> Map<u64, ConnectionLiveTime> {
        self.heartbeats().live()
    }

    pub open spec fn lastwills(&self) -> Map<Seq<char>, LastWill> {
        self.storage().lastwills()
    }

    pub closed spec fn wf(&self) -> bool {
        &&& self.metadata_cache.wf()
        &&& self.subscribe_manager.wf()
        &&& self.heartbeat_manager.wf()
        &&& self.message_storage.wf()
        &&& self.in_flight.wf()
        &&& self.held.wf()
        &&& forall|k: FlightKey| #[trigger] self.in_flight@.contains_key(k) ==> self.in_flight@[k].offset < u64::MAX
        &&& forall|n: Seq<char>| #[trigger] self.metadata_cache.topics().contains_key(n)
            ==> self.message_storage.has_shard(self.metadata_cache.topics()[n].topic_id@)
        &&& descriptors_backed(
            self.metadata_cache.clients(),
            self.metadata_cache.sessions(),
            self.metadata_cache.topics(),
            self.subscribe_manager.subs(),
        )
    }

    /// Every bound client has a session, and every subscription has a
    /// session and an existing topic, whose shard id it carries.
    pub proof fn lemma_descriptors_backed(&self)
        requires
            self.wf(),
        ensures
            descriptors_backed(self.clients(), self.sessions(), self.cache().topics(), self.subs()),
    {
    }

    pub fn new(
        metadata_cache: MetadataCache,
        subscribe_manager: SubscribeManager,
        heartbeat_manager: HeartbeatManager,
        message_storage: MessageStore,
    ) -> (r: Self)
        requires
            metadata_cache.wf(),
            subscribe_manager.wf(),
            heartbeat_manager.wf(),
            message_storage.wf(),
            forall|n: Seq<char>| #[trigger] metadata_cache.topics().contains_key(n)
                ==> message_storage.has_shard(metadata_cache.topics()[n].topic_id@),
            descriptors_backed(
                metadata_cache.clients(),
                metadata_cache.sessions(),
                metadata_cache.topics(),
                subscribe_manager.subs(),
            ),
        ensures
            r.wf(),
            r.cache() == metadata_cache,
            r.registry() == subscribe_manager,
            r.heartbeats() == heartbeat_manager,
            r.storage() == message_storage,
            r.flights() == Map::<FlightKey, InFlight>::empty(),
            r.held_messages() == Map::<FlightKey, Publish>::empty(),
    {
        Mqtt5Service {
            metadata_cache,
            subscribe_manager,
            heartbeat_manager,
            message_storage,
            in_flight: InFlightTable::new(),
            held: InFlightTable::new(),
        }
    }

    /// Handles CONNECT. `auth` is the login plugin's verdict, `generated_id` the
    /// id handed to a client that sent none, `now` the time in seconds.
    pub fn connect(
        &mut self,
        conn: u64,
        connect: &Connect,
        last_will: Option<LastWill>,
        auth: Result<bool, String>,
        generated_id: &String,
        now: u64,
    ) -> (r: MqttPacket)
        requires
            old(self).wf(),
            generated_id@.len() > 0,
        ensures
            final(self).wf(),
            auth matches Err(e) ==> disconnect_says(r, DisconnectReasonCode::NotAuthorized, e@),
            !(auth matches Ok(true)) ==> is_disconnect(r, DisconnectReasonCode::NotAuthorized)
                && final(self).clients() == old(self).clients() && final(self).connections() == old(
                self,
            ).connections() && final(self).sessions() == old(self).sessions() && final(self).live()
                == old(self).live() && final(self).lastwills() == old(self).lastwills(),
            auth matches Ok(true) ==> {
                let cid = effective_client_id(connect.client_id@, generated_id@);
                let present = session_resumed(old(self).sessions(), connect.client_id@, generated_id@, connect.clean_session);
                &&& r matches MqttPacket::ConnAck { client_id, session_present, assigned_client_id }
                    && client_id@ == cid && session_present == present && assigned_client_id == (
                    connect.client_id@.len() == 0)
                &&& final(self).sessions() == old(self).sessions().insert(
                    cid,
                    Session {
                        keep_alive: connect.keep_alive,
                        clean_start: connect.clean_session,
                        session_expiry_interval: connect.session_expiry_interval,
                        session_present: present,
                        has_last_will: last_will is Some,
                        last_will_delay_interval: 0,
                    },
                )
                &&& final(self).clients().contains_key(conn) && final(self).clients()[conn] == cid
                &&& final(self).connections().contains_key(cid) && final(self).connections()[cid] == conn
                &&& final(self).clients() == unbind(old(self).clients(), conn, cid).insert(conn, cid)
                &&& final(self).connections() == unbind_clients(old(self).connections(), conn, cid).insert(
                    cid,
                    conn,
                )
                &&& final(self).live() == old(self).live().insert(
                    conn,
                    ConnectionLiveTime {
                        protocol: MqttProtocol::Mqtt5,
                        keep_alive: connect.keep_alive,
                        heartbeat: now,
                    },
                )
                &&& final(self).lastwills() == match last_will {
                    Some(w) => old(self).lastwills().insert(cid, w),
                    None => old(self).lastwills(),
                }
            },
            inverse_bindings(final(self).clients(), final(self).connections()),
            final(self).subs() == old(self).subs(),
            log_unchanged(old(self).storage(), final(self).storage()),
            final(self).cache().topics() == old(self).cache().topics(),
    {
        proof {
            self.metadata_cache.lemma_inverse();
        }
        match auth {
            Ok(true) => {},
            Ok(false) => {
                return MqttPacket::Disconnect { reason: DisconnectReasonCode::NotAuthorized, message: None };
            },
            Err(e) => {
                return MqttPacket::Disconnect { reason: DisconnectReasonCode::NotAuthorized, message: Some(e) };
            },
        }
        let assigned = connect.client_id.as_str().is_empty();
        let client_id = if assigned {
            generated_id.clone()
        } else {
            connect.client_id.clone()
        };
        proof {
            if connect.client_id@.len() == 0 {
                assert(assigned);
            } else {
                assert(!assigned);
            }
        }
        let present = !connect.clean_session && self.metadata_cache.get_session(&client_id).is_some();
        let has_last_will = last_will.is_some();
        let session = Session {
            keep_alive: connect.keep_alive,
            clean_start: connect.clean_session,
            session_expiry_interval: connect.session_expiry_interval,
            session_present: present,
            has_last_will,
            last_will_delay_interval: 0,
        };
        match last_will {
            Some(w) => self.message_storage.save_lastwill(&client_id, w),
            None => {},
        }
        self.metadata_cache.set_session(&client_id, session);
        self.metadata_cache.set_client_id(conn, &client_id);
        let live = ConnectionLiveTime {
            protocol: MqttProtocol::Mqtt5,
            keep_alive: connect.keep_alive,
            heartbeat: now,
        };
        self.heartbeat_manager.report_heartbeat(conn, live);
        MqttPacket::ConnAck { client_id, session_present: present, assigned_client_id: assigned }
    }

    /// The client bound to a connection.
    pub fn client_of(&self, conn: u64) -> (r: Option<String>)
        requires
            self.wf(),
        ensures
            r is None <==> !self.clients().contains_key(conn),
            r matches Some(c) ==> c@ == self.clients()[conn],
    {
        self.metadata_cache.get_client_id(conn)
    }

    /// Handles PINGREQ: refreshes the heartbeat of a connection that has a
    /// client and a session.
    pub fn ping(&mut self, conn: u64, now: u64) -> (r: MqttPacket)
        requires
            old(self).wf(),
        ensures
            final(self).wf(),
            final(self).clients() == old(self).clients(),
            final(self).connections() == old(self).connections(),
            final(self).sessions() == old(self).sessions(),
            final(self).subs() == old(self).subs(),
            log_unchanged(old(self).storage(), final(self).storage()),
            final(self).cache().topics() == old(self).cache().topics(),
            final(self).lastwills() == old(self).lastwills(),
            old(self).clients().contains_key(conn) && old(self).sessions().contains_key(
                old(self).clients()[conn],
            ) ==> r is PingResp && final(self).live() == old(self).live().insert(
                conn,
                ConnectionLiveTime {
                    protocol: MqttProtocol::Mqtt5,
                    keep_alive: old(self).sessions()[old(self).clients()[conn]].keep_alive,
                    heartbeat: now,
                },
            ),
            !(old(self).clients().contains_key(conn) && old(self).sessions().contains_key(
                old(self).clients()[conn],
            )) ==> is_disconnect(r, DisconnectReasonCode::UseAnotherServer) && final(self).live()
                == old(self).live(),
    {
        if let Some(client_id) = self.metadata_cache.get_client_id(conn) {
            if let Some(session) = self.metadata_cache.get_session(&client_id) {
                let live = ConnectionLiveTime {
                    protocol: MqttProtocol::Mqtt5,
                    keep_alive: session.keep_alive,
                    heartbeat: now,
                };
                self.heartbeat_manager.report_heartbeat(conn, live);
                return MqttPacket::PingResp;
            }
        }
        MqttPacket::Disconnect { reason: DisconnectReasonCode::UseAnotherServer, message: None }
    }

    /// Tears down a connection: its bindings, heartbeat and subscriptions go.
    /// Returns the client's last-will when it is to be published.
    fn terminate(&mut self, conn: u64, keep_will: bool) -> (r: Option<(String, LastWill)>)
        requires
            old(self).wf(),
        ensures
            final(self).wf(),
            final(self).clients() == old(self).clients().remove(conn),
            old(self).clients().contains_key(conn) ==> final(self).connections() == old(
                self,
            ).connections().remove(old(self).clients()[conn]) && final(self).subs()
                == without_client(old(self).subs(), old(self).clients()[conn]) && final(self).lastwills()
                == old(self).lastwills().remove(old(self).clients()[conn]) && (r is None <==> !(keep_will
                && old(self).lastwills().contains_key(old(self).clients()[conn]))) && (r matches Some(
                cw,
            ) ==> cw.0@ == old(self).clients()[conn] && cw.1 == old(self).lastwills()[old(
                self,
            ).clients()[conn]]),
            !old(self).clients().contains_key(conn) ==> final(self).connections() == old(
                self,
            ).connections() && final(self).subs() == old(self).subs() && final(self).lastwills()
                == old(self).lastwills() && r is None,
            final(self).live() == old(self).live().remove(conn),
            final(self).sessions() == old(self).sessions(),
            old(self).clients().contains_key(conn) ==> forall|k: FlightKey| #[trigger] final(self).flights().contains_key(k)
                <==> old(self).flights().contains_key(k) && k.0 != old(self).clients()[conn],
            !old(self).clients().contains_key(conn) ==> final(self).flights() == old(self).flights(),
            log_unchanged(old(self).storage(), final(self).storage()),
            final(self).cache().topics() == old(self).cache().topics(),
            inverse_bindings(final(self).clients(), final(self).connections()),
    {
        let client = self.metadata_cache.get_client_id(conn);
        self.metadata_cache.remove_connect_id(conn);
        self.heartbeat_manager.remove_connect(conn);
        proof {
            self.metadata_cache.lemma_inverse();
        }
        match client {
            None => None,
            Some(c) => {
                self.subscribe_manager.remove_client(&c);
                self.in_flight.remove_client(&c);
                let will = self.message_storage.take_lastwill(&c);
                if keep_will {
                    match will {
                        Some(w) => Some((c, w)),
                        None => None,
                    }
                } else {
                    None
                }
            },
        }
    }

    /// Handles DISCONNECT: the connection's bindings, heartbeat and
    /// subscriptions go, and so does its last-will unless the reason code is
    /// not a normal disconnection.
    pub fn disconnect(&mut self, conn: u64, reason: DisconnectReasonCode) -> (r: (
        MqttPacket,
        Option<(String, LastWill)>,
    ))
        requires
            old(self).wf(),
        ensures
            final(self).wf(),
            is_disconnect(r.0, DisconnectReasonCode::NormalDisconnection),
            !final(self).clients().contains_key(conn),
            !final(self).live().contains_key(conn),
            final(self).clients() == old(self).clients().remove(conn),
            final(self).live() == old(self).live().remove(conn),
            final(self).sessions() == old(self).sessions(),
            old(self).clients().contains_key(conn) ==> forall|k: FlightKey| #[trigger] final(self).flights().contains_key(k)
                <==> old(self).flights().contains_key(k) && k.0 != old(self).clients()[conn],
            !old(self).clients().contains_key(conn) ==> final(self).flights() == old(self).flights(),
            log_unchanged(old(self).storage(), final(self).storage()),
            final(self).cache().topics() == old(self).cache().topics(),
            old(self).clients().contains_key(conn) ==> {
                let c = old(self).clients()[conn];
                &&& !final(self).connections().contains_key(c)
                &&& final(self).connections() == old(self).connections().remove(c)
                &&& final(self).subs() == without_client(old(self).subs(), c)
                &&& forall|k: SubKey| final(self).subs().contains_key(k) ==> k.0 != c
                &&& !final(self).lastwills().contains_key(c)
                &&& (r.1 is Some <==> reason != DisconnectReasonCode::NormalDisconnection
                    && old(self).lastwills().contains_key(c))
                &&& r.1 matches Some(cw) ==> cw.0@ == c && cw.1 == old(self).lastwills()[c]
            },
            !old(self).clients().contains_key(conn) ==> final(self).connections() == old(
                self,
            ).connections() && final(self).subs() == old(self).subs() && r.1 is None,
            inverse_bindings(final(self).clients(), final(self).connections()),
    {
        let keep_will = match reason {
            DisconnectReasonCode::NormalDisconnection => false,
            _ => true,
        };
        let will = self.terminate(conn, keep_will);
        (MqttPacket::Disconnect { reason: DisconnectReasonCode::NormalDisconnection, message: None }, will)
    }

    /// Finds a topic by name, creating it and its shard under `fresh_id` when
    /// it is unknown.
    fn resolve_topic(&mut self, name: &String, fresh_id: &String) -> (r: String)
        requires
            old(self).wf(),
        ensures
            final(self).wf(),
            r@ == topic_id_for(old(self).cache().topics(), name@, fresh_id@),
            old(self).cache().topics().contains_key(name@) ==> final(self).cache().topics() == old(self).cache().topics(),
            final(self).cache().topics().contains_key(name@),
            final(self).cache().topics()[name@].topic_id@ == r@,
            forall|n: Seq<char>| n != name@ ==> #[trigger] final(self).cache().topics().contains_key(n)
                == old(self).cache().topics().contains_key(n),
            forall|n: Seq<char>| n != name@ && old(self).cache().topics().contains_key(n) ==> #[trigger] final(self).cache().topics()[n] == old(self).cache().topics()[n],
            final(self).storage().has_shard(r@),
            forall|u: Seq<char>| #[trigger] final(self).storage().records(u) == old(self).storage().records(u),
            forall|u: Seq<char>, g: Seq<char>| #[trigger] final(self).storage().committed(u, g) == old(self).storage().committed(u, g),
            final(self).storage().retained() == old(self).storage().retained(),
            final(self).clients() == old(self).clients(),
            final(self).connections() == old(self).connections(),
            final(self).sessions() == old(self).sessions(),
            final(self).subs() == old(self).subs(),
            final(self).live() == old(self).live(),
            final(self).lastwills() == old(self).lastwills(),
            final(self).flights() == old(self).flights(),
            final(self).held_messages() == old(self).held_messages(),
    {
        match self.metadata_cache.get_topic_by_name(name) {
            Some(t) => {
                assert(self.message_storage.has_shard(self.metadata_cache.topics()[name@].topic_id@));
                t.topic_id
            },
            None => {
                let topic = Topic { topic_name: name.clone(), topic_id: fresh_id.clone() };
                self.metadata_cache.set_topic(topic);
                self.message_storage.create_shard(fresh_id);
                assert forall|n: Seq<char>| #[trigger] self.metadata_cache.topics().contains_key(n)
                    implies self.message_storage.has_shard(self.metadata_cache.topics()[n].topic_id@) by {
                    if n != name@ {
                        assert(old(self).metadata_cache.topics().contains_key(n));
                    }
                }
                fresh_id.clone()
            },
        }
    }

    /// Stores a message on the shard of a topic: as the topic's retained
    /// message when `retain` is set, and appended to the log.
    fn store_message(&mut self, topic: &String, m: Message, fresh_id: &String) -> (r: Result<
        u64,
        StorageError,
    >)
        requires
            old(self).wf(),
        ensures
            final(self).wf(),
            ({
                let t = topic_id_for(old(self).cache().topics(), topic@, fresh_id@);
                let n = old(self).storage().records(t).len();
                &&& final(self).cache().topics().contains_key(topic@)
                &&& final(self).cache().topics()[topic@].topic_id@ == t
                &&& old(self).cache().topics().contains_key(topic@) ==> final(self).cache().topics() == old(self).cache().topics()
                &&& forall|n: Seq<char>| n != topic@ ==> #[trigger] final(self).cache().topics().contains_key(n) == old(self).cache().topics().contains_key(n)
                &&& forall|n: Seq<char>| n != topic@ && old(self).cache().topics().contains_key(n) ==> #[trigger] final(self).cache().topics()[n] == old(self).cache().topics()[n]
                &&& final(self).storage().has_shard(t)
                &&& final(self).storage().retained() == retained_after(old(self).storage().retained(), t, m@)
                &&& n < u64::MAX ==> r == Ok::<u64, StorageError>(n as u64) && final(self).storage().records(t) == old(self).storage().records(t).push(m@)
                &&& n >= u64::MAX ==> r is Err && final(self).storage().records(t) == old(self).storage().records(t)
                &&& forall|u: Seq<char>| u != t ==> #[trigger] final(self).storage().records(u) == old(self).storage().records(u)
            }),
            forall|u: Seq<char>, g: Seq<char>| #[trigger] final(self).storage().committed(u, g) == old(self).storage().committed(u, g),
            final(self).clients() == old(self).clients(),
            final(self).connections() == old(self).connections(),
            final(self).sessions() == old(self).sessions(),
            final(self).subs() == old(self).subs(),
            final(self).live() == old(self).live(),
            final(self).lastwills() == old(self).lastwills(),
            final(self).flights() == old(self).flights(),
            final(self).held_messages() == old(self).held_messages(),
    {
        let topic_id = self.resolve_topic(topic, fresh_id);
        if m.retain {
            let kept = m.duplicate();
            self.message_storage.save_retain_message(&topic_id, kept);
        }
        let r = self.message_storage.append(&topic_id, m);
        assert forall|n: Seq<char>| #[trigger] self.metadata_cache.topics().contains_key(n)
            implies self.message_storage.has_shard(self.metadata_cache.topics()[n].topic_id@) by {}
        r
    }

    /// Handles PUBLISH: stores the message under the topic (created with
    /// `fresh_topic_id` if unknown) and acknowledges it by its QoS.
    pub fn publish(
        &mut self,
        conn: u64,
        publish: Publish,
        user_properties: Vec<(String, String)>,
        fresh_topic_id: &String,
    ) -> (r: Option<MqttPacket>)
        requires
            old(self).wf(),
        ensures
            final(self).wf(),
            !old(self).clients().contains_key(conn) ==> answers_disconnect(
                r,
                DisconnectReasonCode::UnspecifiedError,
                "not found connection in cache"@,
            ) && *final(self) == *old(self),
            old(self).clients().contains_key(conn) && !old(self).sessions().contains_key(
                old(self).clients()[conn],
            ) ==> answers_disconnect(r, DisconnectReasonCode::UnspecifiedError, "not found client in cache"@)
                && *final(self) == *old(self),
            old(self).clients().contains_key(conn) && old(self).sessions().contains_key(
                old(self).clients()[conn],
            ) && publish.qos == QoS::ExactlyOnce ==> {
                let c = old(self).clients()[conn];
                &&& r matches Some(MqttPacket::PubRec { session_present })
                    && session_present == old(self).sessions()[c].session_present
                &&& final(self).held_messages() == old(self).held_messages().insert((c, publish.pkid as u64), publish)
                &&& log_unchanged(old(self).storage(), final(self).storage())
                &&& final(self).cache().topics() == old(self).cache().topics()
            },
            publish.qos != QoS::ExactlyOnce ==> final(self).held_messages() == old(self).held_messages(),
            old(self).clients().contains_key(conn) && old(self).sessions().contains_key(
                old(self).clients()[conn],
            ) && publish.qos != QoS::ExactlyOnce ==> {
                let c = old(self).clients()[conn];
                let t = topic_id_for(old(self).cache().topics(), publish.topic@, fresh_topic_id@);
                let n = old(self).storage().records(t).len();
                let m = MessageView {
                    client_id: c,
                    payload: publish.payload@,
                    qos: publish.qos,
                    retain: publish.retain,
                };
                &&& final(self).cache().topics().contains_key(publish.topic@)
                &&& final(self).cache().topics()[publish.topic@].topic_id@ == t
                &&& old(self).cache().topics().contains_key(publish.topic@) ==> final(self).cache().topics() == old(self).cache().topics()
                &&& forall|n: Seq<char>| n != publish.topic@ ==> #[trigger] final(self).cache().topics().contains_key(n) == old(self).cache().topics().contains_key(n)
                &&& forall|n: Seq<char>| n != publish.topic@ && old(self).cache().topics().contains_key(n) ==> #[trigger] final(self).cache().topics()[n] == old(self).cache().topics()[n]
                &&& final(self).storage().has_shard(t)
                &&& final(self).storage().retained() == retained_after(
                    old(self).storage().retained(),
                    t,
                    m,
                )
                &&& n >= u64::MAX ==> answers_disconnect(r, DisconnectReasonCode::UnspecifiedError, "storage unavailable"@)
                &&& n < u64::MAX ==> final(self).storage().records(t) == old(self).storage().records(
                    t,
                ).push(m) && match publish.qos {
                    QoS::AtMostOnce => r is None,
                    QoS::AtLeastOnce => r matches Some(MqttPacket::PubAck { pkid, user_properties: props })
                        && pkid == publish.pkid && ack_properties(props@, user_properties@, n),
                    QoS::ExactlyOnce => true,
                }
                &&& forall|u: Seq<char>| u != t ==> #[trigger] final(self).storage().records(u)
                    == old(self).storage().records(u)
            },
            forall|u: Seq<char>, g: Seq<char>| #[trigger] final(self).storage().committed(u, g) == old(self).storage().committed(u, g),
            final(self).clients() == old(self).clients(),
            final(self).connections() == old(self).connections(),
            final(self).sessions() == old(self).sessions(),
            final(self).subs() == old(self).subs(),
            final(self).live() == old(self).live(),
            final(self).lastwills() == old(self).lastwills(),
            final(self).flights() == old(self).flights(),
    {
        let client_id = match self.metadata_cache.get_client_id(conn) {
            Some(c) => c,
            None => {
                return Some(
                    MqttPacket::Disconnect {
                        reason: DisconnectReasonCode::UnspecifiedError,
                        message: Some(String::from_str("not found connection in cache")),
                    },
                );
            },
        };
        let session = match self.metadata_cache.get_session(&client_id) {
            Some(s) => s,
            None => {
                return Some(
                    MqttPacket::Disconnect {
                        reason: DisconnectReasonCode::UnspecifiedError,
                        message: Some(String::from_str("not found client in cache")),
                    },
                );
            },
        };
        if publish.qos == QoS::ExactlyOnce {
            let pkid = publish.pkid;
            self.held.insert(&client_id, pkid, publish);
            return Some(MqttPacket::PubRec { session_present: session.session_present });
        }
        let Publish { topic, payload, qos, retain, pkid } = publish;
        let m = Message { client_id, payload, qos, retain };
        let offset = match self.store_message(&topic, m, fresh_topic_id) {
            Ok(o) => o,
            Err(_) => {
                return Some(
                    MqttPacket::Disconnect {
                        reason: DisconnectReasonCode::UnspecifiedError,
                        message: Some(String::from_str("storage unavailable")),
                    },
                );
            },
        };
        match qos {
            QoS::AtMostOnce => None,
            QoS::AtLeastOnce => {
                let mut props = user_properties;
                props.push(offset_property(offset));
                Some(MqttPacket::PubAck { pkid, user_properties: props })
            },
            QoS::ExactlyOnce => None,
        }
    }

    /// Publishes a client's last-will on its topic, on the client's behalf.
    pub fn publish_will(&mut self, client_id: &String, will: LastWill, fresh_topic_id: &String) -> (r:
        Result<u64, StorageError>)
        requires
            old(self).wf(),
        ensures
            final(self).wf(),
            ({
                let t = topic_id_for(old(self).cache().topics(), will.topic@, fresh_topic_id@);
                let n = old(self).storage().records(t).len();
                let m = MessageView {
                    client_id: client_id@,
                    payload: will.message@,
                    qos: will.qos,
                    retain: will.retain,
                };
                &&& final(self).storage().retained() == retained_after(old(self).storage().retained(), t, m)
                &&& n < u64::MAX ==> r == Ok::<u64, StorageError>(n as u64) && final(self).storage().records(t) == old(self).storage().records(t).push(m)
                &&& n >= u64::MAX ==> r is Err
            }),
            final(self).clients() == old(self).clients(),
            final(self).connections() == old(self).connections(),
            final(self).sessions() == old(self).sessions(),
            final(self).subs() == old(self).subs(),
            final(self).live() == old(self).live(),
            final(self).lastwills() == old(self).lastwills(),
            final(self).flights() == old(self).flights(),
    {
        let LastWill { topic, message, qos, retain } = will;
        let m = Message { client_id: client_id.clone(), payload: message, qos, retain };
        self.store_message(&topic, m, fresh_topic_id)
    }

    /// Records one filter of a SUBSCRIBE for a client and answers with the
    /// retained message of its topic.
    fn subscribe_one(
        &mut self,
        client_id: &String,
        f: &SubscribeFilter,
        pkid: u16,
        subscription_identifier: Option<usize>,
        fresh_topic_id: &String,
    ) -> (r: Option<PublishPacket>)
        requires
            old(self).wf(),
            old(self).sessions().contains_key(client_id@),
        ensures
            final(self).wf(),
            ({
                let c = client_id@;
                let key = (c, f.path@);
                let t = topic_id_for(old(self).cache().topics(), f.path@, fresh_topic_id@);
                &&& final(self).cache().topics().contains_key(f.path@)
                &&& final(self).cache().topics()[f.path@].topic_id@ == t
                &&& forall|n: Seq<char>| #[trigger] old(self).cache().topics().contains_key(n)
                    ==> final(self).cache().topics().contains_key(n) && final(self).cache().topics()[n] == old(self).cache().topics()[n]
                &&& final(self).subs().contains_key(key)
                &&& describes(final(self).subs()[key], c, *f, t, pkid, subscription_identifier)
                &&& forall|k: SubKey| k != key ==> (#[trigger] final(self).subs().contains_key(k) == old(self).subs().contains_key(k)
                    && final(self).subs()[k] == old(self).subs()[k])
                &&& retained_answer(r, *f, t, old(self).storage().retained(), c, pkid)
            }),
            forall|u: Seq<char>| #[trigger] final(self).storage().records(u) == old(self).storage().records(u),
            forall|u: Seq<char>, g: Seq<char>| #[trigger] final(self).storage().committed(u, g) == old(self).storage().committed(u, g),
            final(self).storage().retained() == old(self).storage().retained(),
            final(self).clients() == old(self).clients(),
            final(self).connections() == old(self).connections(),
            final(self).sessions() == old(self).sessions(),
            final(self).live() == old(self).live(),
            final(self).lastwills() == old(self).lastwills(),
            final(self).flights() == old(self).flights(),
    {
        let topic_id = self.resolve_topic(&f.path, fresh_topic_id);
        let sub = Subscriber {
            protocol: MqttProtocol::Mqtt5,
            client_id: client_id.clone(),
            topic_name: f.path.clone(),
            topic_id,
            qos: f.qos,
            nolocal: f.nolocal,
            preserve_retain: f.preserve_retain,
            subscription_identifier,
            packet_identifier: pkid,
        };
        let p = match self.message_storage.get_retain_message(&sub.topic_id) {
            None => None,
            Some(m) => publish_for(&sub, &m, None),
        };
        let ghost pre = *self;
        self.subscribe_manager.add(sub);
        assert forall|k: SubKey| #[trigger] self.subs().contains_key(k) implies self.sessions().contains_key(k.0)
            && self.cache().topics().contains_key(k.1) && self.cache().topics()[k.1].topic_id@ == self.subs()[k].topic_id@ by {
            if k != (client_id@, f.path@) {
                assert(pre.subs().contains_key(k));
                assert(old(self).subs().contains_key(k));
                assert(old(self).cache().topics().contains_key(k.1));
            }
        }
        p
    }

    /// Handles SUBSCRIBE: records one exclusive subscription per filter,
    /// creating unknown topics under the matching entry of `fresh_topic_ids`,
    /// and answers with the retained message of each filter's topic.
    pub fn subscribe(
        &mut self,
        conn: u64,
        pkid: u16,
        filters: &Vec<SubscribeFilter>,
        subscription_identifier: Option<usize>,
        user_properties: Vec<(String, String)>,
        fresh_topic_ids: &Vec<String>,
    ) -> (r: (MqttPacket, Vec<Option<PublishPacket>>))
        requires
            old(self).wf(),
            fresh_topic_ids@.len() == filters@.len(),
        ensures
            final(self).wf(),
            !old(self).clients().contains_key(conn) ==> disconnect_says(
                r.0,
                DisconnectReasonCode::UnspecifiedError,
                "not found connection in cache"@,
            ) && *final(self) == *old(self) && r.1@.len() == 0,
            old(self).clients().contains_key(conn) ==> {
                let c = old(self).clients()[conn];
                let fs = filters@;
                &&& r.0 matches MqttPacket::SubAck { pkid: p, reason_codes: rc, user_properties: up } && p == pkid
                    && up@ == user_properties@ && rc@.len() == fs.len()
                    && forall|j: int| 0 <= j < fs.len() ==> #[trigger] rc@[j] == fs[j].qos
                &&& forall|k: SubKey| #[trigger] final(self).subs().contains_key(k) <==> old(self).subs().contains_key(k) || (k.0 == c && names_path(fs, fs.len() as int, k.1))
                &&& forall|k: SubKey| !(k.0 == c && names_path(fs, fs.len() as int, k.1)) && old(self).subs().contains_key(k) ==> #[trigger] final(self).subs()[k] == old(self).subs()[k]
                &&& forall|j: int| 0 <= j < fs.len() ==> #[trigger] final(self).cache().topics().contains_key(fs[j].path@)
                &&& forall|n: Seq<char>| #[trigger] old(self).cache().topics().contains_key(n)
                    ==> final(self).cache().topics().contains_key(n) && final(self).cache().topics()[n] == old(self).cache().topics()[n]
                &&& forall|j: int| 0 <= j < fs.len() && last_with_path(fs, j, fs.len() as int) ==> describes(
                    #[trigger] final(self).subs()[(c, fs[j].path@)],
                    c,
                    fs[j],
                    final(self).cache().topics()[fs[j].path@].topic_id@,
                    pkid,
                    subscription_identifier,
                )
                &&& r.1@.len() == fs.len()
                &&& forall|j: int| 0 <= j < fs.len() ==> retained_answer(
                    #[trigger] r.1@[j],
                    fs[j],
                    final(self).cache().topics()[fs[j].path@].topic_id@,
                    final(self).storage().retained(),
                    c,
                    pkid,
                )
            },
            forall|u: Seq<char>| #[trigger] final(self).storage().records(u) == old(self).storage().records(u),
            forall|u: Seq<char>, g: Seq<char>| #[trigger] final(self).storage().committed(u, g) == old(self).storage().committed(u, g),
            final(self).storage().retained() == old(self).storage().retained(),
            final(self).clients() == old(self).clients(),
            final(self).connections() == old(self).connections(),
            final(self).sessions() == old(self).sessions(),
            final(self).live() == old(self).live(),
            final(self).lastwills() == old(self).lastwills(),
            final(self).flights() == old(self).flights(),
    {
        let client_id = match self.metadata_cache.get_client_id(conn) {
            Some(c) => c,
            None => {
                return (
                    MqttPacket::Disconnect {
                        reason: DisconnectReasonCode::UnspecifiedError,
                        message: Some(String::from_str("not found connection in cache")),
                    },
                    Vec::new(),
                );
            },
        };
        proof {
            self.lemma_descriptors_backed();
        }
        let ghost c = client_id@;
        let ghost fs = filters@;
        let mut retained: Vec<Option<PublishPacket>> = Vec::new();
        let mut codes: Vec<QoS> = Vec::new();
        let mut i: usize = 0;
        while i < filters.len()
            invariant
                self.wf(),
                codes@.len() == i,
                forall|j: int| 0 <= j < i ==> #[trigger] codes@[j] == fs[j].qos,
                fs == filters@,
                fresh_topic_ids@.len() == fs.len(),
                c == client_id@,
                self.sessions().contains_key(c),
                0 <= i <= fs.len(),
                retained@.len() == i,
                forall|k: SubKey| #[trigger] self.subs().contains_key(k) <==> old(self).subs().contains_key(k) || (k.0 == c && names_path(fs, i as int, k.1)),
                forall|k: SubKey| !(k.0 == c && names_path(fs, i as int, k.1)) && old(self).subs().contains_key(k) ==> #[trigger] self.subs()[k] == old(self).subs()[k],
                forall|j: int| 0 <= j < i ==> #[trigger] self.cache().topics().contains_key(fs[j].path@),
                forall|n: Seq<char>| #[trigger] old(self).cache().topics().contains_key(n)
                    ==> self.cache().topics().contains_key(n) && self.cache().topics()[n] == old(self).cache().topics()[n],
                forall|j: int| 0 <= j < i && last_with_path(fs, j, i as int) ==> describes(
                    #[trigger] self.subs()[(c, fs[j].path@)],
                    c,
                    fs[j],
                    self.cache().topics()[fs[j].path@].topic_id@,
                    pkid,
                    subscription_identifier,
                ),
                forall|j: int| 0 <= j < i ==> retained_answer(
                    #[trigger] retained@[j],
                    fs[j],
                    self.cache().topics()[fs[j].path@].topic_id@,
                    self.storage().retained(),
                    c,
                    pkid,
                ),
                forall|u: Seq<char>| #[trigger] self.storage().records(u) == old(self).storage().records(u),
                forall|u: Seq<char>, g: Seq<char>| #[trigger] self.storage().committed(u, g) == old(self).storage().committed(u, g),
                self.storage().retained() == old(self).storage().retained(),
                self.clients() == old(self).clients(),
                self.connections() == old(self).connections(),
                self.sessions() == old(self).sessions(),
                self.live() == old(self).live(),
                self.lastwills() == old(self).lastwills(),
                self.flights() == old(self).flights(),
            decreases fs.len() - i,
        {
            let ghost pre = *self;
            let p = self.subscribe_one(&client_id, &filters[i], pkid, subscription_identifier, &fresh_topic_ids[i]);
            retained.push(p);
            codes.push(filters[i].qos);
            proof {
                self.lemma_subscribe_step(pre, c, fs, i as int, retained@, pkid, subscription_identifier);
                assert forall|k: SubKey| !(k.0 == c && names_path(fs, i + 1, k.1)) && old(self).subs().contains_key(k)
                    implies #[trigger] self.subs()[k] == old(self).subs()[k] by {
                    assert(self.subs().contains_key(k) == pre.subs().contains_key(k));
                    if k.0 == c && names_path(fs, i as int, k.1) {
                        let j = choose|j: int| 0 <= j < i && #[trigger] fs[j].path@ == k.1;
                        assert(names_path(fs, i + 1, k.1));
                    }
                    if k == (c, fs[i as int].path@) {
                        assert(names_path(fs, i + 1, k.1));
                    }
                }
                assert forall|k: SubKey| #[trigger] self.subs().contains_key(k) <==> old(self).subs().contains_key(k)
                    || (k.0 == c && names_path(fs, i + 1, k.1)) by {
                    if k.0 == c && names_path(fs, i + 1, k.1) && !names_path(fs, i as int, k.1) {
                        let j = choose|j: int| 0 <= j < i + 1 && #[trigger] fs[j].path@ == k.1;
                        assert(j == i);
                    }
                    if k.0 == c && names_path(fs, i as int, k.1) {
                        let j = choose|j: int| 0 <= j < i && #[trigger] fs[j].path@ == k.1;
                        assert(names_path(fs, i + 1, k.1));
                    }
                    if k == (c, fs[i as int].path@) {
                        assert(names_path(fs, i + 1, k.1));
                    }
                }
            }
            i = i + 1;
        }
        (MqttPacket::SubAck { pkid, reason_codes: codes, user_properties }, retained)
    }

    proof fn lemma_subscribe_step(
        &self,
        pre: Mqtt5Service,
        c: Seq<char>,
        fs: Seq<SubscribeFilter>,
        i: int,
        retained: Seq<Option<PublishPacket>>,
        pkid: u16,
        sid: Option<usize>,
    )
        requires
            0 <= i < fs.len(),
            retained.len() == i + 1,
            self.cache().topics().contains_key(fs[i].path@),
            forall|n: Seq<char>| #[trigger] pre.cache().topics().contains_key(n)
                ==> self.cache().topics().contains_key(n) && self.cache().topics()[n] == pre.cache().topics()[n],
            self.subs().contains_key((c, fs[i].path@)),
            describes(self.subs()[(c, fs[i].path@)], c, fs[i], self.cache().topics()[fs[i].path@].topic_id@, pkid, sid),
            forall|k: SubKey| k != (c, fs[i].path@) ==> (#[trigger] self.subs().contains_key(k) == pre.subs().contains_key(k)
                && self.subs()[k] == pre.subs()[k]),
            retained_answer(retained[i], fs[i], self.cache().topics()[fs[i].path@].topic_id@, pre.storage().retained(), c, pkid),
            self.storage().retained() == pre.storage().retained(),
            forall|j: int| 0 <= j < i ==> #[trigger] pre.cache().topics().contains_key(fs[j].path@),
            forall|j: int| 0 <= j < i && last_with_path(fs, j, i) ==> describes(
                #[trigger] pre.subs()[(c, fs[j].path@)],
                c,
                fs[j],
                pre.cache().topics()[fs[j].path@].topic_id@,
                pkid,
                sid,
            ),
            forall|j: int| 0 <= j < i ==> retained_answer(
                #[trigger] retained[j],
                fs[j],
                pre.cache().topics()[fs[j].path@].topic_id@,
                pre.storage().retained(),
                c,
                pkid,
            ),
        ensures
            forall|j: int| 0 <= j < i + 1 ==> #[trigger] self.cache().topics().contains_key(fs[j].path@),
            forall|j: int| 0 <= j < i + 1 && last_with_path(fs, j, i + 1) ==> describes(
                #[trigger] self.subs()[(c, fs[j].path@)],
                c,
                fs[j],
                self.cache().topics()[fs[j].path@].topic_id@,
                pkid,
                sid,
            ),
            forall|j: int| 0 <= j < i + 1 ==> retained_answer(
                #[trigger] retained[j],
                fs[j],
                self.cache().topics()[fs[j].path@].topic_id@,
                self.storage().retained(),
                c,
                pkid,
            ),
    {
        assert forall|j: int| 0 <= j < i + 1 implies #[trigger] self.cache().topics().contains_key(fs[j].path@) by {
            if j < i {
                assert(pre.cache().topics().contains_key(fs[j].path@));
            }
        }
        assert forall|j: int| 0 <= j < i + 1 && last_with_path(fs, j, i + 1) implies describes(
            #[trigger] self.subs()[(c, fs[j].path@)],
            c,
            fs[j],
            self.cache().topics()[fs[j].path@].topic_id@,
            pkid,
            sid,
        ) by {
            if j < i {
                assert(fs[j].path@ != fs[i].path@);
                assert(pre.cache().topics().contains_key(fs[j].path@));
                assert(last_with_path(fs, j, i));
                assert(self.subs().contains_key((c, fs[j].path@)) == pre.subs().contains_key((c, fs[j].path@)));
            }
        }
        assert forall|j: int| 0 <= j < i + 1 implies retained_answer(
            #[trigger] retained[j],
            fs[j],
            self.cache().topics()[fs[j].path@].topic_id@,
            self.storage().retained(),
            c,
            pkid,
        ) by {
            if j < i {
                assert(pre.cache().topics().contains_key(fs[j].path@));
            }
        }
    }

    /// Handles UNSUBSCRIBE: drops the client's subscription to each filter.
    pub fn un_subscribe(&mut self, conn: u64, pkid: u16, filters: &Vec<String>) -> (r: MqttPacket)
        requires
            old(self).wf(),
        ensures
            final(self).wf(),
            r matches MqttPacket::UnsubAck { pkid: p } && p == pkid,
            old(self).clients().contains_key(conn) ==> final(self).subs() == unsubscribed(
                old(self).subs(),
                old(self).clients()[conn],
                filters@.map_values(|f: String| f@),
            ),
            !old(self).clients().contains_key(conn) ==> final(self).subs() == old(self).subs(),
            final(self).cache() == old(self).cache(),
            final(self).heartbeats() == old(self).heartbeats(),
            final(self).storage() == old(self).storage(),
    {
        if let Some(client_id) = self.metadata_cache.get_client_id(conn) {
            let ghost fs = filters@.map_values(|f: String| f@);
            let ghost c = client_id@;
            let mut i: usize = 0;
            while i < filters.len()
                invariant
                    self.wf(),
                    fs == filters@.map_values(|f: String| f@),
                    c == client_id@,
                    0 <= i <= filters@.len(),
                    self.subs() == unsubscribed(old(self).subs(), c, fs.take(i as int)),
                    self.cache() == old(self).cache(),
                    self.heartbeats() == old(self).heartbeats(),
                    self.storage() == old(self).storage(),
                decreases filters@.len() - i,
            {
                let ghost pre = self.subs();
                self.subscribe_manager.remove(&client_id, &filters[i]);
                assert(fs.take(i + 1) == fs.take(i as int).push(fs[i as int]));
                assert forall|x: Seq<char>| fs.take(i + 1).contains(x) <==> fs.take(i as int).contains(x) || x == fs[i as int] by {
                    if fs.take(i + 1).contains(x) {
                        let j = choose|j: int| 0 <= j < i + 1 && #[trigger] fs.take(i + 1)[j] == x;
                        if j < i {
                            assert(fs.take(i as int)[j] == x);
                        }
                    }
                    if fs.take(i as int).contains(x) {
                        let j = choose|j: int| 0 <= j < i && #[trigger] fs.take(i as int)[j] == x;
                        assert(fs.take(i + 1)[j] == x);
                    }
                    if x == fs[i as int] {
                        assert(fs.take(i + 1)[i as int] == x);
                    }
                }
                assert(self.subs() =~= unsubscribed(old(self).subs(), c, fs.take(i + 1)));
                i = i + 1;
            }
            assert(fs.take(filters@.len() as int) =~= fs);
        }
        MqttPacket::UnsubAck { pkid }
    }

    /// The consumer group name of a client.
    fn group_id(client_id: &String) -> (r: String)
        ensures
            r@ == group_of(client_id@),
    {
        proof {
            reveal_strlit("system_sub_");
        }
        let mut group = String::from_str("system_sub_");
        group.append(client_id.as_str());
        group
    }

    /// One turn of the push loop of a client's subscription to a filter:
    /// reads the next batch from the group's committed offset and builds the
    /// PUBLISH for each record, up to the first that needs an acknowledgement.
    /// The offset is committed past the records before that one; that one
    /// waits in flight under the subscription's packet id.
    pub fn push_step(&mut self, client_id: &String, filter: &String) -> (r: PushStep)
        requires
            old(self).wf(),
        ensures
            final(self).wf(),
            !old(self).subs().contains_key((client_id@, filter@)) ==> r is Stop && *final(self) == *old(self),
            old(self).subs().contains_key((client_id@, filter@)) && !old(self).connections().contains_key(client_id@)
                ==> r is Offline && *final(self) == *old(self),
            old(self).subs().contains_key((client_id@, filter@)) && old(self).connections().contains_key(client_id@)
                && old(self).flights().contains_key((client_id@, old(self).subs()[(client_id@, filter@)].packet_identifier as u64))
                ==> r is Waiting && *final(self) == *old(self),
            old(self).subs().contains_key((client_id@, filter@)) && old(self).connections().contains_key(client_id@)
                && !old(self).flights().contains_key((client_id@, old(self).subs()[(client_id@, filter@)].packet_identifier as u64)) ==> {
                let s = old(self).subs()[(client_id@, filter@)];
                let t = s.topic_id@;
                let g = group_of(client_id@);
                let key = (client_id@, s.packet_identifier as u64);
                let start = old(self).storage().committed(t, g);
                let recs = old(self).storage().records(t);
                let n = if start >= recs.len() { 0 } else if recs.len() - start <= PUSH_BATCH { (recs.len() - start) as nat } else { PUSH_BATCH as nat };
                let q = first_acked(s, recs, start as int, 0, n as int);
                let m = if q < n { q + 1 } else { n as int };
                &&& n == 0 ==> r is Idle && *final(self) == *old(self)
                &&& n > 0 ==> (r matches PushStep::Delivered { conn, packets }
                    && conn == old(self).connections()[client_id@]
                    && packets@.len() == m
                    && (forall|i: int| 0 <= i < m ==> (#[trigger] packets@[i] is None <==> !forwards(s, recs[start + i])))
                    && (forall|i: int| 0 <= i < m ==> (#[trigger] packets@[i] matches Some(p) ==> is_publish_for(p, s, recs[start + i], Some((start + i) as u64))))
                    && final(self).storage().committed(t, g) == start + q)
                &&& n > 0 && q < n ==> final(self).flights().contains_key(key)
                    && final(self).flights()[key].filter@ == filter@
                    && final(self).flights()[key].topic_id@ == t
                    && final(self).flights()[key].offset == start + q
                    && final(self).flights().remove(key) == old(self).flights()
                &&& n > 0 && q >= n ==> final(self).flights() == old(self).flights()
                &&& forall|u: Seq<char>, h: Seq<char>| (u, h) != (t, g) ==> #[trigger] final(self).storage().committed(u, h) == old(self).storage().committed(u, h)
            },
            forall|u: Seq<char>, h: Seq<char>| #[trigger] final(self).storage().committed(u, h) >= old(self).storage().committed(u, h),
            forall|u: Seq<char>| #[trigger] final(self).storage().records(u) == old(self).storage().records(u),
            final(self).storage().retained() == old(self).storage().retained(),
            final(self).clients() == old(self).clients(),
            final(self).connections() == old(self).connections(),
            final(self).sessions() == old(self).sessions(),
            final(self).subs() == old(self).subs(),
            final(self).live() == old(self).live(),
            final(self).lastwills() == old(self).lastwills(),
    {
        let sub = match self.subscribe_manager.get(client_id, filter) {
            None => {
                return PushStep::Stop;
            },
            Some(s) => s,
        };
        let conn = match self.metadata_cache.get_connect_id(client_id) {
            None => {
                return PushStep::Offline;
            },
            Some(c) => c,
        };
        if self.in_flight.contains(client_id, sub.packet_identifier) {
            return PushStep::Waiting;
        }
        let group = Self::group_id(client_id);
        let batch = self.message_storage.read(&sub.topic_id, &group, PUSH_BATCH);
        if batch.len() == 0 {
            return PushStep::Idle;
        }
        let ghost start = self.storage().committed(sub.topic_id@, group@);
        let ghost recs = self.storage().records(sub.topic_id@);
        let ghost n = batch@.len() as int;
        let mut packets: Vec<Option<PublishPacket>> = Vec::new();
        let mut i: usize = 0;
        let mut held = false;
        while i < batch.len() && !held
            invariant
                0 <= i <= batch@.len(),
                n == batch@.len(),
                packets@.len() == i,
                forall|j: int| 0 <= j < batch@.len() ==> (#[trigger] batch@[j]).0 == start + j && batch@[j].1@ == recs[start + j],
                forall|j: int| 0 <= j < i ==> (#[trigger] packets@[j] is None <==> !forwards(sub, recs[start + j])),
                forall|j: int| 0 <= j < i ==> (#[trigger] packets@[j] matches Some(p) ==> is_publish_for(p, sub, recs[start + j], Some((start + j) as u64))),
                !held ==> first_acked(sub, recs, start as int, 0, n) == first_acked(sub, recs, start as int, i as int, n),
                held ==> i > 0 && first_acked(sub, recs, start as int, 0, n) == i - 1,
            decreases batch@.len() - i,
        {
            let (o, m) = (batch[i].0, &batch[i].1);
            let p = publish_for(&sub, m, Some(o));
            let ack = match &p {
                Some(pk) => match pk.qos {
                    QoS::AtMostOnce => false,
                    _ => true,
                },
                None => false,
            };
            proof {
                if ack {
                    assert(needs_ack(sub, recs[start + i]));
                } else {
                    assert(!needs_ack(sub, recs[start + i]));
                }
            }
            packets.push(p);
            held = ack;
            i = i + 1;
        }
        proof {
            self.message_storage.lemma_records_bounded(sub.topic_id@);
        }
        let q: u64 = if held { batch[i - 1].0 } else { batch[batch.len() - 1].0 + 1 };
        self.message_storage.commit_group_offset(&sub.topic_id, &group, q);
        if held {
            let e = InFlight {
                filter: filter.clone(),
                topic_id: sub.topic_id.clone(),
                offset: q,
                qos: sub.qos,
            };
            let ghost pre = self.in_flight@;
            self.in_flight.insert(client_id, sub.packet_identifier, e);
            assert(self.flights().remove((client_id@, sub.packet_identifier as u64)) =~= pre);
        }
        PushStep::Delivered { conn, packets }
    }

    /// Settles the in-flight delivery a client acknowledged under `pkid`
    /// with the given QoS: the group commits past its offset.
    fn settle(&mut self, conn: u64, pkid: u16, qos: QoS) -> (r: bool)
        requires
            old(self).wf(),
        ensures
            final(self).wf(),
            ({
                let c = old(self).clients()[conn];
                let key = (c, pkid as u64);
                let e = old(self).flights()[key];
                &&& r <==> old(self).clients().contains_key(conn) && old(self).flights().contains_key(key) && e.qos == qos
                &&& r ==> final(self).flights() == old(self).flights().remove(key)
                    && final(self).storage().committed(e.topic_id@, group_of(c)) == if e.offset + 1 >= old(self).storage().committed(e.topic_id@, group_of(c)) {
                        (e.offset + 1) as nat
                    } else {
                        old(self).storage().committed(e.topic_id@, group_of(c))
                    }
                    && forall|u: Seq<char>, h: Seq<char>| (u, h) != (e.topic_id@, group_of(c)) ==> #[trigger] final(self).storage().committed(u, h) == old(self).storage().committed(u, h)
                &&& !r ==> final(self).flights() == old(self).flights()
                    && forall|u: Seq<char>, h: Seq<char>| #[trigger] final(self).storage().committed(u, h) == old(self).storage().committed(u, h)
            }),
            forall|u: Seq<char>, h: Seq<char>| #[trigger] final(self).storage().committed(u, h) >= old(self).storage().committed(u, h),
            forall|u: Seq<char>| #[trigger] final(self).storage().records(u) == old(self).storage().records(u),
            final(self).storage().retained() == old(self).storage().retained(),
            final(self).clients() == old(self).clients(),
            final(self).connections() == old(self).connections(),
            final(self).sessions() == old(self).sessions(),
            final(self).subs() == old(self).subs(),
            final(self).live() == old(self).live(),
            final(self).lastwills() == old(self).lastwills(),
    {
        let client_id = match self.metadata_cache.get_client_id(conn) {
            None => {
                return false;
            },
            Some(c) => c,
        };
        if !self.in_flight.contains(&client_id, pkid) {
            return false;
        }
        let ghost pre = self.in_flight@;
        let e = match self.in_flight.remove(&client_id, pkid) {
            Some(e) => e,
            None => {
                return false;
            },
        };
        if e.qos != qos {
            self.in_flight.insert(&client_id, pkid, e);
            assert(self.in_flight@ =~= pre);
            return false;
        }
        let group = Self::group_id(&client_id);
        self.message_storage.commit_group_offset(&e.topic_id, &group, e.offset + 1);
        true
    }

    /// Tears down every connection whose keep-alive ran out at `now`, as an
    /// abnormal end, and hands back the last-wills to publish.
    pub fn reap(&mut self, now: u64) -> (r: Vec<(String, LastWill)>)
        requires
            old(self).wf(),
        ensures
            final(self).wf(),
            forall|n: u64| #[trigger] final(self).live().contains_key(n) <==> old(self).live().contains_key(n)
                && !is_expired(old(self).live()[n], now),
            forall|n: u64| old(self).live().contains_key(n) && is_expired(old(self).live()[n], now)
                ==> !#[trigger] final(self).clients().contains_key(n),
            forall|n: u64| !(old(self).live().contains_key(n) && is_expired(old(self).live()[n], now))
                ==> (#[trigger] final(self).clients().contains_key(n) == old(self).clients().contains_key(n)),
            forall|n: u64, k: SubKey| old(self).live().contains_key(n) && is_expired(old(self).live()[n], now)
                && old(self).clients().contains_key(n) && #[trigger] final(self).subs().contains_key(k)
                ==> k.0 != #[trigger] old(self).clients()[n],
            forall|k: SubKey| #[trigger] final(self).subs().contains_key(k) ==> old(self).subs().contains_key(k),
            forall|j: int| 0 <= j < r@.len() ==> old(self).lastwills().contains_key((#[trigger] r@[j]).0@)
                && r@[j].1 == old(self).lastwills()[r@[j].0@],
            forall|j: int, k: int| 0 <= j < k < r@.len() ==> (#[trigger] r@[j]).0@ != (#[trigger] r@[k]).0@,
            forall|c: Seq<char>| reaped_client(old(self).clients(), old(self).live(), now, c)
                && #[trigger] old(self).lastwills().contains_key(c) ==> exists|j: int| 0 <= j < r@.len() && (#[trigger] r@[j]).0@ == c,
            forall|c: Seq<char>| #[trigger] final(self).lastwills().contains_key(c) <==> old(self).lastwills().contains_key(c)
                && !reaped_client(old(self).clients(), old(self).live(), now, c),
            forall|c: Seq<char>| #[trigger] final(self).connections().contains_key(c) <==> old(self).connections().contains_key(c)
                && !reaped_client(old(self).clients(), old(self).live(), now, c),
            forall|c: Seq<char>| #[trigger] final(self).connections().contains_key(c) ==> final(self).connections()[c] == old(self).connections()[c],
            final(self).sessions() == old(self).sessions(),
            log_unchanged(old(self).storage(), final(self).storage()),
            final(self).cache().topics() == old(self).cache().topics(),
            inverse_bindings(final(self).clients(), final(self).connections()),
    {
        proof {
            self.metadata_cache.lemma_inverse();
        }
        let expired = self.heartbeat_manager.expired(now);
        let ghost ex = expired@;
        let mut wills: Vec<(String, LastWill)> = Vec::new();
        let mut i: usize = 0;
        while i < expired.len()
            invariant
                self.wf(),
                ex == expired@,
                ex.no_duplicates(),
                forall|n: u64| ex.contains(n) <==> old(self).live().contains_key(n) && is_expired(old(self).live()[n], now),
                0 <= i <= ex.len(),
                forall|n: u64| #[trigger] self.live().contains_key(n) <==> old(self).live().contains_key(n) && !among(ex, i as int, n),
                forall|n: u64| #[trigger] self.clients().contains_key(n) <==> old(self).clients().contains_key(n) && !among(ex, i as int, n),
                forall|n: u64| #[trigger] self.clients().contains_key(n) ==> self.clients()[n] == old(self).clients()[n],
                forall|n: u64, k: SubKey| among(ex, i as int, n) && old(self).clients().contains_key(n)
                    && #[trigger] self.subs().contains_key(k) ==> k.0 != #[trigger] old(self).clients()[n],
                forall|k: SubKey| #[trigger] self.subs().contains_key(k) ==> old(self).subs().contains_key(k),
                forall|j: int| 0 <= j < wills@.len() ==> old(self).lastwills().contains_key((#[trigger] wills@[j]).0@)
                    && wills@[j].1 == old(self).lastwills()[wills@[j].0@],
                forall|c: Seq<char>| #[trigger] self.lastwills().contains_key(c) ==> old(self).lastwills().contains_key(c) && self.lastwills()[c] == old(self).lastwills()[c],
                forall|c: Seq<char>| #[trigger] self.lastwills().contains_key(c) <==> old(self).lastwills().contains_key(c) && !reaped_upto(old(self).clients(), ex, i as int, c),
                forall|c: Seq<char>| #[trigger] self.connections().contains_key(c) <==> old(self).connections().contains_key(c) && !reaped_upto(old(self).clients(), ex, i as int, c),
                forall|c: Seq<char>| #[trigger] self.connections().contains_key(c) ==> self.connections()[c] == old(self).connections()[c],
                forall|c: Seq<char>| reaped_upto(old(self).clients(), ex, i as int, c) && #[trigger] old(self).lastwills().contains_key(c)
                    ==> exists|w: int| 0 <= w < wills@.len() && (#[trigger] wills@[w]).0@ == c,
                forall|w: int| 0 <= w < wills@.len() ==> !self.lastwills().contains_key((#[trigger] wills@[w]).0@),
                forall|j: int, k: int| 0 <= j < k < wills@.len() ==> (#[trigger] wills@[j]).0@ != (#[trigger] wills@[k]).0@,
                inverse_bindings(old(self).clients(), old(self).connections()),
                log_unchanged(old(self).storage(), self.storage()),
                self.cache().topics() == old(self).cache().topics(),
                self.sessions() == old(self).sessions(),
                inverse_bindings(self.clients(), self.connections()),
            decreases ex.len() - i,
        {
            let conn = expired[i];
            let ghost pre = *self;
            proof {
                if pre.clients().contains_key(conn) {
                    assert(pre.lastwills().contains_key(pre.clients()[conn]) ==> old(self).lastwills().contains_key(pre.clients()[conn]));
                }
            }
            let will = self.terminate(conn, true);
            assert(!among(ex, i as int, conn)) by {
                if among(ex, i as int, conn) {
                    let j = choose|j: int| 0 <= j < i && #[trigger] ex[j] == conn;
                }
            }
            assert forall|n: u64| #[trigger] self.live().contains_key(n) <==> old(self).live().contains_key(n) && !among(ex, i + 1, n) by {
                if among(ex, i as int, n) {
                    let j = choose|j: int| 0 <= j < i && #[trigger] ex[j] == n;
                    assert(among(ex, i + 1, n));
                }
                if n == conn {
                    assert(ex[i as int] == n);
                }
                if among(ex, i + 1, n) && n != conn {
                    let j = choose|j: int| 0 <= j < i + 1 && #[trigger] ex[j] == n;
                    assert(among(ex, i as int, n));
                }
            }
            assert forall|n: u64| #[trigger] self.clients().contains_key(n) <==> old(self).clients().contains_key(n) && !among(ex, i + 1, n) by {
                if among(ex, i as int, n) {
                    let j = choose|j: int| 0 <= j < i && #[trigger] ex[j] == n;
                    assert(among(ex, i + 1, n));
                }
                if n == conn {
                    assert(ex[i as int] == n);
                }
                if among(ex, i + 1, n) && n != conn {
                    let j = choose|j: int| 0 <= j < i + 1 && #[trigger] ex[j] == n;
                    assert(among(ex, i as int, n));
                }
            }
            assert forall|n: u64, k: SubKey| among(ex, i + 1, n) && old(self).clients().contains_key(n)
                && #[trigger] self.subs().contains_key(k) implies k.0 != #[trigger] old(self).clients()[n] by {
                assert(pre.subs().contains_key(k));
                if n != conn {
                    let j = choose|j: int| 0 <= j < i + 1 && #[trigger] ex[j] == n;
                    assert(among(ex, i as int, n));
                } else {
                    assert(pre.clients().contains_key(conn));
                }
            }
            let ghost pre_wills = wills@;
            match will {
                Some(w) => {
                    wills.push(w);
                },
                None => {},
            }
            proof {
                let oc = old(self).clients();
                assert(pre.clients().contains_key(conn) == oc.contains_key(conn));
                assert forall|c: Seq<char>| reaped_upto(oc, ex, i + 1, c) <==> reaped_upto(oc, ex, i as int, c)
                    || (oc.contains_key(conn) && oc[conn] == c) by {
                    if reaped_upto(oc, ex, i + 1, c) && !(oc.contains_key(conn) && oc[conn] == c) {
                        let j = choose|j: int| 0 <= j < i + 1 && #[trigger] oc.contains_key(ex[j]) && oc[ex[j]] == c;
                        assert(j < i);
                    }
                    if reaped_upto(oc, ex, i as int, c) {
                        let j = choose|j: int| 0 <= j < i && #[trigger] oc.contains_key(ex[j]) && oc[ex[j]] == c;
                        assert(reaped_upto(oc, ex, i + 1, c));
                    }
                    if oc.contains_key(conn) && oc[conn] == c {
                        assert(oc.contains_key(ex[i as int]));
                    }
                }
                if oc.contains_key(conn) {
                    let c = oc[conn];
                    assert(pre.clients()[conn] == c);
                    assert(old(self).connections().contains_key(c));
                    if pre.lastwills().contains_key(c) {
                        assert(wills@.len() == pre_wills.len() + 1);
                        assert(wills@[pre_wills.len() as int].0@ == c);
                        assert forall|w: int| 0 <= w < pre_wills.len() implies (#[trigger] pre_wills[w]).0@ != c by {}
                    }
                }
                assert forall|c: Seq<char>| reaped_upto(oc, ex, i + 1, c) && #[trigger] old(self).lastwills().contains_key(c)
                    implies exists|w: int| 0 <= w < wills@.len() && (#[trigger] wills@[w]).0@ == c by {
                    if reaped_upto(oc, ex, i as int, c) {
                        let w = choose|w: int| 0 <= w < pre_wills.len() && (#[trigger] pre_wills[w]).0@ == c;
                        assert(wills@[w] == pre_wills[w]);
                    } else {
                        assert(pre.lastwills().contains_key(c));
                        assert(wills@[pre_wills.len() as int].0@ == c);
                    }
                }
                assert forall|w: int| 0 <= w < wills@.len() implies !self.lastwills().contains_key((#[trigger] wills@[w]).0@) by {
                    if w < pre_wills.len() {
                        assert(wills@[w] == pre_wills[w]);
                    }
                }
                assert forall|j: int, k: int| 0 <= j < k < wills@.len() implies (#[trigger] wills@[j]).0@ != (#[trigger] wills@[k]).0@ by {
                    assert(wills@[j] == pre_wills[j]);
                    if k < pre_wills.len() {
                        assert(wills@[k] == pre_wills[k]);
                    } else {
                        assert(!pre.lastwills().contains_key(pre_wills[j].0@));
                    }
                }
            }
            i = i + 1;
        }
        assert forall|n: u64| among(ex, ex.len() as int, n) <==> ex.contains(n) by {
            if ex.contains(n) {
                let j = choose|j: int| 0 <= j < ex.len() && ex[j] == n;
                assert(among(ex, ex.len() as int, n));
            }
            if among(ex, ex.len() as int, n) {
                let j = choose|j: int| 0 <= j < ex.len() && #[trigger] ex[j] == n;
                assert(ex.contains(n));
            }
        }
        assert(i == ex.len());
        assert forall|c: Seq<char>| reaped_upto(old(self).clients(), ex, ex.len() as int, c)
            <==> reaped_client(old(self).clients(), old(self).live(), now, c) by {
            let oc = old(self).clients();
            if reaped_upto(oc, ex, ex.len() as int, c) {
                let j = choose|j: int| 0 <= j < ex.len() && #[trigger] oc.contains_key(ex[j]) && oc[ex[j]] == c;
                assert(ex.contains(ex[j]));
            }
            if reaped_client(oc, old(self).live(), now, c) {
                let n = choose|n: u64| #[trigger] oc.contains_key(n) && old(self).live().contains_key(n) && is_expired(old(self).live()[n], now) && oc[n] == c;
                assert(ex.contains(n));
                let j = choose|j: int| 0 <= j < ex.len() && ex[j] == n;
                assert(oc.contains_key(ex[j]));
            }
        }
        assert forall|n: u64| #[trigger] self.live().contains_key(n) <==> old(self).live().contains_key(n)
            && !is_expired(old(self).live()[n], now) by {
            assert(among(ex, ex.len() as int, n) <==> ex.contains(n));
        }
        assert forall|n: u64| old(self).live().contains_key(n) && is_expired(old(self).live()[n], now)
            implies !#[trigger] self.clients().contains_key(n) by {
            assert(ex.contains(n));
            assert(among(ex, ex.len() as int, n));
        }
        assert forall|n: u64| !(old(self).live().contains_key(n) && is_expired(old(self).live()[n], now))
            implies (#[trigger] self.clients().contains_key(n) == old(self).clients().contains_key(n)) by {
            assert(!ex.contains(n));
            assert(!among(ex, ex.len() as int, n));
        }
        assert forall|n: u64, k: SubKey| old(self).live().contains_key(n) && is_expired(old(self).live()[n], now)
            && old(self).clients().contains_key(n) && #[trigger] self.subs().contains_key(k)
            implies k.0 != #[trigger] old(self).clients()[n] by {
            assert(ex.contains(n));
            assert(among(ex, ex.len() as int, n));
        }
        wills
    }

    /// Handles PUBACK from a subscriber: the QoS 1 delivery in flight
    /// under `pkid` is settled and its offset committed.
    pub fn publish_ack(&mut self, conn: u64, pkid: u16) -> (r: bool)
        requires
            old(self).wf(),
        ensures
            final(self).wf(),
            ({
                let c = old(self).clients()[conn];
                let key = (c, pkid as u64);
                let e = old(self).flights()[key];
                &&& r <==> old(self).clients().contains_key(conn) && old(self).flights().contains_key(key) && e.qos == QoS::AtLeastOnce
                &&& r ==> final(self).flights() == old(self).flights().remove(key)
                    && final(self).storage().committed(e.topic_id@, group_of(c)) == if e.offset + 1 >= old(self).storage().committed(e.topic_id@, group_of(c)) {
                        (e.offset + 1) as nat
                    } else {
                        old(self).storage().committed(e.topic_id@, group_of(c))
                    }
                &&& !r ==> final(self).flights() == old(self).flights()
                    && forall|u: Seq<char>, h: Seq<char>| #[trigger] final(self).storage().committed(u, h) == old(self).storage().committed(u, h)
            }),
            forall|u: Seq<char>, h: Seq<char>| #[trigger] final(self).storage().committed(u, h) >= old(self).storage().committed(u, h),
            final(self).subs() == old(self).subs(),
    {
        self.settle(conn, pkid, QoS::AtLeastOnce)
    }

    /// Handles PUBREC from a subscriber for a QoS 2 delivery: answers PUBREL.
    pub fn publish_rec(&self, conn: u64, pkid: u16) -> (r: MqttPacket)
        ensures
            r matches MqttPacket::PubRel { pkid: p } && p == pkid,
    {
        MqttPacket::PubRel { pkid }
    }

    /// Handles PUBCOMP from a subscriber: the QoS 2 delivery in flight under
    /// `pkid` is settled and its offset committed.
    pub fn publish_comp(&mut self, conn: u64, pkid: u16) -> (r: bool)
        requires
            old(self).wf(),
        ensures
            final(self).wf(),
            ({
                let c = old(self).clients()[conn];
                let key = (c, pkid as u64);
                let e = old(self).flights()[key];
                &&& r <==> old(self).clients().contains_key(conn) && old(self).flights().contains_key(key) && e.qos == QoS::ExactlyOnce
                &&& r ==> final(self).flights() == old(self).flights().remove(key)
                    && final(self).storage().committed(e.topic_id@, group_of(c)) == if e.offset + 1 >= old(self).storage().committed(e.topic_id@, group_of(c)) {
                        (e.offset + 1) as nat
                    } else {
                        old(self).storage().committed(e.topic_id@, group_of(c))
                    }
                &&& !r ==> final(self).flights() == old(self).flights()
                    && forall|u: Seq<char>, h: Seq<char>| #[trigger] final(self).storage().committed(u, h) == old(self).storage().committed(u, h)
            }),
            forall|u: Seq<char>, h: Seq<char>| #[trigger] final(self).storage().committed(u, h) >= old(self).storage().committed(u, h),
            final(self).subs() == old(self).subs(),
    {
        self.settle(conn, pkid, QoS::ExactlyOnce)
    }

    /// Handles PUBREL for a QoS 2 PUBLISH: the message held since the
    /// PUBLISH is stored under its topic (created with `fresh_topic_id` if
    /// unknown) and the handshake completes with PUBCOMP.
    pub fn publish_rel(&mut self, conn: u64, pkid: u16, fresh_topic_id: &String) -> (r: MqttPacket)
        requires
            old(self).wf(),
        ensures
            final(self).wf(),
            ({
                let c = old(self).clients()[conn];
                let key = (c, pkid as u64);
                &&& !(old(self).clients().contains_key(conn) && old(self).held_messages().contains_key(key))
                    ==> (r matches MqttPacket::PubComp { pkid: p } && p == pkid) && *final(self) == *old(self)
                &&& old(self).clients().contains_key(conn) && old(self).held_messages().contains_key(key) ==> {
                    let p = old(self).held_messages()[key];
                    let t = topic_id_for(old(self).cache().topics(), p.topic@, fresh_topic_id@);
                    let n = old(self).storage().records(t).len();
                    let m = MessageView { client_id: c, payload: p.payload@, qos: p.qos, retain: p.retain };
                    &&& final(self).held_messages() == old(self).held_messages().remove(key)
                    &&& final(self).cache().topics().contains_key(p.topic@)
                    &&& final(self).cache().topics()[p.topic@].topic_id@ == t
                    &&& final(self).storage().retained() == retained_after(old(self).storage().retained(), t, m)
                    &&& n < u64::MAX ==> (r matches MqttPacket::PubComp { pkid: q } && q == pkid)
                        && final(self).storage().records(t) == old(self).storage().records(t).push(m)
                    &&& n >= u64::MAX ==> disconnect_says(r, DisconnectReasonCode::UnspecifiedError, "storage unavailable"@)
                    &&& forall|u: Seq<char>| u != t ==> #[trigger] final(self).storage().records(u) == old(self).storage().records(u)
                }
            }),
            forall|u: Seq<char>, g: Seq<char>| #[trigger] final(self).storage().committed(u, g) == old(self).storage().committed(u, g),
            final(self).clients() == old(self).clients(),
            final(self).sessions() == old(self).sessions(),
            final(self).subs() == old(self).subs(),
            final(self).flights() == old(self).flights(),
    {
        let client_id = match self.metadata_cache.get_client_id(conn) {
            None => {
                return MqttPacket::PubComp { pkid };
            },
            Some(c) => c,
        };
        if !self.held.contains(&client_id, pkid) {
            return MqttPacket::PubComp { pkid };
        }
        let p = match self.held.remove(&client_id, pkid) {
            None => {
                return MqttPacket::PubComp { pkid };
            },
            Some(p) => p,
        };
        let Publish { topic, payload, qos, retain, pkid: _ } = p;
        let m = Message { client_id, payload, qos, retain };
        match self.store_message(&topic, m, fresh_topic_id) {
            Ok(_) => MqttPacket::PubComp { pkid },
            Err(_) => MqttPacket::Disconnect {
                reason: DisconnectReasonCode::UnspecifiedError,
                message: Some(String::from_str("storage unavailable")),
            },
        }
    }
}

} // verus!
