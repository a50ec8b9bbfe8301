use crate::table::{ConnTable, StrTable};
use vstd::prelude::*;

verus! {

/// Per-client session state.
#[derive(Clone, Copy, Debug, PartialEq, Eq, Structural)]
pub struct Session {
    pub keep_alive: u16,
    pub clean_start: bool,
    pub session_expiry_interval: u32,
    pub session_present: bool,
    pub has_last_will: bool,
    pub last_will_delay_interval: u32,
}

/// A topic and the id of the shard that holds its records.
pub struct Topic {
    pub topic_name: String,
    pub topic_id: String,
}

impl Topic {
    pub fn duplicate(&self) -> (r: Topic)
        ensures
            r == *self,
    {
        Topic { topic_name: self.topic_name.clone(), topic_id: self.topic_id.clone() }
    }
}

/// In-memory metadata: connection and client bindings, sessions and topics.
pub struct MetadataCache {
    conn_client: ConnTable<String>,
    client_conn: StrTable<u64>,
    sessions: StrTable<Session>,
    topics: StrTable<Topic>,
}

impl MetadataCache {
    /// Client bound to each live connection.
    pub closed spec fn clients(&self) -> Map<u64, Seq<char>> {
        self.conn_client@.map_values(|s: String| s@)
    }

    /// Connection bound to each connected client.
    pub closed spec fn connections(&self) -> Map<Seq<char>, u64> {
        self.client_conn@
    }

    pub closed spec fn sessions(&self) -> Map<Seq<char>, Session> {
        self.sessions@
    }

    pub closed spec fn topics(&self) -> Map<Seq<char>, Topic> {
        self.topics@
    }

    pub closed spec fn wf(&self) -> bool {
        &&& self.conn_client.wf()
        &&& self.client_conn.wf()
        &&& self.sessions.wf()
        &&& self.topics.wf()
        &&& inverse_bindings(self.clients(), self.connections())
        &&& forall|n: Seq<char>| #[trigger] self.topics@.contains_key(n) ==> self.topics@[n].topic_name@ == n
    }

    pub proof fn lemma_inverse(&self)
        requires
            self.wf(),
        ensures
            inverse_bindings(self.clients(), self.connections()),
    {
    }

    pub fn new() -> (r: Self)
        ensures
            r.wf(),
            r.clients() == Map::<u64, Seq<char>>::empty(),
            r.connections() == Map::<Seq<char>, u64>::empty(),
            r.sessions() == Map::<Seq<char>, Session>::empty(),
            r.topics() == Map::<Seq<char>, Topic>::empty(),
    {
        let r = MetadataCache {
            conn_client: ConnTable::new(),
            client_conn: StrTable::new(),
            sessions: StrTable::new(),
            topics: StrTable::new(),
        };
        assert(r.clients() =~= Map::<u64, Seq<char>>::empty());
        r
    }

    pub fn get_client_id(&self, conn: u64) -> (r: Option<String>)
        requires
            self.wf(),
        ensures
            r is None <==> !self.clients().contains_key(conn),
            r matches Some(c) ==> self.clients().contains_key(conn) && c@ == self.clients()[conn],
    {
        match self.conn_client.get(conn) {
            None => None,
            Some(c) => Some(c.clone()),
        }
    }

    pub fn get_connect_id(&self, client: &String) -> (r: Option<u64>)
        requires
            self.wf(),
        ensures
            r is None <==> !self.connections().contains_key(client@),
            r matches Some(c) ==> self.connections().contains_key(client@) && c == self.connections()[client@],
    {
        match self.client_conn.get(client) {
            None => None,
            Some(c) => Some(*c),
        }
    }

    pub fn get_session(&self, client: &String) -> (r: Option<Session>)
        requires
            self.wf(),
        ensures
            r is None <==> !self.sessions().contains_key(client@),
            r matches Some(s) ==> self.sessions().contains_key(client@) && s == self.sessions()[client@],
    {
        match self.sessions.get(client) {
            None => None,
            Some(s) => Some(*s),
        }
    }

    pub fn set_session(&mut self, client: &String, s: Session)
        requires
            old(self).wf(),
        ensures
            final(self).wf(),
            final(self).sessions() == old(self).sessions().insert(client@, s),
            final(self).clients() == old(self).clients(),
            final(self).connections() == old(self).connections(),
            final(self).topics() == old(self).topics(),
    {
        self.sessions.insert(client.clone(), s);
    }

    pub fn get_topic_by_name(&self, name: &String) -> (r: Option<Topic>)
        requires
            self.wf(),
        ensures
            r is None <==> !self.topics().contains_key(name@),
            r matches Some(t) ==> self.topics().contains_key(name@) && t == self.topics()[name@]
                && t.topic_name@ == name@,
    {
        match self.topics.get(name) {
            None => None,
            Some(t) => Some(t.duplicate()),
        }
    }

    pub fn set_topic(&mut self, t: Topic)
        requires
            old(self).wf(),
        ensures
            final(self).wf(),
            final(self).topics() == old(self).topics().insert(t.topic_name@, t),
            final(self).sessions() == old(self).sessions(),
            final(self).clients() == old(self).clients(),
            final(self).connections() == old(self).connections(),
    {
        self.topics.insert(t.topic_name.clone(), t);
    }

    /// Binds a connection and a client to each other, dropping any earlier
    /// binding of either.
    pub fn set_client_id(&mut self, conn: u64, client: &String)
        requires
            old(self).wf(),
        ensures
            final(self).wf(),
            final(self).clients() == unbind(old(self).clients(), conn, client@).insert(conn, client@),
            inverse_bindings(final(self).clients(), final(self).connections()),
            final(self).connections() == unbind_clients(old(self).connections(), conn, client@).insert(
                client@,
                conn,
            ),
            final(self).sessions() == old(self).sessions(),
            final(self).topics() == old(self).topics(),
    {
        self.remove_connect_id(conn);
        let ghost c1 = self.clients();
        let ghost k1 = self.connections();
        match self.client_conn.remove(client) {
            None => {
                assert(self.clients() =~= unbind(old(self).clients(), conn, client@));
                assert(self.connections() =~= unbind_clients(old(self).connections(), conn, client@));
            },
            Some(prev) => {
                let _ = self.conn_client.remove(prev);
                assert(self.clients() =~= c1.remove(prev));
                assert(self.connections() =~= k1.remove(client@));
                assert(self.clients() =~= unbind(old(self).clients(), conn, client@));
                assert(self.connections() =~= unbind_clients(old(self).connections(), conn, client@));
            },
        }
        let ghost mid_clients = self.clients();
        let ghost mid_conns = self.connections();
        self.conn_client.insert(conn, client.clone());
        self.client_conn.insert(client.clone(), conn);
        assert(self.clients() =~= mid_clients.insert(conn, client@));
        assert(self.connections() =~= mid_conns.insert(client@, conn));
    }

    /// Drops a connection's binding in both directions.
    pub fn remove_connect_id(&mut self, conn: u64)
        requires
            old(self).wf(),
        ensures
            final(self).wf(),
            final(self).clients() == old(self).clients().remove(conn),
            !final(self).clients().contains_key(conn),
            old(self).clients().contains_key(conn) ==> final(self).connections() == old(
                self,
            ).connections().remove(old(self).clients()[conn]),
            !old(self).clients().contains_key(conn) ==> final(self).connections() == old(
                self,
            ).connections(),
            final(self).sessions() == old(self).sessions(),
            final(self).topics() == old(self).topics(),
    {
        match self.conn_client.remove(conn) {
            None => {
                assert(self.clients() =~= old(self).clients().remove(conn));
            },
            Some(c) => {
                let _ = self.client_conn.remove(&c);
                assert(self.clients() =~= old(self).clients().remove(conn));
                assert(self.connections() =~= old(self).connections().remove(c@));
                proof {
                    lemma_inverse_after_unbind(old(self).clients(), old(self).connections(), conn);
                }
            },
        }
    }
}

/// Each connection is bound to a client exactly when that client is bound to it.
pub open spec fn inverse_bindings(clients: Map<u64, Seq<char>>, conns: Map<Seq<char>, u64>) -> bool {
    &&& forall|n: u64| #[trigger] clients.contains_key(n) ==> conns.contains_key(clients[n]) && conns[clients[n]] == n
    &&& forall|c: Seq<char>| #[trigger] conns.contains_key(c) ==> clients.contains_key(conns[c]) && clients[conns[c]] == c
}

/// The bindings left once a connection and a client are both unbound.
pub open spec fn unbind(clients: Map<u64, Seq<char>>, conn: u64, client: Seq<char>) -> Map<u64, Seq<char>> {
    clients.restrict(clients.dom().filter(|n: u64| n != conn && clients[n] != client))
}

pub open spec fn unbind_clients(conns: Map<Seq<char>, u64>, conn: u64, client: Seq<char>) -> Map<Seq<char>, u64> {
    conns.restrict(conns.dom().filter(|c: Seq<char>| c != client && conns[c] != conn))
}

proof fn lemma_inverse_after_unbind(clients: Map<u64, Seq<char>>, conns: Map<Seq<char>, u64>, conn: u64)
    requires
        inverse_bindings(clients, conns),
        clients.contains_key(conn),
    ensures
        inverse_bindings(clients.remove(conn), conns.remove(clients[conn])),
{
    let c = clients[conn];
    assert forall|n: u64| #[trigger] clients.remove(conn).contains_key(n) implies conns.remove(c).contains_key(
        clients.remove(conn)[n],
    ) && conns.remove(c)[clients.remove(conn)[n]] == n by {
        assert(conns[clients[n]] == n);
    }
}

} // verus!
