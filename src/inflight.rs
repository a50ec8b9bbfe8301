use crate::subscribe::SubKey;
use crate::table::{ConnTable, StrTable};
use crate::types::QoS;
use vstd::prelude::*;

verus! {

/// A delivery sent to a subscriber and not yet acknowledged.
pub struct InFlight {
    pub filter: String,
    pub topic_id: String,
    pub offset: u64,
    pub qos: QoS,
}

pub type FlightKey = (Seq<char>, u64);

/// Entries keyed by client id and packet id: deliveries awaiting
/// acknowledgement, or QoS 2 messages awaiting release.
pub struct InFlightTable<V> {
    by_client: StrTable<ConnTable<V>>,
}

impl<V> InFlightTable<V> {
    pub closed spec fn view(&self) -> Map<FlightKey, V> {
        Map::new(
            |k: FlightKey| self.by_client@.contains_key(k.0) && self.by_client@[k.0]@.contains_key(k.1),
            |k: FlightKey| self.by_client@[k.0]@[k.1],
        )
    }

    pub closed spec fn wf(&self) -> bool {
        &&& self.by_client.wf()
        &&& forall|c: Seq<char>| #[trigger] self.by_client@.contains_key(c) ==> self.by_client@[c].wf()
    }

    pub fn new() -> (r: Self)
        ensures
            r.wf(),
            r@ == Map::<FlightKey, V>::empty(),
    {
        let r = InFlightTable { by_client: StrTable::new() };
        assert(r@ =~= Map::<FlightKey, V>::empty());
        r
    }

    pub fn contains(&self, client: &String, pkid: u16) -> (r: bool)
        requires
            self.wf(),
        ensures
            r == self@.contains_key((client@, pkid as u64)),
    {
        match self.by_client.get(client) {
            None => false,
            Some(inner) => inner.contains_key(pkid as u64),
        }
    }

    pub fn insert(&mut self, client: &String, pkid: u16, e: V)
        requires
            old(self).wf(),
        ensures
            final(self).wf(),
            final(self)@ == old(self)@.insert((client@, pkid as u64), e),
    {
        let ghost ge = e;
        let mut inner = match self.by_client.remove(client) {
            None => ConnTable::new(),
            Some(t) => t,
        };
        inner.insert(pkid as u64, e);
        self.by_client.insert(client.clone(), inner);
        assert(self@ =~= old(self)@.insert((client@, pkid as u64), ge));
    }

    pub fn remove(&mut self, client: &String, pkid: u16) -> (r: Option<V>)
        requires
            old(self).wf(),
        ensures
            final(self).wf(),
            final(self)@ == old(self)@.remove((client@, pkid as u64)),
            r is None <==> !old(self)@.contains_key((client@, pkid as u64)),
            r matches Some(e) ==> e == old(self)@[(client@, pkid as u64)],
    {
        match self.by_client.remove(client) {
            None => {
                assert(self@ =~= old(self)@.remove((client@, pkid as u64)));
                None
            },
            Some(mut inner) => {
                let e = inner.remove(pkid as u64);
                self.by_client.insert(client.clone(), inner);
                assert(self@ =~= old(self)@.remove((client@, pkid as u64)));
                e
            },
        }
    }

    /// Drops every entry of a client.
    pub fn remove_client(&mut self, client: &String)
        requires
            old(self).wf(),
        ensures
            final(self).wf(),
            forall|k: FlightKey| #[trigger] final(self)@.contains_key(k) <==> old(self)@.contains_key(k) && k.0 != client@,
            forall|k: FlightKey| #[trigger] final(self)@.contains_key(k) ==> final(self)@[k] == old(self)@[k],
    {
        let _ = self.by_client.remove(client);
    }
}

} // verus!
