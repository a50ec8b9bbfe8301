use crate::table::ConnTable;
use crate::types::MqttProtocol;
use vstd::prelude::*;

verus! {

/// Keep-alive state of one connection.
#[derive(Clone, Copy, Debug, PartialEq, Eq, Structural)]
pub struct ConnectionLiveTime {
    pub protocol: MqttProtocol,
    pub keep_alive: u16,
    pub heartbeat: u64,
}

/// A connection is stale once more than one and a half keep-alive periods
/// have passed since its last heartbeat.
pub open spec fn is_expired(live: ConnectionLiveTime, now: u64) -> bool {
    now >= live.heartbeat && 2 * (now - live.heartbeat) > 3 * live.keep_alive
}

/// Tracks the last heartbeat of each connection.
pub struct HeartbeatManager {
    live: ConnTable<ConnectionLiveTime>,
}

impl HeartbeatManager {
    pub closed spec fn wf(&self) -> bool {
        self.live.wf()
    }

    pub closed spec fn live(&self) -> Map<u64, ConnectionLiveTime> {
        self.live@
    }

    pub fn new() -> (r: Self)
        ensures
            r.wf(),
            r.live() == Map::<u64, ConnectionLiveTime>::empty(),
    {
        HeartbeatManager { live: ConnTable::new() }
    }

    pub fn report_heartbeat(&mut self, conn: u64, live: ConnectionLiveTime)
        requires
            old(self).wf(),
        ensures
            final(self).wf(),
            final(self).live() == old(self).live().insert(conn, live),
    {
        self.live.insert(conn, live);
    }

    pub fn remove_connect(&mut self, conn: u64)
        requires
            old(self).wf(),
        ensures
            final(self).wf(),
            final(self).live() == old(self).live().remove(conn),
    {
        let _ = self.live.remove(conn);
    }

    /// The connections whose keep-alive has run out at `now`, each once.
    pub fn expired(&self, now: u64) -> (r: Vec<u64>)
        requires
            self.wf(),
        ensures
            r@.no_duplicates(),
            forall|c: u64|
                r@.contains(c) <==> self.live().contains_key(c) && is_expired(self.live()[c], now),
    {
        proof {
            self.live.lemma_keys();
        }
        let n = self.live.len();
        let mut out: Vec<u64> = Vec::new();
        let mut i: usize = 0;
        while i < n
            invariant
                self.wf(),
                n == self.live.keys().len(),
                n == self.live@.dom().len(),
                self.live.keys().no_duplicates(),
                forall|k: u64| self.live@.contains_key(k) <==> self.live.keys().contains(k),
                i <= n,
                out@.no_duplicates(),
                forall|c: u64|
                    out@.contains(c) ==> self.live@.contains_key(c) && is_expired(self.live@[c], now),
                forall|k: int|
                    0 <= k < out@.len() ==> exists|j: int|
                        0 <= j < i && self.live.keys()[j] == #[trigger] out@[k],
                forall|j: int|
                    0 <= j < i && #[trigger] is_expired(self.live@[self.live.keys()[j]], now)
                        ==> out@.contains(self.live.keys()[j]),
            decreases n - i,
        {
            let (c, lt) = self.live.entry_at(i);
            let idle: u128 = if now >= lt.heartbeat {
                (now - lt.heartbeat) as u128
            } else {
                0
            };
            if now >= lt.heartbeat && 2 * idle > 3 * (lt.keep_alive as u128) {
                assert(!out@.contains(c)) by {
                    if out@.contains(c) {
                        let k = choose|k: int| 0 <= k < out@.len() && out@[k] == c;
                        let j = choose|j: int| 0 <= j < i && self.live.keys()[j] == out@[k];
                        assert(self.live.keys()[j] == self.live.keys()[i as int]);
                    }
                }
                let ghost pre = out@;
                out.push(c);
                assert forall|d: u64| out@.contains(d) implies self.live@.contains_key(d) && is_expired(
                    self.live@[d],
                    now,
                ) by {
                    if d != c {
                        let k = choose|k: int| 0 <= k < out@.len() && out@[k] == d;
                        assert(pre[k] == d);
                        assert(pre.contains(d));
                    } else {
                        assert(self.live@[c] == *lt);
                        assert(idle == now - lt.heartbeat);
                    }
                }
                assert forall|k: int| 0 <= k < out@.len() implies exists|j: int|
                    0 <= j < i + 1 && self.live.keys()[j] == #[trigger] out@[k] by {
                    if k < pre.len() {
                        assert(out@[k] == pre[k]);
                    } else {
                        assert(self.live.keys()[i as int] == out@[k]);
                    }
                }
                assert forall|j: int|
                    0 <= j < i + 1 && #[trigger] is_expired(self.live@[self.live.keys()[j]], now)
                    implies out@.contains(self.live.keys()[j]) by {
                    if j < i {
                        let k = choose|k: int| 0 <= k < pre.len() && pre[k] == self.live.keys()[j];
                        assert(out@[k] == pre[k]);
                    } else {
                        assert(out@[out@.len() - 1] == c);
                    }
                }
            }
            i = i + 1;
        }
        assert forall|c: u64|
            self.live@.contains_key(c) && is_expired(self.live@[c], now) implies out@.contains(c) by {
            assert(self.live.keys().contains(c));
            let j = choose|j: int| 0 <= j < self.live.keys().len() && self.live.keys()[j] == c;
            assert(is_expired(self.live@[self.live.keys()[j]], now));
        }
        out
    }
}

} // verus!
