use crate::table::StrTable;
use crate::types::{LastWill, Message, MessageView};
use vstd::prelude::*;

verus! {

/// Failures the message store reports.
#[derive(Clone, Copy, Debug, PartialEq, Eq, Structural)]
pub enum StorageError {
    StorageUnavailable,
    NotFound,
    Conflict,
}

/// Append-only record shards keyed by topic id, consumer-group offsets,
/// retained messages and last-will records.
pub struct MessageStore {
    shards: StrTable<Vec<Message>>,
    offsets: StrTable<StrTable<u64>>,
    retained: StrTable<Message>,
    lastwills: StrTable<LastWill>,
}

pub open spec fn views_of(v: Seq<Message>) -> Seq<MessageView> {
    v.map_values(|m: Message| m@)
}

impl MessageStore {
    pub closed spec fn wf(&self) -> bool {
        &&& self.shards.wf()
        &&& self.offsets.wf()
        &&& self.retained.wf()
        &&& self.lastwills.wf()
        &&& forall|t: Seq<char>| #[trigger] self.offsets@.contains_key(t) ==> self.offsets@[t].wf()
        &&& forall|t: Seq<char>| #[trigger] self.shards@.contains_key(t) ==> self.shards@[t]@.len() <= u64::MAX
    }

    /// A shard never holds more records than offsets can number.
    pub proof fn lemma_records_bounded(&self, t: Seq<char>)
        requires
            self.wf(),
        ensures
            self.records(t).len() <= u64::MAX,
    {
    }

    /// Topic ids that have a shard.
    pub closed spec fn has_shard(&self, t: Seq<char>) -> bool {
        self.shards@.contains_key(t)
    }

    /// The records of a shard, in offset order.
    pub closed spec fn records(&self, t: Seq<char>) -> Seq<MessageView> {
        if self.shards@.contains_key(t) {
            views_of(self.shards@[t]@)
        } else {
            Seq::empty()
        }
    }

    /// The next offset a group reads in a shard.
    pub closed spec fn committed(&self, t: Seq<char>, g: Seq<char>) -> nat {
        if self.offsets@.contains_key(t) && self.offsets@[t]@.contains_key(g) {
            self.offsets@[t]@[g] as nat
        } else {
            0
        }
    }

    pub closed spec fn retained(&self) -> Map<Seq<char>, MessageView> {
        self.retained@.map_values(|m: Message| m@)
    }

    pub closed spec fn lastwills(&self) -> Map<Seq<char>, LastWill> {
        self.lastwills@
    }

    pub fn new() -> (r: Self)
        ensures
            r.wf(),
            forall|t: Seq<char>| !r.has_shard(t),
            forall|t: Seq<char>| r.records(t) == Seq::<MessageView>::empty(),
            forall|t: Seq<char>, g: Seq<char>| r.committed(t, g) == 0,
            r.retained() == Map::<Seq<char>, MessageView>::empty(),
            r.lastwills() == Map::<Seq<char>, LastWill>::empty(),
    {
        let r = MessageStore {
            shards: StrTable::new(),
            offsets: StrTable::new(),
            retained: StrTable::new(),
            lastwills: StrTable::new(),
        };
        assert(r.retained() =~= Map::<Seq<char>, MessageView>::empty());
        r
    }

    /// Creates an empty shard; creating an existing shard leaves it as it is.
    pub fn create_shard(&mut self, t: &String)
        requires
            old(self).wf(),
        ensures
            final(self).wf(),
            final(self).has_shard(t@),
            forall|u: Seq<char>| u != t@ ==> final(self).has_shard(u) == old(self).has_shard(u),
            forall|u: Seq<char>| #[trigger] final(self).records(u) == old(self).records(u),
            forall|u: Seq<char>, g: Seq<char>| #[trigger] final(self).committed(u, g) == old(self).committed(u, g),
            final(self).retained() == old(self).retained(),
            final(self).lastwills() == old(self).lastwills(),
    {
        if !self.shards.contains_key(t) {
            self.shards.insert(t.clone(), Vec::new());
            assert(views_of(Seq::<Message>::empty()) =~= Seq::<MessageView>::empty());
        }
    }

    /// Appends a record to a shard and returns its offset.
    pub fn append(&mut self, t: &String, m: Message) -> (r: Result<u64, StorageError>)
        requires
            old(self).wf(),
        ensures
            final(self).wf(),
            forall|u: Seq<char>| #[trigger] final(self).has_shard(u) == old(self).has_shard(u),
            !old(self).has_shard(t@) ==> r == Err::<u64, StorageError>(StorageError::NotFound)
                && final(self).records(t@) == old(self).records(t@),
            old(self).has_shard(t@) && old(self).records(t@).len() >= u64::MAX ==> r == Err::<
                u64,
                StorageError,
            >(StorageError::StorageUnavailable) && final(self).records(t@) == old(self).records(t@),
            old(self).has_shard(t@) && old(self).records(t@).len() < u64::MAX ==> r == Ok::<
                u64,
                StorageError,
            >(old(self).records(t@).len() as u64) && final(self).records(t@) == old(self).records(
                t@,
            ).push(m@),
            forall|u: Seq<char>| u != t@ ==> #[trigger] final(self).records(u) == old(self).records(u),
            forall|u: Seq<char>, g: Seq<char>| #[trigger] final(self).committed(u, g) == old(self).committed(u, g),
            final(self).retained() == old(self).retained(),
            final(self).lastwills() == old(self).lastwills(),
    {
        let ghost pre = self.shards@;
        match self.shards.remove(t) {
            None => Err(StorageError::NotFound),
            Some(mut recs) => {
                let n = recs.len();
                if n as u64 >= u64::MAX {
                    self.shards.insert(t.clone(), recs);
                    assert(self.shards@ =~= pre);
                    return Err(StorageError::StorageUnavailable);
                }
                let ghost mv = m@;
                recs.push(m);
                assert(views_of(recs@) =~= views_of(pre[t@]@).push(mv));
                self.shards.insert(t.clone(), recs);
                assert forall|u: Seq<char>| u != t@ implies #[trigger] self.records(u) == old(
                    self,
                ).records(u) by {
                    assert(self.shards@.contains_key(u) == pre.contains_key(u));
                }
                assert forall|u: Seq<char>| #[trigger] self.has_shard(u) == old(self).has_shard(u) by {}
                Ok(n as u64)
            },
        }
    }

    /// Reads up to `max` records of a shard from the group's committed offset on,
    /// each with its offset.
    pub fn read(&self, t: &String, g: &String, max: usize) -> (r: Vec<(u64, Message)>)
        requires
            self.wf(),
        ensures
            r@.len() == if self.committed(t@, g@) >= self.records(t@).len() {
                0
            } else if self.records(t@).len() - self.committed(t@, g@) <= max {
                (self.records(t@).len() - self.committed(t@, g@)) as nat
            } else {
                max as nat
            },
            forall|i: int|
                0 <= i < r@.len() ==> (#[trigger] r@[i]).0 == self.committed(t@, g@) + i
                    && r@[i].1@ == self.records(t@)[self.committed(t@, g@) + i],
    {
        let start = self.committed_offset(t, g);
        let mut out: Vec<(u64, Message)> = Vec::new();
        match self.shards.get(t) {
            None => out,
            Some(recs) => {
                let n = recs.len();
                if start >= n as u64 {
                    return out;
                }
                let mut i: usize = start as usize;
                while i < n && out.len() < max
                    invariant
                        self.wf(),
                        self.shards@.contains_key(t@),
                        recs == self.shards@[t@],
                        n == recs@.len(),
                        start == self.committed(t@, g@),
                        start <= i <= n,
                        out@.len() == i - start,
                        out@.len() <= max,
                        forall|j: int|
                            0 <= j < out@.len() ==> (#[trigger] out@[j]).0 == start + j
                                && out@[j].1@ == self.records(t@)[start + j],
                    decreases n - i,
                {
                    let m = recs[i].duplicate();
                    out.push((i as u64, m));
                    i = i + 1;
                }
                out
            },
        }
    }

    /// The next offset the group reads in the shard.
    pub fn committed_offset(&self, t: &String, g: &String) -> (r: u64)
        requires
            self.wf(),
        ensures
            r == self.committed(t@, g@),
    {
        match self.offsets.get(t) {
            None => 0,
            Some(groups) => match groups.get(g) {
                None => 0,
                Some(o) => *o,
            },
        }
    }

    /// Records that the group has consumed the shard up to `offset`; an offset
    /// below the one already committed is ignored.
    pub fn commit_group_offset(&mut self, t: &String, g: &String, offset: u64)
        requires
            old(self).wf(),
        ensures
            final(self).wf(),
            final(self).committed(t@, g@) == if offset >= old(self).committed(t@, g@) {
                offset as nat
            } else {
                old(self).committed(t@, g@)
            },
            final(self).committed(t@, g@) >= old(self).committed(t@, g@),
            forall|u: Seq<char>, h: Seq<char>|
                (u, h) != (t@, g@) ==> #[trigger] final(self).committed(u, h) == old(self).committed(
                    u,
                    h,
                ),
            forall|u: Seq<char>| #[trigger] final(self).has_shard(u) == old(self).has_shard(u),
            forall|u: Seq<char>| #[trigger] final(self).records(u) == old(self).records(u),
            final(self).retained() == old(self).retained(),
            final(self).lastwills() == old(self).lastwills(),
    {
        let ghost pre = self.offsets@;
        let mut groups = match self.offsets.remove(t) {
            None => StrTable::new(),
            Some(gs) => gs,
        };
        let cur = match groups.get(g) {
            None => 0,
            Some(o) => *o,
        };
        if offset > cur {
            groups.insert(g.clone(), offset);
        }
        self.offsets.insert(t.clone(), groups);
        assert forall|u: Seq<char>, h: Seq<char>|
            (u, h) != (t@, g@) implies #[trigger] self.committed(u, h) == old(self).committed(u, h) by {
            if u != t@ {
                assert(self.offsets@[u] == pre[u] || !pre.contains_key(u));
            }
        }
    }

    /// Keeps a retained message for a topic; an empty payload clears it.
    pub fn save_retain_message(&mut self, t: &String, m: Message)
        requires
            old(self).wf(),
        ensures
            final(self).wf(),
            final(self).retained() == if m.payload@.len() == 0 {
                old(self).retained().remove(t@)
            } else {
                old(self).retained().insert(t@, m@)
            },
            forall|u: Seq<char>| #[trigger] final(self).has_shard(u) == old(self).has_shard(u),
            forall|u: Seq<char>| #[trigger] final(self).records(u) == old(self).records(u),
            forall|u: Seq<char>, h: Seq<char>| #[trigger] final(self).committed(u, h) == old(self).committed(u, h),
            final(self).lastwills() == old(self).lastwills(),
    {
        if m.payload.len() == 0 {
            let _ = self.retained.remove(t);
            assert(self.retained() =~= old(self).retained().remove(t@));
        } else {
            let ghost mv = m@;
            self.retained.insert(t.clone(), m);
            assert(self.retained() =~= old(self).retained().insert(t@, mv));
        }
    }

    pub fn get_retain_message(&self, t: &String) -> (r: Option<Message>)
        requires
            self.wf(),
        ensures
            r is None <==> !self.retained().contains_key(t@),
            r matches Some(m) ==> m@ == self.retained()[t@],
    {
        match self.retained.get(t) {
            None => None,
            Some(m) => Some(m.duplicate()),
        }
    }

    pub fn save_lastwill(&mut self, c: &String, w: LastWill)
        requires
            old(self).wf(),
        ensures
            final(self).wf(),
            final(self).lastwills() == old(self).lastwills().insert(c@, w),
            forall|u: Seq<char>| #[trigger] final(self).has_shard(u) == old(self).has_shard(u),
            forall|u: Seq<char>| #[trigger] final(self).records(u) == old(self).records(u),
            forall|u: Seq<char>, h: Seq<char>| #[trigger] final(self).committed(u, h) == old(self).committed(u, h),
            final(self).retained() == old(self).retained(),
    {
        self.lastwills.insert(c.clone(), w);
    }

    pub fn take_lastwill(&mut self, c: &String) -> (r: Option<LastWill>)
        requires
            old(self).wf(),
        ensures
            final(self).wf(),
            final(self).lastwills() == old(self).lastwills().remove(c@),
            r is None <==> !old(self).lastwills().contains_key(c@),
            r matches Some(w) ==> w == old(self).lastwills()[c@],
            forall|u: Seq<char>| #[trigger] final(self).has_shard(u) == old(self).has_shard(u),
            forall|u: Seq<char>| #[trigger] final(self).records(u) == old(self).records(u),
            forall|u: Seq<char>, h: Seq<char>| #[trigger] final(self).committed(u, h) == old(self).committed(u, h),
            final(self).retained() == old(self).retained(),
    {
        self.lastwills.remove(c)
    }
}

} // verus!
