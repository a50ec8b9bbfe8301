use vstd::prelude::*;

verus! {

/// A map from string keys to values, held as a list of entries with unique keys.
pub struct StrTable<V> {
    entries: Vec<(String, V)>,
    contents: Ghost<Map<Seq<char>, V>>,
}

impl<V> StrTable<V> {
    pub closed spec fn view(&self) -> Map<Seq<char>, V> {
        self.contents@
    }

    pub closed spec fn wf(&self) -> bool {
        &&& forall|i: int, j: int|
            0 <= i < j < self.entries@.len() ==> self.entries@[i].0@ != self.entries@[j].0@
        &&& forall|i: int|
            0 <= i < self.entries@.len() ==> #[trigger] self.contents@.contains_key(
                self.entries@[i].0@,
            ) && self.contents@[self.entries@[i].0@] == self.entries@[i].1
        &&& forall|k: Seq<char>|
            #[trigger] self.contents@.contains_key(k) ==> exists|i: int|
                0 <= i < self.entries@.len() && self.entries@[i].0@ == k
    }

    pub fn new() -> (r: Self)
        ensures
            r.wf(),
            r@ == Map::<Seq<char>, V>::empty(),
    {
        StrTable { entries: Vec::new(), contents: Ghost(Map::empty()) }
    }

    fn find(&self, k: &String) -> (r: Option<usize>)
        requires
            self.wf(),
        ensures
            r is None ==> !self@.contains_key(k@),
            r matches Some(i) ==> i < self.entries@.len() && self.entries@[i as int].0@ == k@,
    {
        let mut i: usize = 0;
        while i < self.entries.len()
            invariant
                self.wf(),
                i <= self.entries@.len(),
                forall|j: int| 0 <= j < i ==> self.entries@[j].0@ != k@,
            decreases self.entries@.len() - i,
        {
            if self.entries[i].0 == *k {
                return Some(i);
            }
            i = i + 1;
        }
        None
    }

    pub fn contains_key(&self, k: &String) -> (r: bool)
        requires
            self.wf(),
        ensures
            r == self@.contains_key(k@),
    {
        match self.find(k) {
            Some(i) => {
                assert(self.contents@.contains_key(self.entries@[i as int].0@));
                true
            },
            None => false,
        }
    }

    pub fn get(&self, k: &String) -> (r: Option<&V>)
        requires
            self.wf(),
        ensures
            r is None <==> !self@.contains_key(k@),
            r matches Some(v) ==> self@.contains_key(k@) && *v == self@[k@],
    {
        match self.find(k) {
            Some(i) => {
                assert(self.contents@.contains_key(self.entries@[i as int].0@));
                Some(&self.entries[i].1)
            },
            None => None,
        }
    }

    pub fn remove(&mut self, k: &String) -> (r: Option<V>)
        requires
            old(self).wf(),
        ensures
            final(self).wf(),
            final(self)@ == old(self)@.remove(k@),
            r is None <==> !old(self)@.contains_key(k@),
            r matches Some(v) ==> old(self)@.contains_key(k@) && v == old(self)@[k@],
    {
        match self.find(k) {
            None => {
                assert(self.contents@.remove(k@) =~= self.contents@);
                None
            },
            Some(i) => {
                let ghost pre = self.entries@;
                assert(self.contents@.contains_key(pre[i as int].0@));
                let e = self.entries.remove(i);
                self.contents = Ghost(self.contents@.remove(k@));
                let ghost post = self.entries@;
                assert forall|a: int, b: int| 0 <= a < b < post.len() implies post[a].0@
                    != post[b].0@ by {
                    let pa = if a < i { a } else { a + 1 };
                    let pb = if b < i { b } else { b + 1 };
                    assert(post[a] == pre[pa] && post[b] == pre[pb]);
                }
                assert forall|a: int| 0 <= a < post.len() implies #[trigger] self.contents@.contains_key(
                    post[a].0@,
                ) && self.contents@[post[a].0@] == post[a].1 by {
                    let pa = if a < i { a } else { a + 1 };
                    assert(post[a] == pre[pa]);
                    assert(old(self).contents@.contains_key(pre[pa].0@));
                }
                assert forall|key: Seq<char>| #[trigger] self.contents@.contains_key(key) implies exists|
                    a: int,
                | 0 <= a < post.len() && post[a].0@ == key by {
                    assert(old(self).contents@.contains_key(key));
                    let pa = choose|pa: int| 0 <= pa < pre.len() && pre[pa].0@ == key;
                    let a = if pa < i { pa } else { pa - 1 };
                    assert(post[a] == pre[pa]);
                }
                Some(e.1)
            },
        }
    }

    pub fn insert(&mut self, k: String, v: V)
        requires
            old(self).wf(),
        ensures
            final(self).wf(),
            final(self)@ == old(self)@.insert(k@, v),
    {
        let _ = self.remove(&k);
        let ghost mid = self.entries@;
        let ghost mid_map = self.contents@;
        let ghost kv = k@;
        self.entries.push((k, v));
        self.contents = Ghost(self.contents@.insert(kv, v));
        let ghost post = self.entries@;
        assert forall|a: int| 0 <= a < post.len() implies #[trigger] self.contents@.contains_key(
            post[a].0@,
        ) && self.contents@[post[a].0@] == post[a].1 by {
            if a < mid.len() {
                assert(post[a] == mid[a]);
            }
        }
        assert forall|key: Seq<char>| #[trigger] self.contents@.contains_key(key) implies exists|a: int|
            0 <= a < post.len() && post[a].0@ == key by {
            if key != kv {
                let a = choose|a: int| 0 <= a < mid.len() && mid[a].0@ == key;
                assert(post[a] == mid[a]);
            } else {
                assert(post[mid.len() as int].0@ == key);
            }
        }
        assert forall|a: int, b: int| 0 <= a < b < post.len() implies post[a].0@ != post[b].0@ by {
            if b == mid.len() {
                assert(post[a] == mid[a]);
                assert(mid_map.contains_key(mid[a].0@));
            } else {
                assert(post[a] == mid[a] && post[b] == mid[b]);
            }
        }
    }
}



/// A map from connection ids to values, held as a list of entries with unique keys.
pub struct ConnTable<V> {
    entries: Vec<(u64, V)>,
    contents: Ghost<Map<u64, V>>,
}

impl<V> ConnTable<V> {
    pub closed spec fn view(&self) -> Map<u64, V> {
        self.contents@
    }

    pub closed spec fn wf(&self) -> bool {
        &&& forall|i: int, j: int|
            0 <= i < j < self.entries@.len() ==> self.entries@[i].0 != self.entries@[j].0
        &&& forall|i: int|
            0 <= i < self.entries@.len() ==> #[trigger] self.contents@.contains_key(
                self.entries@[i].0,
            ) && self.contents@[self.entries@[i].0] == self.entries@[i].1
        &&& forall|k: u64|
            #[trigger] self.contents@.contains_key(k) ==> exists|i: int|
                0 <= i < self.entries@.len() && self.entries@[i].0 == k
    }

    pub fn new() -> (r: Self)
        ensures
            r.wf(),
            r@ == Map::<u64, V>::empty(),
    {
        ConnTable { entries: Vec::new(), contents: Ghost(Map::empty()) }
    }

    pub fn len(&self) -> (r: usize)
        requires
            self.wf(),
        ensures
            r as nat == self@.dom().len(),
    {
        proof {
            self.lemma_len();
        }
        self.entries.len()
    }

    proof fn lemma_len(&self)
        requires
            self.wf(),
        ensures
            self@.dom().len() == self.entries@.len(),
        decreases self.entries@.len(),
    {
        let keys = self.entries@.map_values(|e: (u64, V)| e.0);
        assert forall|i: int, j: int| 0 <= i < j < keys.len() implies keys[i] != keys[j] by {}
        assert(keys.no_duplicates());
        keys.unique_seq_to_set();
        assert(keys.to_set() =~= self@.dom()) by {
            assert forall|k: u64| keys.to_set().contains(k) implies self@.dom().contains(k) by {
                let i = choose|i: int| 0 <= i < keys.len() && keys[i] == k;
                assert(self.contents@.contains_key(self.entries@[i].0));
            }
            assert forall|k: u64| self@.dom().contains(k) implies keys.to_set().contains(k) by {
                assert(self.contents@.contains_key(k));
                let i = choose|i: int| 0 <= i < self.entries@.len() && self.entries@[i].0 == k;
                assert(keys[i] == k);
            }
        }
    }

    fn find(&self, k: u64) -> (r: Option<usize>)
        requires
            self.wf(),
        ensures
            r is None ==> !self@.contains_key(k),
            r matches Some(i) ==> i < self.entries@.len() && self.entries@[i as int].0 == k,
    {
        let mut i: usize = 0;
        while i < self.entries.len()
            invariant
                self.wf(),
                i <= self.entries@.len(),
                forall|j: int| 0 <= j < i ==> self.entries@[j].0 != k,
            decreases self.entries@.len() - i,
        {
            if self.entries[i].0 == k {
                return Some(i);
            }
            i = i + 1;
        }
        None
    }

    pub fn contains_key(&self, k: u64) -> (r: bool)
        requires
            self.wf(),
        ensures
            r == self@.contains_key(k),
    {
        match self.find(k) {
            Some(i) => {
                assert(self.contents@.contains_key(self.entries@[i as int].0));
                true
            },
            None => false,
        }
    }

    pub fn get(&self, k: u64) -> (r: Option<&V>)
        requires
            self.wf(),
        ensures
            r is None <==> !self@.contains_key(k),
            r matches Some(v) ==> self@.contains_key(k) && *v == self@[k],
    {
        match self.find(k) {
            Some(i) => {
                assert(self.contents@.contains_key(self.entries@[i as int].0));
                Some(&self.entries[i].1)
            },
            None => None,
        }
    }

    /// The keys in storage order.
    pub closed spec fn keys(&self) -> Seq<u64> {
        self.entries@.map_values(|e: (u64, V)| e.0)
    }

    pub proof fn lemma_keys(&self)
        requires
            self.wf(),
        ensures
            self.keys().len() == self@.dom().len(),
            self.keys().no_duplicates(),
            forall|k: u64| self@.contains_key(k) <==> self.keys().contains(k),
    {
        self.lemma_len();
        assert forall|k: u64| self@.contains_key(k) implies self.keys().contains(k) by {
            let i = choose|i: int| 0 <= i < self.entries@.len() && self.entries@[i].0 == k;
            assert(self.keys()[i] == k);
        }
        assert forall|k: u64| self.keys().contains(k) implies self@.contains_key(k) by {
            let i = choose|i: int| 0 <= i < self.keys().len() && self.keys()[i] == k;
            assert(self.contents@.contains_key(self.entries@[i].0));
        }
    }

    /// Entry at a position, for walking the table in storage order.
    pub fn entry_at(&self, i: usize) -> (r: (u64, &V))
        requires
            self.wf(),
            i < self@.dom().len(),
        ensures
            self@.contains_key(r.0),
            self@[r.0] == *r.1,
            r.0 == self.keys()[i as int],
    {
        proof {
            self.lemma_len();
        }
        assert(self.contents@.contains_key(self.entries@[i as int].0));
        (self.entries[i].0, &self.entries[i].1)
    }

    pub fn remove(&mut self, k: u64) -> (r: Option<V>)
        requires
            old(self).wf(),
        ensures
            final(self).wf(),
            final(self)@ == old(self)@.remove(k),
            r is None <==> !old(self)@.contains_key(k),
            r matches Some(v) ==> old(self)@.contains_key(k) && v == old(self)@[k],
    {
        match self.find(k) {
            None => {
                assert(self.contents@.remove(k) =~= self.contents@);
                None
            },
            Some(i) => {
                let ghost pre = self.entries@;
                assert(self.contents@.contains_key(pre[i as int].0));
                let e = self.entries.remove(i);
                self.contents = Ghost(self.contents@.remove(k));
                let ghost post = self.entries@;
                assert forall|a: int, b: int| 0 <= a < b < post.len() implies post[a].0
                    != post[b].0 by {
                    let pa = if a < i { a } else { a + 1 };
                    let pb = if b < i { b } else { b + 1 };
                    assert(post[a] == pre[pa] && post[b] == pre[pb]);
                }
                assert forall|a: int| 0 <= a < post.len() implies #[trigger] self.contents@.contains_key(
                    post[a].0,
                ) && self.contents@[post[a].0] == post[a].1 by {
                    let pa = if a < i { a } else { a + 1 };
                    assert(post[a] == pre[pa]);
                    assert(old(self).contents@.contains_key(pre[pa].0));
                }
                assert forall|key: u64| #[trigger] self.contents@.contains_key(key) implies exists|
                    a: int,
                | 0 <= a < post.len() && post[a].0 == key by {
                    assert(old(self).contents@.contains_key(key));
                    let pa = choose|pa: int| 0 <= pa < pre.len() && pre[pa].0 == key;
                    let a = if pa < i { pa } else { pa - 1 };
                    assert(post[a] == pre[pa]);
                }
                Some(e.1)
            },
        }
    }

    pub fn insert(&mut self, k: u64, v: V)
        requires
            old(self).wf(),
        ensures
            final(self).wf(),
            final(self)@ == old(self)@.insert(k, v),
    {
        let _ = self.remove(k);
        let ghost mid = self.entries@;
        let ghost mid_map = self.contents@;
        let ghost kv = k;
        let ghost gv = v;
        self.entries.push((k, v));
        self.contents = Ghost(self.contents@.insert(kv, v));
        let ghost post = self.entries@;
        assert forall|a: int| 0 <= a < post.len() implies #[trigger] self.contents@.contains_key(
            post[a].0,
        ) && self.contents@[post[a].0] == post[a].1 by {
            if a < mid.len() {
                assert(post[a] == mid[a]);
            } else {
                assert(post[a] == (kv, gv));
            }
        }
        assert forall|key: u64| #[trigger] self.contents@.contains_key(key) implies exists|a: int|
            0 <= a < post.len() && post[a].0 == key by {
            if key != kv {
                let a = choose|a: int| 0 <= a < mid.len() && mid[a].0 == key;
                assert(post[a] == mid[a]);
            } else {
                assert(post[mid.len() as int].0 == key);
            }
        }
        assert forall|a: int, b: int| 0 <= a < b < post.len() implies post[a].0 != post[b].0 by {
            if b == mid.len() {
                assert(post[a] == mid[a]);
                assert(mid_map.contains_key(mid[a].0));
            } else {
                assert(post[a] == mid[a] && post[b] == mid[b]);
            }
        }
    }
}

} // verus!
