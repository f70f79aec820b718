use vstd::prelude::*;
use crate::mac::MacAddr;

verus! {

/// One route: frames for `mac` leave through port `port`, by `handle`.
pub struct PortEntry<H> {
    pub mac: MacAddr,
    pub port: u64,
    pub handle: H,
}

/// Maps link-layer addresses to the send capability of the port that
/// reaches them. At most one entry per address; a later insert for an
/// address replaces the earlier one.
pub struct PortTable<H> {
    entries: Vec<PortEntry<H>>,
}

impl<H> PortTable<H> {
    /// The entries, in the order `for_each_port` visits them.
    pub closed spec fn entries(&self) -> Seq<PortEntry<H>> {
        self.entries@
    }

    /// No two entries share an address.
    pub open spec fn wf(&self) -> bool {
        forall|i: int, j: int|
            0 <= i < j < self.entries().len() ==> #[trigger] self.entries()[i].mac@
                != #[trigger] self.entries()[j].mac@
    }

    /// Whether some entry has address `k`.
    pub open spec fn has(&self, k: Seq<u8>) -> bool {
        exists|i: int| 0 <= i < self.entries().len() && #[trigger] self.entries()[i].mac@ == k
    }

    /// The position of the entry for `k`.
    pub open spec fn index_of(&self, k: Seq<u8>) -> int {
        choose|i: int| 0 <= i < self.entries().len() && #[trigger] self.entries()[i].mac@ == k
    }

    /// Address to (port id, send handle).
    pub open spec fn view(&self) -> Map<Seq<u8>, (u64, H)> {
        Map::new(
            |k: Seq<u8>| self.has(k),
            |k: Seq<u8>|
                (self.entries()[self.index_of(k)].port, self.entries()[self.index_of(k)].handle),
        )
    }

    /// The ids of all ports in the table.
    pub open spec fn ports(&self) -> Set<u64> {
        Set::new(
            |p: u64| exists|i: int| 0 <= i < self.entries().len() && #[trigger] self.entries()[i].port == p,
        )
    }

    /// The entry at position `i` is the one the view shows for its address.
    pub proof fn lemma_entry(&self, i: int)
        requires
            self.wf(),
            0 <= i < self.entries().len(),
        ensures
            self.index_of(self.entries()[i].mac@) == i,
            self.view().contains_key(self.entries()[i].mac@),
            self.view()[self.entries()[i].mac@] == (self.entries()[i].port, self.entries()[i].handle),
    {
        let k = self.entries()[i].mac@;
        assert(self.has(k));
        let j = self.index_of(k);
        if j != i {
            if j < i {
                assert(self.entries()[j].mac@ != self.entries()[i].mac@);
            } else {
                assert(self.entries()[i].mac@ != self.entries()[j].mac@);
            }
        }
    }

    /// An empty table.
    pub fn new() -> (r: PortTable<H>)
        ensures
            r.wf(),
            r.view() == Map::<Seq<u8>, (u64, H)>::empty(),
            r.entries().len() == 0,
    {
        let r = PortTable { entries: Vec::new() };
        assert(r.view() =~= Map::<Seq<u8>, (u64, H)>::empty());
        r
    }

    /// Number of entries.
    pub fn len(&self) -> (r: usize)
        requires
            self.wf(),
        ensures
            r == self.entries().len(),
            r == self.view().dom().len(),
    {
        proof { self.lemma_dom_len(); }
        self.entries.len()
    }

    proof fn lemma_dom_len(&self)
        requires
            self.wf(),
        ensures
            self.view().dom().finite(),
            self.view().dom().len() == self.entries().len(),
        decreases self.entries().len(),
    {
        let s = self.entries().map_values(|e: PortEntry<H>| e.mac@);
        assert forall|i: int, j: int| 0 <= i < s.len() && 0 <= j < s.len() && i != j
            implies s[i] != s[j] by {
            if i < j {
                assert(self.entries()[i].mac@ != self.entries()[j].mac@);
            } else {
                assert(self.entries()[j].mac@ != self.entries()[i].mac@);
            }
        }
        assert(s.no_duplicates());
        s.unique_seq_to_set();
        assert(self.view().dom() =~= s.to_set()) by {
            assert forall|k: Seq<u8>| self.view().dom().contains(k) implies s.to_set().contains(k) by {
                let i = self.index_of(k);
                assert(s[i] == k);
            }
            assert forall|k: Seq<u8>| s.to_set().contains(k) implies self.view().dom().contains(k) by {
                let i = choose|i: int| 0 <= i < s.len() && s[i] == k;
                assert(self.entries()[i].mac@ == k);
            }
        }
    }

    /// The position of the entry for `mac`, if any.
    pub fn position(&self, mac: &MacAddr) -> (r: Option<usize>)
        requires
            self.wf(),
        ensures
            r is Some <==> self.view().contains_key(mac@),
            r matches Some(i) ==> i < self.entries().len() && self.entries()[i as int].mac@ == mac@
                && self.index_of(mac@) == i,
    {
        let mut i: usize = 0;
        while i < self.entries.len()
            invariant
                self.wf(),
                0 <= i <= self.entries().len(),
                forall|j: int| 0 <= j < i ==> self.entries()[j].mac@ != mac@,
            decreases self.entries().len() - i,
        {
            if self.entries[i].mac.same(mac) {
                proof { self.lemma_entry(i as int); }
                return Some(i);
            }
            i += 1;
        }
        None
    }

    /// The send handle registered for `mac`, if any.
    pub fn get_send_handle(&self, mac: &MacAddr) -> (r: Option<&H>)
        requires
            self.wf(),
        ensures
            r is Some <==> self.view().contains_key(mac@),
            r matches Some(h) ==> *h == self.view()[mac@].1,
    {
        match self.position(mac) {
            Some(i) => Some(&self.entries[i].handle),
            None => None,
        }
    }

    /// The port id of the entry at position `i`, if there is one.
    pub fn port_at(&self, i: usize) -> (r: Option<u64>)
        ensures
            r is Some <==> i < self.entries().len(),
            r matches Some(p) ==> p == self.entries()[i as int].port,
    {
        if i < self.entries.len() {
            Some(self.entries[i].port)
        } else {
            None
        }
    }

    /// The send handle of the entry at position `i`, if there is one.
    pub fn handle_at(&self, i: usize) -> (r: Option<&H>)
        ensures
            r is Some <==> i < self.entries().len(),
            r matches Some(h) ==> *h == self.entries()[i as int].handle,
    {
        if i < self.entries.len() {
            Some(&self.entries[i].handle)
        } else {
            None
        }
    }

    /// The port registered for `mac`, if any.
    pub fn port_of(&self, mac: &MacAddr) -> (r: Option<u64>)
        requires
            self.wf(),
        ensures
            r is Some <==> self.view().contains_key(mac@),
            r matches Some(p) ==> p == self.view()[mac@].0,
    {
        match self.position(mac) {
            Some(i) => Some(self.entries[i].port),
            None => None,
        }
    }

    /// Routes `mac` to `port` through `handle`, replacing any earlier route
    /// for the same address.
    pub fn insert(&mut self, mac: MacAddr, port: u64, handle: H)
        requires
            old(self).wf(),
        ensures
            final(self).wf(),
            final(self).view() == old(self).view().insert(mac@, (port, handle)),
    {
        let found = self.position(&mac);
        let ghost k = mac@;
        match found {
            Some(i) => {
                self.entries.set(i, PortEntry { mac, port, handle });
                proof {
                    assert forall|a: int, b: int| 0 <= a < b < self.entries().len() implies
                        #[trigger] self.entries()[a].mac@ != #[trigger] self.entries()[b].mac@ by {
                        assert(old(self).entries()[a].mac@ != old(self).entries()[b].mac@);
                    }
                    assert forall|x: Seq<u8>| #[trigger] self.has(x) <==> old(self).has(x) || x == k by {
                        if self.has(x) {
                            let j = choose|j: int| 0 <= j < self.entries().len() && #[trigger] self.entries()[j].mac@ == x;
                            assert(old(self).entries()[j].mac@ == x);
                        }
                        if old(self).has(x) {
                            let j = choose|j: int| 0 <= j < old(self).entries().len() && #[trigger] old(self).entries()[j].mac@ == x;
                            assert(self.entries()[j].mac@ == x);
                        }
                        if x == k {
                            assert(self.entries()[i as int].mac@ == x);
                        }
                    }
                    assert forall|x: Seq<u8>| #[trigger] self.has(x) implies self.view()[x]
                        == old(self).view().insert(k, (port, handle))[x] by {
                        let j = self.index_of(x);
                        self.lemma_entry(j);
                        if x != k {
                            old(self).lemma_entry(j);
                        } else {
                            self.lemma_entry(i as int);
                        }
                    }
                    assert(self.view() =~= old(self).view().insert(k, (port, handle)));
                }
            },
            None => {
                self.entries.push(PortEntry { mac, port, handle });
                proof {
                    let n = old(self).entries().len() as int;
                    assert forall|a: int, b: int| 0 <= a < b < self.entries().len() implies
                        #[trigger] self.entries()[a].mac@ != #[trigger] self.entries()[b].mac@ by {
                        if b < n {
                            assert(old(self).entries()[a].mac@ != old(self).entries()[b].mac@);
                        } else {
                            assert(old(self).entries()[a].mac@ == self.entries()[a].mac@);
                            if old(self).entries()[a].mac@ == k {
                                assert(old(self).has(k));
                            }
                        }
                    }
                    assert forall|x: Seq<u8>| #[trigger] self.has(x) <==> old(self).has(x) || x == k by {
                        if self.has(x) {
                            let j = choose|j: int| 0 <= j < self.entries().len() && #[trigger] self.entries()[j].mac@ == x;
                            if j < n {
                                assert(old(self).entries()[j].mac@ == x);
                            }
                        }
                        if old(self).has(x) {
                            let j = choose|j: int| 0 <= j < old(self).entries().len() && #[trigger] old(self).entries()[j].mac@ == x;
                            assert(self.entries()[j].mac@ == x);
                        }
                        if x == k {
                            assert(self.entries()[n].mac@ == x);
                        }
                    }
                    assert forall|x: Seq<u8>| #[trigger] self.has(x) implies self.view()[x]
                        == old(self).view().insert(k, (port, handle))[x] by {
                        let j = self.index_of(x);
                        self.lemma_entry(j);
                        if x != k {
                            assert(j < n);
                            old(self).lemma_entry(j);
                        } else {
                            self.lemma_entry(n);
                        }
                    }
                    assert(self.view() =~= old(self).view().insert(k, (port, handle)));
                }
            },
        }
    }

    /// The ports a flood from `self_port` reaches: every port in the table
    /// but `self_port`.
    pub open spec fn flood_targets(&self, self_port: u64) -> Set<u64> {
        Set::new(
            |p: u64|
                p != self_port && exists|i: int|
                    0 <= i < self.entries().len() && #[trigger] self.entries()[i].port == p,
        )
    }

    /// Calls `f` with the port id and handle of each entry, in table order,
    /// and stops at the first error, which it returns.
    pub fn for_each_port<E, F: Fn(u64, &H) -> Result<(), E>>(&self, f: F) -> (r: Result<(), E>)
        requires
            forall|i: int|
                0 <= i < self.entries().len() ==> f.requires(
                    (#[trigger] self.entries()[i].port, &self.entries()[i].handle),
                ),
        ensures
            r is Ok ==> forall|i: int|
                0 <= i < self.entries().len() ==> f.ensures(
                    (#[trigger] self.entries()[i].port, &self.entries()[i].handle),
                    Ok(()),
                ),
            r matches Err(e) ==> exists|i: int|
                0 <= i < self.entries().len() && f.ensures(
                    (#[trigger] self.entries()[i].port, &self.entries()[i].handle),
                    Err(e),
                ),
    {
        let mut i: usize = 0;
        while i < self.entries.len()
            invariant
                0 <= i <= self.entries().len(),
                forall|j: int|
                    0 <= j < self.entries().len() ==> f.requires(
                        (#[trigger] self.entries()[j].port, &self.entries()[j].handle),
                    ),
                forall|j: int|
                    0 <= j < i ==> f.ensures(
                        (#[trigger] self.entries()[j].port, &self.entries()[j].handle),
                        Ok(()),
                    ),
            decreases self.entries().len() - i,
        {
            let e = &self.entries[i];
            let res = f(e.port, &e.handle);
            match res {
                Ok(u) => {
                    assert(u == ());
                    assert(res == Ok::<(), E>(()));
                },
                Err(err) => {
                    assert(f.ensures((self.entries()[i as int].port, &self.entries()[i as int].handle), Err(err)));
                    return Err(err);
                },
            }
            i += 1;
        }
        Ok(())
    }
}

} // verus!
