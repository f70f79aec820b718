use vstd::prelude::*;
use crate::mac::MacAddr;
use crate::table::PortTable;

verus! {

/// A node's externally reachable address: host name or literal, and port.
#[derive(Debug)]
pub struct HostAddr {
    pub host: String,
    pub port: u16,
}

impl View for HostAddr {
    type V = (Seq<char>, u16);

    open spec fn view(&self) -> (Seq<char>, u16) {
        (self.host@, self.port)
    }
}

impl HostAddr {
    pub fn new(host: &str, port: u16) -> (r: HostAddr)
        ensures
            r@ == (host@, port),
    {
        HostAddr { host: host.to_owned(), port }
    }

    /// Equality by (host, port).
    pub fn same(&self, other: &HostAddr) -> (r: bool)
        ensures
            r == (self@ == other@),
    {
        self.port == other.port && self.host == other.host
    }
}

impl Clone for HostAddr {
    fn clone(&self) -> (r: HostAddr)
        ensures
            r == *self,
    {
        HostAddr { host: self.host.clone(), port: self.port }
    }
}

impl PartialEq for HostAddr {
    fn eq(&self, other: &HostAddr) -> (r: bool) {
        self.same(other)
    }
}

impl vstd::std_specs::cmp::PartialEqSpecImpl for HostAddr {
    open spec fn obeys_eq_spec() -> bool {
        true
    }

    open spec fn eq_spec(&self, other: &HostAddr) -> bool {
        self@ == other@
    }
}

impl Eq for HostAddr {}

/// What the directory knows of one node.
#[derive(Debug)]
pub struct NodeInfo {
    pub addr: HostAddr,
    /// The node's Ethernet address; a node without one is known but cannot
    /// yet be sent frames.
    pub eth_mac_addr: Option<MacAddr>,
    /// The link-layer domain the node belongs to.
    pub xdp_subnet_id: u32,
}

impl Clone for NodeInfo {
    fn clone(&self) -> (r: NodeInfo)
        ensures
            r == *self,
    {
        NodeInfo { addr: self.addr.clone(), eth_mac_addr: self.eth_mac_addr, xdp_subnet_id: self.xdp_subnet_id }
    }
}

/// The Ethernet addresses carried by the first `n` of `nodes`.
pub open spec fn macs_before(nodes: Seq<NodeInfo>, n: int) -> Set<Seq<u8>> {
    Set::new(
        |k: Seq<u8>|
            exists|i: int|
                0 <= i < n && (#[trigger] nodes[i]).eth_mac_addr is Some
                    && nodes[i].eth_mac_addr->Some_0@ == k,
    )
}

/// No node after position `j` and before `n` carries address `k`.
pub open spec fn last_with(nodes: Seq<NodeInfo>, k: Seq<u8>, j: int, n: int) -> bool {
    forall|l: int|
        j < l < n ==> !((#[trigger] nodes[l]).eth_mac_addr is Some && nodes[l].eth_mac_addr->Some_0@ == k)
}

/// The Ethernet addresses carried by `nodes`, skipping nodes that carry none.
pub open spec fn macs_of(nodes: Seq<NodeInfo>) -> Set<Seq<u8>> {
    macs_before(nodes, nodes.len() as int)
}

/// The registration protocol of a directory service.
pub trait MetaClient: Sized {
    /// The peers the directory lists for each registered address.
    spec fn directory(&self) -> Map<(Seq<char>, u16), Seq<NodeInfo>>;

    /// Connects to the directory service at `meta_addr`.
    fn connet(meta_addr: HostAddr) -> Self;

    /// Registers `addr` and returns the peers the directory associates with
    /// it, or `None` when the directory refuses the registration.
    fn register(&self, addr: &HostAddr) -> (r: Option<Vec<NodeInfo>>)
        ensures
            r matches Some(v) ==> self.directory().contains_key(addr@) && v@
                == self.directory()[addr@],
    ;
}

/// A directory held in memory: each registered address maps to a fixed
/// list of peers. The records sit in a `Vec` searched by (host, port):
/// vstd gives `HashMap` a contract only for keys whose hashing and equality
/// it models, and a key holding a `String` is not among them, so a map
/// keyed by `HostAddr` would leave every lookup unproved.
pub struct MockMetaClient {
    inner: Vec<(HostAddr, Vec<NodeInfo>)>,
}

impl MockMetaClient {
    /// The listed (address, peers) records; the first record for an address
    /// is the one that counts.
    pub closed spec fn records(&self) -> Seq<(HostAddr, Vec<NodeInfo>)> {
        self.inner@
    }

    /// Record `i` is the first one for address `k`.
    pub open spec fn first(&self, k: (Seq<char>, u16), i: int) -> bool {
        &&& 0 <= i < self.records().len()
        &&& self.records()[i].0@ == k
        &&& forall|j: int| 0 <= j < i ==> (#[trigger] self.records()[j]).0@ != k
    }

    pub open spec fn has(&self, k: (Seq<char>, u16)) -> bool {
        exists|i: int| 0 <= i < self.records().len() && (#[trigger] self.records()[i]).0@ == k
    }

    pub open spec fn index_of(&self, k: (Seq<char>, u16)) -> int {
        choose|i: int| self.first(k, i)
    }

    /// Address to the peers listed for it.
    pub open spec fn view(&self) -> Map<(Seq<char>, u16), Seq<NodeInfo>> {
        Map::new(|k: (Seq<char>, u16)| self.has(k), |k: (Seq<char>, u16)| self.records()[self.index_of(k)].1@)
    }

    proof fn lemma_first_unique(&self, k: (Seq<char>, u16), i: int)
        requires
            self.first(k, i),
        ensures
            self.index_of(k) == i,
    {
        let c = self.index_of(k);
        assert(self.first(k, c));
        if c < i {
            assert(self.records()[c].0@ != k);
        } else if c > i {
            assert(self.records()[i].0@ != k);
        }
    }

    proof fn lemma_first_exists(&self, k: (Seq<char>, u16), i: int)
        requires
            0 <= i < self.records().len(),
            self.records()[i].0@ == k,
        ensures
            exists|j: int| self.first(k, j),
        decreases i,
    {
        if exists|j: int| 0 <= j < i && (#[trigger] self.records()[j]).0@ == k {
            let j = choose|j: int| 0 <= j < i && (#[trigger] self.records()[j]).0@ == k;
            self.lemma_first_exists(k, j);
        } else {
            assert(self.first(k, i));
        }
    }

    /// The peers listed for `addr`, or `None` when it is not listed.
    pub fn peers_of(&self, addr: &HostAddr) -> (r: Option<Vec<NodeInfo>>)
        ensures
            r is Some <==> self.view().contains_key(addr@),
            r matches Some(v) ==> v@ == self.view()[addr@],
    {
        match self.find(addr) {
            Some(i) => Some(self.inner[i].1.clone()),
            None => None,
        }
    }

    /// The fixed directory `connet` answers from.
    pub fn preset() -> (r: MockMetaClient)
        ensures
            r.view().dom() == set![("10.0.0.44"@, 10000u16), ("10.0.0.45"@, 10000u16)],
            r.view()[("10.0.0.44"@, 10000u16)].len() == 0,
            r.view()[("10.0.0.45"@, 10000u16)].len() == 1,
            r.view()[("10.0.0.45"@, 10000u16)][0].addr@ == ("10.0.0.44"@, 10000u16),
            r.view()[("10.0.0.45"@, 10000u16)][0].eth_mac_addr matches Some(m) && m@ == seq![
                0x9cu8,
                0x69,
                0xb4,
                0x61,
                0xc0,
                0xb1,
            ],
            r.view()[("10.0.0.45"@, 10000u16)][0].xdp_subnet_id == 1,
    {
        let mut r = MockMetaClient::new();
        r.insert(HostAddr::new("10.0.0.44", 10000), Vec::new());
        let peer = NodeInfo {
            addr: HostAddr::new("10.0.0.44", 10000),
            eth_mac_addr: Some(MacAddr::new([0x9c, 0x69, 0xb4, 0x61, 0xc0, 0xb1])),
            xdp_subnet_id: 1,
        };
        let mut peers: Vec<NodeInfo> = Vec::new();
        peers.push(peer);
        r.insert(HostAddr::new("10.0.0.45", 10000), peers);
        proof {
            let a = ("10.0.0.44"@, 10000u16);
            let b = ("10.0.0.45"@, 10000u16);
            assert(a != b) by {
                reveal_strlit("10.0.0.44");
                reveal_strlit("10.0.0.45");
                assert(a.0[8] != b.0[8]);
            }
            assert(r.view().dom() =~= set![a, b]);
            assert(peers@[0].eth_mac_addr->Some_0@ =~= seq![0x9cu8, 0x69, 0xb4, 0x61, 0xc0, 0xb1]);
        }
        r
    }

    /// A directory that knows no address.
    pub fn new() -> (r: MockMetaClient)
        ensures
            r.view() == Map::<(Seq<char>, u16), Seq<NodeInfo>>::empty(),
    {
        let r = MockMetaClient { inner: Vec::new() };
        assert(r.view() =~= Map::<(Seq<char>, u16), Seq<NodeInfo>>::empty());
        r
    }

    fn find(&self, addr: &HostAddr) -> (r: Option<usize>)
        ensures
            r is Some <==> self.has(addr@),
            r matches Some(i) ==> self.first(addr@, i as int) && self.index_of(addr@) == i,
    {
        let mut i: usize = 0;
        while i < self.inner.len()
            invariant
                0 <= i <= self.records().len(),
                forall|j: int| 0 <= j < i ==> (#[trigger] self.records()[j]).0@ != addr@,
            decreases self.records().len() - i,
        {
            if self.inner[i].0.same(addr) {
                proof { self.lemma_first_unique(addr@, i as int); }
                return Some(i);
            }
            i += 1;
        }
        None
    }

    /// Lists `peers` for `addr`, replacing what was listed for it before.
    pub fn insert(&mut self, addr: HostAddr, peers: Vec<NodeInfo>)
        ensures
            final(self).view() == old(self).view().insert(addr@, peers@),
    {
        let found = self.find(&addr);
        let ghost k = addr@;
        let ghost p = peers@;
        match found {
            Some(i) => {
                self.inner.set(i, (addr, peers));
            },
            None => {
                self.inner.push((addr, peers));
            },
        }
        proof {
            let n = old(self).records().len() as int;
            let at = if found is Some { found->Some_0 as int } else { n };
            assert(self.records()[at].0@ == k);
            assert forall|j: int| 0 <= j < n && j != at implies #[trigger] self.records()[j] == old(self).records()[j] by {}
            assert forall|j: int| 0 <= j < n implies (#[trigger] self.records()[j]).0@ == old(self).records()[j].0@ by {}
            assert(self.first(k, at));
            self.lemma_first_unique(k, at);
            assert forall|x: (Seq<char>, u16)| #[trigger] self.has(x) <==> old(self).has(x) || x == k by {
                if self.has(x) {
                    let j = choose|j: int| 0 <= j < self.records().len() && (#[trigger] self.records()[j]).0@ == x;
                    if j < n {
                        assert(old(self).records()[j].0@ == x);
                    }
                }
                if old(self).has(x) {
                    let j = choose|j: int| 0 <= j < old(self).records().len() && (#[trigger] old(self).records()[j]).0@ == x;
                    assert(self.records()[j].0@ == x);
                }
            }
            assert forall|x: (Seq<char>, u16)| #[trigger] self.has(x) && x != k implies self.view()[x]
                == old(self).view()[x] by {
                let j0 = choose|j: int| 0 <= j < old(self).records().len() && (#[trigger] old(self).records()[j]).0@ == x;
                old(self).lemma_first_exists(x, j0);
                let j = choose|j: int| old(self).first(x, j);
                old(self).lemma_first_unique(x, j);
                assert(self.first(x, j));
                self.lemma_first_unique(x, j);
            }
            assert(self.view() =~= old(self).view().insert(k, p));
        }
    }
}

impl MetaClient for MockMetaClient {
    open spec fn directory(&self) -> Map<(Seq<char>, u16), Seq<NodeInfo>> {
        self.view()
    }

    /// Ignores `meta_addr` and answers from a fixed table: `10.0.0.44:10000`
    /// has no peers; `10.0.0.45:10000` has the node at `10.0.0.44:10000`,
    /// with Ethernet address `9c:69:b4:61:c0:b1`, in subnet 1.
    fn connet(_meta_addr: HostAddr) -> (r: MockMetaClient)
        ensures
            r.view().dom() == set![("10.0.0.44"@, 10000u16), ("10.0.0.45"@, 10000u16)],
            r.view()[("10.0.0.44"@, 10000u16)].len() == 0,
            r.view()[("10.0.0.45"@, 10000u16)].len() == 1,
            r.view()[("10.0.0.45"@, 10000u16)][0].addr@ == ("10.0.0.44"@, 10000u16),
            r.view()[("10.0.0.45"@, 10000u16)][0].eth_mac_addr matches Some(m) && m@ == seq![
                0x9cu8,
                0x69,
                0xb4,
                0x61,
                0xc0,
                0xb1,
            ],
            r.view()[("10.0.0.45"@, 10000u16)][0].xdp_subnet_id == 1,
    {
        MockMetaClient::preset()
    }

    /// The peers listed for `addr`, or `None` when it is not listed.
    fn register(&self, addr: &HostAddr) -> (r: Option<Vec<NodeInfo>>)
        ensures
            r is Some <==> self.view().contains_key(addr@),
            r matches Some(v) ==> v@ == self.view()[addr@],
    {
        self.peers_of(addr)
    }
}

/// Routes each node of `nodes` that carries an Ethernet address to a port
/// opened for it by `open_port`, which yields the port id and send handle.
/// Nodes without an address are skipped; other routes stay as they were.
/// Where several nodes carry the same address, the last of them wins.
pub fn register_peers<H, F: Fn(&NodeInfo) -> (u64, H)>(
    table: &mut PortTable<H>,
    nodes: &Vec<NodeInfo>,
    open_port: &F,
)
    requires
        old(table).wf(),
        forall|n: &NodeInfo| open_port.requires((n,)),
    ensures
        final(table).wf(),
        final(table).view().dom() == old(table).view().dom().union(macs_of(nodes@)),
        forall|k: Seq<u8>|
            old(table).view().contains_key(k) && !macs_of(nodes@).contains(k) ==> #[trigger] final(table).view()[k]
                == old(table).view()[k],
        forall|k: Seq<u8>|
            macs_of(nodes@).contains(k) ==> exists|i: int|
                0 <= i < nodes@.len() && (#[trigger] nodes@[i]).eth_mac_addr is Some
                    && nodes@[i].eth_mac_addr->Some_0@ == k && open_port.ensures(
                    (&nodes@[i],),
                    final(table).view()[k],
                ) && last_with(nodes@, k, i, nodes@.len() as int),
{
    let mut i: usize = 0;
    while i < nodes.len()
        invariant
            0 <= i <= nodes@.len(),
            table.wf(),
            forall|n: &NodeInfo| open_port.requires((n,)),
            table.view().dom() == old(table).view().dom().union(macs_before(nodes@, i as int)),
            forall|k: Seq<u8>|
                old(table).view().contains_key(k) && !macs_before(nodes@, i as int).contains(k)
                    ==> #[trigger] table.view()[k] == old(table).view()[k],
            forall|k: Seq<u8>|
                macs_before(nodes@, i as int).contains(k) ==> exists|j: int|
                    0 <= j < i && (#[trigger] nodes@[j]).eth_mac_addr is Some
                        && nodes@[j].eth_mac_addr->Some_0@ == k && open_port.ensures(
                        (&nodes@[j],),
                        table.view()[k],
                    ) && last_with(nodes@, k, j, i as int),
        decreases nodes@.len() - i,
    {
        let ghost before = table.view();
        let node = &nodes[i];
        match node.eth_mac_addr {
            Some(m) => {
                let (port, handle) = open_port(node);
                table.insert(m, port, handle);
                proof {
                    assert(open_port.ensures((&nodes@[i as int],), table.view()[m@]));
                    assert(macs_before(nodes@, i + 1) =~= macs_before(nodes@, i as int).insert(m@));
                    assert(table.view().dom() =~= old(table).view().dom().union(
                        macs_before(nodes@, i + 1),
                    ));
                    assert forall|k: Seq<u8>| #[trigger] macs_before(nodes@, i + 1).contains(k) implies exists|j: int|
                        0 <= j < i + 1 && (#[trigger] nodes@[j]).eth_mac_addr is Some
                            && nodes@[j].eth_mac_addr->Some_0@ == k && open_port.ensures(
                            (&nodes@[j],),
                            table.view()[k],
                        ) && last_with(nodes@, k, j, i + 1) by {
                        if k != m@ {
                            assert(macs_before(nodes@, i as int).contains(k));
                            assert(table.view()[k] == before[k]);
                            let j = choose|j: int|
                                0 <= j < i && (#[trigger] nodes@[j]).eth_mac_addr is Some
                                    && nodes@[j].eth_mac_addr->Some_0@ == k && open_port.ensures(
                                    (&nodes@[j],),
                                    before[k],
                                ) && last_with(nodes@, k, j, i as int);
                            assert(last_with(nodes@, k, j, i + 1));
                        } else {
                            assert(nodes@[i as int].eth_mac_addr->Some_0@ == k);
                        }
                    }
                }
            },
            None => {
                proof {
                    assert(macs_before(nodes@, i + 1) =~= macs_before(nodes@, i as int));
                    assert forall|k: Seq<u8>| #[trigger] macs_before(nodes@, i + 1).contains(k) implies exists|j: int|
                        0 <= j < i + 1 && (#[trigger] nodes@[j]).eth_mac_addr is Some
                            && nodes@[j].eth_mac_addr->Some_0@ == k && open_port.ensures(
                            (&nodes@[j],),
                            table.view()[k],
                        ) && last_with(nodes@, k, j, i + 1) by {
                        let j = choose|j: int|
                            0 <= j < i && (#[trigger] nodes@[j]).eth_mac_addr is Some
                                && nodes@[j].eth_mac_addr->Some_0@ == k && open_port.ensures(
                                (&nodes@[j],),
                                table.view()[k],
                            ) && last_with(nodes@, k, j, i as int);
                        assert(last_with(nodes@, k, j, i + 1));
                    }
                }
            },
        }
        i += 1;
    }
}

/// Registers `self_addr` with the directory behind `client` and builds a
/// port table from the answer: one route per listed peer that carries an
/// Ethernet address, through a port opened for it by `open_port`. `None`
/// when the directory refuses the registration.
pub fn join_directory<M: MetaClient, H, F: Fn(&NodeInfo) -> (u64, H)>(
    client: &M,
    self_addr: &HostAddr,
    open_port: &F,
) -> (r: Option<PortTable<H>>)
    requires
        forall|n: &NodeInfo| open_port.requires((n,)),
    ensures
        r matches Some(t) ==> {
            &&& t.wf()
            &&& client.directory().contains_key(self_addr@)
            &&& t.view().dom() == macs_of(client.directory()[self_addr@])
            &&& forall|k: Seq<u8>|
                #[trigger] t.view().contains_key(k) ==> exists|i: int|
                    0 <= i < client.directory()[self_addr@].len()
                        && (#[trigger] client.directory()[self_addr@][i]).eth_mac_addr is Some
                        && client.directory()[self_addr@][i].eth_mac_addr->Some_0@ == k
                        && open_port.ensures((&client.directory()[self_addr@][i],), t.view()[k])
                        && last_with(
                        client.directory()[self_addr@],
                        k,
                        i,
                        client.directory()[self_addr@].len() as int,
                    )
        },
{
    match client.register(self_addr) {
        Some(nodes) => {
            let mut table: PortTable<H> = PortTable::new();
            register_peers(&mut table, &nodes, open_port);
            assert(table.view().dom() =~= macs_of(nodes@));
            Some(table)
        },
        None => None,
    }
}

} // verus!
