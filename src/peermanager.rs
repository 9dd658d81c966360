use crate::peer::{PeerClient, PeerPicker};
use std::collections::HashMap;
use vstd::prelude::*;
use vstd::std_specs::hash::{group_hash_axioms, obeys_key_model};
use vstd::string::StrSliceExecFns;
use vstd::utf8::encode_utf8;

verus! {

broadcast use group_hash_axioms;

/// The CRC-32 checksum of a byte sequence.
pub uninterp spec fn crc32_of(b: Seq<u8>) -> u32;

/// Relies on crc32fast::hash: the CRC-32 checksum of `b`, which depends on
/// the bytes alone.
#[verifier::external_body]
fn crc32_bytes(b: &[u8]) -> (r: u32)
    ensures
        r == crc32_of(b@),
{
    crc32fast::hash(b)
}

/// A hash function from bytes to ring positions.
pub trait KeyHasher {
    /// The position of `b`; it depends on `b` alone.
    spec fn hash_of(&self, b: Seq<u8>) -> usize;

    fn hash(&self, b: &[u8]) -> (r: usize)
        ensures
            r == self.hash_of(b@),
    ;
}

/// CRC-32 over the bytes, widened to `usize`.
pub struct Crc32Hasher;

impl KeyHasher for Crc32Hasher {
    open spec fn hash_of(&self, b: Seq<u8>) -> usize {
        crc32_of(b) as usize
    }

    fn hash(&self, b: &[u8]) -> (r: usize) {
        crc32_bytes(b) as usize
    }
}

/// The ring position of a key: the hash of its UTF-8 bytes.
pub open spec fn key_hash<H: KeyHasher>(h: H, s: Seq<char>) -> usize {
    h.hash_of(encode_utf8(s))
}

/// The ASCII decimal digits of `n`.
pub open spec fn decimal_bytes(n: nat) -> Seq<u8>
    decreases n,
{
    if n < 10 {
        seq![(48 + n) as u8]
    } else {
        decimal_bytes(n / 10).push((48 + n % 10) as u8)
    }
}

/// The label of replica `r` of the peer at `url`: `"<url> <r>"`, as bytes.
pub open spec fn vnode_label(url: Seq<char>, r: nat) -> Seq<u8> {
    encode_utf8(url) + seq![32u8] + decimal_bytes(r)
}

pub open spec fn vnode_hash<H: KeyHasher>(h: H, url: Seq<char>, r: nat) -> usize {
    h.hash_of(vnode_label(url, r))
}

/// The first `r` virtual nodes of peer `peer`, as (hash, peer index) pairs.
pub open spec fn replica_nodes<H: KeyHasher>(
    h: H,
    url: Seq<char>, peer: usize, r: nat) -> Seq<(usize, usize)>
    decreases r,
{
    if r == 0 {
        Seq::empty()
    } else {
        replica_nodes(h, url, peer, (r - 1) as nat).push((vnode_hash(h, url, (r - 1) as nat), peer))
    }
}

/// All virtual nodes of the topology, peer by peer, replica by replica.
pub open spec fn virtual_nodes<H: KeyHasher>(h: H, urls: Seq<Seq<char>>, replicas: nat) -> Seq<(usize, usize)>
    decreases urls.len(),
{
    if urls.len() == 0 {
        Seq::empty()
    } else {
        virtual_nodes(h, urls.drop_last(), replicas) + replica_nodes(
            h,
            urls.last(),
            (urls.len() - 1) as usize,
            replicas,
        )
    }
}

/// The hash-to-peer map: a later virtual node overwrites an earlier one
/// with the same hash.
pub open spec fn ring_map(vs: Seq<(usize, usize)>) -> Map<usize, usize>
    decreases vs.len(),
{
    if vs.len() == 0 {
        Map::empty()
    } else {
        ring_map(vs.drop_last()).insert(vs.last().0, vs.last().1)
    }
}

/// `w` is the ring successor of `h` among `dom`: the least element not below
/// `h`, or, when every element is below `h`, the least element.
pub open spec fn is_successor(dom: Set<usize>, h: usize, w: usize) -> bool {
    &&& dom.contains(w)
    &&& if exists|u: usize| dom.contains(u) && u >= h {
        w >= h && forall|u: usize| dom.contains(u) && u >= h ==> w <= u
    } else {
        forall|u: usize| dom.contains(u) ==> w <= u
    }
}

pub open spec fn successor(dom: Set<usize>, h: usize) -> usize {
    choose|w: usize| is_successor(dom, h, w)
}

/// The index of the peer that owns hash `h` in the ring map `m`.
pub open spec fn owner_of(m: Map<usize, usize>, h: usize) -> usize {
    m[successor(m.dom(), h)]
}

/// The hashes of a list of virtual nodes, in order.
pub open spec fn node_hashes(vs: Seq<(usize, usize)>) -> Seq<usize> {
    vs.map_values(|e: (usize, usize)| e.0)
}

proof fn lemma_replica_nodes_len<H: KeyHasher>(h: H, url: Seq<char>, peer: usize, r: nat)
    ensures
        replica_nodes(h, url, peer, r).len() == r,
    decreases r,
{
    if r > 0 {
        lemma_replica_nodes_len(h, url, peer, (r - 1) as nat);
    }
}

/// There is one virtual node per peer and replica.
pub proof fn lemma_virtual_nodes_len<H: KeyHasher>(h: H, urls: Seq<Seq<char>>, replicas: nat)
    ensures
        virtual_nodes(h, urls, replicas).len() == urls.len() * replicas,
    decreases urls.len(),
{
    if urls.len() > 0 {
        lemma_virtual_nodes_len(h, urls.drop_last(), replicas);
        lemma_replica_nodes_len(h, urls.last(), (urls.len() - 1) as usize, replicas);
        let n = urls.len() as int;
        let r = replicas as int;
        assert((n - 1) * r + r == n * r) by (nonlinear_arith);
    }
}

pub open spec fn sorted(s: Seq<usize>) -> bool {
    forall|i: int, j: int| 0 <= i <= j < s.len() ==> s[i] <= s[j]
}

pub open spec fn urls_of<C>(peers: Seq<(String, Option<C>)>) -> Seq<Seq<char>> {
    peers.map_values(|e: (String, Option<C>)| e.0@)
}

proof fn lemma_successor_unique(dom: Set<usize>, h: usize, w: usize)
    requires
        is_successor(dom, h, w),
    ensures
        successor(dom, h) == w,
{
    let c = successor(dom, h);
    assert(is_successor(dom, h, c));
    assert(c <= w && w <= c);
}

/// The successor found by scanning a sorted sequence from position `i`,
/// below which every element is smaller than `h`.
proof fn lemma_scan(s: Seq<usize>, dom: Set<usize>, h: usize, i: int) -> (w: usize)
    requires
        sorted(s),
        s.len() > 0,
        forall|v: usize| dom.contains(v) <==> s.contains(v),
        0 <= i <= s.len(),
        forall|j: int| 0 <= j < i ==> s[j] < h,
    ensures
        is_successor(dom, h, w),
        i < s.len() && s[i] >= h ==> w == s[i],
        i == s.len() ==> w == s[0],
    decreases s.len() - i,
{
    if i == s.len() {
        assert(s.contains(s[0]));
        assert forall|u: usize| dom.contains(u) implies s[0] <= u by {
            let j = choose|j: int| 0 <= j < s.len() && s[j] == u;
        }
        assert forall|u: usize| dom.contains(u) implies u < h by {
            let j = choose|j: int| 0 <= j < s.len() && s[j] == u;
        }
        s[0]
    } else if s[i] >= h {
        assert(s.contains(s[i]));
        assert forall|u: usize| dom.contains(u) && u >= h implies s[i] <= u by {
            let j = choose|j: int| 0 <= j < s.len() && s[j] == u;
            if j < i {
            } else {
            }
        }
        s[i]
    } else {
        lemma_scan(s, dom, h, i + 1)
    }
}

/// Appends the ASCII decimal digits of `n` to `out`.
fn push_decimal(out: &mut Vec<u8>, n: u32)
    ensures
        final(out)@ == old(out)@ + decimal_bytes(n as nat),
    decreases n,
{
    if n >= 10 {
        push_decimal(out, n / 10);
    }
    let d: u8 = (n % 10) as u8;
    out.push(48u8 + d);
    assert(final(out)@ =~= old(out)@ + decimal_bytes(n as nat));
}

/// Inserts `h` into the sorted vector `nodes` at its place.
fn insert_sorted(nodes: &mut Vec<usize>, h: usize)
    requires
        sorted(old(nodes)@),
    ensures
        sorted(final(nodes)@),
        final(nodes)@.len() == old(nodes)@.len() + 1,
        forall|v: usize| final(nodes)@.contains(v) <==> (old(nodes)@.contains(v) || v == h),
        final(nodes)@.to_multiset() == old(nodes)@.to_multiset().insert(h),
{
    let mut i: usize = 0;
    while i < nodes.len() && nodes[i] < h
        invariant
            i <= nodes@.len(),
            forall|j: int| 0 <= j < i ==> nodes@[j] < h,
        decreases nodes@.len() - i,
    {
        i = i + 1;
    }
    let ghost s = nodes@;
    nodes.insert(i, h);
    let ghost t = nodes@;
    assert(t =~= s.insert(i as int, h));
    proof {
        vstd::seq_lib::to_multiset_insert(s, i as int, h);
    }
    assert forall|a: int, b: int| 0 <= a <= b < t.len() implies t[a] <= t[b] by {
        if a < i {
            if b < i {
            } else if b == i {
            } else {
                assert(t[b] == s[b - 1]);
            }
        } else if a == i {
            if b > i {
                assert(t[b] == s[b - 1]);
                assert(s[i as int] >= h);
            }
        } else {
            assert(t[a] == s[a - 1] && t[b] == s[b - 1]);
        }
    }
    assert forall|v: usize| t.contains(v) <==> (s.contains(v) || v == h) by {
        if t.contains(v) {
            let j = choose|j: int| 0 <= j < t.len() && t[j] == v;
            if j < i {
                assert(s[j] == v);
            } else if j > i {
                assert(s[j - 1] == v);
            }
        }
        if s.contains(v) {
            let j = choose|j: int| 0 <= j < s.len() && s[j] == v;
            if j < i {
                assert(t[j] == v);
            } else {
                assert(t[j + 1] == v);
            }
        }
        if v == h {
            assert(t[i as int] == h);
        }
    }
}

/// The ports of a fleet of `total` peers on consecutive ports, seen from the
/// peer at position `index` listening on `port`, each with whether it is
/// that peer itself.
pub fn topology_ports(port: i32, index: i32, total: i32) -> (r: Vec<(i32, bool)>)
    requires
        0 <= index < total,
        port - index >= i32::MIN,
        port - index + total <= i32::MAX,
    ensures
        r@.len() == total,
        forall|i: int|
            0 <= i < total ==> #[trigger] r@[i].0 == port - index + i && r@[i].1 == (i == index),
{
    let base = port - index;
    let mut r: Vec<(i32, bool)> = Vec::new();
    let mut i: i32 = 0;
    while i < total
        invariant
            0 <= i <= total,
            base == port - index,
            base + total <= i32::MAX,
            r@.len() == i,
            forall|j: int| 0 <= j < i ==> #[trigger] r@[j].0 == base + j && r@[j].1 == (j == index),
        decreases total - i,
    {
        let ghost before = r@;
        r.push((base + i, i == index));
        assert forall|j: int| 0 <= j < i + 1 implies #[trigger] r@[j].0 == base + j && r@[j].1 == (j
            == index) by {
            if j < i {
                assert(r@[j] == before[j]);
            }
        }
        i = i + 1;
    }
    r
}

/// A consistent-hash ring over a fixed topology of peers. Each peer is
/// placed under several virtual nodes; a key belongs to the peer of the first
/// virtual node at or after the key's hash, wrapping around.
pub struct PeerSicker<C, H> {
    hasher: H,
    nodes: Vec<usize>,
    map: HashMap<usize, usize>,
    peers: Vec<(String, Option<C>)>,
}

impl<C: PeerClient, H: KeyHasher> PeerSicker<C, H> {
    /// The hash function placing keys and virtual nodes.
    pub closed spec fn spec_hasher(&self) -> H {
        self.hasher
    }

    /// The hash-to-peer map.
    pub closed spec fn spec_map(&self) -> Map<usize, usize> {
        self.map@
    }

    /// The ring positions, ascending, one per virtual node.
    pub closed spec fn spec_nodes(&self) -> Seq<usize> {
        self.nodes@
    }

    /// The topology, in the order it was given.
    pub closed spec fn spec_peers(&self) -> Seq<(String, Option<C>)> {
        self.peers@
    }

    /// The index of the peer owning `key`.
    pub open spec fn spec_owner(&self, key: Seq<char>) -> usize {
        owner_of(self.spec_map(), key_hash(self.spec_hasher(), key))
    }

    pub closed spec fn wf(&self) -> bool {
        &&& sorted(self.nodes@)
        &&& self.nodes@.len() > 0
        &&& forall|v: usize| self.map@.dom().contains(v) <==> self.nodes@.contains(v)
        &&& forall|v: usize| #[trigger]
            self.map@.dom().contains(v) ==> self.map@[v] < self.peers@.len()
    }

    /// Builds the ring: for every peer and every replica index `r` below
    /// `replicas`, the label `"<url> <r>"` is hashed and mapped to the peer.
    pub fn new(hasher: H, replicas: u32, peers: Vec<(String, Option<C>)>) -> (r: Self)
        requires
            replicas >= 1,
            peers@.len() >= 1,
        ensures
            r.wf(),
            r.spec_peers() == peers@,
            r.spec_hasher() == hasher,
            r.spec_map() == ring_map(virtual_nodes(hasher, urls_of(peers@), replicas as nat)),
            sorted(r.spec_nodes()),
            r.spec_nodes().to_multiset() == node_hashes(
                virtual_nodes(hasher, urls_of(peers@), replicas as nat),
            ).to_multiset(),
            r.spec_nodes().len() == peers@.len() * replicas,
    {
        let mut map: HashMap<usize, usize> = HashMap::new();
        let mut nodes: Vec<usize> = Vec::new();
        let ghost urls = urls_of(peers@);
        let mut p: usize = 0;
        assert(node_hashes(virtual_nodes(hasher, urls.take(0), replicas as nat)) =~= Seq::<usize>::empty());
        assert(nodes@ =~= Seq::<usize>::empty());
        while p < peers.len()
            invariant
                p <= peers@.len(),
                urls == urls_of(peers@),
                replicas >= 1,
                sorted(nodes@),
                p > 0 ==> nodes@.len() > 0,
                forall|v: usize| map@.dom().contains(v) <==> nodes@.contains(v),
                forall|v: usize| #[trigger] map@.dom().contains(v) ==> map@[v] < p,
                map@ == ring_map(virtual_nodes(hasher, urls.take(p as int), replicas as nat)),
                nodes@.to_multiset() == node_hashes(
                    virtual_nodes(hasher, urls.take(p as int), replicas as nat),
                ).to_multiset(),
            decreases peers@.len() - p,
        {
            let url_bytes = peers[p].0.as_str().as_bytes_vec();
            let ghost base = virtual_nodes(hasher, urls.take(p as int), replicas as nat);
            assert(urls.take(p as int + 1).drop_last() =~= urls.take(p as int));
            assert(urls[p as int] == peers@[p as int].0@);
            let mut r: u32 = 0;
            assert(base + replica_nodes(hasher, urls[p as int], p, 0) =~= base);
            while r < replicas
                invariant
                    p < peers@.len(),
                    r <= replicas,
                    url_bytes@ == encode_utf8(urls[p as int]),
                    sorted(nodes@),
                    p > 0 || r > 0 ==> nodes@.len() > 0,
                    forall|v: usize| map@.dom().contains(v) <==> nodes@.contains(v),
                    forall|v: usize| #[trigger] map@.dom().contains(v) ==> map@[v] <= p,
                    map@ == ring_map(base + replica_nodes(hasher, urls[p as int], p, r as nat)),
                    nodes@.to_multiset() == node_hashes(
                        base + replica_nodes(hasher, urls[p as int], p, r as nat),
                    ).to_multiset(),
                decreases replicas - r,
            {
                let mut label = url_bytes.clone();
                label.push(32u8);
                push_decimal(&mut label, r);
                assert(label@ =~= vnode_label(urls[p as int], r as nat));
                let hashed = hasher.hash(label.as_slice());
                let ghost before = base + replica_nodes(hasher, urls[p as int], p, r as nat);
                let ghost after = base + replica_nodes(hasher, urls[p as int], p, (r + 1) as nat);
                assert(after =~= before.push((hashed, p)));
                assert(after.drop_last() =~= before);
                assert(node_hashes(after) =~= node_hashes(before).push(hashed));
                proof {
                    vstd::seq_lib::to_multiset_build(node_hashes(before), hashed);
                }
                insert_sorted(&mut nodes, hashed);
                map.insert(hashed, p);
                r = r + 1;
            }
            p = p + 1;
        }
        assert(urls.take(peers@.len() as int) =~= urls);
        proof {
            lemma_virtual_nodes_len(hasher, urls, replicas as nat);
            vstd::seq_lib::to_multiset_len(nodes@);
            vstd::seq_lib::to_multiset_len(node_hashes(virtual_nodes(hasher, urls, replicas as nat)));
        }
        PeerSicker { hasher, nodes, map, peers }
    }

    /// The index of the peer that owns `key`.
    pub fn pick_owner(&self, key: &str) -> (r: usize)
        requires
            self.wf(),
        ensures
            r == self.spec_owner(key@),
            r < self.spec_peers().len(),
    {
        let hashed = self.hasher.hash(key.as_bytes());
        let mut idx: usize = 0;
        let mut hi: usize = self.nodes.len();
        while idx < hi
            invariant
                idx <= hi <= self.nodes@.len(),
                sorted(self.nodes@),
                forall|j: int| 0 <= j < idx ==> self.nodes@[j] < hashed,
                forall|j: int| hi <= j < self.nodes@.len() ==> self.nodes@[j] >= hashed,
            decreases hi - idx,
        {
            let mid = idx + (hi - idx) / 2;
            if self.nodes[mid] < hashed {
                idx = mid + 1;
            } else {
                hi = mid;
            }
        }
        proof {
            let w = lemma_scan(self.nodes@, self.map@.dom(), hashed, idx as int);
            lemma_successor_unique(self.map@.dom(), hashed, w);
        }
        if idx >= self.nodes.len() {
            idx = 0;
        }
        let node = self.nodes[idx];
        assert(self.nodes@.contains(node));
        match self.map.get(&node) {
            Some(owner) => *owner,
            None => 0,
        }
    }

    /// The client of the peer owning `key`, or `None` when that peer is the
    /// local one.
    pub fn pick_peer(&self, key: &str) -> (r: Option<&C>)
        requires
            self.wf(),
        ensures
            match self.spec_peers()[self.spec_owner(key@) as int].1 {
                Some(c) => r == Some(&c),
                None => r.is_none(),
            },
            self.spec_owner(key@) < self.spec_peers().len(),
    {
        let owner = self.pick_owner(key);
        self.peers[owner].1.as_ref()
    }

    /// The number of peers in the topology.
    pub fn peer_count(&self) -> (r: usize)
        ensures
            r == self.spec_peers().len(),
    {
        self.peers.len()
    }

    /// Every key has an owner: the successor of its hash exists on the ring,
    /// and it belongs to a peer of the topology.
    pub proof fn law_coverage(&self, key: Seq<char>)
        requires
            self.wf(),
        ensures
            is_successor(
                self.spec_map().dom(),
                key_hash(self.spec_hasher(), key),
                successor(self.spec_map().dom(), key_hash(self.spec_hasher(), key)),
            ),
            self.spec_owner(key) < self.spec_peers().len(),
    {
        let h = key_hash(self.spec_hasher(), key);
        let w = lemma_scan(self.nodes@, self.map@.dom(), h, 0);
        lemma_successor_unique(self.map@.dom(), h, w);
    }
}

impl<C: PeerClient, H: KeyHasher> PeerPicker<C> for PeerSicker<C, H> {
    closed spec fn ready(&self) -> bool {
        self.wf()
    }

    fn pick_peer(&self, key: &str) -> Option<&C> {
        PeerSicker::pick_peer(self, key)
    }
}

/// Rings built with the same hash function from the same topology URLs, in
/// the same order, with the same replica count assign every key to the same
/// peer index.
pub proof fn law_ring_determinism<C: PeerClient, H: KeyHasher>(
    hasher: H,
    a: PeerSicker<C, H>,
    b: PeerSicker<C, H>,
    urls: Seq<Seq<char>>,
    replicas: nat,
    key: Seq<char>,
)
    requires
        a.spec_hasher() == hasher,
        b.spec_hasher() == hasher,
        a.spec_map() == ring_map(virtual_nodes(hasher, urls, replicas)),
        b.spec_map() == ring_map(virtual_nodes(hasher, urls, replicas)),
    ensures
        a.spec_owner(key) == b.spec_owner(key),
{
}

} // verus!
