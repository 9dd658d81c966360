use crate::byteview::ByteView;
use vstd::prelude::*;
use vstd::string::StringExecFns;

verus! {

/// One cached record as the contracts see it: its key and its bytes.
pub type Entry = (Seq<char>, Seq<u8>);

/// The sum of the value lengths of `s`; keys are not counted.
pub open spec fn total_bytes(s: Seq<Entry>) -> nat
    decreases s.len(),
{
    if s.len() == 0 {
        0
    } else {
        total_bytes(s.drop_last()) + s.last().1.len()
    }
}

/// No key occurs twice.
pub open spec fn keys_unique(s: Seq<Entry>) -> bool {
    forall|i: int, j: int| 0 <= i < j < s.len() ==> #[trigger] s[i].0 != #[trigger] s[j].0
}

pub open spec fn has_key(s: Seq<Entry>, k: Seq<char>) -> bool {
    exists|i: int| 0 <= i < s.len() && #[trigger] s[i].0 == k
}

/// The position of `k` in `s`, if it is there.
pub open spec fn index_of(s: Seq<Entry>, k: Seq<char>) -> int {
    if has_key(s, k) {
        choose|i: int| 0 <= i < s.len() && #[trigger] s[i].0 == k
    } else {
        -1
    }
}

/// `s` with `k` (re)bound to `v` and moved to the active end.
pub open spec fn touched(s: Seq<Entry>, k: Seq<char>, v: Seq<u8>) -> Seq<Entry> {
    if has_key(s, k) {
        s.remove(index_of(s, k)).push((k, v))
    } else {
        s.push((k, v))
    }
}

/// What remains after removing entries from the eviction end while a
/// positive bound is exceeded.
pub open spec fn evicted(s: Seq<Entry>, max_bytes: nat) -> Seq<Entry>
    decreases s.len(),
{
    if max_bytes > 0 && total_bytes(s) > max_bytes && s.len() > 0 {
        evicted(s.drop_first(), max_bytes)
    } else {
        s
    }
}

pub proof fn lemma_total_concat(a: Seq<Entry>, b: Seq<Entry>)
    ensures
        total_bytes(a + b) == total_bytes(a) + total_bytes(b),
    decreases b.len(),
{
    if b.len() == 0 {
        assert(a + b =~= a);
    } else {
        lemma_total_concat(a, b.drop_last());
        assert((a + b).drop_last() =~= a + b.drop_last());
    }
}

pub proof fn lemma_total_remove(s: Seq<Entry>, i: int)
    requires
        0 <= i < s.len(),
    ensures
        total_bytes(s.remove(i)) + s[i].1.len() == total_bytes(s),
{
    let a = s.subrange(0, i);
    let b = s.subrange(i + 1, s.len() as int);
    let x = seq![s[i]];
    assert(s.remove(i) =~= a + b);
    assert(s =~= a + x + b);
    lemma_total_concat(a, b);
    lemma_total_concat(a + x, b);
    lemma_total_concat(a, x);
    assert(x.drop_last() =~= Seq::<Entry>::empty());
    assert(total_bytes(x.drop_last()) == 0);
    assert(total_bytes(x) == s[i].1.len());
}

pub proof fn lemma_index_of(s: Seq<Entry>, i: int)
    requires
        keys_unique(s),
        0 <= i < s.len(),
    ensures
        has_key(s, s[i].0),
        index_of(s, s[i].0) == i,
{
    assert(s[i].0 == s[i].0);
}

/// A freshly touched entry survives eviction when it fits the bound alone.
pub proof fn lemma_evicted_keeps_last(s: Seq<Entry>, max_bytes: nat)
    requires
        s.len() > 0,
        max_bytes == 0 || s.last().1.len() <= max_bytes,
    ensures
        evicted(s, max_bytes).len() > 0,
        evicted(s, max_bytes).last() == s.last(),
    decreases s.len(),
{
    if max_bytes > 0 && total_bytes(s) > max_bytes {
        if s.len() == 1 {
            assert(s.drop_last() =~= Seq::<Entry>::empty());
            assert(total_bytes(s.drop_last()) == 0);
        } else {
            assert(s.drop_first().last() == s.last());
            lemma_evicted_keeps_last(s.drop_first(), max_bytes);
            assert(evicted(s, max_bytes) == evicted(s.drop_first(), max_bytes));
        }
    }
}

/// Eviction removes a prefix.
pub proof fn lemma_evicted_suffix(s: Seq<Entry>, max_bytes: nat)
    ensures
        evicted(s, max_bytes).len() <= s.len(),
        evicted(s, max_bytes) =~= s.subrange(
            s.len() - evicted(s, max_bytes).len(),
            s.len() as int,
        ),
    decreases s.len(),
{
    if max_bytes > 0 && total_bytes(s) > max_bytes && s.len() > 0 {
        lemma_evicted_suffix(s.drop_first(), max_bytes);
    }
}

/// Capacity: whatever was inserted, eviction under a positive bound leaves
/// at most that many value bytes.
pub proof fn law_capacity(s: Seq<Entry>, max_bytes: nat)
    requires
        max_bytes > 0,
    ensures
        total_bytes(evicted(s, max_bytes)) <= max_bytes,
    decreases s.len(),
{
    if total_bytes(s) > max_bytes && s.len() > 0 {
        law_capacity(s.drop_first(), max_bytes);
    }
}

pub proof fn lemma_total_push(s: Seq<Entry>, e: Entry)
    ensures
        total_bytes(s.push(e)) == total_bytes(s) + e.1.len(),
{
    assert(s.push(e).drop_last() =~= s);
}

/// Touching keeps keys unique, puts the key at the active end, and changes
/// the byte total by the difference of the old and new value lengths.
pub proof fn lemma_touched(s: Seq<Entry>, k: Seq<char>, v: Seq<u8>)
    requires
        keys_unique(s),
    ensures
        keys_unique(touched(s, k, v)),
        touched(s, k, v).len() > 0,
        touched(s, k, v).last() == (k, v),
        has_key(s, k) ==> 0 <= index_of(s, k) < s.len() && s[index_of(s, k)].0 == k
            && total_bytes(touched(s, k, v)) + s[index_of(s, k)].1.len() == total_bytes(s)
            + v.len(),
        !has_key(s, k) ==> total_bytes(touched(s, k, v)) == total_bytes(s) + v.len(),
{
    let t = touched(s, k, v);
    if has_key(s, k) {
        let i = index_of(s, k);
        let r = s.remove(i);
        lemma_total_remove(s, i);
        lemma_total_push(r, (k, v));
        assert forall|a: int, b: int| 0 <= a < b < t.len() implies #[trigger] t[a].0
            != #[trigger] t[b].0 by {
            if a < i {
                assert(t[a] == s[a]);
            } else {
                assert(t[a] == s[a + 1]);
            }
            if b < t.len() - 1 {
                if b < i {
                    assert(t[b] == s[b]);
                } else {
                    assert(t[b] == s[b + 1]);
                }
            }
        }
    } else {
        lemma_total_push(s, (k, v));
        assert forall|a: int, b: int| 0 <= a < b < t.len() implies #[trigger] t[a].0
            != #[trigger] t[b].0 by {
            assert(t[a] == s[a]);
            if b == s.len() {
                assert(s[a].0 == s[a].0);
            }
        }
    }
}

pub proof fn lemma_unique_drop_first(s: Seq<Entry>)
    requires
        keys_unique(s),
        s.len() > 0,
    ensures
        keys_unique(s.drop_first()),
{
    let d = s.drop_first();
    assert forall|a: int, b: int| 0 <= a < b < d.len() implies #[trigger] d[a].0
        != #[trigger] d[b].0 by {
        assert(d[a] == s[a + 1] && d[b] == s[b + 1]);
    }
}

/// Recency: a touched key sits at the active end; eviction only ever removes
/// entries from the eviction end; and a key whose value fits the bound by
/// itself is still at the active end after the eviction that follows.
pub proof fn law_recency(s: Seq<Entry>, k: Seq<char>, v: Seq<u8>, max_bytes: nat)
    requires
        keys_unique(s),
    ensures
        touched(s, k, v).last() == (k, v),
        evicted(touched(s, k, v), max_bytes) =~= touched(s, k, v).subrange(
            touched(s, k, v).len() - evicted(touched(s, k, v), max_bytes).len(),
            touched(s, k, v).len() as int,
        ),
        max_bytes == 0 || v.len() <= max_bytes ==> evicted(touched(s, k, v), max_bytes).len() > 0
            && evicted(touched(s, k, v), max_bytes).last() == (k, v),
{
    lemma_touched(s, k, v);
    lemma_evicted_suffix(touched(s, k, v), max_bytes);
    if max_bytes == 0 || v.len() <= max_bytes {
        lemma_evicted_keeps_last(touched(s, k, v), max_bytes);
    }
}

/// A key whose value alone exceeds a positive bound does not survive its own
/// add: eviction removes it along with everything older.
pub proof fn law_oversize_evicted(s: Seq<Entry>, k: Seq<char>, v: Seq<u8>, max_bytes: nat)
    requires
        keys_unique(s),
        max_bytes > 0,
        v.len() > max_bytes,
    ensures
        !has_key(evicted(touched(s, k, v), max_bytes), k),
        evicted(touched(s, k, v), max_bytes).len() == 0,
{
    let t = touched(s, k, v);
    let e = evicted(t, max_bytes);
    lemma_touched(s, k, v);
    lemma_evicted_suffix(t, max_bytes);
    law_capacity(t, max_bytes);
    if e.len() > 0 {
        let off = t.len() - e.len();
        let sub = t.subrange(off, t.len() as int);
        assert(e.last() == sub[e.len() - 1]);
        assert(e.last() == t.last());
        assert(total_bytes(e) >= e.last().1.len());
    }
}

/// With no bound nothing is evicted: every key present before an add is
/// present after it, and so is the added key.
pub proof fn law_unbounded(s: Seq<Entry>, k: Seq<char>, v: Seq<u8>)
    requires
        keys_unique(s),
    ensures
        evicted(touched(s, k, v), 0) == touched(s, k, v),
        has_key(touched(s, k, v), k),
        forall|k2: Seq<char>| #[trigger] has_key(s, k2) ==> has_key(touched(s, k, v), k2),
{
    let t = touched(s, k, v);
    lemma_touched(s, k, v);
    assert(t[t.len() - 1].0 == k);
    assert forall|k2: Seq<char>| #[trigger] has_key(s, k2) implies has_key(t, k2) by {
        if k2 != k {
            let j = choose|j: int| 0 <= j < s.len() && #[trigger] s[j].0 == k2;
            if has_key(s, k) {
                let i = index_of(s, k);
                if j < i {
                    assert(t[j] == s[j]);
                } else {
                    assert(j != i);
                    assert(t[j - 1] == s[j]);
                }
            } else {
                assert(t[j] == s[j]);
            }
        }
    }
}

/// A key added with a value that fits the bound by itself is then found,
/// bound to that value, by the next lookup.
pub proof fn law_add_then_get(s: Seq<Entry>, k: Seq<char>, v: Seq<u8>, max_bytes: nat)
    requires
        keys_unique(s),
        max_bytes == 0 || v.len() <= max_bytes,
    ensures
        has_key(evicted(touched(s, k, v), max_bytes), k),
        evicted(touched(s, k, v), max_bytes)[index_of(evicted(touched(s, k, v), max_bytes), k)].1
            == v,
{
    let t = touched(s, k, v);
    let e = evicted(t, max_bytes);
    law_recency(s, k, v, max_bytes);
    lemma_touched(s, k, v);
    lemma_evicted_suffix(t, max_bytes);
    assert(keys_unique(e)) by {
        assert forall|a: int, b: int| 0 <= a < b < e.len() implies #[trigger] e[a].0
            != #[trigger] e[b].0 by {
            let off = t.len() - e.len();
            let sub = t.subrange(off, t.len() as int);
            assert(e[a] == sub[a] && e[b] == sub[b]);
            assert(e[a] == t[a + off] && e[b] == t[b + off]);
        }
    }
    lemma_index_of(e, e.len() - 1);
}

struct Node {
    key: String,
    value: ByteView,
}

/// A byte-bounded cache with least-recently-used eviction. Entries are kept
/// in recency order, the eviction end first and the active end last.
pub struct LRUCache {
    max_bytes: usize,
    current_bytes: usize,
    nodes: Vec<Node>,
}

impl View for LRUCache {
    type V = Seq<Entry>;

    closed spec fn view(&self) -> Seq<Entry> {
        self.nodes@.map_values(|n: Node| (n.key@, n.value@))
    }
}

impl LRUCache {
    /// The bound on the total value bytes; zero means unbounded.
    pub closed spec fn spec_max_bytes(&self) -> nat {
        self.max_bytes as nat
    }

    /// The total value bytes held, as tracked by the cache.
    pub closed spec fn spec_current_bytes(&self) -> nat {
        self.current_bytes as nat
    }

    /// Byte accounting, unique keys, and the bound when there is one.
    pub open spec fn wf(&self) -> bool {
        &&& self.spec_current_bytes() == total_bytes(self@)
        &&& keys_unique(self@)
        &&& self.spec_max_bytes() > 0 ==> self.spec_current_bytes() <= self.spec_max_bytes()
    }

    /// An empty cache; `max_bytes == 0` disables eviction.
    pub fn new(max_bytes: usize) -> (r: Self)
        ensures
            r.wf(),
            r@ == Seq::<Entry>::empty(),
            r.spec_max_bytes() == max_bytes,
    {
        let r = LRUCache { max_bytes, current_bytes: 0, nodes: Vec::new() };
        assert(r@ =~= Seq::<Entry>::empty());
        r
    }

    pub fn max_bytes(&self) -> (r: usize)
        ensures
            r == self.spec_max_bytes(),
    {
        self.max_bytes
    }

    pub fn current_bytes(&self) -> (r: usize)
        ensures
            r == self.spec_current_bytes(),
    {
        self.current_bytes
    }

    /// The number of entries held.
    pub fn len(&self) -> (r: usize)
        ensures
            r == self@.len(),
    {
        self.nodes.len()
    }

    fn find(&self, key: &str) -> (r: Option<usize>)
        requires
            self.wf(),
        ensures
            match r {
                Some(i) => i < self@.len() && self@[i as int].0 == key@ && has_key(self@, key@)
                    && index_of(self@, key@) == i,
                None => !has_key(self@, key@),
            },
    {
        let k = String::from_str(key);
        let mut i: usize = 0;
        while i < self.nodes.len()
            invariant
                self.wf(),
                k@ == key@,
                i <= self.nodes@.len(),
                forall|j: int| 0 <= j < i ==> #[trigger] self@[j].0 != key@,
            decreases self.nodes@.len() - i,
        {
            if self.nodes[i].key == k {
                proof {
                    lemma_index_of(self@, i as int);
                }
                return Some(i);
            }
            i = i + 1;
        }
        None
    }

    /// Looks `key` up; a hit moves it to the active end.
    pub fn get(&mut self, key: &str) -> (r: Option<ByteView>)
        requires
            old(self).wf(),
        ensures
            final(self).wf(),
            final(self).spec_max_bytes() == old(self).spec_max_bytes(),
            match r {
                Some(v) => {
                    &&& has_key(old(self)@, key@)
                    &&& v@ == old(self)@[index_of(old(self)@, key@)].1
                    &&& final(self)@ == touched(old(self)@, key@, v@)
                },
                None => !has_key(old(self)@, key@) && final(self)@ == old(self)@,
            },
    {
        match self.find(key) {
            None => None,
            Some(i) => {
                let ghost s = self@;
                let node = self.nodes.remove(i);
                let v = node.value.clone();
                self.nodes.push(node);
                proof {
                    lemma_touched(s, key@, v@);
                    assert(self@ =~= touched(s, key@, v@));
                }
                Some(v)
            },
        }
    }

    /// Binds `key` to `value` at the active end, then evicts from the
    /// eviction end while a positive bound is exceeded.
    pub fn add(&mut self, key: &str, value: ByteView)
        requires
            old(self).wf(),
            total_bytes(touched(old(self)@, key@, value@)) <= usize::MAX,
        ensures
            final(self).wf(),
            final(self).spec_max_bytes() == old(self).spec_max_bytes(),
            final(self)@ == evicted(
                touched(old(self)@, key@, value@),
                old(self).spec_max_bytes(),
            ),
    {
        let ghost s = self@;
        let ghost t = touched(s, key@, value@);
        proof {
            lemma_touched(s, key@, value@);
        }
        let new_len = value.len();
        match self.find(key) {
            Some(i) => {
                let mut node = self.nodes.remove(i);
                let old_len = node.value.len();
                node.value = value;
                self.nodes.push(node);
                assert(self@ =~= t);
                self.current_bytes = self.current_bytes - old_len + new_len;
            },
            None => {
                self.nodes.push(Node { key: String::from_str(key), value });
                assert(self@ =~= t);
                self.current_bytes = self.current_bytes + new_len;
            },
        }
        while self.max_bytes > 0 && self.current_bytes > self.max_bytes
            invariant
                self.current_bytes == total_bytes(self@),
                keys_unique(self@),
                evicted(self@, self.max_bytes as nat) == evicted(t, self.max_bytes as nat),
                self.max_bytes == old(self).max_bytes,
            decreases self.nodes@.len(),
        {
            let ghost c = self@;
            assert(c.len() > 0);
            let node = self.nodes.remove(0);
            proof {
                lemma_total_remove(c, 0);
                lemma_unique_drop_first(c);
                assert(self@ =~= c.drop_first());
            }
            self.current_bytes = self.current_bytes - node.value.len();
        }
    }
}

/// The LRU cache behind one point of exclusive access: every lookup and
/// every insertion takes `&mut self` for its whole duration.
pub struct Cache {
    lru: LRUCache,
}

impl View for Cache {
    type V = Seq<Entry>;

    closed spec fn view(&self) -> Seq<Entry> {
        self.lru@
    }
}

impl Cache {
    pub closed spec fn inner(&self) -> LRUCache {
        self.lru
    }

    pub open spec fn wf(&self) -> bool {
        &&& self.inner().wf()
        &&& self@ == self.inner()@
    }

    pub fn new(max_bytes: usize) -> (r: Self)
        ensures
            r.wf(),
            r@ == Seq::<Entry>::empty(),
            r.inner().spec_max_bytes() == max_bytes,
    {
        Cache { lru: LRUCache::new(max_bytes) }
    }

    pub fn current_bytes(&self) -> (r: usize)
        ensures
            r == self.inner().spec_current_bytes(),
    {
        self.lru.current_bytes()
    }

    /// As `LRUCache::get`.
    pub fn get(&mut self, key: &str) -> (r: Option<ByteView>)
        requires
            old(self).wf(),
        ensures
            final(self).wf(),
            final(self).inner().spec_max_bytes() == old(self).inner().spec_max_bytes(),
            match r {
                Some(v) => {
                    &&& has_key(old(self)@, key@)
                    &&& v@ == old(self)@[index_of(old(self)@, key@)].1
                    &&& final(self)@ == touched(old(self)@, key@, v@)
                },
                None => !has_key(old(self)@, key@) && final(self)@ == old(self)@,
            },
    {
        self.lru.get(key)
    }

    /// As `LRUCache::add`.
    pub fn add(&mut self, key: &str, value: ByteView)
        requires
            old(self).wf(),
            total_bytes(touched(old(self)@, key@, value@)) <= usize::MAX,
        ensures
            final(self).wf(),
            final(self).inner().spec_max_bytes() == old(self).inner().spec_max_bytes(),
            final(self)@ == evicted(
                touched(old(self)@, key@, value@),
                old(self).inner().spec_max_bytes(),
            ),
    {
        self.lru.add(key, value)
    }
}

} // verus!
