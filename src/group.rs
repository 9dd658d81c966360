use crate::byteview::ByteView;
use crate::cache::{
    evicted, has_key, index_of, keys_unique, lemma_touched, total_bytes, touched, Cache, Entry,
};
use crate::dbgetter::DbGetter;
use crate::peer::PeerClient;
use crate::peermanager::{KeyHasher, PeerSicker};
use std::sync::Arc;
use vstd::prelude::*;
use vstd::string::StringExecFns;

verus! {

/// A named cache that reads through to the key's owning peer or to the
/// loader on a miss.
pub struct Group<L: DbGetter, C: PeerClient, H: KeyHasher> {
    name: String,
    db_getter: Arc<L>,
    peer_picker: Option<Arc<PeerSicker<C, H>>>,
    cache: Cache,
}

impl<L: DbGetter, C: PeerClient, H: KeyHasher> Group<L, C, H> {
    pub closed spec fn spec_name(&self) -> Seq<char> {
        self.name@
    }

    /// The cache contents, eviction end first.
    pub closed spec fn spec_cache(&self) -> Seq<Entry> {
        self.cache@
    }

    pub closed spec fn spec_max_bytes(&self) -> nat {
        self.cache.inner().spec_max_bytes()
    }

    /// The backing store.
    pub closed spec fn spec_loader(&self) -> L {
        *self.db_getter
    }

    pub closed spec fn spec_picker(&self) -> Option<PeerSicker<C, H>> {
        match self.peer_picker {
            Some(p) => Some(*p),
            None => None,
        }
    }

    pub closed spec fn wf(&self) -> bool {
        &&& self.cache.wf()
        &&& match self.peer_picker {
            Some(p) => p.wf(),
            None => true,
        }
    }

    /// A miss on `key` goes to another peer: the ring gives it to a peer
    /// with a client.
    pub open spec fn routes_remote(&self, key: Seq<char>) -> bool {
        &&& key.len() > 0
        &&& !has_key(self.spec_cache(), key)
        &&& match self.spec_picker() {
            Some(p) => p.spec_peers()[p.spec_owner(key) as int].1.is_some(),
            None => false,
        }
    }

    /// The client of the peer that owns `key`, when the group forwards it.
    pub open spec fn owner_client(&self, key: Seq<char>) -> C {
        let p = self.spec_picker()->Some_0;
        p.spec_peers()[p.spec_owner(key) as int].1->Some_0
    }

    /// The cache of a well-formed group holds each key at most once.
    pub proof fn lemma_cache_keys_unique(&self)
        requires
            self.wf(),
        ensures
            keys_unique(self.spec_cache()),
    {
    }

    /// A miss on `key` is loaded here: there is no picker, or the ring gives
    /// the key to the local peer.
    pub open spec fn routes_local(&self, key: Seq<char>) -> bool {
        &&& key.len() > 0
        &&& !has_key(self.spec_cache(), key)
        &&& !self.routes_remote(key)
    }

    /// The cache after a locally loaded `v` for `key` has been offered to it:
    /// installed when the byte count can hold it.
    pub open spec fn cache_after_load(&self, key: Seq<char>, v: Seq<u8>) -> Seq<Entry> {
        if total_bytes(self.spec_cache()) + v.len() <= usize::MAX {
            evicted(touched(self.spec_cache(), key, v), self.spec_max_bytes())
        } else {
            self.spec_cache()
        }
    }

    /// What a `get` of `key` leaves and returns, as far as it does not
    /// depend on a remote peer or the loader.
    pub open spec fn get_post(
        &self,
        after: &Self,
        key: Seq<char>,
        r: Result<ByteView, String>,
    ) -> bool {
        &&& after.wf()
        &&& keys_unique(after.spec_cache())
        &&& after.spec_name() == self.spec_name()
        &&& after.spec_loader() == self.spec_loader()
        &&& after.spec_max_bytes() == self.spec_max_bytes()
        &&& after.spec_picker() == self.spec_picker()
        &&& key.len() == 0 ==> after.spec_cache() == self.spec_cache() && r is Err
            && r->Err_0@ == "key is empty"@
        &&& key.len() > 0 && has_key(self.spec_cache(), key) ==> {
            &&& r is Ok
            &&& r->Ok_0@ == self.spec_cache()[index_of(self.spec_cache(), key)].1
            &&& after.spec_cache() == touched(self.spec_cache(), key, r->Ok_0@)
        }
        &&& self.routes_remote(key) ==> after.spec_cache() == self.spec_cache()
            && self.owner_client(key).answers(self.spec_name(), key, r)
        &&& self.routes_local(key) ==> self.spec_loader().answers(self.spec_name(), key, r)
        &&& self.routes_local(key) ==> match r {
            Ok(v) => after.spec_cache() == self.cache_after_load(key, v@),
            Err(_) => after.spec_cache() == self.spec_cache(),
        }
    }

    /// Whether the group is named `n`.
    pub fn name_eq(&self, n: &String) -> (r: bool)
        ensures
            r == (self.spec_name() == n@),
    {
        self.name == *n
    }

    /// A group with an empty cache bounded by `max_bytes` and no picker.
    pub fn new(name: String, db_getter: Arc<L>, max_bytes: usize) -> (r: Self)
        ensures
            r.wf(),
            r.spec_name() == name@,
            r.spec_cache() == Seq::<Entry>::empty(),
            r.spec_max_bytes() == max_bytes,
            r.spec_picker().is_none(),
    {
        Group { name, db_getter, peer_picker: None, cache: Cache::new(max_bytes) }
    }

    /// Sets or replaces the ring used to find a key's owner.
    pub fn register_peer(&mut self, picker: Arc<PeerSicker<C, H>>) -> (r: Result<(), String>)
        requires
            old(self).wf(),
            picker.wf(),
        ensures
            r is Ok,
            final(self).wf(),
            final(self).spec_picker() == Some(*picker),
            final(self).spec_loader() == old(self).spec_loader(),
            final(self).spec_name() == old(self).spec_name(),
            final(self).spec_cache() == old(self).spec_cache(),
            final(self).spec_max_bytes() == old(self).spec_max_bytes(),
    {
        self.peer_picker = Some(picker);
        Ok(())
    }

    /// Takes what the loader answered for `key` and gives it back unchanged;
    /// a loaded value is offered to the cache, an error leaves it as it is.
    pub fn install_loaded(&mut self, key: &str, loaded: Result<ByteView, String>) -> (r: Result<
        ByteView,
        String,
    >)
        requires
            old(self).wf(),
        ensures
            r == loaded,
            final(self).wf(),
            final(self).spec_name() == old(self).spec_name(),
            final(self).spec_max_bytes() == old(self).spec_max_bytes(),
            final(self).spec_picker() == old(self).spec_picker(),
            final(self).spec_loader() == old(self).spec_loader(),
            match loaded {
                Ok(v) => final(self).spec_cache() == old(self).cache_after_load(key@, v@),
                Err(_) => final(self).spec_cache() == old(self).spec_cache(),
            },
    {
        match loaded {
            Ok(view) => {
                let n = view.len();
                if self.cache.current_bytes() <= usize::MAX - n {
                    proof {
                        lemma_touched(self.cache@, key@, view@);
                    }
                    self.cache.add(key, view.clone());
                }
                Ok(view)
            },
            Err(err) => Err(err),
        }
    }

    /// Asks the backing store for `key` and installs its answer.
    fn get_locally(&mut self, key: &str) -> (r: Result<ByteView, String>)
        requires
            old(self).wf(),
        ensures
            final(self).wf(),
            final(self).spec_name() == old(self).spec_name(),
            final(self).spec_max_bytes() == old(self).spec_max_bytes(),
            final(self).spec_picker() == old(self).spec_picker(),
            final(self).spec_loader() == old(self).spec_loader(),
            old(self).spec_loader().answers(old(self).spec_name(), key@, r),
            match r {
                Ok(v) => final(self).spec_cache() == old(self).cache_after_load(key@, v@),
                Err(_) => final(self).spec_cache() == old(self).spec_cache(),
            },
    {
        let loaded = self.db_getter.get_data(self.name.as_str(), key);
        self.install_loaded(key, loaded)
    }

    /// Reads `key` through the cache: a hit is returned; a miss owned by
    /// another peer is fetched from it and not cached here; any other miss is
    /// loaded locally and cached.
    pub fn get(&mut self, key: &str) -> (r: Result<ByteView, String>)
        requires
            old(self).wf(),
        ensures
            old(self).get_post(final(self), key@, r),
    {
        if key.is_empty() {
            let e = String::from_str("key is empty");
            proof {
                reveal_strlit("key is empty");
            }
            return Err(e);
        }
        assert(key@.len() > 0);
        if let Some(res) = self.cache.get(key) {
            return Ok(res);
        }
        if let Some(picker) = &self.peer_picker {
            if let Some(client) = picker.pick_peer(key) {
                return client.get_from_remote(self.name.as_str(), key);
            }
        }
        self.get_locally(key)
    }
}

/// Read-through: after a miss that was loaded locally with a value that fits
/// the bound, the next `get` of the key is a hit that returns the same bytes,
/// so it neither forwards nor loads again.
pub proof fn law_read_through<L: DbGetter, C: PeerClient, H: KeyHasher>(
    g1: Group<L, C, H>,
    g2: Group<L, C, H>,
    g3: Group<L, C, H>,
    key: Seq<char>,
    v: ByteView,
    r: Result<ByteView, String>,
)
    requires
        g1.wf(),
        g1.routes_local(key),
        g1.get_post(&g2, key, Ok(v)),
        total_bytes(g1.spec_cache()) + v@.len() <= usize::MAX,
        g1.spec_max_bytes() == 0 || v@.len() <= g1.spec_max_bytes(),
        g2.get_post(&g3, key, r),
    ensures
        has_key(g2.spec_cache(), key),
        !g2.routes_local(key),
        !g2.routes_remote(key),
        r is Ok,
        r->Ok_0@ == v@,
{
    crate::cache::law_add_then_get(g1.spec_cache(), key, v@, g1.spec_max_bytes());
}

/// When the ring gives a missed key to the local peer, the result is the
/// loader's answer for this group and key, and a loaded value is what the
/// cache is offered.
pub proof fn law_local_owner<L: DbGetter, C: PeerClient, H: KeyHasher>(
    g: Group<L, C, H>,
    after: Group<L, C, H>,
    key: Seq<char>,
    r: Result<ByteView, String>,
)
    requires
        key.len() > 0,
        !has_key(g.spec_cache(), key),
        g.spec_picker() is Some,
        g.spec_picker()->Some_0.spec_peers()[g.spec_picker()->Some_0.spec_owner(key) as int].1 is None,
        g.get_post(&after, key, r),
    ensures
        g.routes_local(key),
        g.spec_loader().answers(g.spec_name(), key, r),
        r is Ok ==> after.spec_cache() == g.cache_after_load(key, r->Ok_0@),
{
}

/// When the ring gives a missed key to a peer with a client, the result is
/// that client's answer for this group and key, and nothing is cached here.
pub proof fn law_remote_forwarding<L: DbGetter, C: PeerClient, H: KeyHasher>(
    g: Group<L, C, H>,
    after: Group<L, C, H>,
    key: Seq<char>,
    r: Result<ByteView, String>,
)
    requires
        key.len() > 0,
        !has_key(g.spec_cache(), key),
        g.spec_picker() is Some,
        g.spec_picker()->Some_0.spec_peers()[g.spec_picker()->Some_0.spec_owner(key) as int].1 is Some,
        g.get_post(&after, key, r),
    ensures
        g.routes_remote(key),
        !g.routes_local(key),
        g.owner_client(key).answers(g.spec_name(), key, r),
        after.spec_cache() == g.spec_cache(),
{
}

} // verus!
