use ocache::byteview::ByteView;
use ocache::dbgetter::DbGetter;
use ocache::group::Group;
use ocache::groupmanager::GroupManager;
use ocache::memdb::HashMapDbGetter;
use ocache::peer::PeerClient;
use ocache::peermanager::{Crc32Hasher, PeerSicker};
use std::cell::Cell;
use std::sync::Arc;

struct CountingDb {
    calls: Cell<usize>,
}

impl DbGetter for CountingDb {
    fn get_data(&self, group_name: &str, key: &str) -> Result<ByteView, String> {
        self.calls.set(self.calls.get() + 1);
        if key == "missing" {
            return Err(format!("No such key: {}", key));
        }
        Ok(ByteView::from_string(format!("{}:{}", group_name, key)))
    }
}

struct Remote {
    calls: Cell<usize>,
}

impl PeerClient for Remote {
    fn get_from_remote(&self, group: &str, key: &str) -> Result<ByteView, String> {
        self.calls.set(self.calls.get() + 1);
        Ok(ByteView::from_string(format!("remote {}/{}", group, key)))
    }
    fn is_active(&self) -> bool {
        true
    }
}

fn text(v: ByteView) -> String {
    String::from_utf8(v.into_bytes()).unwrap()
}

fn counting() -> Arc<CountingDb> {
    Arc::new(CountingDb { calls: Cell::new(0) })
}

#[test]
fn group_rejects_empty_key() {
    let mut g: Group<CountingDb, Remote, Crc32Hasher> = Group::new("Scores".to_string(), counting(), 64);
    assert_eq!(g.get("").err().unwrap(), "key is empty");
}

#[test]
fn group_read_through_loads_once() {
    let db = counting();
    let mut g: Group<CountingDb, Remote, Crc32Hasher> = Group::new("Scores".to_string(), db.clone(), 64);
    let first = text(g.get("mxy").unwrap());
    let second = text(g.get("mxy").unwrap());
    assert_eq!(first, "Scores:mxy");
    assert_eq!(first, second);
    assert_eq!(db.calls.get(), 1);
}

#[test]
fn group_loader_error_is_not_cached() {
    let db = counting();
    let mut g: Group<CountingDb, Remote, Crc32Hasher> = Group::new("Scores".to_string(), db.clone(), 64);
    assert_eq!(g.get("missing").err().unwrap(), "No such key: missing");
    assert_eq!(g.get("missing").err().unwrap(), "No such key: missing");
    assert_eq!(db.calls.get(), 2);
}

#[test]
fn group_value_larger_than_bound_is_loaded_each_time() {
    let db = counting();
    let mut g: Group<CountingDb, Remote, Crc32Hasher> = Group::new("G".to_string(), db.clone(), 3);
    assert_eq!(text(g.get("long").unwrap()), "G:long");
    assert_eq!(text(g.get("long").unwrap()), "G:long");
    assert_eq!(db.calls.get(), 2);
}

fn two_peer_ring(local: usize) -> PeerSicker<Remote, Crc32Hasher> {
    let peers: Vec<(String, Option<Remote>)> = (0..2)
        .map(|i| {
            let u = format!("http://127.0.0.1:{}", 1024 + i);
            let c = if i == local { None } else { Some(Remote { calls: Cell::new(0) }) };
            (u, c)
        })
        .collect();
    PeerSicker::new(Crc32Hasher, 16, peers)
}

fn keys_owned_by(ring: &PeerSicker<Remote, Crc32Hasher>, owner: usize) -> Vec<String> {
    (0..200)
        .map(|i| format!("k{}", i))
        .filter(|k| ring.pick_owner(k) == owner)
        .collect()
}

#[test]
fn group_forwards_keys_owned_elsewhere() {
    let ring = Arc::new(two_peer_ring(0));
    let remote_keys = keys_owned_by(&ring, 1);
    assert!(!remote_keys.is_empty());
    let db = counting();
    let mut g: Group<CountingDb, Remote, Crc32Hasher> = Group::new("Scores".to_string(), db.clone(), 1024);
    g.register_peer(ring.clone()).unwrap();
    for k in &remote_keys {
        assert_eq!(text(g.get(k).unwrap()), format!("remote Scores/{}", k));
    }
    assert_eq!(db.calls.get(), 0);
    assert_eq!(ring.pick_peer(&remote_keys[0]).unwrap().calls.get(), remote_keys.len());
    // forwarded values are not cached: asking again forwards again
    g.get(&remote_keys[0]).unwrap();
    assert_eq!(ring.pick_peer(&remote_keys[0]).unwrap().calls.get(), remote_keys.len() + 1);
}

#[test]
fn group_loads_keys_owned_locally() {
    let ring = Arc::new(two_peer_ring(0));
    let local_keys = keys_owned_by(&ring, 0);
    assert!(!local_keys.is_empty());
    let db = counting();
    let mut g: Group<CountingDb, Remote, Crc32Hasher> = Group::new("Scores".to_string(), db.clone(), 1024);
    g.register_peer(ring).unwrap();
    for k in &local_keys {
        assert_eq!(text(g.get(k).unwrap()), format!("Scores:{}", k));
    }
    assert_eq!(db.calls.get(), local_keys.len());
}

#[test]
fn registry_reports_missing_group() {
    let mut m: GroupManager<CountingDb, Remote, Crc32Hasher> =
        GroupManager::new(vec![("Scores".to_string(), 256)], counting());
    assert_eq!(m.get("Unknown", "k").err().unwrap(), "No such group: Unknown");
    let ring = Arc::new(two_peer_ring(0));
    assert_eq!(
        m.register_peer_for_group(ring.clone(), "Nope".to_string()).err().unwrap(),
        "No such group: Nope"
    );
    assert!(m.register_peer_for_group(ring, "Scores".to_string()).is_ok());
}

#[test]
fn registry_dispatches_to_named_group() {
    let db = counting();
    let mut m: GroupManager<CountingDb, Remote, Crc32Hasher> = GroupManager::new(
        vec![("Scores".to_string(), 256), ("Labs".to_string(), 256)],
        db.clone(),
    );
    assert_eq!(text(m.get("Labs", "x").unwrap()), "Labs:x");
    assert_eq!(text(m.get("Scores", "x").unwrap()), "Scores:x");
    assert_eq!(text(m.get("Labs", "x").unwrap()), "Labs:x");
    assert_eq!(db.calls.get(), 2);
    assert_eq!(m.get("Labs", "").err().unwrap(), "key is empty");
}

#[test]
fn memdb_lookup_results() {
    let db = HashMapDbGetter::new(vec![(
        "Scores".to_string(),
        vec![("mxy".to_string(), "abc".to_string()), ("rust".to_string(), "xyz".to_string())],
    )]);
    assert_eq!(text(db.lookup("Scores", "rust").unwrap()), "xyz");
    assert_eq!(text(db.get_data("Scores", "mxy").unwrap()), "abc");
    assert_eq!(db.lookup("Scores", "c++").err().unwrap(), "No such key: c++");
    assert_eq!(db.lookup("Labs", "mxy").err().unwrap(), "No such group: Labs");
}

#[test]
fn memdb_behind_registry() {
    let db = Arc::new(HashMapDbGetter::new(vec![(
        "Scores".to_string(),
        vec![("mxy".to_string(), "abc".to_string())],
    )]));
    let mut m: GroupManager<HashMapDbGetter, Remote, Crc32Hasher> =
        GroupManager::new(vec![("Scores".to_string(), 256)], db);
    assert_eq!(text(m.get("Scores", "mxy").unwrap()), "abc");
    assert_eq!(m.get("Scores", "k").err().unwrap(), "No such key: k");
}

#[test]
fn install_loaded_caches_value_and_returns_it() {
    let db = counting();
    let mut g: Group<CountingDb, Remote, Crc32Hasher> = Group::new("G".to_string(), db.clone(), 64);
    let r = g.install_loaded("k", Ok(ByteView::from_string("v1".to_string())));
    assert_eq!(text(r.unwrap()), "v1");
    assert_eq!(text(g.get("k").unwrap()), "v1");
    assert_eq!(db.calls.get(), 0);
}

#[test]
fn install_loaded_passes_error_through_uncached() {
    let db = counting();
    let mut g: Group<CountingDb, Remote, Crc32Hasher> = Group::new("G".to_string(), db.clone(), 64);
    let r = g.install_loaded("k", Err("boom".to_string()));
    assert_eq!(r.err().unwrap(), "boom");
    assert_eq!(text(g.get("k").unwrap()), "G:k");
    assert_eq!(db.calls.get(), 1);
}
