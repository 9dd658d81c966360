use ocache::byteview::ByteView;
use ocache::peer::PeerClient;
use ocache::peermanager::{Crc32Hasher, PeerSicker};

struct Named(String);

impl PeerClient for Named {
    fn get_from_remote(&self, _group: &str, _key: &str) -> Result<ByteView, String> {
        Err(self.0.clone())
    }
    fn is_active(&self) -> bool {
        true
    }
}

fn urls(n: usize) -> Vec<String> {
    (0..n).map(|i| format!("http://127.0.0.1:{}", 1024 + i)).collect()
}

fn topology(n: usize, local: usize) -> Vec<(String, Option<Named>)> {
    urls(n)
        .into_iter()
        .enumerate()
        .map(|(i, u)| {
            let c = if i == local { None } else { Some(Named(u.clone())) };
            (u, c)
        })
        .collect()
}

fn expected_owner(urls: &[String], replicas: u32, key: &str) -> usize {
    let mut ring: Vec<(usize, usize)> = Vec::new();
    for (p, u) in urls.iter().enumerate() {
        for r in 0..replicas {
            let h = crc32fast::hash(format!("{} {}", u, r).as_bytes()) as usize;
            ring.push((h, p));
        }
    }
    ring.sort_by(|a, b| a.0.cmp(&b.0));
    let h = crc32fast::hash(key.as_bytes()) as usize;
    let idx = ring.partition_point(|x| x.0 < h);
    if idx >= ring.len() {
        ring[0].1
    } else {
        ring[idx].1
    }
}

#[test]
fn ring_matches_reference_assignment() {
    let ring = PeerSicker::new(Crc32Hasher, 16, topology(2, 0));
    let us = urls(2);
    for key in ["mxy", "oldust", "rust", "c++", "a", "zzzz", ""] {
        assert_eq!(ring.pick_owner(key), expected_owner(&us, 16, key), "key {}", key);
    }
}

#[test]
fn ring_peers_agree_on_owner() {
    let a = PeerSicker::new(Crc32Hasher, 16, topology(2, 0));
    let b = PeerSicker::new(Crc32Hasher, 16, topology(2, 1));
    for key in ["mxy", "oldust", "rust", "c++", "Scores", "k"] {
        let owner = a.pick_owner(key);
        assert_eq!(owner, b.pick_owner(key));
        assert_eq!(a.pick_peer(key).is_none(), owner == 0);
        assert_eq!(b.pick_peer(key).is_none(), owner == 1);
    }
}

#[test]
fn ring_remote_pick_names_owner() {
    let ring = PeerSicker::new(Crc32Hasher, 16, topology(3, 0));
    for key in ["mxy", "oldust", "rust", "c++"] {
        let owner = ring.pick_owner(key);
        match ring.pick_peer(key) {
            Some(c) => assert_eq!(c.0, format!("http://127.0.0.1:{}", 1024 + owner)),
            None => assert_eq!(owner, 0),
        }
    }
}

#[test]
fn ring_single_peer_is_always_local() {
    let ring = PeerSicker::new(Crc32Hasher, 4, topology(1, 0));
    assert_eq!(ring.peer_count(), 1);
    for key in ["a", "b", "mxy", "rust"] {
        assert!(ring.pick_peer(key).is_none());
        assert_eq!(ring.pick_owner(key), 0);
    }
}

#[test]
fn ring_is_deterministic() {
    let a = PeerSicker::new(Crc32Hasher, 8, topology(4, 2));
    let b = PeerSicker::new(Crc32Hasher, 8, topology(4, 2));
    for i in 0..200 {
        let key = format!("key-{}", i);
        assert_eq!(a.pick_owner(&key), b.pick_owner(&key));
    }
}

#[test]
fn ring_covers_every_key() {
    let ring = PeerSicker::new(Crc32Hasher, 3, topology(5, 4));
    for i in 0..500 {
        let key = format!("{}", i);
        assert!(ring.pick_owner(&key) < 5);
    }
}

#[test]
fn ring_hash_depends_on_key() {
    let ring = PeerSicker::new(Crc32Hasher, 16, topology(4, 0));
    let owners: std::collections::HashSet<usize> =
        (0..100).map(|i| ring.pick_owner(&format!("k{}", i))).collect();
    assert!(owners.len() > 1);
}

#[test]
fn topology_ports_marks_self() {
    let t = ocache::peermanager::topology_ports(1025, 1, 3);
    assert_eq!(t, vec![(1024, false), (1025, true), (1026, false)]);
}
