use gossipnet::directory::Directory;
use gossipnet::types::Address;

fn lo(port: u16) -> Address {
    Address { o0: 127, o1: 0, o2: 0, o3: 1, port }
}

#[test]
fn starts_empty() {
    let d = Directory::new(lo(9000));
    assert_eq!(d.len(), 0);
    assert!(!d.contains(&lo(9001)));
}

#[test]
fn insert_and_contains() {
    let mut d = Directory::new(lo(9000));
    d.insert(lo(9001));
    assert!(d.contains(&lo(9001)));
    assert!(!d.contains(&lo(9002)));
    assert_eq!(d.len(), 1);
}

#[test]
fn insert_is_idempotent() {
    let mut d = Directory::new(lo(9000));
    d.insert(lo(9001));
    d.insert(lo(9001));
    assert_eq!(d.len(), 1);
}

#[test]
fn never_inserts_own_address() {
    let mut d = Directory::new(lo(9000));
    d.insert(lo(9000));
    assert!(!d.contains(&lo(9000)));
    assert_eq!(d.len(), 0);
    d.merge(&vec![lo(9000), lo(9001), lo(9000)]);
    assert!(!d.contains(&lo(9000)));
    assert!(d.contains(&lo(9001)));
    assert_eq!(d.len(), 1);
}

#[test]
fn remove_prunes_peer() {
    let mut d = Directory::new(lo(9000));
    d.insert(lo(9001));
    d.insert(lo(9002));
    d.remove(&lo(9001));
    assert!(!d.contains(&lo(9001)));
    assert!(d.contains(&lo(9002)));
    assert_eq!(d.len(), 1);
}

#[test]
fn remove_is_idempotent() {
    let mut d = Directory::new(lo(9000));
    d.insert(lo(9001));
    d.remove(&lo(9001));
    d.remove(&lo(9001));
    assert!(!d.contains(&lo(9001)));
    assert_eq!(d.len(), 0);
}

#[test]
fn merge_inserts_each() {
    let mut d = Directory::new(lo(9000));
    d.merge(&vec![lo(9001), lo(9002), lo(9001)]);
    assert!(d.contains(&lo(9001)));
    assert!(d.contains(&lo(9002)));
    assert_eq!(d.len(), 2);
}

#[test]
fn snapshot_holds_members_once() {
    let mut d = Directory::new(lo(9000));
    d.insert(lo(9001));
    d.insert(lo(9002));
    let snap = d.snapshot();
    assert_eq!(snap.len(), 2);
    assert!(snap.contains(&lo(9001)));
    assert!(snap.contains(&lo(9002)));
    assert!(!snap.contains(&lo(9000)));
}
