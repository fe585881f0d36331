use gossipnet::directory::Directory;
use gossipnet::filter::DedupFilter;
use gossipnet::node::{
    accept_handshake, fresh_content, gossip_items, message_line, on_peer_line, peer_info_line,
    should_forward, LineOutcome,
};
use gossipnet::types::{Address, NetworkData};
use gossipnet::codec::decode;

fn lo(port: u16) -> Address {
    Address { o0: 127, o1: 0, o2: 0, o3: 1, port }
}

fn trimmed(line: &str) -> &str {
    line.trim_end_matches('\n')
}

#[test]
fn handshake_accepts_peer_info_first_line() {
    let a = lo(9000);
    let mut dir = Directory::new(a);
    // B dials A, declaring port 9001 and knowing 9002 already
    let greeting = peer_info_line(9001, vec![lo(9002), a]);
    let peer = accept_handshake(&mut dir, trimmed(&greeting));
    assert_eq!(peer, Some(lo(9001)));
    assert!(dir.contains(&lo(9001)));
    assert!(dir.contains(&lo(9002)));
    // the digest mentioned A itself; A must not adopt its own address
    assert!(!dir.contains(&a));
    assert_eq!(dir.len(), 2);
}

#[test]
fn handshake_rejects_message_first_line() {
    let a = lo(9000);
    let mut dir = Directory::new(a);
    let line = message_line(&"2941293".to_string(), lo(9001), 5);
    let peer = accept_handshake(&mut dir, trimmed(&line));
    assert_eq!(peer, None);
    assert_eq!(dir.len(), 0);
}

#[test]
fn handshake_rejects_malformed_first_line() {
    let a = lo(9000);
    let mut dir = Directory::new(a);
    assert_eq!(accept_handshake(&mut dir, "hello"), None);
    assert_eq!(dir.len(), 0);
}

#[test]
fn peer_line_message_is_relayed_and_sender_recorded() {
    let me = lo(9000);
    let link = lo(9001);
    let mut dir = Directory::new(me);
    let line = message_line(&"77".to_string(), lo(9002), 5);
    let t = trimmed(&line);
    match on_peer_line(&mut dir, link, t) {
        LineOutcome::Relay(item) => {
            assert_eq!(item.line, format!("{}\n", t));
            assert_eq!(item.origin, link);
        }
        other => panic!("expected a relay, got {:?}", outcome_name(&other)),
    }
    assert!(dir.contains(&lo(9002)));
}

#[test]
fn peer_line_own_message_not_recorded_but_relayed() {
    let me = lo(9000);
    let link = lo(9001);
    let mut dir = Directory::new(me);
    let line = message_line(&"77".to_string(), me, 5);
    let t = trimmed(&line);
    assert!(matches!(on_peer_line(&mut dir, link, t), LineOutcome::Relay(_)));
    assert!(!dir.contains(&me));
    assert_eq!(dir.len(), 0);
}

#[test]
fn peer_line_peer_info_merges() {
    let me = lo(9000);
    let mut dir = Directory::new(me);
    let line = peer_info_line(9001, vec![lo(9002), lo(9003), me]);
    match on_peer_line(&mut dir, lo(9001), trimmed(&line)) {
        LineOutcome::Merged => {}
        other => panic!("expected a merge, got {:?}", outcome_name(&other)),
    }
    assert!(dir.contains(&lo(9002)));
    assert!(dir.contains(&lo(9003)));
    assert!(!dir.contains(&me));
}

#[test]
fn peer_line_malformed_fails_connection() {
    let me = lo(9000);
    let mut dir = Directory::new(me);
    dir.insert(lo(9001));
    assert!(matches!(
        on_peer_line(&mut dir, lo(9001), "{broken"),
        LineOutcome::Malformed
    ));
    // the line itself changes nothing; the caller closes and prunes
    assert_eq!(dir.len(), 1);
}

#[test]
fn peer_line_empty_is_ignored() {
    let me = lo(9000);
    let mut dir = Directory::new(me);
    assert!(matches!(on_peer_line(&mut dir, lo(9001), ""), LineOutcome::Ignored));
    assert_eq!(dir.len(), 0);
}

#[test]
fn pruning_on_link_close() {
    let me = lo(9000);
    let mut dir = Directory::new(me);
    let greeting = peer_info_line(9001, vec![]);
    let peer = accept_handshake(&mut dir, trimmed(&greeting)).unwrap();
    assert!(dir.contains(&peer));
    // reader duty hits EOF: the link's peer is pruned
    dir.remove(&peer);
    assert!(!dir.contains(&peer));
    assert_eq!(dir.len(), 0);
}

#[test]
fn writer_filters_by_origin() {
    let link = lo(9001);
    assert!(!should_forward(&link, &link));
    assert!(should_forward(&lo(9000), &link));
    assert!(should_forward(&lo(9002), &link));
}

#[test]
fn gossip_tick_items() {
    let me = lo(9000);
    let snapshot = vec![lo(9001), lo(9002)];
    let content = "2941293".to_string();
    let items = gossip_items(me, &snapshot, &content, 42);
    assert_eq!(items.len(), 3);
    assert_eq!(
        items[0].line,
        "{\"type\":\"Message\",\"data\":{\"content\":\"2941293\",\"from\":\"127.0.0.1:9000\",\"timestamp\":42}}\n"
    );
    for item in &items {
        assert_eq!(item.origin, me);
    }
    for item in &items[1..] {
        assert_eq!(
            item.line,
            "{\"type\":\"PeerInfo\",\"data\":{\"port\":9000,\"known_peers\":[\"127.0.0.1:9001\",\"127.0.0.1:9002\"]}}\n"
        );
    }
}

#[test]
fn fresh_content_is_decimal() {
    let c = fresh_content();
    assert!(!c.is_empty());
    assert!(c.chars().all(|ch| ch.is_ascii_digit()));
    assert!(c.parse::<u64>().is_ok());
}

#[test]
fn three_node_directory_convergence() {
    let a = lo(9000);
    let b = lo(9001);
    let c = lo(9002);
    let mut dir_a = Directory::new(a);
    let mut dir_b = Directory::new(b);
    let mut dir_c = Directory::new(c);

    // B dials A: B greets with an empty digest, then records A
    let greet_b = peer_info_line(b.port, dir_b.snapshot());
    dir_b.insert(a);
    assert_eq!(accept_handshake(&mut dir_a, trimmed(&greet_b)), Some(b));

    // C dials A the same way
    dir_c.insert(a);
    let greet_c = peer_info_line(c.port, vec![]);
    assert_eq!(accept_handshake(&mut dir_a, trimmed(&greet_c)), Some(c));

    // A's next gossip tick announces its directory to each link
    let announce = peer_info_line(a.port, dir_a.snapshot());
    assert!(matches!(
        on_peer_line(&mut dir_b, a, trimmed(&announce)),
        LineOutcome::Merged
    ));
    assert!(matches!(
        on_peer_line(&mut dir_c, a, trimmed(&announce)),
        LineOutcome::Merged
    ));

    // every directory now holds exactly the other two nodes
    assert_eq!(dir_a.len(), 2);
    assert!(dir_a.contains(&b) && dir_a.contains(&c));
    assert_eq!(dir_b.len(), 2);
    assert!(dir_b.contains(&a) && dir_b.contains(&c));
    assert_eq!(dir_c.len(), 2);
    assert!(dir_c.contains(&a) && dir_c.contains(&b));
}

#[test]
fn two_node_exchange_surfaces_each_message_once() {
    let a = lo(9000);
    let b = lo(9001);
    let mut dir_b = Directory::new(b);
    let mut filter_b = DedupFilter::new(b);

    // A's tick reaches B over the link to A
    let content = "2941293".to_string();
    let items = gossip_items(a, &vec![lo(9001)], &content, 100);
    let line = trimmed(&items[0].line);
    let outcome = on_peer_line(&mut dir_b, a, line);
    let relayed = match outcome {
        LineOutcome::Relay(item) => item,
        _ => panic!("a message line must be relayed"),
    };
    // B's writer back towards A drops it: it came from A's link
    assert!(!should_forward(&relayed.origin, &a));

    // B's filter surfaces it exactly once, attributed to A
    let m = match decode(line) {
        Ok(NetworkData::Message(m)) => m,
        other => panic!("unexpected decode result: {:?}", other),
    };
    assert_eq!(m.from, a);
    assert!(filter_b.observe(&m, 101));
    assert!(!filter_b.observe(&m, 102));

    // B never surfaces its own messages
    let own = match decode(trimmed(&message_line(&"8".to_string(), b, 101))) {
        Ok(NetworkData::Message(m)) => m,
        other => panic!("unexpected decode result: {:?}", other),
    };
    assert!(!filter_b.observe(&own, 101));
}

fn outcome_name(o: &LineOutcome) -> &'static str {
    match o {
        LineOutcome::Relay(_) => "Relay",
        LineOutcome::Merged => "Merged",
        LineOutcome::Ignored => "Ignored",
        LineOutcome::Malformed => "Malformed",
    }
}
