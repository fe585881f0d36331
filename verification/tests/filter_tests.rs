use gossipnet::filter::DedupFilter;
use gossipnet::types::{Address, Message};
use gossipnet::utils::{current_timestamp, format_elapsed, is_recent, is_recent_at};

fn lo(port: u16) -> Address {
    Address { o0: 127, o1: 0, o2: 0, o3: 1, port }
}

fn msg(content: &str, from: Address, timestamp: u64) -> Message {
    Message { content: content.to_string(), from, timestamp }
}

#[test]
fn own_message_never_surfaced() {
    let me = lo(9000);
    let mut f = DedupFilter::new(me);
    assert!(!f.observe(&msg("407", me, 100), 100));
    // still unseen, so the same content from a peer is surfaced
    assert!(f.observe(&msg("407", lo(9001), 100), 100));
}

#[test]
fn stale_message_dropped_regardless_of_novelty() {
    let me = lo(9000);
    let mut f = DedupFilter::new(me);
    // 11 seconds old: stale
    assert!(!f.observe(&msg("1", lo(9001), 100), 111));
    // exactly 10 seconds old: still fresh
    assert!(f.observe(&msg("2", lo(9001), 100), 110));
    // timestamped in the future: fresh
    assert!(f.observe(&msg("3", lo(9001), 200), 100));
}

#[test]
fn stale_message_not_recorded() {
    let me = lo(9000);
    let mut f = DedupFilter::new(me);
    assert!(!f.observe(&msg("1", lo(9001), 100), 111));
    // the pair was not recorded, so a fresh delivery still surfaces
    assert!(f.observe(&msg("1", lo(9001), 100), 105));
}

#[test]
fn duplicate_surfaced_at_most_once() {
    let me = lo(9000);
    let mut f = DedupFilter::new(me);
    let m = msg("2941293", lo(9001), 100);
    assert!(f.observe(&m, 101));
    assert!(!f.observe(&m, 102));
    // the same message arriving over another mesh path
    assert!(!f.observe(&msg("2941293", lo(9002), 100), 103));
    // a different timestamp makes a different pair
    assert!(f.observe(&msg("2941293", lo(9001), 101), 103));
    // a different content makes a different pair
    assert!(f.observe(&msg("294129", lo(9001), 100), 103));
}

#[test]
fn is_recent_at_boundaries() {
    assert!(is_recent_at(110, 100));
    assert!(!is_recent_at(111, 100));
    assert!(is_recent_at(0, 0));
    assert!(is_recent_at(5, 100));
    assert!(is_recent_at(u64::MAX, u64::MAX - 10));
    assert!(!is_recent_at(u64::MAX, u64::MAX - 11));
}

#[test]
fn is_recent_tracks_the_clock() {
    // a timestamp taken just now is fresh
    assert!(is_recent(current_timestamp()));
    // one in the far future is fresh too (the window only cuts the past)
    assert!(is_recent(u64::MAX - 10));
    // near the top of the range, fresh whatever the clock reads
    assert!(is_recent(u64::MAX));
    // the epoch is long past the window
    assert!(!is_recent(0));
}

#[test]
fn format_elapsed_clock() {
    assert_eq!(format_elapsed(0), "00:00:00");
    assert_eq!(format_elapsed(7), "00:00:07");
    assert_eq!(format_elapsed(3661), "01:01:01");
    assert_eq!(format_elapsed(45296), "12:34:56");
    assert_eq!(format_elapsed(86399), "23:59:59");
    assert_eq!(format_elapsed(86400), "00:00:00");
}
