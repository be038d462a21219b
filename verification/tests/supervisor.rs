//! Reconnecting to peers, and their diagnostic output.

use goose_roaming::supervisor::{reconnect, LineSplitter, Link, MAX_LINE_LEN, RECONNECT_MIN};

#[test]
fn waits_double_up_to_a_minute() {
    let mut backoff = RECONNECT_MIN;
    let mut waits = Vec::new();
    for _ in 0..7 {
        let (wait, next) = reconnect(backoff, false);
        waits.push(wait);
        backoff = next;
    }
    assert_eq!(waits, vec![2, 4, 8, 16, 32, 60, 60]);
    let (wait, next) = reconnect(backoff, true);
    assert_eq!((wait, next), (2, 4));
}

#[test]
fn a_peer_is_online_between_initialisation_and_end() {
    let mut link = Link::new();
    assert!(!link.online);
    link.connected();
    assert!(link.online);
    assert_eq!(link.ended(true), 2);
    assert!(!link.online);
    let waits: Vec<u64> = (0..6).map(|_| link.ended(false)).collect();
    assert_eq!(waits, vec![4, 8, 16, 32, 60, 60]);
    link.connected();
    assert_eq!(link.ended(true), 2);
}

#[test]
fn lines_end_at_newlines_and_empty_ones_are_dropped() {
    let mut splitter = LineSplitter::new();
    assert_eq!(splitter.feed(b"one\n\ntw"), vec![b"one".to_vec()]);
    assert_eq!(splitter.feed(b"o\nthree"), vec![b"two".to_vec()]);
    assert_eq!(splitter.finish(), Some(b"three".to_vec()));
    let mut quiet = LineSplitter::new();
    assert!(quiet.feed(b"\n\n").is_empty());
    assert_eq!(quiet.finish(), None);
}

#[test]
fn endless_lines_are_cut() {
    let mut splitter = LineSplitter::new();
    let long = vec![b'x'; 2 * MAX_LINE_LEN + 3];
    let lines = splitter.feed(&long);
    assert_eq!(lines.len(), 2);
    assert!(lines.iter().all(|l| l.len() == MAX_LINE_LEN));
    assert_eq!(splitter.finish(), Some(vec![b'x'; 3]));
    // A newline right after a full line ends it without an empty one.
    let mut full = LineSplitter::new();
    let mut bytes = vec![b'y'; MAX_LINE_LEN];
    bytes.push(b'\n');
    assert_eq!(full.feed(&bytes).len(), 1);
    assert_eq!(full.finish(), None);
}
