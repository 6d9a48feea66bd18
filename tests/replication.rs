use crdt_net::command::Command;
use crdt_net::counter::Counter;
use crdt_net::message::{decode, encode, frame, DecodeError, Message};
use crdt_net::node::Node;

fn bumped(node: Node, times: u32) -> Counter {
    let mut c = Counter::new();
    for _ in 0..times {
        assert!(c.increment(node));
    }
    c
}

fn state(a: u64, b: u64, c: u64) -> Counter {
    Counter::from_counts(vec![a, b, c]).unwrap()
}

fn merged(a: &Counter, b: &Counter) -> Counter {
    let mut r = a.clone();
    r.merge(b);
    r
}

fn sync_of(c: &Counter) -> Vec<u8> {
    frame(&Message::SYNC(c.clone()))
}

#[test]
fn addresses_are_fixed() {
    assert_eq!(Node::ONE.get_addr(), "127.0.0.1:1901");
    assert_eq!(Node::TWO.get_addr(), "127.0.0.1:1902");
    assert_eq!(Node::THREE.get_addr(), "127.0.0.1:1903");
}

#[test]
fn all_nodes_in_order() {
    assert_eq!(Node::all(), vec![Node::ONE, Node::TWO, Node::THREE]);
    assert_eq!(Node::names(), "ONE, TWO, THREE");
    assert_eq!(Node::THREE.name(), "THREE");
}

#[test]
fn parse_ignores_case() {
    assert_eq!(Node::parse("two"), Some(Node::TWO));
    assert_eq!(Node::parse("Three"), Some(Node::THREE));
    assert_eq!(Node::parse("ONE"), Some(Node::ONE));
    assert_eq!(Node::parse("four"), None);
    assert_eq!(Node::parse(""), None);
    assert_eq!(Node::parse("on"), None);
}

#[test]
fn fresh_counter_is_zero() {
    let c = Counter::new();
    assert_eq!(c.total(), 0);
    assert_eq!(c.counts(), vec![0, 0, 0]);
}

#[test]
fn increment_touches_one_slot() {
    let c = bumped(Node::TWO, 4);
    assert_eq!(c.get(Node::TWO), 4);
    assert_eq!(c.get(Node::ONE), 0);
    assert_eq!(c.total(), 4);
}

#[test]
fn increment_stops_at_largest_value() {
    let mut c = state(u64::MAX, 0, 0);
    assert!(!c.increment(Node::ONE));
    assert_eq!(c.get(Node::ONE), u64::MAX);
    assert!(c.increment(Node::TWO));
    assert_eq!(c.total(), u64::MAX as u128 + 1);
}

#[test]
fn total_does_not_wrap() {
    let c = state(u64::MAX, u64::MAX, u64::MAX);
    assert_eq!(c.total(), 3 * (u64::MAX as u128));
}

#[test]
fn from_counts_needs_one_slot_per_node() {
    assert!(Counter::from_counts(vec![1, 2]).is_none());
    assert!(Counter::from_counts(vec![1, 2, 3, 4]).is_none());
    assert_eq!(state(1, 2, 3).counts(), vec![1, 2, 3]);
}

#[test]
fn merge_takes_per_slot_maximum() {
    let m = merged(&state(5, 1, 7), &state(2, 9, 7));
    assert_eq!(m.counts(), vec![5, 9, 7]);
    assert_eq!(m.total(), 21);
}

#[test]
fn merge_is_commutative() {
    let a = state(3, 0, 8);
    let b = state(1, 4, 2);
    assert_eq!(merged(&a, &b), merged(&b, &a));
}

#[test]
fn merge_is_associative() {
    let a = state(3, 0, 8);
    let b = state(1, 4, 2);
    let c = state(6, 2, 0);
    assert_eq!(merged(&merged(&a, &b), &c), merged(&a, &merged(&b, &c)));
}

#[test]
fn merge_is_idempotent() {
    let a = state(3, 0, 8);
    assert_eq!(merged(&a, &a), a);
}

#[test]
fn total_never_decreases() {
    let mut c = Counter::new();
    let mut last = c.total();
    c.increment(Node::ONE);
    assert!(c.total() >= last);
    last = c.total();
    c.merge(&state(0, 4, 0));
    assert!(c.total() >= last);
    last = c.total();
    c.merge(&state(0, 1, 0));
    assert_eq!(c.total(), last);
    c.increment(Node::THREE);
    assert_eq!(c.total(), last + 1);
}

#[test]
fn snapshot_converges_and_repeats_are_harmless() {
    let x = bumped(Node::ONE, 6);
    let mut y = state(0, 2, 1);
    y.receive(&sync_of(&x)).unwrap();
    assert!(y.get(Node::ONE) >= 6);
    let once = y.clone();
    y.receive(&sync_of(&x)).unwrap();
    assert_eq!(y, once);
    let mut z = Counter::new();
    z.receive(&sync_of(&y)).unwrap();
    assert!(z.get(Node::ONE) >= 6);
    assert_eq!(z.total(), 9);
}

#[test]
fn scenario_broadcast_after_three_increments() {
    let mut one = Counter::new();
    let mut two = Counter::new();
    let mut three = Counter::new();
    for _ in 0..3 {
        one.increment(Node::ONE);
    }
    assert_eq!(one.get(Node::ONE), 3);
    assert_eq!(one.total(), 3);
    let wire = sync_of(&one);
    for target in Node::all() {
        match target {
            Node::ONE => one.receive(&wire).unwrap(),
            Node::TWO => two.receive(&wire).unwrap(),
            Node::THREE => three.receive(&wire).unwrap(),
        }
    }
    assert_eq!(one.total(), 3);
    assert_eq!(two.total(), 3);
    assert_eq!(three.total(), 3);
}

#[test]
fn scenario_offline_node_misses_sync() {
    let mut one = Counter::new();
    let mut two = Counter::new();
    let mut three = Counter::new();
    for _ in 0..5 {
        two.increment(Node::TWO);
    }
    let wire = sync_of(&two);
    assert_eq!(wire, b"{\"SYNC\":{\"counts\":[0,5,0]}}\n".to_vec());
    two.receive(&wire).unwrap();
    three.receive(&wire).unwrap();
    assert_eq!(one.get(Node::TWO), 0);
    assert_eq!(one.total(), 0);
    assert_eq!(two.total(), 5);
    assert_eq!(three.get(Node::TWO), 5);
    one.increment(Node::ONE);
    assert_eq!(one.total(), 1);
}

#[test]
fn scenario_concurrent_syncs_in_either_order() {
    let mut one = Counter::new();
    let mut two = Counter::new();
    for _ in 0..2 {
        one.increment(Node::ONE);
    }
    for _ in 0..3 {
        two.increment(Node::TWO);
    }
    let from_one = sync_of(&one);
    let from_two = sync_of(&two);
    let mut a = one.clone();
    a.receive(&from_two).unwrap();
    a.receive(&from_one).unwrap();
    let mut b = one.clone();
    b.receive(&from_one).unwrap();
    b.receive(&from_two).unwrap();
    one.receive(&from_two).unwrap();
    two.receive(&from_one).unwrap();
    assert_eq!(one.total(), 5);
    assert_eq!(two.total(), 5);
    assert_eq!(a, b);
    assert_eq!(a.total(), 5);
}

#[test]
fn handle_ignores_text() {
    let mut c = state(1, 2, 3);
    c.handle(Message::RAW(String::from("hello")));
    assert_eq!(c.counts(), vec![1, 2, 3]);
    c.handle(Message::SYNC(state(0, 5, 0)));
    assert_eq!(c.counts(), vec![1, 5, 3]);
}

#[test]
fn encode_raw_is_json() {
    let m = Message::<Counter>::RAW(String::from("hi \"there\"\n"));
    assert_eq!(encode(&m), b"{\"RAW\":\"hi \\\"there\\\"\\n\"}".to_vec());
}

#[test]
fn encode_sync_is_json() {
    let m = Message::SYNC(state(0, 12, 18446744073709551615));
    assert_eq!(
        encode(&m),
        b"{\"SYNC\":{\"counts\":[0,12,18446744073709551615]}}".to_vec()
    );
}

#[test]
fn round_trip_raw() {
    for text in ["", "bc hello", "tab\tand \\ slash", "caf\u{e9} \u{1F600}"] {
        let m = Message::<Counter>::RAW(String::from(text));
        assert_eq!(decode(&encode(&m)), Ok(m.clone()));
        assert_eq!(decode(&frame(&m)), Ok(m));
    }
}

#[test]
fn round_trip_sync() {
    for c in [state(0, 0, 0), state(10, 9, 100), state(u64::MAX, 1, 0)] {
        let m = Message::SYNC(c);
        assert_eq!(decode(&encode(&m)), Ok(m.clone()));
        assert_eq!(decode(&frame(&m)), Ok(m));
    }
}

#[test]
fn decode_reads_escaped_text() {
    let got = decode(b"{\"RAW\":\"\\u0041b\"}\n");
    assert_eq!(got, Ok(Message::RAW(String::from("Ab"))));
}

#[test]
fn decode_rejects_unknown_shapes() {
    for bad in [
        &b""[..],
        b"\n",
        b"{\"PING\":1}",
        b"{\"SYNC\":{\"counts\":[1,2]}}",
        b"{\"SYNC\":{\"counts\":[1,2,3,4]}}",
        b"{\"SYNC\":{\"counts\":[01,2,3]}}",
        b"{\"SYNC\":{\"counts\":[1,2,18446744073709551616]}}",
        b"{\"SYNC\":{\"counts\":[1,2,3]}}x",
        b"{\"SYNC\":{\"counts\":[1,2,3]}}\n\n",
    ] {
        assert_eq!(decode(bad), Err(DecodeError::UnknownFormat));
    }
}

#[test]
fn decode_rejects_bad_text() {
    assert_eq!(decode(b"{\"RAW\":nope}"), Err(DecodeError::BadText));
    assert_eq!(decode(b"{\"RAW\":\"open}"), Err(DecodeError::BadText));
}

#[test]
fn receive_drops_malformed_bytes() {
    let mut c = state(1, 2, 3);
    assert_eq!(c.receive(b"garbage"), Err(DecodeError::UnknownFormat));
    assert_eq!(c.receive(b"{\"RAW\":7}"), Err(DecodeError::BadText));
    assert_eq!(c.counts(), vec![1, 2, 3]);
    assert_eq!(c.receive(b"{\"RAW\":\"hi\"}"), Ok(()));
    assert_eq!(c.counts(), vec![1, 2, 3]);
}

#[test]
fn command_broadcast_keeps_text_after_first_space() {
    assert_eq!(Command::parse("bc hello world\n"), Command::Broadcast(String::from("hello world")));
    assert_eq!(Command::parse("  bc  spaced\n"), Command::Broadcast(String::from(" spaced")));
}

#[test]
fn command_broadcast_needs_text() {
    assert_eq!(Command::parse("bc\n"), Command::MissingText);
    assert_eq!(Command::parse("bc   \n"), Command::MissingText);
}

#[test]
fn command_unknown_names_first_word() {
    assert_eq!(Command::parse("sync now\n"), Command::Unknown(String::from("sync")));
    assert_eq!(Command::parse("\n"), Command::Unknown(String::new()));
    assert_eq!(Command::parse("bcc x"), Command::Unknown(String::from("bcc")));
}
