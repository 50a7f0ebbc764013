use vndf::protocol::number::SeqNum;
use vndf::protocol::percept::{Broadcast, Percept};
use vndf::protocol::perception::{Perception, PerceptionHeader};
use vndf::server::sender::{packetize, send_perception};

fn broadcast(sender: usize, message: &str) -> Percept {
    Percept::Broadcast(Broadcast {
        sender: format!("SHP-{:05}", sender),
        message: message.to_string(),
    })
}

fn header(confirm_action: SeqNum) -> PerceptionHeader<String> {
    PerceptionHeader { confirm_action, self_id: Some("ABC-12345".to_string()) }
}

fn front(pool: &[Percept], len: usize) -> Vec<Percept> {
    pool[..len].iter().cloned().collect()
}

fn decode_all(packets: &[Vec<u8>]) -> Vec<Perception<String, Percept>> {
    packets.iter().map(|packet| Perception::decode(packet).unwrap()).collect()
}

#[test]
fn forty_broadcasts_take_several_packets() {
    let pool: Vec<Percept> =
        (0..40).map(|i| broadcast(i, "This is a broadcast of some length.")).collect();
    let packets = packetize(&header(512), &pool);

    assert!(packets.len() >= 2);
    let mut seen: Vec<Percept> = Vec::new();
    for packet in &packets {
        assert!(packet.len() <= 512);
    }
    for perception in decode_all(&packets) {
        assert_eq!(perception.header, header(512));
        assert!(!perception.percepts.is_empty());
        seen.extend(perception.percepts);
    }
    // The pool is taken from its end: the last broadcast comes first.
    let mut expected = pool;
    expected.reverse();
    assert_eq!(seen, expected);

    // Each line takes 69 bytes, as each of the six spaces of the message
    // travels as two; behind the 21 bytes of the header line seven fit.
    assert_eq!(packets.len(), 6);
    assert_eq!(packets[0].len(), 21 + 7 * 69);
    assert_eq!(packets[5].len(), 21 + 5 * 69);
}

#[test]
fn an_empty_pool_takes_one_packet() {
    let pool: Vec<Percept> = vec![];
    let packets = packetize(&header(3), &pool);
    assert_eq!(packets, vec![b"HEADER 3 ABC-12345\n".to_vec()]);
    assert_eq!(
        decode_all(&packets),
        vec![Perception { header: header(3), percepts: vec![] }]
    );
}

#[test]
fn a_pool_that_fits_takes_one_packet() {
    let pool = vec![broadcast(1, "a"), broadcast(2, "b")];
    let packets = packetize(&header(3), &pool);
    assert_eq!(
        packets,
        vec![b"HEADER 3 ABC-12345\nUPDATE BROADCAST SHP-00002 b\nUPDATE BROADCAST SHP-00001 a\n"
            .to_vec()]
    );
}

#[test]
fn a_percept_too_long_for_any_packet_is_left_out() {
    let pool = vec![
        broadcast(1, "first"),
        broadcast(2, &"x".repeat(600)),
        broadcast(3, "third"),
        broadcast(4, &"y".repeat(600)),
    ];
    let packets = packetize(&header(3), &pool);
    let seen: Vec<Percept> =
        decode_all(&packets).into_iter().flat_map(|perception| perception.percepts).collect();
    assert_eq!(seen, vec![broadcast(3, "third"), broadcast(1, "first")]);
    assert_eq!(packets.len(), 2);

    let only_long = vec![broadcast(2, &"x".repeat(600))];
    let packets = packetize(&header(3), &only_long);
    assert_eq!(packets, vec![b"HEADER 3 ABC-12345\n".to_vec()]);
}

#[test]
fn a_percept_that_just_fits_is_sent() {
    // 19 bytes of header line, 28 of the line around the message: 465 are
    // left for the message.
    let pool = vec![broadcast(1, &"x".repeat(465)), broadcast(2, &"y".repeat(466))];
    let packets = packetize(&header(3), &pool);
    assert_eq!(packets.len(), 1);
    assert_eq!(packets[0].len(), 512);
}

#[test]
fn a_header_too_long_for_a_packet_sends_nothing() {
    let long = PerceptionHeader { confirm_action: 1, self_id: Some("i".repeat(600)) };
    let pool = vec![broadcast(1, "a")];
    assert!(packetize(&long, &pool).is_empty());
}

#[test]
fn one_datagram_takes_the_end_of_the_pool_and_leaves_its_front() {
    // Each line takes 240 bytes: two fit behind the header line, not three.
    let all: Vec<Percept> = (0..5).map(|i| broadcast(i, &"m".repeat(212))).collect();
    let mut pool: Vec<Percept> = (0..5).map(|i| broadcast(i, &"m".repeat(212))).collect();

    let packet = send_perception(&header(7), &mut pool);
    assert!(packet.len() <= 512);
    assert_eq!(packet.len(), 19 + 2 * 240);
    let perception: Perception<String, Percept> = Perception::decode(&packet).unwrap();
    assert_eq!(perception.header, header(7));
    assert_eq!(perception.percepts, vec![broadcast(4, &"m".repeat(212)), broadcast(3, &"m".repeat(212))]);
    assert_eq!(pool, front(&all, 3));

    send_perception(&header(7), &mut pool);
    assert_eq!(pool, front(&all, 1));
    let packet = send_perception(&header(7), &mut pool);
    assert_eq!(decode_all(&[packet])[0].percepts, vec![broadcast(0, &"m".repeat(212))]);
    assert!(pool.is_empty());

    // An empty pool gives the header alone.
    assert_eq!(send_perception(&header(7), &mut pool), b"HEADER 7 ABC-12345\n".to_vec());
    assert!(pool.is_empty());
}

#[test]
fn two_items_that_do_not_fit_together_go_out_last_first() {
    let first = broadcast(1, &"a".repeat(300));
    let second = broadcast(2, &"b".repeat(300));
    let pool = vec![broadcast(1, &"a".repeat(300)), broadcast(2, &"b".repeat(300))];
    let packets = decode_all(&packetize(&header(1), &pool));
    assert_eq!(packets.len(), 2);
    assert_eq!(packets[0].percepts, vec![second]);
    assert_eq!(packets[1].percepts, vec![first]);
}

#[test]
fn an_item_that_fits_no_datagram_leaves_the_pool_alone() {
    let mut pool = vec![broadcast(1, "short"), broadcast(2, &"x".repeat(600))];
    assert_eq!(send_perception(&header(7), &mut pool), b"HEADER 7 ABC-12345\n".to_vec());
    assert_eq!(pool, vec![broadcast(1, "short")]);
    let packet = send_perception(&header(7), &mut pool);
    assert_eq!(decode_all(&[packet])[0].percepts, vec![broadcast(1, "short")]);
    assert!(pool.is_empty());
}
