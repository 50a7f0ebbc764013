use vndf::protocol::action::Action;
use vndf::protocol::decode::DecodeError;
use vndf::protocol::percept::{Broadcast, Percept};
use vndf::protocol::perception::Perception;
use vndf::protocol::step::Step;
use vndf::server::address::Address;
use vndf::server::clients::{Client, Clients};
use vndf::server::connections::{Effect, GameEvent, Network, NetworkEvent};
use vndf::server::events::{Event, Events};
use vndf::server::framing::{frame, take_messages};
use vndf::server::id::{generate_id, id_from, letter_from, letter_or_digit_from};
use vndf::server::network::{apply_datagram, broadcasts, on_datagram, send_perceptions, Datagram};

fn address(port: u16) -> Address {
    Address { ip: 1, port }
}

fn action(seq: u64, steps: Vec<Step>) -> Action<Step> {
    Action { seq, steps }
}

fn is_well_formed_id(id: &str) -> bool {
    let chars: Vec<char> = id.chars().collect();
    chars.len() == 9
        && chars[..3].iter().all(|c| c.is_ascii_uppercase())
        && chars[3] == '-'
        && chars[4..].iter().all(|c| c.is_ascii_uppercase() || c.is_ascii_digit())
}

#[test]
fn an_id_is_composed_of_what_was_drawn() {
    assert_eq!(
        id_from([0, 25, 26], [(true, 2), (false, 0), (false, 19), (true, 255), (false, 255)]),
        "AZA-C09V5"
    );
    assert_eq!(letter_from(27), 'B');
    assert_eq!(letter_or_digit_from((false, 13)), '3');
    assert_eq!(letter_or_digit_from((true, 13)), 'N');
}

#[test]
fn a_drawn_id_has_the_shape_of_an_id() {
    let mut ids = Vec::new();
    for _ in 0..200 {
        let id = generate_id();
        assert!(is_well_formed_id(&id), "{}", id);
        ids.push(id);
    }
    ids.sort();
    ids.dedup();
    assert!(ids.len() > 1);
}

#[test]
fn a_login_opens_a_session_once() {
    let mut clients = Clients::new();
    assert!(clients.on_login(address(1), 512, 10));
    let id = clients.get(address(1)).unwrap().id.clone();
    assert!(is_well_formed_id(&id));
    assert_eq!(
        clients.get(address(1)),
        Some(&Client { id: id.clone(), last_action: 512, last_active_ms: 10, broadcast: None })
    );

    // A second login from the same address is ignored.
    assert!(!clients.on_login(address(1), 600, 20));
    assert_eq!(
        clients.get(address(1)),
        Some(&Client { id, last_action: 512, last_active_ms: 10, broadcast: None })
    );
    assert_eq!(clients.len(), 1);
    assert_eq!(clients.find(address(1)), Some(0));
    assert_eq!(clients.find(address(2)), None);
    assert!(clients.login_as(address(2), "WHO-EVER1".to_string(), 1, 30));
    assert!(!clients.login_as(address(2), "WHO-EVER2".to_string(), 1, 30));
    assert_eq!(clients.session(1).client.id, "WHO-EVER1");
    assert_eq!(clients.session(1).address, address(2));
}

#[test]
fn an_action_updates_the_session_of_its_sender() {
    let mut clients = Clients::new();
    let id = "NEW-00001".to_string();
    clients.apply_action(address(1), &action(3, vec![Step::Login]), &id, 100);
    clients.apply_action(address(2), &action(9, vec![Step::Login]), &"NEW-00002".to_string(), 100);
    clients.apply_action(
        address(1),
        &action(4, vec![Step::Broadcast("one".to_string()), Step::Broadcast("two".to_string())]),
        &"UNUSED-ID".to_string(),
        120,
    );
    assert_eq!(
        clients.get(address(1)),
        Some(&Client {
            id: id.clone(),
            last_action: 4,
            last_active_ms: 120,
            broadcast: Some("two".to_string()),
        })
    );
    assert_eq!(clients.get(address(2)).unwrap().last_active_ms, 100);

    clients.apply_action(
        address(1),
        &action(5, vec![Step::StopBroadcast, Step::Heartbeat, Step::ScheduleManeuver("m".to_string())]),
        &id,
        140,
    );
    assert_eq!(
        clients.get(address(1)),
        Some(&Client { id, last_action: 5, last_active_ms: 140, broadcast: None })
    );
}

#[test]
fn the_confirmed_sequence_number_never_goes_down() {
    let mut clients = Clients::new();
    let id = "NEW-00001".to_string();
    clients.apply_action(address(1), &action(7, vec![Step::Login]), &id, 100);
    clients.apply_action(address(1), &action(5, vec![]), &id, 120);
    let client = clients.get(address(1)).unwrap();
    assert_eq!((client.last_action, client.last_active_ms), (7, 120));
    clients.on_action(address(1), &action(8, vec![]), 130);
    assert_eq!(clients.get(address(1)).unwrap().last_action, 8);
}

#[test]
fn an_action_from_a_stranger_is_ignored() {
    let mut clients = Clients::new();
    clients.on_action(address(1), &action(5, vec![Step::Broadcast("x".to_string())]), 100);
    assert_eq!(clients.len(), 0);
    clients.on_step(address(1), &Step::StopBroadcast, &"ANY-00000".to_string(), 1, 1);
    assert_eq!(clients.len(), 0);

    // With a login among its steps, the steps behind the login count.
    clients.on_action(
        address(1),
        &action(5, vec![Step::Broadcast("lost".to_string()), Step::Login, Step::Broadcast("kept".to_string())]),
        100,
    );
    let client = clients.get(address(1)).unwrap();
    assert_eq!(client.broadcast, Some("kept".to_string()));
    assert_eq!(client.last_action, 5);
    assert!(is_well_formed_id(&client.id));
}

#[test]
fn an_error_closes_the_session_whatever_its_state() {
    let mut clients = Clients::new();
    clients.on_login(address(1), 0, 0);
    clients.on_login(address(2), 0, 0);
    clients.on_login(address(3), 0, 0);
    assert!(clients.on_error(address(2)));
    assert!(!clients.on_error(address(2)));
    assert!(!clients.on_error(address(9)));
    assert_eq!(clients.len(), 2);
    assert!(clients.get(address(1)).is_some());
    assert!(clients.get(address(2)).is_none());
    assert_eq!(clients.session(1).address, address(3));
}

#[test]
fn every_client_is_sent_every_broadcast() {
    let mut clients = Clients::new();
    clients.login_as(address(1), "AAA-00001".to_string(), 11, 0);
    clients.login_as(address(2), "BBB-00002".to_string(), 22, 0);
    clients.login_as(address(3), "CCC-00003".to_string(), 33, 0);
    clients.on_step(address(1), &Step::Broadcast("from one".to_string()), &String::new(), 0, 0);
    clients.on_step(address(3), &Step::Broadcast("from three".to_string()), &String::new(), 0, 0);

    let pool = vec![
        Percept::Broadcast(Broadcast { sender: "AAA-00001".to_string(), message: "from one".to_string() }),
        Percept::Broadcast(Broadcast { sender: "CCC-00003".to_string(), message: "from three".to_string() }),
    ];
    assert_eq!(broadcasts(&clients), pool);
    // A datagram carries the pool from its end.
    let taken = vec![
        Percept::Broadcast(Broadcast { sender: "CCC-00003".to_string(), message: "from three".to_string() }),
        Percept::Broadcast(Broadcast { sender: "AAA-00001".to_string(), message: "from one".to_string() }),
    ];

    let sent = send_perceptions(&clients);
    assert_eq!(sent.len(), 3);
    for (i, (port, id, confirmed)) in
        [(1, "AAA-00001", 11), (2, "BBB-00002", 22), (3, "CCC-00003", 33)].iter().enumerate()
    {
        assert_eq!(sent[i].address, address(*port));
        let perception: Perception<String, Percept> = Perception::decode(&sent[i].bytes).unwrap();
        assert_eq!(perception.header.confirm_action, *confirmed);
        assert_eq!(perception.header.self_id, Some(id.to_string()));
        assert_eq!(perception.percepts, taken);
    }
    assert_eq!(
        sent[1].bytes,
        b"HEADER 22 BBB-00002\n\
          UPDATE BROADCAST CCC-00003 from\\sthree\n\
          UPDATE BROADCAST AAA-00001 from\\sone\n"
            .to_vec()
    );
}

#[test]
fn a_client_with_many_broadcasts_around_gets_several_datagrams() {
    let mut clients = Clients::new();
    for i in 0..40u16 {
        clients.login_as(address(i), format!("SHP-{:05}", i), 512, 0);
        clients.on_step(
            address(i),
            &Step::Broadcast("This is a broadcast of some length.".to_string()),
            &String::new(),
            512,
            0,
        );
    }
    let sent = send_perceptions(&clients);
    assert_eq!(sent.len(), 40 * 6);
    let to_first: Vec<&Datagram> = sent.iter().filter(|d| d.address == address(0)).collect();
    assert_eq!(to_first.len(), 6);
    let mut senders = Vec::new();
    for datagram in to_first {
        assert!(datagram.bytes.len() <= 512);
        let perception: Perception<String, Percept> = Perception::decode(&datagram.bytes).unwrap();
        assert_eq!(perception.header.confirm_action, 512);
        for Percept::Broadcast(broadcast) in perception.percepts {
            senders.push(broadcast.sender);
        }
    }
    let expected: Vec<String> = (0..40).rev().map(|i| format!("SHP-{:05}", i)).collect();
    assert_eq!(senders, expected);
}

#[test]
fn a_datagram_is_taken_or_closes_the_session() {
    let mut clients = Clients::new();
    let login = Datagram { address: address(1), bytes: b"HEADER 512\nUPDATE LOGIN\n".to_vec() };
    assert_eq!(
        apply_datagram(&mut clients, &login, &"NEW-00001".to_string(), 5),
        Ok(action(512, vec![Step::Login]))
    );
    assert_eq!(
        clients.get(address(1)),
        Some(&Client { id: "NEW-00001".to_string(), last_action: 512, last_active_ms: 5, broadcast: None })
    );
    let bad = Datagram { address: address(1), bytes: b"HEADER 513\nUPDATE\n".to_vec() };
    assert_eq!(on_datagram(&mut clients, &bad, 6), Err(DecodeError::MissingEntity));
    let worse = Datagram { address: address(1), bytes: b"HEADER five\n".to_vec() };
    assert_eq!(on_datagram(&mut clients, &worse, 6), Err(DecodeError::Header(b"five".to_vec())));
    assert_eq!(clients.len(), 0);
    assert_eq!(on_datagram(&mut clients, &login, 7), Ok(action(512, vec![Step::Login])));
    assert_eq!(clients.len(), 1);
}

#[test]
fn events_leave_the_queue_in_the_order_in_which_they_came() {
    let mut events = Events::new();
    assert_eq!(events.pull(), None);
    events.push(Event::Connect(7));
    events.push(Event::Update);
    assert!(!events.report_send(3, 0));
    assert!(events.report_send(4, -1));
    assert_eq!(events.pull(), Some(Event::Connect(7)));
    assert_eq!(events.pull(), Some(Event::Update));
    assert_eq!(events.pull(), Some(Event::Disconnect(4)));
    assert_eq!(events.pull(), None);
}

#[test]
fn a_failure_closes_one_connection_and_no_other() {
    let mut network = Network::new();
    assert_eq!(network.advance(), Effect::Idle);
    assert!(network.on_accepted(4));
    assert!(network.on_accepted(5));
    assert!(!network.on_accepted(4));
    assert!(network.on_accepted(6));

    network.enqueue(NetworkEvent::Message(vec![6, 9, 4, 5], b"hello".to_vec()));
    assert_eq!(network.advance(), Effect::Send(vec![6, 4, 5], b"hello".to_vec()));

    // Sending to 4 fails; a message from 5 is nonsense.
    network.on_failure(4, "broken pipe".to_string());
    assert_eq!(network.on_message(5, b"\x80"), None);
    assert_eq!(
        network.on_message(6, b"HEADER 1\nUPDATE LOGIN\n"),
        Some(action(1, vec![Step::Login]))
    );
    assert_eq!(network.on_message(9, b"HEADER 1\nUPDATE LOGIN\n"), None);
    assert_eq!(network.on_message(9, b"\x80"), None);

    assert_eq!(network.advance(), Effect::Close(4, "broken pipe".to_string()));
    assert!(!network.is_open(4));
    assert_eq!(
        network.advance(),
        Effect::Close(5, "Error converting message to string".to_string())
    );
    assert_eq!(network.advance(), Effect::Idle);
    assert!(network.is_open(6));

    network.enqueue(NetworkEvent::Close(4, "again".to_string()));
    network.enqueue(NetworkEvent::Message(vec![4, 5], b"x".to_vec()));
    assert_eq!(network.advance(), Effect::Skip);
    assert_eq!(network.advance(), Effect::Send(vec![], b"x".to_vec()));
    assert_eq!(network.open_recipients(&vec![6, 6, 1]), vec![6, 6]);
    assert_eq!(GameEvent::Enter(4), GameEvent::Enter(4));
}

#[test]
fn messages_travel_on_a_stream_in_frames() {
    assert_eq!(frame(b"abc"), Some(vec![4, b'a', b'b', b'c']));
    assert_eq!(frame(b""), Some(vec![1]));
    assert_eq!(frame(&[7u8; 254]).unwrap().len(), 255);
    assert_eq!(frame(&[7u8; 254]).unwrap()[0], 255);
    assert_eq!(frame(&[7u8; 255]), None);

    let mut buffer = Vec::new();
    buffer.extend(frame(b"one").unwrap());
    buffer.extend(frame(b"").unwrap());
    buffer.extend(frame(&[9u8; 254]).unwrap());
    buffer.extend(&frame(b"partial").unwrap()[..5]);
    let (messages, broken) = take_messages(&mut buffer);
    assert_eq!(messages, vec![b"one".to_vec(), vec![], vec![9u8; 254]]);
    assert!(!broken);
    assert_eq!(buffer, vec![8, b'p', b'a', b'r', b't']);

    // Nothing is whole yet; then the rest arrives.
    assert_eq!(take_messages(&mut buffer), (vec![], false));
    buffer.extend(b"ial");
    assert_eq!(take_messages(&mut buffer), (vec![b"partial".to_vec()], false));
    assert!(buffer.is_empty());
    assert_eq!(take_messages(&mut buffer), (vec![], false));

    // A zero begins no frame.
    let mut buffer = vec![2, b'x', 0, 3, b'y', b'z'];
    assert_eq!(take_messages(&mut buffer), (vec![b"x".to_vec()], true));
    assert_eq!(buffer, vec![0, 3, b'y', b'z']);
}

#[test]
fn silent_clients_are_removed() {
    let mut clients = Clients::new();
    clients.login_as(address(1), "AAA-00001".to_string(), 0, 1_000);
    clients.login_as(address(2), "BBB-00002".to_string(), 0, 2_000);
    clients.login_as(address(3), "CCC-00003".to_string(), 0, 3_000);
    clients.login_as(address(4), "DDD-00004".to_string(), 0, 9_000);

    // At 7000 with a timeout of 5000, only the first was silent for longer;
    // the last is from a time that is yet to come, and stays.
    assert_eq!(clients.remove_inactive(7_000, 5_000), vec![address(1)]);
    assert_eq!(clients.len(), 3);
    assert_eq!(clients.remove_inactive(7_000, 5_000), vec![]);
    assert_eq!(clients.remove_inactive(8_001, 5_000), vec![address(2), address(3)]);
    assert_eq!(clients.len(), 1);
    assert_eq!(clients.session(0).address, address(4));
    assert_eq!(clients.remove_inactive(u64::MAX, 0), vec![address(4)]);
    assert_eq!(clients.len(), 0);
}

#[test]
fn every_error_says_what_went_wrong() {
    let all = [
        (DecodeError::InvalidUtf8, "Error converting message to string"),
        (DecodeError::MissingHeader, "Header line is missing"),
        (DecodeError::InvalidHeader, "Invalid header"),
        (DecodeError::Header(b"12x".to_vec()), "Error decoding header: 12x"),
        (DecodeError::MissingDirective, "Invalid message line: Missing directive"),
        (DecodeError::MissingEntity, "Invalid message line: Missing entity"),
        (DecodeError::UnknownDirective(b"DESTROY".to_vec()), "Unknown directive: DESTROY"),
        (DecodeError::Entity("LÖGIN".as_bytes().to_vec()), "Error decoding entity: LÖGIN"),
        (DecodeError::Entity(vec![0xff]), "Error decoding entity: "),
    ];
    for (error, message) in all {
        assert_eq!(error.message(), message);
    }
}
