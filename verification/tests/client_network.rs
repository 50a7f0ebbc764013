use vndf::client::action_assembler::ActionAssembler;
use vndf::client::input_sender::InputSender;
use vndf::client::platform::Input;
use vndf::clock::{ms_of, now_ms};
use vndf::client::network::{contains_text, ClientEvent, Network, ServerEvent};
use vndf::client::output::Frame;
use vndf::client::run::{apply_event, apply_perception, event_for, remove_sender};
use vndf::protocol::action::Action;
use vndf::protocol::percept::{Broadcast, Percept};
use vndf::protocol::perception::{Perception, PerceptionHeader};
use vndf::protocol::step::Step;
use vndf::strings::{find_char, same_text, starts_with};

fn broadcast(sender: &str, message: &str) -> Broadcast {
    Broadcast { sender: sender.to_string(), message: message.to_string() }
}

fn perception(confirm_action: u64, self_id: Option<&str>, shown: &[Broadcast]) -> Vec<u8> {
    Perception {
        header: PerceptionHeader { confirm_action, self_id: self_id.map(|id| id.to_string()) },
        percepts: shown.iter().cloned().map(Percept::Broadcast).collect(),
    }
    .encode()
    .unwrap()
}

fn sent(message: &[u8]) -> Action<Step> {
    Action::decode(message).unwrap()
}

#[test]
fn the_first_action_is_a_login() {
    let mut network = Network::new();
    assert_eq!(network.update(), b"HEADER 0\nUPDATE LOGIN\n".to_vec());
    assert_eq!(sent(&network.update()), Action { seq: 1, steps: vec![Step::Login] });
}

#[test]
fn events_become_steps_and_a_heartbeat_becomes_none() {
    let mut network = Network::new();
    assert!(network.send(ClientEvent::StartBroadcast("hi".to_string())));
    assert!(!network.send(ClientEvent::Heartbeat));
    assert!(network.send(ClientEvent::StopBroadcast));
    assert!(network.send(ClientEvent::Login));
    assert_eq!(
        sent(&network.update()).steps,
        vec![Step::Login, Step::Broadcast("hi".to_string()), Step::StopBroadcast, Step::Login]
    );
}

#[test]
fn a_perception_confirms_and_tells_what_is_broadcast() {
    let mut network = Network::new();
    network.update();
    network.send(ClientEvent::StartBroadcast("mine".to_string()));

    let events = network.receive(&vec![perception(
        0,
        Some("ME-000001"),
        &[broadcast("A", "one"), broadcast("B", "two"), broadcast("A", "again")],
    )]);
    assert_eq!(
        events,
        vec![
            ServerEvent::StartBroadcast(broadcast("A", "one")),
            ServerEvent::StartBroadcast(broadcast("B", "two")),
            ServerEvent::StartBroadcast(broadcast("A", "again")),
            ServerEvent::SelfId("ME-000001".to_string()),
        ]
    );
    // The login is confirmed, the broadcast was not sent yet.
    assert_eq!(sent(&network.update()).steps, vec![Step::Broadcast("mine".to_string())]);

    // Senders that are no longer shown have stopped.
    let events = network.receive(&vec![perception(0, None, &[broadcast("B", "two")])]);
    assert_eq!(
        events,
        vec![
            ServerEvent::StartBroadcast(broadcast("B", "two")),
            ServerEvent::StopBroadcast("A".to_string()),
        ]
    );
    let events = network.receive(&vec![
        perception(1, None, &[]),
        b"nonsense".to_vec(),
        perception(1, None, &[broadcast("C", "three")]),
    ]);
    assert_eq!(
        events,
        vec![
            ServerEvent::StopBroadcast("B".to_string()),
            ServerEvent::StartBroadcast(broadcast("C", "three")),
        ]
    );
    assert_eq!(network.receive(&vec![]), vec![]);
    assert_eq!(sent(&network.update()).steps, vec![]);
}

#[test]
fn a_perception_is_shown_in_the_frame() {
    let mut frame = Frame::new();
    let mut assembler = ActionAssembler::new();
    assembler.add_step(Step::Login);
    let seq = assembler.assemble().seq;
    apply_perception(
        &mut frame,
        &mut assembler,
        Perception {
            header: PerceptionHeader { confirm_action: seq, self_id: Some("ME-000001".to_string()) },
            percepts: vec![Percept::Broadcast(broadcast("A", "one"))],
        },
    );
    assert_eq!(frame.self_id, "ME-000001");
    assert_eq!(frame.broadcasts, vec![broadcast("A", "one")]);
    assert_eq!(assembler.pending_len(), 0);
    apply_perception(
        &mut frame,
        &mut assembler,
        Perception { header: PerceptionHeader { confirm_action: seq, self_id: None }, percepts: vec![] },
    );
    assert_eq!(frame.self_id, "ME-000001");
    assert!(frame.broadcasts.is_empty());
}

#[test]
fn texts_are_compared_by_character() {
    assert!(same_text("grüß", "grüß"));
    assert!(!same_text("grüß", "grüs"));
    assert!(!same_text("a", "ab"));
    assert!(starts_with("broadcast", "bro"));
    assert!(starts_with("broadcast", ""));
    assert!(!starts_with("bro", "broadcast"));
    assert!(!starts_with("broadcast", "bra"));
    assert_eq!(find_char("süß sauer", ' '), 3);
    assert_eq!(find_char("none", ' '), 4);
    assert!(contains_text(&vec!["a".to_string(), "b".to_string()], "b"));
    assert!(!contains_text(&vec!["a".to_string(), "b".to_string()], "c"));
}

#[test]
fn input_is_sent_when_its_period_is_over() {
    let hello = Input { broadcast: Some("hello".to_string()) };
    let mut sender = InputSender::new();
    assert_eq!(sender.update_at(hello.clone(), 5, 10), Some(hello.clone()));
    assert_eq!(sender.time_of_next_send, 10_000_005);
    assert_eq!(sender.update_at(Input::new(), 10_000_004, 10), None);
    assert_eq!(sender.input_to_send, Input::new());
    assert_eq!(sender.time_of_next_send, 10_000_005);
    assert_eq!(sender.update_at(hello.clone(), 10_000_005, u64::MAX), Some(hello.clone()));
    assert_eq!(sender.time_of_next_send, u64::MAX);
    assert_eq!(sender.update_at(hello.clone(), u64::MAX - 1, 1), None);
    assert_eq!(sender.update_at(hello.clone(), u64::MAX, 1), Some(hello.clone()));
    assert_eq!(sender.time_of_next_send, u64::MAX);

    let mut sender = InputSender::new();
    assert_eq!(sender.update(hello.clone(), 3_600_000), Some(hello.clone()));
    assert_eq!(sender.update(Input::new(), 3_600_000), None);
    assert_eq!(sender.input_to_send, Input::new());
}

#[test]
fn the_clock_counts_milliseconds() {
    assert_eq!(ms_of(1_999_999), 1);
    assert_eq!(ms_of(u64::MAX), 18_446_744_073_709);
    // The clock goes on, and not by leaps.
    let before = now_ms();
    let mut after = now_ms();
    let mut reads: u64 = 0;
    while after < before + 2 && reads < 1_000_000_000 {
        after = now_ms();
        reads += 1;
    }
    assert!(after >= before + 2, "{} {}", before, after);
    assert!(after < before + 10_000, "{} {}", before, after);
}

#[test]
fn a_receipt_for_an_earlier_action_keeps_what_went_out_again() {
    let mut network = Network::new();
    assert_eq!(sent(&network.update()), Action { seq: 0, steps: vec![Step::Login] });
    assert_eq!(sent(&network.update()), Action { seq: 1, steps: vec![Step::Login] });

    // The login went out last under 1: a receipt for 0 does not remove it.
    network.receive(&vec![perception(0, None, &[])]);
    assert_eq!(sent(&network.update()), Action { seq: 2, steps: vec![Step::Login] });

    // A receipt for the action just sent does.
    network.receive(&vec![perception(2, None, &[])]);
    assert_eq!(sent(&network.update()), Action { seq: 3, steps: vec![] });
}

#[test]
fn a_headless_input_becomes_an_event() {
    let hello = Input { broadcast: Some("hello".to_string()) };
    assert_eq!(
        event_for(hello.clone(), false),
        (ClientEvent::StartBroadcast("hello".to_string()), true)
    );
    assert_eq!(
        event_for(hello, true),
        (ClientEvent::StartBroadcast("hello".to_string()), true)
    );
    assert_eq!(event_for(Input::new(), true), (ClientEvent::StopBroadcast, false));
    assert_eq!(event_for(Input::new(), false), (ClientEvent::Heartbeat, false));
}

#[test]
fn events_from_the_server_are_shown_in_the_frame() {
    let mut frame = Frame::new();
    apply_event(&mut frame, ServerEvent::SelfId("ME-000001".to_string()));
    apply_event(&mut frame, ServerEvent::StartBroadcast(broadcast("A", "one")));
    apply_event(&mut frame, ServerEvent::StartBroadcast(broadcast("B", "two")));
    apply_event(&mut frame, ServerEvent::StartBroadcast(broadcast("C", "three")));
    assert_eq!(frame.self_id, "ME-000001");
    assert_eq!(
        frame.broadcasts,
        vec![broadcast("A", "one"), broadcast("B", "two"), broadcast("C", "three")]
    );

    // A new broadcast of a sender takes the place of the old, at the end.
    apply_event(&mut frame, ServerEvent::StartBroadcast(broadcast("A", "again")));
    assert_eq!(
        frame.broadcasts,
        vec![broadcast("B", "two"), broadcast("C", "three"), broadcast("A", "again")]
    );
    apply_event(&mut frame, ServerEvent::StopBroadcast("C".to_string()));
    apply_event(&mut frame, ServerEvent::StopBroadcast("nobody".to_string()));
    assert_eq!(frame.broadcasts, vec![broadcast("B", "two"), broadcast("A", "again")]);

    let mut all = vec![broadcast("X", "1"), broadcast("Y", "2"), broadcast("X", "3")];
    remove_sender(&mut all, "X");
    assert_eq!(all, vec![broadcast("Y", "2")]);
}
