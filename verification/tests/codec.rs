use vndf::protocol::action::Action;
use vndf::protocol::bytes::find;
use vndf::protocol::decode::{decode, decode_line, is_update, DecodeError};
use vndf::protocol::encode::{count_fitting, encode_message, line_len, EncodeError, MessageEncoder};
use vndf::protocol::number::{read_number, write_number};
use vndf::protocol::part::Part;
use vndf::protocol::percept::{Broadcast, Percept};
use vndf::protocol::perception::{Perception, PerceptionHeader};
use vndf::protocol::step::{same_bytes, Step};
use vndf::protocol::text::{read_escaped, read_text, write_escaped, write_text};

fn decode_action(bytes: &[u8]) -> Result<Action<Step>, DecodeError> {
    Action::decode(bytes)
}

#[test]
fn an_action_round_trips() {
    let action = Action {
        seq: 512,
        steps: vec![
            Step::Login,
            Step::Broadcast("hello world\nsecond \\ line".to_string()),
            Step::StopBroadcast,
            Step::Heartbeat,
            Step::ScheduleManeuver("0.5 1.25 90".to_string()),
        ],
    };
    let bytes = action.encode().unwrap();
    assert_eq!(
        String::from_utf8(bytes.clone()).unwrap(),
        "HEADER 512\n\
         UPDATE LOGIN\n\
         UPDATE BROADCAST hello\\sworld\\nsecond\\s\\\\\\sline\n\
         UPDATE STOP_BROADCAST\n\
         UPDATE HEARTBEAT\n\
         UPDATE MANEUVER 0.5\\s1.25\\s90\n"
    );
    assert_eq!(decode_action(&bytes), Ok(action));
}

#[test]
fn a_perception_round_trips() {
    let perception = Perception {
        header: PerceptionHeader { confirm_action: 7, self_id: Some("ABC-12DE5".to_string()) },
        percepts: vec![
            Percept::Broadcast(Broadcast {
                sender: "XYZ-00000".to_string(),
                message: "Grüße aus dem All".to_string(),
            }),
            Percept::Broadcast(Broadcast { sender: "an id".to_string(), message: String::new() }),
        ],
    };
    let bytes = perception.encode().unwrap();
    assert_eq!(
        String::from_utf8(bytes.clone()).unwrap(),
        "HEADER 7 ABC-12DE5\n\
         UPDATE BROADCAST XYZ-00000 Grüße\\saus\\sdem\\sAll\n\
         UPDATE BROADCAST an\\sid \n"
    );
    assert_eq!(Perception::decode(&bytes), Ok(perception));
}

#[test]
fn a_perception_without_an_id_round_trips() {
    let perception: Perception<String, Percept> = Perception {
        header: PerceptionHeader { confirm_action: u64::MAX, self_id: None },
        percepts: vec![],
    };
    let bytes = perception.encode().unwrap();
    assert_eq!(bytes, b"HEADER 18446744073709551615\n".to_vec());
    assert_eq!(Perception::decode(&bytes), Ok(perception));
}

#[test]
fn invalid_utf8_is_refused() {
    assert_eq!(decode_action(&[0x80u8]), Err(DecodeError::InvalidUtf8));
    assert_eq!(
        decode_action(b"HEADER 1\nUPDATE BROADCAST \xff\n"),
        Err(DecodeError::InvalidUtf8)
    );
}

#[test]
fn an_empty_message_has_no_header() {
    assert_eq!(decode_action(b""), Err(DecodeError::MissingHeader));
}

#[test]
fn a_header_line_without_a_space_is_invalid() {
    assert_eq!(decode_action(b"HEADER\n"), Err(DecodeError::InvalidHeader));
    assert_eq!(decode_action(b"\nUPDATE LOGIN\n"), Err(DecodeError::InvalidHeader));
    assert_eq!(decode_action(b"512"), Err(DecodeError::InvalidHeader));
}

#[test]
fn a_header_that_is_no_number_is_refused() {
    assert_eq!(decode_action(b"HEADER x\n"), Err(DecodeError::Header(b"x".to_vec())));
    assert_eq!(decode_action(b"HEADER \n"), Err(DecodeError::Header(vec![])));
    assert_eq!(decode_action(b"HEADER 1 2\n"), Err(DecodeError::Header(b"1 2".to_vec())));
    assert_eq!(decode_action(b"HEADER -1\n"), Err(DecodeError::Header(b"-1".to_vec())));
    assert_eq!(
        decode_action(b"HEADER 18446744073709551616\n"),
        Err(DecodeError::Header(b"18446744073709551616".to_vec()))
    );
}

#[test]
fn the_directive_of_the_header_line_is_ignored() {
    assert_eq!(decode_action(b"ANYTHING 3\n"), Ok(Action { seq: 3, steps: vec![] }));
    assert_eq!(decode_action(b" 3"), Ok(Action { seq: 3, steps: vec![] }));
    assert_eq!(decode_action(b"HEADER 0003"), Ok(Action { seq: 3, steps: vec![] }));
}

#[test]
fn empty_lines_are_skipped() {
    assert_eq!(
        decode_action(b"HEADER 3\n\n\nUPDATE LOGIN\n\nUPDATE STOP_BROADCAST\n\n"),
        Ok(Action { seq: 3, steps: vec![Step::Login, Step::StopBroadcast] })
    );
    assert_eq!(
        decode_action(b"HEADER 3\nUPDATE LOGIN"),
        Ok(Action { seq: 3, steps: vec![Step::Login] })
    );
}

#[test]
fn a_line_that_begins_with_a_space_lacks_its_directive() {
    assert_eq!(decode_action(b"HEADER 3\n LOGIN\n"), Err(DecodeError::MissingDirective));
    assert_eq!(decode_action(b"HEADER 3\n \n"), Err(DecodeError::MissingDirective));
}

#[test]
fn a_line_without_a_space_lacks_its_entity() {
    assert_eq!(decode_action(b"HEADER 3\nUPDATE\n"), Err(DecodeError::MissingEntity));
    assert_eq!(decode_action(b"HEADER 3\nLOGIN\n"), Err(DecodeError::MissingEntity));
}

#[test]
fn only_update_is_a_directive() {
    assert_eq!(
        decode_action(b"HEADER 3\nDESTROY LOGIN\n"),
        Err(DecodeError::UnknownDirective(b"DESTROY".to_vec()))
    );
    assert_eq!(
        decode_action(b"HEADER 3\nupdate LOGIN\n"),
        Err(DecodeError::UnknownDirective(b"update".to_vec()))
    );
    assert_eq!(
        decode_action(b"HEADER 3\nUPDATED LOGIN\n"),
        Err(DecodeError::UnknownDirective(b"UPDATED".to_vec()))
    );
}

#[test]
fn an_entity_that_is_no_step_is_refused() {
    for line in [
        "UPDATE login",
        "UPDATE LOGIN ",
        "UPDATE LOGIN now",
        "UPDATE BROADCAST",
        "UPDATE STOP_BROADCAST x",
        "UPDATE BROADCAST bad\\escape",
        "UPDATE BROADCAST dangling\\",
        "UPDATE ",
    ] {
        let message = format!("HEADER 3\n{}\n", line);
        let entity = line.as_bytes()[7..].to_vec();
        assert_eq!(decode_action(message.as_bytes()), Err(DecodeError::Entity(entity)), "{}", line);
    }
}

#[test]
fn the_items_before_a_faulty_line_are_handed_over() {
    let mut steps: Vec<Step> = vec![Step::Heartbeat];
    let header: Result<u64, DecodeError> =
        decode(b"HEADER 9\nUPDATE LOGIN\nUPDATE STOP_BROADCAST\nNONSENSE\nUPDATE LOGIN\n", &mut steps);
    assert_eq!(header, Err(DecodeError::MissingEntity));
    assert_eq!(steps, vec![Step::Heartbeat, Step::Login, Step::StopBroadcast]);

    let mut none: Vec<Step> = vec![];
    let header: Result<u64, DecodeError> = decode(b"HEADER x\nUPDATE LOGIN\n", &mut none);
    assert_eq!(header, Err(DecodeError::Header(b"x".to_vec())));
    assert!(none.is_empty());
}

#[test]
fn a_percept_needs_its_keyword_and_both_tokens() {
    assert_eq!(Percept::read(b"BROADCAST a"), None);
    assert_eq!(Percept::read(b"BROADCAST"), None);
    assert_eq!(Percept::read(b"LOGIN a b"), None);
    assert_eq!(Percept::read(b"BROADCAST a\\ b"), None);
    assert_eq!(
        Percept::read(b"BROADCAST a b"),
        Some(Percept::Broadcast(Broadcast { sender: "a".to_string(), message: "b".to_string() }))
    );
    assert_eq!(
        Percept::read(b"BROADCAST  "),
        Some(Percept::Broadcast(Broadcast { sender: String::new(), message: String::new() }))
    );
}

#[test]
fn a_message_longer_than_a_datagram_is_not_encoded() {
    // The header line takes 9 bytes, the line of the step 18 and its text.
    let fits = Action { seq: 0, steps: vec![Step::Broadcast("x".repeat(485))] };
    assert_eq!(fits.encode().unwrap().len(), 512);
    let too_long = Action { seq: 0, steps: vec![Step::Broadcast("x".repeat(486))] };
    assert_eq!(too_long.encode(), Err(EncodeError::TooLarge));
    let many = Action { seq: 1, steps: (0..50).map(|_| Step::StopBroadcast).collect() };
    assert_eq!(many.encode(), Err(EncodeError::TooLarge));
    let header = PerceptionHeader { confirm_action: 1, self_id: Some("i".repeat(600)) };
    let items: Vec<Percept> = vec![];
    assert_eq!(encode_message(&header, &items), Err(EncodeError::TooLarge));
}

#[test]
fn an_encoder_takes_items_while_they_fit() {
    let header: u64 = 12;
    let mut encoder = MessageEncoder::new(&header);
    assert_eq!(encoder.len(), 10);
    assert!(encoder.add(&Step::Login));
    assert_eq!(encoder.len(), 23);
    assert!(!encoder.add(&Step::Broadcast("x".repeat(480))));
    assert_eq!(encoder.len(), 23);
    let steps: Vec<Step> = (0..40).map(|_| Step::StopBroadcast).collect();
    // Each line takes 22 bytes: 22 of them fit into the 489 that are left.
    assert_eq!(encoder.fill(&steps, 3), 22);
    assert_eq!(encoder.len(), 23 + 22 * 22);
    assert_eq!(encoder.fill(&steps, 0), 0);
    let bytes = encoder.encode().unwrap();
    assert_eq!(bytes.len(), 507);
    assert!(bytes.starts_with(b"HEADER 12\nUPDATE LOGIN\nUPDATE STOP_BROADCAST\n"));

    assert_eq!(line_len(&Step::StopBroadcast), 22);
    assert_eq!(count_fitting(28, &steps, 0), 22);
    assert_eq!(count_fitting(28, &steps, 30), 10);
    assert_eq!(count_fitting(500, &steps, 0), 0);
    assert_eq!(count_fitting(600, &steps, 0), 0);
    assert_eq!(MessageEncoder::new(&header).into_bytes(), b"HEADER 12\n".to_vec());
}

#[test]
fn numbers_are_decimal() {
    let mut out = b"n=".to_vec();
    write_number(0, &mut out);
    write_number(1234567890, &mut out);
    assert_eq!(out, b"n=01234567890".to_vec());
    assert_eq!(read_number(b"18446744073709551615"), Some(u64::MAX));
    assert_eq!(read_number(b"18446744073709551616"), None);
    assert_eq!(read_number(b"99999999999999999999"), None);
    assert_eq!(read_number(b"007"), Some(7));
    assert_eq!(read_number(b""), None);
    assert_eq!(read_number(b"1e3"), None);
    assert_eq!(read_number(b"+1"), None);
}

#[test]
fn text_is_escaped_into_one_token() {
    let mut out = Vec::new();
    write_text("a b\nc\\d", &mut out);
    assert_eq!(out, b"a\\sb\\nc\\\\d".to_vec());
    assert_eq!(read_text(&out), Some("a b\nc\\d".to_string()));
    assert_eq!(read_text(b""), Some(String::new()));
    assert_eq!(read_text(b"\\x"), None);
    assert_eq!(read_text(b"\\"), None);
    assert_eq!(read_text(b"\xc3"), None);
    assert_eq!(read_text(b"\xc3\xbc"), Some("ü".to_string()));

    let mut raw = Vec::new();
    write_escaped(&[0x00, 0x20, 0xff, 0x5c, 0x0a], &mut raw);
    assert_eq!(raw, vec![0x00, 0x5c, 0x73, 0xff, 0x5c, 0x5c, 0x5c, 0x6e]);
    assert_eq!(read_escaped(&raw), Some(vec![0x00, 0x20, 0xff, 0x5c, 0x0a]));
}

#[test]
fn bytes_are_found_and_compared() {
    assert_eq!(find(b"a b c", 0, b' '), 1);
    assert_eq!(find(b"a b c", 2, b' '), 3);
    assert_eq!(find(b"a b c", 4, b' '), 5);
    assert_eq!(find(b"", 0, b' '), 0);
    assert!(same_bytes(b"abc", b"abc"));
    assert!(!same_bytes(b"abc", b"abd"));
    assert!(!same_bytes(b"abc", b"ab"));
    assert!(is_update(b"UPDATE"));
    assert!(!is_update(b"UPDATE "));
    let step: Result<Step, DecodeError> = decode_line(b"UPDATE LOGIN");
    assert_eq!(step, Ok(Step::Login));
}
