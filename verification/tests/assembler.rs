use vndf::client::action_assembler::ActionAssembler;
use vndf::protocol::action::Action;
use vndf::protocol::step::Step;

#[test]
fn start_and_stop_before_any_receipt_travel_in_order_and_are_pruned() {
    let mut assembler = ActionAssembler::new();
    assert!(assembler.add_step(Step::Broadcast("hello".to_string())));
    assert!(assembler.add_step(Step::StopBroadcast));

    let action = assembler.assemble();
    assert_eq!(action.seq, 0);
    assert_eq!(
        action.steps,
        vec![Step::Broadcast("hello".to_string()), Step::StopBroadcast]
    );
    assert_eq!(assembler.pending_len(), 2);

    assembler.process_receipt(action.seq);
    assert_eq!(assembler.pending_len(), 0);
    assert_eq!(assembler.assemble().steps, vec![]);
}

#[test]
fn unconfirmed_steps_are_sent_again_with_a_new_sequence_number() {
    let mut assembler = ActionAssembler::new();
    assembler.add_step(Step::Login);
    let first = assembler.assemble();
    assembler.add_step(Step::Broadcast("a".to_string()));
    let second = assembler.assemble();
    assert_eq!((first.seq, second.seq), (0, 1));
    assert_eq!(first.steps, vec![Step::Login]);
    assert_eq!(second.steps, vec![Step::Login, Step::Broadcast("a".to_string())]);
    assert_eq!(assembler.next_seq(), 2);

    // The receipt for the first action comes late: the login went out
    // again under 1, and stays until a receipt reaches that number.
    assembler.process_receipt(0);
    assert_eq!(assembler.pending_len(), 2);
    let third = assembler.assemble();
    assert_eq!(third.seq, 2);
    assert_eq!(third.steps, vec![Step::Login, Step::Broadcast("a".to_string())]);

    // Now both steps were last sent under 2.
    assembler.process_receipt(1);
    assert_eq!(assembler.pending_len(), 2);
    assembler.process_receipt(2);
    assert_eq!(assembler.pending_len(), 0);
}

#[test]
fn a_receipt_for_the_last_action_prunes_what_it_carried() {
    let mut assembler = ActionAssembler::new();
    assembler.add_step(Step::Login);
    let first = assembler.assemble();
    assembler.add_step(Step::Broadcast("a".to_string()));
    assembler.process_receipt(first.seq);
    assert_eq!(assembler.pending_len(), 1);
    let second = assembler.assemble();
    assert_eq!(second.steps, vec![Step::Broadcast("a".to_string())]);
    assembler.process_receipt(second.seq);
    assert_eq!(assembler.pending_len(), 0);
}

#[test]
fn the_same_receipt_twice_removes_nothing_more() {
    let mut assembler = ActionAssembler::new();
    assembler.add_step(Step::Login);
    let action = assembler.assemble();
    assembler.add_step(Step::StopBroadcast);
    assembler.process_receipt(action.seq);
    assert_eq!(assembler.pending_len(), 1);
    assembler.process_receipt(action.seq);
    assert_eq!(assembler.pending_len(), 1);
    // A receipt for an action that was never sent with this step leaves it.
    assembler.process_receipt(u64::MAX);
    assert_eq!(assembler.pending_len(), 1);
    assert_eq!(assembler.assemble().steps, vec![Step::StopBroadcast]);
}

#[test]
fn a_receipt_before_any_action_changes_nothing() {
    let mut assembler = ActionAssembler::new();
    assembler.add_step(Step::Login);
    assembler.process_receipt(7);
    assert_eq!(assembler.pending_len(), 1);
}

#[test]
fn heartbeats_do_not_grow_the_backlog() {
    let mut assembler = ActionAssembler::new();
    assert!(!assembler.add_step(Step::Heartbeat));
    assert_eq!(assembler.pending_len(), 0);
    let action = assembler.assemble();
    assert_eq!(action, Action { seq: 0, steps: vec![] });
    assert_eq!(action.encode().unwrap(), b"HEADER 0\n".to_vec());
}

#[test]
fn a_step_too_long_for_any_action_is_not_queued() {
    let mut assembler = ActionAssembler::new();
    // "UPDATE BROADCAST " and the line feed take 18 bytes, the longest
    // header 28: 466 bytes of text are the most that fits.
    assert!(!assembler.add_step(Step::Broadcast("x".repeat(467))));
    assert_eq!(assembler.pending_len(), 0);
    assert!(assembler.add_step(Step::Broadcast("x".repeat(466))));
    assert_eq!(assembler.pending_len(), 1);
    let action = assembler.assemble();
    assert_eq!(action.steps.len(), 1);
    assert_eq!(action.encode().unwrap().len(), 9 + 484);
}

#[test]
fn a_backlog_too_long_for_one_datagram_is_cut_at_its_end() {
    let mut assembler = ActionAssembler::new();
    assembler.add_step(Step::Login);
    for i in 0..30 {
        assembler.add_step(Step::Broadcast(format!("broadcast number {:02} of thirty", i)));
    }
    assert_eq!(assembler.pending_len(), 31);

    // "UPDATE LOGIN\n" takes 13 bytes, every other line 51, as each of
    // the four spaces of a text travels as two bytes; behind the 28 bytes
    // kept for the header that makes room for nine broadcasts.
    let first = assembler.assemble();
    assert_eq!(first.steps.len(), 10);
    assert_eq!(first.steps[0], Step::Login);
    let bytes = first.encode().unwrap();
    assert!(bytes.len() <= 512);
    assert_eq!(bytes.len(), 9 + 13 + 9 * 51);

    // Until the receipt comes, the same steps go out again; then only
    // the receipt for the later action counts.
    let second = assembler.assemble();
    assert_eq!(second.steps, first.steps);
    assembler.process_receipt(first.seq);
    assert_eq!(assembler.pending_len(), 31);

    // Four round trips deliver all of it.
    assembler.process_receipt(second.seq);
    assert_eq!(assembler.pending_len(), 21);
    let third = assembler.assemble();
    assert_eq!(third.steps.len(), 9);
    assert_eq!(
        third.steps[0],
        Step::Broadcast("broadcast number 09 of thirty".to_string())
    );
    assembler.process_receipt(third.seq);
    let fourth = assembler.assemble();
    assert_eq!(fourth.steps.len(), 9);
    assembler.process_receipt(fourth.seq);
    let fifth = assembler.assemble();
    assert_eq!(fifth.steps.len(), 3);
    assembler.process_receipt(fifth.seq);
    assert_eq!(assembler.pending_len(), 0);
}
