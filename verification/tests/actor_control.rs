use voicetime::actor::{Action, Message};
use voicetime::control::{parse_control_command, ControlCommand};
use voicetime::store::Store;

const A: u64 = 3;
const G1: u64 = 30;
const C1: u64 = 300;

#[test]
fn worker_step_applies_mutations_in_order() {
    let mut s = Store::new();
    let a1 = s.handle_message(Message::UpdatePresence { user: A, location: Some((G1, C1)), now: 0 });
    assert!(matches!(a1, Action::Done));
    let a2 = s.handle_message(Message::UpdatePresence { user: A, location: None, now: 90 });
    assert!(matches!(a2, Action::Done));
    let a3 = s.handle_message(Message::Query { user: A, community: G1, channel: Some(C1) });
    match a3 {
        Action::Reply { seconds } => assert_eq!(seconds, 90),
        _ => panic!("a query must always be answered"),
    }
}

#[test]
fn every_query_gets_a_reply_even_for_unknown_users() {
    let mut s = Store::new();
    let a = s.handle_message(Message::Query { user: 999, community: G1, channel: None });
    match a {
        Action::Reply { seconds } => assert_eq!(seconds, 0),
        _ => panic!("a query must always be answered"),
    }
}

#[test]
fn opt_out_message_blocks_accounting() {
    let mut s = Store::new();
    s.handle_message(Message::OptOut { user: A });
    s.handle_message(Message::UpdatePresence { user: A, location: Some((G1, C1)), now: 0 });
    s.handle_message(Message::UpdatePresence { user: A, location: None, now: 500 });
    match s.handle_message(Message::Query { user: A, community: G1, channel: None }) {
        Action::Reply { seconds } => assert_eq!(seconds, 0),
        _ => panic!("a query must always be answered"),
    }
    s.handle_message(Message::OptIn { user: A });
    s.handle_message(Message::UpdatePresence { user: A, location: Some((G1, C1)), now: 600 });
    s.handle_message(Message::UpdatePresence { user: A, location: None, now: 650 });
    match s.handle_message(Message::Query { user: A, community: G1, channel: None }) {
        Action::Reply { seconds } => assert_eq!(seconds, 50),
        _ => panic!("a query must always be answered"),
    }
}

#[test]
fn save_produces_the_snapshot_bytes_and_keeps_running() {
    let mut s = Store::new();
    s.handle_message(Message::UpdatePresence { user: A, location: Some((G1, C1)), now: 0 });
    s.handle_message(Message::UpdatePresence { user: A, location: None, now: 33 });
    let saved = match s.handle_message(Message::Save) {
        Action::Persist { bytes } => bytes,
        _ => panic!("a save must hand back the snapshot"),
    };
    assert_eq!(saved, s.to_bytes());
    let reloaded = Store::from_bytes(&saved).unwrap();
    assert_eq!(reloaded.query_time(A, G1, Some(C1)), 33);
    // The store keeps answering after a save.
    match s.handle_message(Message::Query { user: A, community: G1, channel: None }) {
        Action::Reply { seconds } => assert_eq!(seconds, 33),
        _ => panic!("a query must always be answered"),
    }
}

#[test]
fn stop_and_save_hands_back_the_final_snapshot() {
    let mut s = Store::new();
    s.handle_message(Message::OptOut { user: 77 });
    let bytes = match s.handle_message(Message::StopAndSave) {
        Action::PersistAndStop { bytes } => bytes,
        _ => panic!("a stop must hand back the final snapshot"),
    };
    let reloaded = Store::from_bytes(&bytes).unwrap();
    assert!(reloaded.is_excluded(77));
}

#[test]
fn control_lines_map_to_commands() {
    assert_eq!(parse_control_command(b"save"), ControlCommand::Save);
    assert_eq!(parse_control_command(b"stop"), ControlCommand::Stop);
    assert_eq!(parse_control_command(b"exit"), ControlCommand::Exit);
    assert_eq!(parse_control_command(b"save\n"), ControlCommand::Save);
    assert_eq!(parse_control_command(b"  stop \r\n"), ControlCommand::Stop);
    assert_eq!(parse_control_command(b"\texit\t"), ControlCommand::Exit);
}

#[test]
fn all_ascii_whitespace_is_trimmed() {
    assert_eq!(parse_control_command(b"\x0bsave\x0c"), ControlCommand::Save);
    assert_eq!(parse_control_command(b"\r\n\t stop \t\r\n"), ControlCommand::Stop);
}

#[test]
fn unknown_control_lines_are_ignored() {
    assert_eq!(parse_control_command(b""), ControlCommand::Ignore);
    assert_eq!(parse_control_command(b"   \n"), ControlCommand::Ignore);
    assert_eq!(parse_control_command(b"SAVE"), ControlCommand::Ignore);
    assert_eq!(parse_control_command(b"saves"), ControlCommand::Ignore);
    assert_eq!(parse_control_command(b"sav"), ControlCommand::Ignore);
    assert_eq!(parse_control_command(b"save now"), ControlCommand::Ignore);
    assert_eq!(parse_control_command(b"status"), ControlCommand::Ignore);
}
