use dfs_core::connection::{ConnPhase, Connection};
use dfs_core::dispatcher::handle;
use dfs_core::protocol::{Command, decode_response, encode_command};
use dfs_core::storage::StorageEngine;

#[test]
fn upload_list_download_delete_scenario() {
    let mut engine = StorageEngine::new();

    let up = handle(
        &mut engine,
        Command::Upload { name: "example.txt".to_string(), bytes: b"Hello World!".to_vec() },
    );
    assert_eq!(up.message, "ok");
    assert!(up.bytes.is_none());
    assert!(up.names.is_none());

    let listing = handle(&mut engine, Command::ListFiles);
    assert_eq!(listing.message, "ok");
    assert_eq!(listing.names, Some(vec!["example.txt".to_string()]));

    let down = handle(&mut engine, Command::Download { name: "example.txt".to_string() });
    assert_eq!(down.message, "ok");
    assert_eq!(down.bytes, Some(b"Hello World!".to_vec()));

    let del = handle(&mut engine, Command::Delete { name: "example.txt".to_string() });
    assert_eq!(del.message, "ok");

    let again = handle(&mut engine, Command::Download { name: "example.txt".to_string() });
    assert_eq!(again.message, "not_found");
    assert!(again.bytes.is_none());
}

#[test]
fn search_scenario_matches_prefix() {
    let mut engine = StorageEngine::new();
    handle(
        &mut engine,
        Command::Upload { name: "example.txt".to_string(), bytes: b"a".to_vec() },
    );
    handle(&mut engine, Command::Upload { name: "other.txt".to_string(), bytes: b"b".to_vec() });
    let found = handle(&mut engine, Command::Search { substring: "examp".to_string() });
    assert_eq!(found.message, "ok");
    assert_eq!(found.names, Some(vec!["example.txt".to_string()]));
}

#[test]
fn upload_with_invalid_name_reports_stable_code() {
    let mut engine = StorageEngine::new();
    let resp = handle(
        &mut engine,
        Command::Upload { name: "../escape".to_string(), bytes: b"x".to_vec() },
    );
    assert_eq!(resp.message, "invalid_name");
    let listing = handle(&mut engine, Command::ListFiles);
    assert_eq!(listing.names, Some(Vec::new()));
}

#[test]
fn second_delete_is_answered_not_crashed() {
    let mut engine = StorageEngine::new();
    handle(&mut engine, Command::Upload { name: "once".to_string(), bytes: b"x".to_vec() });
    let first = handle(&mut engine, Command::Delete { name: "once".to_string() });
    assert_eq!(first.message, "ok");
    let second = handle(&mut engine, Command::Delete { name: "once".to_string() });
    assert_eq!(second.message, "not_found");
}

#[test]
fn session_dispatches_a_framed_command() {
    let mut engine = StorageEngine::new();
    let mut session = Connection::new();
    assert_eq!(session.current_phase(), ConnPhase::AwaitingCommand);

    let payload = encode_command(&Command::Upload {
        name: "wire.txt".to_string(),
        bytes: b"over the wire".to_vec(),
    })
    .unwrap();
    let reply = session.on_frame(&mut engine, &payload);
    assert_eq!(session.current_phase(), ConnPhase::ResponseSent);
    let resp = decode_response(&reply).expect("the session must answer a well-formed frame");
    assert_eq!(resp.message, "ok");
    assert_eq!(engine.retrieve("wire.txt"), Ok(b"over the wire".to_vec()));

    session.await_next_command();
    assert_eq!(session.current_phase(), ConnPhase::AwaitingCommand);

    let payload = encode_command(&Command::Download { name: "wire.txt".to_string() }).unwrap();
    let reply = session.on_frame(&mut engine, &payload);
    let resp = decode_response(&reply).unwrap();
    assert_eq!(resp.message, "ok");
    assert_eq!(resp.bytes, Some(b"over the wire".to_vec()));
}

#[test]
fn malformed_frame_closes_the_session_with_an_error_reply() {
    let mut engine = StorageEngine::new();
    let mut session = Connection::new();
    let reply = session.on_frame(&mut engine, &[42u8, 0, 1]);
    assert_eq!(session.current_phase(), ConnPhase::Closed);
    let resp = decode_response(&reply).expect("the error reply must itself decode");
    assert!(resp.message.starts_with("protocol_error:"), "got {:?}", resp.message);
    assert!(resp.bytes.is_none());
    assert!(resp.names.is_none());
}

#[test]
fn closed_session_stays_closed() {
    let mut session = Connection::new();
    session.close();
    assert_eq!(session.current_phase(), ConnPhase::Closed);
}
