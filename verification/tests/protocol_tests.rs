use dfs_core::protocol::{
    Command, Response, decode_command, decode_response, encode_command, encode_response,
    frame_payload, take_frame,
};

fn round_trip_command(cmd: Command) -> Command {
    let encoded = encode_command(&cmd).expect("command should encode");
    decode_command(&encoded).expect("encoded command should decode")
}

#[test]
fn command_list_files_round_trips() {
    assert!(matches!(round_trip_command(Command::ListFiles), Command::ListFiles));
}

#[test]
fn command_upload_round_trips() {
    let got = round_trip_command(Command::Upload {
        name: "example.txt".to_string(),
        bytes: b"Hello World!".to_vec(),
    });
    match got {
        Command::Upload { name, bytes } => {
            assert_eq!(name, "example.txt");
            assert_eq!(bytes, b"Hello World!".to_vec());
        }
        _ => panic!("wrong variant"),
    }
}

#[test]
fn command_download_delete_search_round_trip() {
    match round_trip_command(Command::Download { name: "a".to_string() }) {
        Command::Download { name } => assert_eq!(name, "a"),
        _ => panic!("wrong variant"),
    }
    match round_trip_command(Command::Delete { name: "b".to_string() }) {
        Command::Delete { name } => assert_eq!(name, "b"),
        _ => panic!("wrong variant"),
    }
    match round_trip_command(Command::Search { substring: "c".to_string() }) {
        Command::Search { substring } => assert_eq!(substring, "c"),
        _ => panic!("wrong variant"),
    }
}

#[test]
fn command_encoding_is_tag_then_length_prefixed_fields() {
    assert_eq!(encode_command(&Command::ListFiles).unwrap(), vec![1u8]);
    assert_eq!(
        encode_command(&Command::Download { name: "ab".to_string() }).unwrap(),
        vec![3u8, 0, 0, 0, 2, b'a', b'b']
    );
    assert_eq!(
        encode_command(&Command::Upload { name: "x".to_string(), bytes: vec![9u8, 8] }).unwrap(),
        vec![2u8, 0, 0, 0, 1, b'x', 0, 0, 0, 2, 9, 8]
    );
}

#[test]
fn decode_rejects_malformed_commands() {
    // empty input
    assert!(decode_command(&[]).is_err());
    // unknown tag
    assert!(decode_command(&[9u8]).is_err());
    // truncated field
    assert!(decode_command(&[3u8, 0, 0, 0, 5, b'a']).is_err());
    // trailing bytes after a complete command
    assert!(decode_command(&[1u8, 0]).is_err());
    // a name that is not UTF-8
    assert!(decode_command(&[3u8, 0, 0, 0, 1, 0xFF]).is_err());
}

#[test]
fn response_round_trips_message_only() {
    let resp = Response { message: "ok".to_string(), bytes: None, names: None };
    let encoded = encode_response(&resp).unwrap();
    let got = decode_response(&encoded).unwrap();
    assert_eq!(got.message, "ok");
    assert!(got.bytes.is_none());
    assert!(got.names.is_none());
}

#[test]
fn response_round_trips_with_bytes() {
    let resp = Response {
        message: "ok".to_string(),
        bytes: Some(b"Hello World!".to_vec()),
        names: None,
    };
    let encoded = encode_response(&resp).unwrap();
    let got = decode_response(&encoded).unwrap();
    assert_eq!(got.message, "ok");
    assert_eq!(got.bytes, Some(b"Hello World!".to_vec()));
    assert!(got.names.is_none());
}

#[test]
fn response_round_trips_with_names() {
    let resp = Response {
        message: "ok".to_string(),
        bytes: None,
        names: Some(vec!["a.txt".to_string(), "b.txt".to_string()]),
    };
    let encoded = encode_response(&resp).unwrap();
    let got = decode_response(&encoded).unwrap();
    assert_eq!(got.message, "ok");
    assert!(got.bytes.is_none());
    assert_eq!(got.names, Some(vec!["a.txt".to_string(), "b.txt".to_string()]));
}

#[test]
fn decode_response_rejects_malformed_input() {
    // empty input: no message field
    assert!(decode_response(&[]).is_err());
    // presence byte other than 0 or 1
    assert!(decode_response(&[0, 0, 0, 0, 7]).is_err());
    // trailing bytes
    assert!(decode_response(&[0, 0, 0, 0, 0, 0, 9]).is_err());
}

#[test]
fn framing_prefixes_the_payload_length() {
    let framed = frame_payload(&[5u8, 6, 7]).unwrap();
    assert_eq!(framed, vec![0u8, 0, 0, 3, 5, 6, 7]);
}

#[test]
fn take_frame_waits_for_a_complete_frame() {
    // incomplete length prefix
    assert!(take_frame(&[0u8, 0]).is_none());
    // declared length not yet arrived
    assert!(take_frame(&[0u8, 0, 0, 3, 5]).is_none());
    // a complete frame followed by the start of the next one
    let buffer = [0u8, 0, 0, 2, 5, 6, 0, 0];
    let (payload, consumed) = take_frame(&buffer).unwrap();
    assert_eq!(payload, vec![5u8, 6]);
    assert_eq!(consumed, 6);
}

#[test]
fn unicode_fields_survive_the_wire() {
    let encoded = encode_command(&Command::Search { substring: "suche: größe".to_string() })
        .unwrap();
    match decode_command(&encoded).unwrap() {
        Command::Search { substring } => assert_eq!(substring, "suche: größe"),
        _ => panic!("wrong variant"),
    }
}
