use instrumentation::stream_utils::{
    decode_command, decode_header, decode_message, encode_message, handle_client, ClientAction,
    ClientEvent, ClientState, MAX_PACKET_SIZE,
};
use instrumentation::consts::{CONFIG_FILE, ENV_VAR, GET_KEY, GET_SUBKEYS, HAS_KEY};
use instrumentation::{handle_request, RequestPlan};

fn s(t: &str) -> String {
    t.to_string()
}

fn cmd(name: &str, param: Option<&str>) -> Result<(String, Option<String>), String> {
    Ok((s(name), param.map(s)))
}

#[test]
fn decodes_commands() {
    assert_eq!(decode_message(&b"GET_KEY myapp.foo".to_vec()), cmd("GET_KEY", Some("myapp.foo")));
    assert_eq!(decode_message(&b"HAS_KEY myapp.bar".to_vec()), cmd("HAS_KEY", Some("myapp.bar")));
    assert_eq!(decode_message(&b"GET_SUBKEYS".to_vec()), cmd("GET_SUBKEYS", None));
    assert_eq!(decode_message(&b"GET_SUBKEYS myapp".to_vec()), cmd("GET_SUBKEYS", Some("myapp")));
    assert_eq!(
        decode_message(&b"\"GET_KEY\" \"my app.a key\"".to_vec()),
        cmd("GET_KEY", Some("my app.a key"))
    );
}

#[test]
fn refuses_bad_commands() {
    assert_eq!(decode_message(&b"GET_KEY".to_vec()), Err(s("invalid command")));
    assert_eq!(decode_message(&b"PUT_KEY a.b".to_vec()), Err(s("invalid command")));
    assert_eq!(decode_message(&b"GET_KEY a b".to_vec()), Err(s("invalid command")));
    assert_eq!(decode_message(&b"".to_vec()), Err(s("invalid command")));
    assert_eq!(decode_message(&b"# GET_KEY a".to_vec()), Err(s("invalid command")));
    assert_eq!(decode_message(&b"GET_KEY \"a".to_vec()), Err(s("open quote")));
    assert_eq!(decode_message(&vec![0xff, 0x41]), Err(s("invalid utf8")));
    assert_eq!(decode_command(s("get_key a.b")), Err(s("invalid command")));
}

#[test]
fn frames_messages() {
    assert_eq!(encode_message(b"{}"), vec![0, 0, 0, 2, b'{', b'}']);
    assert_eq!(encode_message(b""), vec![0, 0, 0, 0]);
    let payload = vec![7u8; 0x1234];
    let framed = encode_message(&payload);
    assert_eq!(&framed[..4], &[0, 0, 0x12, 0x34]);
    assert_eq!(&framed[4..], &payload[..]);
    assert_eq!(decode_header([0, 0, 0, 0x11]), 17);
    assert_eq!(decode_header([0x01, 0x02, 0x03, 0x04]), 0x01020304);
    assert_eq!(decode_header([0xff, 0xff, 0xff, 0xff]), u32::MAX);
}

#[test]
fn client_sessions() {
    let (st, act) = handle_client(ClientState::AwaitingHeader, ClientEvent::Header([0, 0, 0, 0x11]), MAX_PACKET_SIZE);
    assert_eq!(st, ClientState::AwaitingBody);
    assert_eq!(act, ClientAction::ReadBody(17));
    let (st, act) = handle_client(st, ClientEvent::Body(b"GET_KEY myapp.foo".to_vec()), MAX_PACKET_SIZE);
    assert_eq!(st, ClientState::AwaitingHeader);
    assert_eq!(act, ClientAction::Dispatch((s("GET_KEY"), Some(s("myapp.foo")))));
    let (_, act) = handle_client(st, ClientEvent::Header([0, 1, 0, 0]), MAX_PACKET_SIZE);
    assert_eq!(act, ClientAction::Fail(s("packet size exceeded")));
    let (_, act) = handle_client(ClientState::AwaitingHeader, ClientEvent::Header([0, 0, 0xff, 0xff]), MAX_PACKET_SIZE);
    assert_eq!(act, ClientAction::ReadBody(65535));
    let (_, act) = handle_client(ClientState::AwaitingBody, ClientEvent::Body(b"NOPE".to_vec()), MAX_PACKET_SIZE);
    assert_eq!(act, ClientAction::Fail(s("Failed to decode message: invalid command")));
    let (st, act) = handle_client(ClientState::AwaitingBody, ClientEvent::ReadFailed, MAX_PACKET_SIZE);
    assert_eq!((st, act), (ClientState::AwaitingBody, ClientAction::Close));
}

#[test]
fn framed_command_round_trip() {
    let framed = encode_message(b"\"HAS_KEY\" \"myapp.foo\"");
    let header = [framed[0], framed[1], framed[2], framed[3]];
    let (st, act) = handle_client(ClientState::AwaitingHeader, ClientEvent::Header(header), MAX_PACKET_SIZE);
    assert_eq!(act, ClientAction::ReadBody((framed.len() - 4) as u32));
    let (_, act) = handle_client(st, ClientEvent::Body(framed[4..].to_vec()), MAX_PACKET_SIZE);
    assert_eq!(act, ClientAction::Dispatch((s("HAS_KEY"), Some(s("myapp.foo")))));
}

#[test]
fn plans_requests() {
    let names = vec![s("myapp")];
    assert_eq!(
        handle_request((s("GET_KEY"), Some(s("myapp.bar"))), &names),
        RequestPlan::GetKey { instrument: s("myapp"), key: s("bar") }
    );
    assert_eq!(
        handle_request((s("HAS_KEY"), Some(s("myapp.foo.x"))), &names),
        RequestPlan::HasKey { instrument: s("myapp"), key: s("foo.x") }
    );
    assert_eq!(handle_request((s("GET_SUBKEYS"), None), &names), RequestPlan::ListInstruments);
    assert_eq!(
        handle_request((s("GET_SUBKEYS"), Some(s("myapp"))), &names),
        RequestPlan::GetSubkeys { instrument: s("myapp"), root: None }
    );
    assert_eq!(
        handle_request((s("GET_SUBKEYS"), Some(s("myapp.a"))), &names),
        RequestPlan::GetSubkeys { instrument: s("myapp"), root: Some(s("a")) }
    );
}

#[test]
fn unknown_instruments_and_commands_answer_null() {
    let names = vec![s("myapp")];
    assert_eq!(handle_request((s("GET_KEY"), Some(s("other.bar"))), &names), RequestPlan::Null);
    assert_eq!(handle_request((s("HAS_KEY"), Some(s("other.bar"))), &names), RequestPlan::Null);
    assert_eq!(handle_request((s("GET_SUBKEYS"), Some(s("other"))), &names), RequestPlan::Null);
    assert_eq!(handle_request((s("GET_KEY"), Some(s("myapp"))), &names), RequestPlan::Null);
    assert_eq!(handle_request((s("HAS_KEY"), None), &names), RequestPlan::Null);
    assert_eq!(handle_request((s("GET_KEY"), None), &names), RequestPlan::Null);
    assert_eq!(handle_request((s("OTHER"), Some(s("myapp.bar"))), &names), RequestPlan::Null);
    assert_eq!(handle_request((s("GET_KEY"), Some(s("myapp.bar"))), &vec![]), RequestPlan::Null);
}

#[test]
fn named_commands_and_files() {
    assert_eq!(instrumentation::config_path(&None), CONFIG_FILE);
    assert_eq!(ENV_VAR, "INSTRUMENTATION");
    for c in [GET_KEY, HAS_KEY] {
        let text = format!("{} myapp.foo", c);
        assert_eq!(decode_message(&text.into_bytes()), cmd(c, Some("myapp.foo")));
    }
    assert_eq!(decode_message(&GET_SUBKEYS.as_bytes().to_vec()), cmd(GET_SUBKEYS, None));
}

#[test]
fn session_hands_on_commands_in_order() {
    let texts = ["GET_KEY myapp.foo", "\"HAS_KEY\" \"myapp.bar\"", "GET_SUBKEYS"];
    let mut wire: Vec<u8> = Vec::new();
    for t in texts {
        wire.extend(encode_message(t.as_bytes()));
    }
    let mut pos = 0;
    let mut state = ClientState::AwaitingHeader;
    let mut dispatched = Vec::new();
    let mut event = ClientEvent::Header([wire[0], wire[1], wire[2], wire[3]]);
    pos += 4;
    loop {
        let (next, action) = handle_client(state, event, MAX_PACKET_SIZE);
        state = next;
        event = match action {
            ClientAction::ReadBody(n) => {
                let body = wire[pos..pos + n as usize].to_vec();
                pos += n as usize;
                ClientEvent::Body(body)
            }
            ClientAction::Dispatch(c) => {
                dispatched.push(c);
                if pos + 4 <= wire.len() {
                    let h = [wire[pos], wire[pos + 1], wire[pos + 2], wire[pos + 3]];
                    pos += 4;
                    ClientEvent::Header(h)
                } else {
                    ClientEvent::ReadFailed
                }
            }
            ClientAction::Close => break,
            ClientAction::Fail(m) => panic!("{}", m),
        };
    }
    assert_eq!(
        dispatched,
        vec![
            (s("GET_KEY"), Some(s("myapp.foo"))),
            (s("HAS_KEY"), Some(s("myapp.bar"))),
            (s("GET_SUBKEYS"), None),
        ]
    );
}

#[test]
fn escaped_parameter_is_decoded() {
    assert_eq!(
        decode_message(&br#"GET_KEY "my\"app.a key""#.to_vec()),
        cmd("GET_KEY", Some("my\"app.a key"))
    );
}
