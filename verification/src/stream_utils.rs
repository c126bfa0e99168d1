//! The streaming protocol.
//!
//! Communication is done via messages; a client can send one or more
//! messages and receives the responses in the same order.
//!
//! ```text
//! msg         = MSG_SIZE, RAW_MSG
//! MSG_SIZE    = 4 bytes unsigned int, big endian
//! RAW_MSG     = MSG_SIZE bytes in UTF-8
//! RAW_MSG     = COMMAND, [space, COMMAND_PARAM]
//! COMMAND     = "GET_KEY" | "GET_SUBKEYS" | "HAS_KEY"
//! ```
//!
//! For example `\x00\x00\x00\x11GET_KEY myapp.foo`. A response is framed the
//! same way; its payload is a JSON text.
use vstd::prelude::*;

use vstd::utf8::{decode_utf8, valid_utf8};

use crate::configparse::{
    line_error_text, parse_config_line, spec_parse_config_line, ConfigLineType, LineView,
};
use crate::text::same_text;
use crate::types::{command_view, Command};

verus! {

broadcast use vstd::string::group_string_axioms;

/// Whether `name` is one of the protocol's commands.
pub open spec fn is_command_name(name: Seq<char>) -> bool {
    name == "GET_KEY"@ || name == "HAS_KEY"@ || name == "GET_SUBKEYS"@
}

/// What `decode_command` gives for the text of a message: the line is
/// tokenized as a configuration line is; it must hold a command name and at
/// most one parameter, and only `GET_SUBKEYS` may come without one.
pub open spec fn spec_decode_command(text: Seq<char>) -> Result<
    (Seq<char>, Option<Seq<char>>),
    Seq<char>,
> {
    match spec_parse_config_line(text) {
        Err(e) => Err(line_error_text(e)),
        Ok(LineView::Tokens(ts)) => {
            if ts.len() == 0 || ts.len() > 2 || !is_command_name(ts[0]) {
                Err("invalid command"@)
            } else if ts.len() == 1 {
                if ts[0] != "GET_SUBKEYS"@ {
                    Err("invalid command"@)
                } else {
                    Ok((ts[0], None))
                }
            } else {
                Ok((ts[0], Some(ts[1])))
            }
        },
        Ok(_) => Err("invalid command"@),
    }
}

/// What `decode_message` gives for the payload of a message.
pub open spec fn spec_decode_message(raw: Seq<u8>) -> Result<
    (Seq<char>, Option<Seq<char>>),
    Seq<char>,
> {
    if valid_utf8(raw) {
        spec_decode_command(decode_utf8(raw))
    } else {
        Err("invalid utf8"@)
    }
}

/// A decoded command, or the message that says why none was decoded, in
/// terms of character sequences.
pub open spec fn decoded_view(r: Result<Command, String>) -> Result<
    (Seq<char>, Option<Seq<char>>),
    Seq<char>,
> {
    match r {
        Ok(c) => Ok(command_view(c)),
        Err(msg) => Err(msg@),
    }
}

/// The text that `bytes` encode, by `std::str::from_utf8`; none when they are
/// not UTF-8. The contract claims that `from_utf8` accepts exactly the byte
/// sequences that vstd's `valid_utf8` describes, and that the text it gives
/// back is their decoding by vstd's `decode_utf8`.
#[verifier::external_body]
fn utf8_text(bytes: &[u8]) -> (r: Option<String>)
    ensures
        r is Some <==> valid_utf8(bytes@),
        r matches Some(s) ==> s@ == decode_utf8(bytes@),
{
    match std::str::from_utf8(bytes) {
        Ok(s) => Some(s.to_string()),
        Err(_) => None,
    }
}

/// The "invalid command" message.
fn invalid_command() -> (r: Result<Command, String>)
    ensures
        decoded_view(r) == Err::<(Seq<char>, Option<Seq<char>>), Seq<char>>("invalid command"@),
{
    Err(String::from_str("invalid command"))
}

/// Decodes the text of a protocol message into a command.
pub fn decode_command(text: String) -> (r: Result<Command, String>)
    ensures
        decoded_view(r) == spec_decode_command(text@),
{
    match parse_config_line(text) {
        Err(s) => Err(s),
        Ok(result) => match result {
            ConfigLineType::Tokens(tokens) => {
                if tokens.len() == 0 || tokens.len() > 2 {
                    return invalid_command();
                }
                let cmd = tokens[0].clone();
                assert(cmd@ == crate::configparse::texts(tokens@)[0]);
                let c = cmd.as_str();
                if !(same_text(c, "GET_KEY") || same_text(c, "HAS_KEY") || same_text(c, "GET_SUBKEYS")) {
                    return invalid_command();
                }
                if tokens.len() == 1 {
                    if !same_text(c, "GET_SUBKEYS") {
                        return invalid_command();
                    }
                    Ok((cmd, None))
                } else {
                    let param = tokens[1].clone();
                    assert(param@ == crate::configparse::texts(tokens@)[1]);
                    Ok((cmd, Some(param)))
                }
            },
            _ => invalid_command(),
        },
    }
}

/// Decodes the payload of a protocol message into a command.
pub fn decode_message(raw_msg: &Vec<u8>) -> (r: Result<Command, String>)
    ensures
        decoded_view(r) == spec_decode_message(raw_msg@),
{
    match utf8_text(raw_msg.as_slice()) {
        Some(s) => decode_command(s),
        None => Err(String::from_str("invalid utf8")),
    }
}

} // verus!

verus! {

/// The 4-byte big-endian encoding of `v`.
pub open spec fn be_u32_bytes(v: u32) -> Seq<u8> {
    seq![
        (v / 0x1000000) as u8,
        ((v / 0x10000) % 0x100) as u8,
        ((v / 0x100) % 0x100) as u8,
        (v % 0x100) as u8,
    ]
}

/// The value of 4 big-endian bytes.
pub open spec fn be_u32_value(b: Seq<u8>) -> int {
    b[0] * 0x1000000 + b[1] * 0x10000 + b[2] * 0x100 + b[3]
}

/// A framed message: the payload's length modulo 2^32, as 4 big-endian bytes,
/// then the payload.
pub open spec fn spec_encode_message(raw: Seq<u8>) -> Seq<u8> {
    be_u32_bytes((raw.len() % 0x1_0000_0000) as u32) + raw
}

/// Frames a message payload for the streaming protocol: its length as a
/// 4-byte big-endian unsigned integer, then the payload. A payload of 2^32
/// bytes or more has its length taken modulo 2^32.
pub fn encode_message(raw: &[u8]) -> (r: Vec<u8>)
    ensures
        r@ == spec_encode_message(raw@),
{
    let len: u32 = (raw.len() as u64 % 0x1_0000_0000u64) as u32;
    let mut out: Vec<u8> = Vec::new();
    out.push((len / 0x1000000) as u8);
    out.push(((len / 0x10000) % 0x100) as u8);
    out.push(((len / 0x100) % 0x100) as u8);
    out.push((len % 0x100) as u8);
    let ghost head = out@;
    assert(head =~= be_u32_bytes(len));
    let mut i: usize = 0;
    while i < raw.len()
        invariant
            i <= raw@.len(),
            out@ == head + raw@.take(i as int),
        decreases raw.len() - i,
    {
        out.push(raw[i]);
        assert(raw@.take(i + 1) =~= raw@.take(i as int).push(raw@[i as int]));
        i = i + 1;
    }
    assert(raw@.take(raw@.len() as int) =~= raw@);
    out
}

/// Reads a message header: the payload size as a 4-byte big-endian unsigned integer.
pub fn decode_header(header: [u8; 4]) -> (r: u32)
    ensures
        r == be_u32_value(header@),
{
    let v: u32 = (header[0] as u32) * 0x1000000 + (header[1] as u32) * 0x10000 + (header[2] as u32)
        * 0x100 + (header[3] as u32);
    v
}

/// Where a client connection stands.
#[derive(Debug, PartialEq, Eq, Structural, Clone, Copy)]
pub enum ClientState {
    /// The next read is a message header.
    AwaitingHeader,
    /// The next read is a message payload.
    AwaitingBody,
}

/// What reading from a client gave.
#[derive(Debug)]
pub enum ClientEvent {
    /// A 4-byte message header.
    Header([u8; 4]),
    /// A message payload of the size that the header gave.
    Body(Vec<u8>),
    /// The read failed or the client went away.
    ReadFailed,
}

/// What to do next on a client connection.
#[derive(Debug, PartialEq, Eq)]
pub enum ClientAction {
    /// Read a payload of this many bytes.
    ReadBody(u32),
    /// Hand this command on, write the framed response, then read a header.
    Dispatch(Command),
    /// Stop serving the client.
    Close,
    /// Give up on the client with this message.
    Fail(String),
}

/// A client action in terms of character sequences.
pub enum ActionView {
    ReadBody(u32),
    Dispatch((Seq<char>, Option<Seq<char>>)),
    Close,
    Fail(Seq<char>),
}

impl View for ClientAction {
    type V = ActionView;

    open spec fn view(&self) -> ActionView {
        match self {
            ClientAction::ReadBody(n) => ActionView::ReadBody(*n),
            ClientAction::Dispatch(c) => ActionView::Dispatch(command_view(*c)),
            ClientAction::Close => ActionView::Close,
            ClientAction::Fail(msg) => ActionView::Fail(msg@),
        }
    }
}

/// How a client connection moves on: a header whose size exceeds
/// `max_packet_size` is fatal, a smaller one asks for the payload; a payload
/// that decodes to a command is handed on, one that does not is fatal; a failed
/// read ends the connection.
pub open spec fn spec_client_step(
    state: ClientState,
    event: ClientEvent,
    max_packet_size: u32,
) -> (ClientState, ActionView) {
    match event {
        ClientEvent::Header(h) => {
            let size: int = be_u32_value(h@);
            if size > max_packet_size {
                (ClientState::AwaitingHeader, ActionView::Fail("packet size exceeded"@))
            } else {
                (ClientState::AwaitingBody, ActionView::ReadBody(size as u32))
            }
        },
        ClientEvent::Body(bytes) => match spec_decode_message(bytes@) {
            Ok(c) => (ClientState::AwaitingHeader, ActionView::Dispatch(c)),
            Err(e) => (
                ClientState::AwaitingHeader,
                ActionView::Fail("Failed to decode message: "@ + e),
            ),
        },
        ClientEvent::ReadFailed => (state, ActionView::Close),
    }
}

/// The decisions of the client-handling loop of a streaming protocol server:
/// given what the last read gave, the next state and what to do. A header is
/// read while awaiting a header and a payload while awaiting a payload.
pub fn handle_client(state: ClientState, event: ClientEvent, max_packet_size: u32) -> (r: (
    ClientState,
    ClientAction,
))
    ensures
        (r.0, r.1@) == spec_client_step(state, event, max_packet_size),
{
    match event {
        ClientEvent::Header(h) => {
            let size: u32 = decode_header(h);
            if size > max_packet_size {
                (ClientState::AwaitingHeader, ClientAction::Fail(String::from_str("packet size exceeded")))
            } else {
                (ClientState::AwaitingBody, ClientAction::ReadBody(size))
            }
        },
        ClientEvent::Body(bytes) => match decode_message(&bytes) {
            Ok(c) => (ClientState::AwaitingHeader, ClientAction::Dispatch(c)),
            Err(e) => {
                let mut msg = String::from_str("Failed to decode message: ");
                msg.append(e.as_str());
                (ClientState::AwaitingHeader, ClientAction::Fail(msg))
            },
        },
        ClientEvent::ReadFailed => (state, ClientAction::Close),
    }
}

} // verus!

verus! {

/// The largest message payload that a server accepts: 2^16 - 1 bytes.
pub const MAX_PACKET_SIZE: u32 = 65535;

} // verus!
