//! The Unix socket listener's settings.
use vstd::prelude::*;

use crate::text::same_text;
use crate::types::Config;

verus! {

/// Whether the configuration switches option `key` on.
pub open spec fn switched_on(config: Map<Seq<char>, Seq<char>>, key: Seq<char>) -> bool {
    config.contains_key(key) && config[key] == "on"@
}

/// Whether option `key` of `config` is set to `on`.
pub fn is_switched_on(config: &Config, key: &str) -> (r: bool)
    ensures
        r == switched_on(config@, key@),
{
    match config.get(key) {
        Some(v) => same_text(v.as_str(), "on"),
        None => false,
    }
}

/// The path of the Unix socket to listen on: `socket.unix.path` when
/// `socket.unix` is `on`, else none.
pub fn unix_socket_path(config: &Config) -> (r: Option<String>)
    requires
        switched_on(config@, "socket.unix"@) ==> config@.contains_key("socket.unix.path"@),
    ensures
        match r {
            Some(p) => switched_on(config@, "socket.unix"@) && p@ == config@["socket.unix.path"@],
            None => !switched_on(config@, "socket.unix"@),
        },
{
    if is_switched_on(config, "socket.unix") {
        match config.get("socket.unix.path") {
            Some(p) => Some(p),
            None => None,
        }
    } else {
        None
    }
}

} // verus!
