//! The TCP listener's settings.
use vstd::prelude::*;

use crate::text::chars_of;
use crate::types::Config;
use crate::unix::{is_switched_on, switched_on};

verus! {

broadcast use vstd::string::group_string_axioms;

/// Whether every character of `s` is an ASCII decimal digit.
pub open spec fn all_digits(s: Seq<char>) -> bool {
    forall|i: int| 0 <= i < s.len() ==> '0' <= #[trigger] s[i] <= '9'
}

/// The value of a sequence of decimal digits.
pub open spec fn digits_value(s: Seq<char>) -> int
    decreases s.len(),
{
    if s.len() == 0 {
        0
    } else {
        digits_value(s.drop_last()) * 10 + (s.last() as int - '0' as int)
    }
}

/// What `u16::from_str` gives: an optional `+`, then one or more decimal
/// digits whose value fits in 16 bits.
pub open spec fn spec_parse_u16(s: Seq<char>) -> Option<u16> {
    let d = if s.len() > 0 && s[0] == '+' {
        s.drop_first()
    } else {
        s
    };
    if d.len() > 0 && all_digits(d) && digits_value(d) <= 0xffff {
        Some(digits_value(d) as u16)
    } else {
        None
    }
}

/// A longer run of digits has at least the value of its prefix.
proof fn lemma_digits_value_grows(s: Seq<char>, k: int)
    requires
        0 <= k <= s.len(),
        all_digits(s),
    ensures
        digits_value(s.take(k)) <= digits_value(s),
        digits_value(s) >= 0,
    decreases s.len(),
{
    if s.len() > 0 {
        assert(all_digits(s.drop_last()));
        if k == s.len() {
            assert(s.take(k) =~= s);
            lemma_digits_value_grows(s.drop_last(), 0);
        } else {
            assert(s.drop_last().take(k) =~= s.take(k));
            lemma_digits_value_grows(s.drop_last(), k);
        }
    } else {
        assert(s.take(k) =~= s);
    }
}

/// Reads a port number as `u16::from_str` does.
pub fn parse_port(s: &str) -> (r: Option<u16>)
    ensures
        r == spec_parse_u16(s@),
{
    let cs = chars_of(s);
    let n: usize = cs.len();
    let mut i: usize = 0;
    if n > 0 && cs[0] == '+' {
        i = 1;
    }
    let ghost d = if s@.len() > 0 && s@[0] == '+' {
        s@.drop_first()
    } else {
        s@
    };
    assert(d =~= cs@.subrange(i as int, n as int));
    if i == n {
        return None;
    }
    let first: usize = i;
    let mut acc: u32 = 0;
    while i < n
        invariant
            cs@ == s@,
            n == cs@.len(),
            first < n,
            first <= i <= n,
            d == cs@.subrange(first as int, n as int),
            d == (if s@.len() > 0 && s@[0] == '+' {
                s@.drop_first()
            } else {
                s@
            }),
            all_digits(cs@.subrange(first as int, i as int)),
            acc == digits_value(cs@.subrange(first as int, i as int)),
            acc <= 0xffff,
        decreases n - i,
    {
        let c = cs[i];
        let ghost prefix = cs@.subrange(first as int, i + 1);
        assert(prefix.drop_last() =~= cs@.subrange(first as int, i as int));
        if !('0' <= c && c <= '9') {
            assert(!all_digits(d)) by {
                assert(d[i - first] == c);
            }
            return None;
        }
        let digit: u32 = (c as u32) - ('0' as u32);
        let next: u32 = acc * 10 + digit;
        if next > 0xffff {
            assert(all_digits(d) ==> digits_value(d) > 0xffff) by {
                if all_digits(d) {
                    assert(d.take(i + 1 - first) =~= prefix);
                    lemma_digits_value_grows(d, i + 1 - first);
                }
            }
            return None;
        }
        acc = next;
        i = i + 1;
    }
    Some(acc as u16)
}

/// The address and port to listen on for TCP: `socket.tcp.addr` and
/// `socket.tcp.port` when `socket.tcp` is `on`, else none.
pub fn tcp_endpoint(config: &Config) -> (r: Option<(String, u16)>)
    requires
        switched_on(config@, "socket.tcp"@) ==> {
            &&& config@.contains_key("socket.tcp.addr"@)
            &&& config@.contains_key("socket.tcp.port"@)
            &&& spec_parse_u16(config@["socket.tcp.port"@]) is Some
        },
    ensures
        match r {
            Some((addr, port)) => {
                &&& switched_on(config@, "socket.tcp"@)
                &&& addr@ == config@["socket.tcp.addr"@]
                &&& spec_parse_u16(config@["socket.tcp.port"@]) == Some(port)
            },
            None => !switched_on(config@, "socket.tcp"@),
        },
{
    if is_switched_on(config, "socket.tcp") {
        match (config.get("socket.tcp.addr"), config.get("socket.tcp.port")) {
            (Some(addr), Some(port_text)) => match parse_port(port_text.as_str()) {
                Some(port) => Some((addr, port)),
                None => None,
            },
            _ => None,
        }
    } else {
        None
    }
}

} // verus!
