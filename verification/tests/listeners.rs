use instrumentation::configparse::parse_config_lines;
use instrumentation::tcp::{parse_port, tcp_endpoint};
use instrumentation::unix::unix_socket_path;

fn s(t: &str) -> String {
    t.to_string()
}

#[test]
fn port_parsing_matches_std() {
    for n in 0u32..70000 {
        let t = n.to_string();
        assert_eq!(parse_port(&t), t.parse::<u16>().ok(), "{}", t);
        let p = format!("+{}", t);
        assert_eq!(parse_port(&p), p.parse::<u16>().ok(), "{}", p);
    }
    for t in ["", "+", "-1", "-0", " 1", "1 ", "00065535", "0065536", "12a", "++1", "99999999999"] {
        assert_eq!(parse_port(t), t.parse::<u16>().ok(), "{:?}", t);
    }
}

#[test]
fn tcp_settings() {
    let c = parse_config_lines(vec![
        s("socket.tcp on"),
        s("socket.tcp.port 6000"),
        s("socket.tcp.addr 127.0.0.1"),
    ])
    .unwrap();
    assert_eq!(tcp_endpoint(&c), Some((s("127.0.0.1"), 6000)));
    let c = parse_config_lines(vec![s("socket.tcp off"), s("socket.tcp.port 6000")]).unwrap();
    assert_eq!(tcp_endpoint(&c), None);
    let c = parse_config_lines(vec![]).unwrap();
    assert_eq!(tcp_endpoint(&c), None);
}

#[test]
fn unix_settings() {
    let c = parse_config_lines(vec![
        s("socket.unix on"),
        s("socket.unix.path \"/tmp/hello_instrumentation\""),
    ])
    .unwrap();
    assert_eq!(unix_socket_path(&c), Some(s("/tmp/hello_instrumentation")));
    let c = parse_config_lines(vec![s("socket.unix yes"), s("socket.unix.path /tmp/x")]).unwrap();
    assert_eq!(unix_socket_path(&c), None);
}
