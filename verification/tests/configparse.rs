use instrumentation::configparse::{
    parse_config_line, parse_config_lines, read_env_var_config, ConfigLineType,
};
use instrumentation::get_config;
use instrumentation::types::Config;

fn s(t: &str) -> String {
    t.to_string()
}

fn tokens(ts: &[&str]) -> Result<ConfigLineType, String> {
    Ok(ConfigLineType::Tokens(ts.iter().map(|t| t.to_string()).collect()))
}

#[test]
fn test_parse_config_line() {
    assert!(parse_config_line(s("")) == Ok(ConfigLineType::Whitespace(s(""))));
    assert!(parse_config_line(s("   ")) == Ok(ConfigLineType::Whitespace(s("   "))));
    assert!(parse_config_line(s("#comment")) == Ok(ConfigLineType::Comment(s("#comment"))));
    assert!(parse_config_line(s("key")) == Ok(ConfigLineType::Tokens(vec![s("key")])));
    assert!(
        parse_config_line(s("key key1 key2"))
            == Ok(ConfigLineType::Tokens(vec![s("key"), s("key1"), s("key2")]))
    );
    assert!(parse_config_line(s("\"foo\"")) == Ok(ConfigLineType::Tokens(vec![s("foo")])));
    assert!(parse_config_line(s("\"foo bar\"")) == Ok(ConfigLineType::Tokens(vec![s("foo bar")])));
    assert_eq!(parse_config_line(s("\"foo")), Err(s("open quote")));
}

#[test]
fn blank_and_comment_lines_keep_the_line() {
    assert_eq!(parse_config_line(s(" \t\n")), Ok(ConfigLineType::Whitespace(s(" \t\n"))));
    assert_eq!(parse_config_line(s("\u{3000}\u{a0}")), Ok(ConfigLineType::Whitespace(s("\u{3000}\u{a0}"))));
    assert_eq!(parse_config_line(s("  # note ")), Ok(ConfigLineType::Comment(s("  # note "))));
}

#[test]
fn key_value_lines() {
    assert_eq!(parse_config_line(s("socket.unix on")), tokens(&["socket.unix", "on"]));
    assert_eq!(
        parse_config_line(s("socket.unix.path \"/tmp/hello_instrumentation\"")),
        tokens(&["socket.unix.path", "/tmp/hello_instrumentation"])
    );
    assert_eq!(parse_config_line(s("  key   value  ")), tokens(&["key", "value"]));
    assert_eq!(parse_config_line(s("key\tvalue")), tokens(&["key", "value"]));
    assert_eq!(
        parse_config_line(s("command with many \"parameters\"")),
        tokens(&["command", "with", "many", "parameters"])
    );
}

#[test]
fn quoted_tokens_round_trip() {
    assert_eq!(parse_config_line(s("\"a b\" \"\" \"c\\d\"")), tokens(&["a b", "", "cd"]));
    assert_eq!(parse_config_line(s("\"x\"\"y\"")), tokens(&["x", "y"]));
}

#[test]
fn refused_lines() {
    assert_eq!(parse_config_line(s("\\key")), Err(s("invalid line")));
    assert_eq!(parse_config_line(s("key \\value")), Err(s("invalid line")));
    assert_eq!(parse_config_line(s("ke\"y")), Err(s("quote opened unexpectedly")));
    assert_eq!(parse_config_line(s("key \"value")), Err(s("open quote")));
}

#[test]
fn backslash_inside_a_token_is_kept() {
    assert_eq!(parse_config_line(s("a\\b")), tokens(&["a\\b"]));
}

#[test]
fn quote_opens_for_the_rest_of_the_line() {
    // Once a token has been opened by a quote, later bare tokens run to a quote.
    assert_eq!(parse_config_line(s("\"a\" b")), Err(s("open quote")));
    assert_eq!(parse_config_line(s("\"a\" b c\"")), tokens(&["a", "b c"]));
}

#[test]
fn env_var_config_splits_on_semicolons() {
    assert_eq!(read_env_var_config(s("a b;c d")), vec![s("a b"), s("c d")]);
    assert_eq!(read_env_var_config(s("a;;b;")), vec![s("a"), s(""), s("b"), s("")]);
    assert_eq!(read_env_var_config(s("")), vec![s("")]);
    let v = "socket.tcp on;socket.tcp.port 6000";
    assert_eq!(read_env_var_config(s(v)).join(";"), v);
}

fn get(c: &Config, k: &str) -> Option<String> {
    c.get(k)
}

#[test]
fn config_lines_set_options() {
    let lines = vec![
        s("# instrumentation"),
        s("socket.unix on"),
        s(""),
        s("socket.unix.path \"/tmp/hello_instrumentation\""),
        s("socket.unix off"),
    ];
    let c = parse_config_lines(lines).unwrap();
    assert_eq!(c.len(), 2);
    assert_eq!(get(&c, "socket.unix"), Some(s("off")));
    assert_eq!(get(&c, "socket.unix.path"), Some(s("/tmp/hello_instrumentation")));
    assert_eq!(get(&c, "socket.tcp"), None);
}

#[test]
fn config_quoted_pairs_round_trip() {
    let c = parse_config_lines(vec![s("\"a key\" \"a value\""), s("\"k\" \"\"")]).unwrap();
    assert_eq!(get(&c, "a key"), Some(s("a value")));
    assert_eq!(get(&c, "k"), Some(s("")));
}

#[test]
fn config_errors_name_the_line() {
    match parse_config_lines(vec![s("a b"), s("too many tokens")]) {
        Err(e) => assert_eq!(e, "error in line 1: to many tokens"),
        Ok(_) => panic!("accepted"),
    }
    match parse_config_lines(vec![s("single")]) {
        Err(e) => assert_eq!(e, "error in line 0: to many tokens"),
        Ok(_) => panic!("accepted"),
    }
    let mut lines: Vec<String> = (0..12).map(|i| format!("k{} v", i)).collect();
    lines.push(s("x \"open"));
    match parse_config_lines(lines) {
        Err(e) => assert_eq!(e, "error in line 12: open quote"),
        Ok(_) => panic!("accepted"),
    }
    let mut lines: Vec<String> = (0..105).map(|i| format!("k{} v", i)).collect();
    lines.push(s("\\bad"));
    match parse_config_lines(lines) {
        Err(e) => assert_eq!(e, "error in line 105: invalid line"),
        Ok(_) => panic!("accepted"),
    }
}

#[test]
fn config_sources_in_order() {
    // The file wins when it exists.
    let c = get_config(Some(s("a b")), Some(vec![s("c d")])).unwrap();
    assert_eq!(get(&c, "c"), Some(s("d")));
    assert_eq!(get(&c, "a"), None);
    // Otherwise the environment value holds the configuration.
    let c = get_config(Some(s("a b;e f")), None).unwrap();
    assert_eq!(get(&c, "a"), Some(s("b")));
    assert_eq!(get(&c, "e"), Some(s("f")));
    // Neither: no options.
    let c = get_config(None, None).unwrap();
    assert_eq!(c.len(), 0);
    // The default file.
    let c = get_config(None, Some(vec![s("socket.tcp on")])).unwrap();
    assert_eq!(get(&c, "socket.tcp"), Some(s("on")));
    assert!(get_config(Some(s("bad")), None).is_err());
}

#[test]
fn config_path_prefers_environment() {
    assert_eq!(instrumentation::config_path(&None), "instrumentation.conf");
    assert_eq!(instrumentation::config_path(&Some(s("/etc/x.conf"))), "/etc/x.conf");
}

#[test]
fn escapes_inside_quoted_tokens() {
    // The documented form: a key and one quoted value holding escapes.
    assert_eq!(
        parse_config_line(s(r#"key " \"valu\n e ""#)),
        tokens(&["key", " \"valu\n e "])
    );
    assert_eq!(parse_config_line(s(r#""a\\b""#)), tokens(&["a\\b"]));
    assert_eq!(parse_config_line(s(r#""tab\there" "cr\r""#)), tokens(&["tab\there", "cr\r"]));
    assert_eq!(parse_config_line(s(r#""\x\"""#)), tokens(&["x\""]));
    // A backslash that ends the line leaves the quoted token open.
    assert_eq!(parse_config_line(s(r#"key "value\"#)), Err(s("open quote")));
    assert_eq!(parse_config_line(s(r#"key "value\""#)), Err(s("open quote")));
    // Outside quotes a backslash inside a token is kept.
    assert_eq!(parse_config_line(s(r#"a\nb"#)), tokens(&["a\\nb"]));
}

#[test]
fn escaped_line_reads_as_one_option() {
    let c = parse_config_lines(vec![s(r#"key " \"valu\n e ""#)]).unwrap();
    assert_eq!(get(&c, "key"), Some(s(" \"valu\n e ")));
}

#[test]
fn only_the_first_refused_line_is_reported() {
    let lines = vec![s("a 1"), s("# note"), s("b \"open"), s("c"), s("\\x y")];
    match parse_config_lines(lines) {
        Err(e) => assert_eq!(e, "error in line 2: open quote"),
        Ok(_) => panic!("accepted"),
    }
    let c = parse_config_lines(vec![s("a 1"), s("b 2"), s("a 3"), s("  ")]).unwrap();
    assert_eq!(c.len(), 2);
    assert_eq!(get(&c, "a"), Some(s("3")));
    assert_eq!(get(&c, "b"), Some(s("2")));
}
