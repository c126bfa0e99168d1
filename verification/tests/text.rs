use instrumentation::text::is_whitespace;
use instrumentation::utils::dotsplit;

#[test]
fn whitespace_matches_std() {
    for u in 0u32..=0x10ffff {
        if let Some(c) = char::from_u32(u) {
            assert_eq!(is_whitespace(c), c.is_whitespace(), "char {:#x}", u);
        }
    }
}

#[test]
fn dotsplit_cases() {
    assert_eq!(dotsplit("foo.bar".to_string()), ("foo".to_string(), Some("bar".to_string())));
    assert_eq!(dotsplit("foo".to_string()), ("foo".to_string(), None));
    assert_eq!(dotsplit("a.b.c".to_string()), ("a".to_string(), Some("b.c".to_string())));
    assert_eq!(dotsplit(".x".to_string()), ("".to_string(), Some("x".to_string())));
    assert_eq!(dotsplit("x.".to_string()), ("x".to_string(), Some("".to_string())));
    assert_eq!(dotsplit("".to_string()), ("".to_string(), None));
}

#[test]
fn dotsplit_rejoins() {
    for t in ["myapp.foo", "a.b.c", "none", ".", "ä.ö"] {
        let (head, rest) = dotsplit(t.to_string());
        assert!(!head.contains('.'));
        match rest {
            Some(r) => assert_eq!(format!("{}.{}", head, r), t),
            None => assert_eq!(head, t),
        }
    }
}
