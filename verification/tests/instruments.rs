use instrumentation::app_instrumentation::{my_instrumentation, MyInstrumentation};
use instrumentation::instrumentation::Instrumentable;

struct Silent;

impl Instrumentable for Silent {}

#[test]
fn example_instrument_answers() {
    assert_eq!(MyInstrumentation::get_key("foo".to_string()), Some("10".to_string()));
    assert_eq!(MyInstrumentation::get_key("bar".to_string()), Some("20".to_string()));
    assert_eq!(MyInstrumentation::get_key("baz".to_string()), None);
    assert_eq!(
        MyInstrumentation::get_subkeys(None),
        Some(vec!["foo".to_string(), "bar".to_string()])
    );
    assert_eq!(MyInstrumentation::get_subkeys(Some("foo".to_string())), None);
    assert!(!MyInstrumentation::has_key("foo".to_string()));
    assert_eq!(my_instrumentation().name, "myapp");
}

#[test]
fn default_answers_are_empty() {
    assert_eq!(Silent::get_key("foo".to_string()), None);
    assert_eq!(Silent::get_subkeys(None), None);
    assert!(!Silent::has_key("foo".to_string()));
}
