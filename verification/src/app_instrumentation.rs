//! The instrument of the example application: two counters, `foo` and `bar`.
use vstd::prelude::*;

use crate::configparse::texts;
use crate::instrumentation::{Instrument, Instrumentable};
use crate::text::same_text;

verus! {

/// The example application's instrument.
pub type MyInstrumentation = Instrument;

impl Instrumentable for MyInstrumentation {
    /// `foo` is 10 and `bar` is 20; no other key has a value.
    fn get_key(key: String) -> (r: Option<String>)
        ensures
            key@ == "foo"@ ==> (r matches Some(v) && v@ == "10"@),
            key@ == "bar"@ ==> (r matches Some(v) && v@ == "20"@),
            key@ != "foo"@ && key@ != "bar"@ ==> r is None,
    {
        proof {
            reveal_strlit("foo");
            reveal_strlit("bar");
            assert("foo"@ != "bar"@) by {
                assert("foo"@[0] != "bar"@[0]);
            }
        }
        if same_text(key.as_str(), "foo") {
            Some(String::from_str("10"))
        } else if same_text(key.as_str(), "bar") {
            Some(String::from_str("20"))
        } else {
            None
        }
    }

    /// At the top level the keys are `foo` and `bar`; below it there are none.
    fn get_subkeys(root: Option<String>) -> (r: Option<Vec<String>>)
        ensures
            root is None ==> (r matches Some(keys) && texts(keys@) == seq!["foo"@, "bar"@]),
            root is Some ==> r is None,
    {
        match root {
            None => {
                let keys = vec![String::from_str("foo"), String::from_str("bar")];
                assert(texts(keys@) =~= seq!["foo"@, "bar"@]);
                Some(keys)
            },
            Some(_) => None,
        }
    }
}

/// The instrument that the example application registers, named `myapp`.
pub fn my_instrumentation() -> (r: MyInstrumentation)
    ensures
        r.name@ == "myapp"@,
{
    Instrument { name: "myapp" }
}

} // verus!
