use vstd::prelude::*;

use crate::text::chars_of;

verus! {

broadcast use vstd::string::group_string_axioms;

/// `i` is the position of the first `.` in `s`.
pub open spec fn is_first_dot(s: Seq<char>, i: int) -> bool {
    &&& 0 <= i < s.len()
    &&& s[i] == '.'
    &&& forall|j: int| 0 <= j < i ==> s[j] != '.'
}

/// What `dotsplit` gives for `s`: the part before the first `.`, and the part
/// after it if there is a `.`.
pub open spec fn spec_dotsplit(s: Seq<char>) -> (Seq<char>, Option<Seq<char>>) {
    if s.contains('.') {
        let i: int = choose|i: int| is_first_dot(s, i);
        (s.take(i), Some(s.skip(i + 1)))
    } else {
        (s, None)
    }
}

/// Splits `s` into two parts, separated by the first `.` character:
/// `"foo.bar"` gives `("foo", Some("bar"))` and `"foo"` gives `("foo", None)`.
pub fn dotsplit(s: String) -> (r: (String, Option<String>))
    ensures
        r.0@ == spec_dotsplit(s@).0,
        match r.1 {
            Some(rest) => spec_dotsplit(s@).1 == Some(rest@),
            None => spec_dotsplit(s@).1.is_none(),
        },
{
    let cs = chars_of(s.as_str());
    let n: usize = cs.len();
    let mut i: usize = 0;
    while i < n
        invariant
            i <= n,
            n == cs@.len(),
            cs@ == s@,
            forall|j: int| 0 <= j < i ==> cs@[j] != '.',
        decreases n - i,
    {
        if cs[i] == '.' {
            proof {
                assert(is_first_dot(s@, i as int));
                assert forall|k: int| #[trigger] is_first_dot(s@, k) implies k == i by {
                    if k < i {
                        assert(cs@[k] != '.');
                    } else if k > i {
                        assert(s@[i as int] != '.');
                    }
                }
            }
            let head = s.as_str().substring_char(0, i).to_owned();
            let rest = s.as_str().substring_char(i + 1, n).to_owned();
            assert(head@ =~= s@.take(i as int));
            assert(rest@ =~= s@.skip(i + 1));
            return (head, Some(rest));
        }
        i = i + 1;
    }
    assert(!s@.contains('.'));
    (s, None)
}

} // verus!
