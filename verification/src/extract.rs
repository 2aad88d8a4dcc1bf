//! The location extractor: splitting a reference string such as
//! `spec/helper.rb:123:in `block'` into a bare path and an opaque location
//! suffix.

use vstd::prelude::*;

use crate::scan::find_char;
use crate::scan::first_index_of;
use crate::scan::is_ascii_digit_char;
use crate::scan::lemma_first_index_of;

verus! {

/// What extraction returns on `s`: when the first colon is followed by an
/// ASCII digit, the text before that colon and everything after it; otherwise
/// `s` itself, whole, with no location.
pub open spec fn extract_spec(s: Seq<char>) -> (Seq<char>, Option<Seq<char>>) {
    let i = first_index_of(s, ':') as int;
    if i + 1 < s.len() && is_ascii_digit_char(s[i + 1]) {
        (s.subrange(0, i), Some(s.subrange(i + 1, s.len() as int)))
    } else {
        (s, None)
    }
}

/// The view of an optional owned string.
pub open spec fn opt_string_view(o: Option<String>) -> Option<Seq<char>> {
    match o {
        Some(t) => Some(t@),
        None => None,
    }
}

/// Splits `input` at its first colon into a bare path and a location suffix,
/// provided an ASCII digit follows that colon; the suffix is the entire
/// remainder, kept opaque. A colon followed by anything else (or by nothing)
/// is no separator: the whole input comes back with no location.
pub fn extract_path_and_location(input: &str) -> (r: (String, Option<String>))
    ensures
        (r.0@, opt_string_view(r.1)) == extract_spec(input@),
        (forall|j: int| 0 <= j < input@.len() ==> input@[j] != ':') ==> (r.0@ == input@ && r.1
            is None),
        r.1 matches Some(loc) ==> loc@.len() > 0 && is_ascii_digit_char(loc@[0]),
        ({
            let i = first_index_of(input@, ':') as int;
            i < input@.len() && !(i + 1 < input@.len() && is_ascii_digit_char(input@[i + 1]))
        }) ==> (r.0@ == input@ && r.1 is None),
{
    let len = input.unicode_len();
    let i = find_char(input, ':');
    proof {
        lemma_first_index_of(input@, ':');
    }
    if i < len && i + 1 < len {
        let c = input.get_char(i + 1);
        let u = c as u32;
        if ('0' as u32) <= u && u <= ('9' as u32) {
            let path = String::from_str(input.substring_char(0, i));
            let rest = String::from_str(input.substring_char(i + 1, len));
            proof {
                assert(rest@[0] == input@[i + 1]);
            }
            return (path, Some(rest));
        }
    }
    (String::from_str(input), None)
}

} // verus!
