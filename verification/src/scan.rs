//! Character scanning: finding the first occurrence of a character and
//! recognising ASCII digits.

use vstd::prelude::*;

verus! {

/// True exactly of the ten ASCII digits `0` through `9`.
pub open spec fn is_ascii_digit_char(c: char) -> bool {
    ('0' as u32) <= (c as u32) && (c as u32) <= ('9' as u32)
}

/// The index of the first occurrence of `c` in `s`, or `s.len()` when `s`
/// holds no `c`.
pub open spec fn first_index_of(s: Seq<char>, c: char) -> nat
    decreases s.len(),
{
    if s.len() == 0 {
        0
    } else if s[0] == c {
        0
    } else {
        (first_index_of(s.skip(1), c) + 1) as nat
    }
}

/// `first_index_of` never passes the end, everything strictly before it
/// differs from `c`, and the index itself, when inside `s`, holds `c`.
pub proof fn lemma_first_index_of(s: Seq<char>, c: char)
    ensures
        first_index_of(s, c) <= s.len(),
        forall|j: int| 0 <= j < first_index_of(s, c) ==> s[j] != c,
        first_index_of(s, c) < s.len() ==> s[first_index_of(s, c) as int] == c,
    decreases s.len(),
{
    if s.len() == 0 {
    } else if s[0] == c {
    } else {
        let rest = s.skip(1);
        lemma_first_index_of(rest, c);
        let f = first_index_of(s, c) as int;
        assert forall|j: int| 0 <= j < f implies s[j] != c by {
            if j > 0 {
                assert(rest[j - 1] == s[j]);
            }
        }
        if f < s.len() {
            assert(rest[f - 1] == s[f]);
        }
    }
}

/// The index of the first occurrence of `c` in `s`, or the character count of
/// `s` when `s` holds no `c`.
pub fn find_char(s: &str, c: char) -> (i: usize)
    ensures
        i as nat == first_index_of(s@, c),
{
    let len = s.unicode_len();
    let mut i: usize = 0;
    while i < len
        invariant
            i <= len,
            len == s@.len(),
            forall|j: int| 0 <= j < i ==> s@[j] != c,
        decreases len - i,
    {
        if s.get_char(i) == c {
            proof {
                lemma_first_index_of(s@, c);
                let f = first_index_of(s@, c) as int;
                if f < i {
                    assert(s@[f] != c);
                }
                if f > i {
                    assert(s@[i as int] != c);
                }
            }
            return i;
        }
        i = i + 1;
    }
    proof {
        lemma_first_index_of(s@, c);
        let f = first_index_of(s@, c) as int;
        if f < i {
            assert(s@[f] != c);
        }
    }
    i
}

} // verus!
