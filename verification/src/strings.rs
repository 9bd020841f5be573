//! Converting between owned strings and character vectors.

use vstd::prelude::*;
use vstd::string::StrSliceExecFns;

verus! {

/// The characters of a string, in order.
pub(crate) fn chars_of(text: &str) -> (chars: Vec<char>)
    ensures
        chars@ == text@,
{
    let n = text.unicode_len();
    let mut chars: Vec<char> = Vec::new();
    let mut i: usize = 0;
    while i < n
        invariant
            i <= n,
            n == text@.len(),
            chars@ == text@.take(i as int),
        decreases n - i,
    {
        chars.push(text.get_char(i));
        proof {
            assert(chars@ =~= text@.take(i + 1));
        }
        i = i + 1;
    }
    proof {
        assert(chars@ =~= text@);
    }
    chars
}

/// Relies on `String`'s `FromIterator<char>` implementation: collecting
/// characters yields exactly their concatenation, in order.
#[verifier::external_body]
pub(crate) fn string_from_chars(cs: &Vec<char>) -> (r: String)
    ensures
        r@ == cs@,
{
    cs.iter().collect()
}

} // verus!
