//! Characters and strings: trusted conversions between a string and its
//! character sequence, and a verified character-wise prefix test.

use vstd::prelude::*;
use vstd::string::StrSliceExecFns;

verus! {

/// Relies on str::chars: it yields the characters of the string in order,
/// which this function collects into a vector.
#[verifier::external_body]
pub fn str_chars(s: &str) -> (r: Vec<char>)
    ensures
        r@ == s@,
{
    s.chars().collect()
}

/// Relies on String's FromIterator impl: collecting characters builds the
/// string holding exactly those characters, in order.
#[verifier::external_body]
pub fn chars_to_string(v: &Vec<char>) -> (r: String)
    ensures
        r@ == v@,
{
    v.iter().collect()
}

/// The deep view of a vector of character vectors is its elements' character
/// sequences, index by index.
pub proof fn lemma_groups_deep_view(v: &Vec<Vec<char>>)
    ensures
        v.deep_view().len() == v@.len(),
        forall|j: int|
            #![trigger v.deep_view()[j]]
            #![trigger v@[j]]
            0 <= j < v@.len() ==> v.deep_view()[j] == v@[j]@,
{
    assert forall|j: int| 0 <= j < v@.len() implies v.deep_view()[j] == v@[j]@ by {
        assert(v@[j].deep_view() =~= v@[j]@);
    }
}

/// True exactly when `pre` is a character-wise prefix of `s`.
pub fn str_starts_with(s: &str, pre: &str) -> (r: bool)
    ensures
        r == pre@.is_prefix_of(s@),
{
    let n = pre.unicode_len();
    if n > s.unicode_len() {
        return false;
    }
    let mut j: usize = 0;
    while j < n
        invariant
            n == pre@.len(),
            n <= s@.len(),
            j <= n,
            forall|k: int| 0 <= k < j ==> pre@[k] == s@[k],
        decreases n - j,
    {
        if pre.get_char(j) != s.get_char(j) {
            proof {
                assert(!pre@.is_prefix_of(s@)) by {
                    if pre@.is_prefix_of(s@) {
                        assert(pre@[j as int] == s@.subrange(0, pre@.len() as int)[j as int]);
                    }
                }
            }
            return false;
        }
        j = j + 1;
    }
    proof {
        assert(pre@ =~= s@.subrange(0, pre@.len() as int));
    }
    true
}

} // verus!
