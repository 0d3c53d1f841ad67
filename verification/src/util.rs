//! Substrings between two positions of a string's character iterator.
use vstd::prelude::*;

use std::str::Chars;
use vstd::std_specs::iter::IteratorSpec;

verus! {

/// The text that `chars` has yet to yield (`std::str::Chars::as_str`). The
/// contract claims that the returned slice holds exactly the characters the
/// iterator will produce from here on.
#[verifier::external_body]
fn chars_as_str<'a>(chars: &Chars<'a>) -> (r: &'a str)
    ensures
        r@ == chars.remaining(),
{
    chars.as_str()
}

/// The part of `string` from the position of `start` to the position of
/// `end`, where both iterators walk `string`: the characters that `start` has
/// yet to yield, less those that `end` has yet to yield.
pub fn str_from_iterators<'a>(string: &'a str, start: Chars<'a>, end: Chars<'a>) -> (r: &'a str)
    requires
        start.remaining().len() <= string@.len(),
        string@.skip(string@.len() - start.remaining().len()) == start.remaining(),
        end.remaining().len() <= start.remaining().len(),
        start.remaining().skip(start.remaining().len() - end.remaining().len()) == end.remaining(),
    ensures
        r@ == string@.subrange(
            string@.len() - start.remaining().len(),
            string@.len() - end.remaining().len(),
        ),
{
    let rest = chars_as_str(&start);
    let tail = chars_as_str(&end);
    let n = rest.unicode_len();
    let m = tail.unicode_len();
    let r = rest.substring_char(0, n - m);
    proof {
        let l = string@.len();
        let sr = start.remaining();
        let er = end.remaining();
        assert(r@ =~= string@.subrange(l - sr.len(), l - er.len())) by {
            assert forall|i: int| 0 <= i < r@.len() implies r@[i] == string@[l - sr.len() + i] by {
                assert(sr[i] == string@.skip(l - sr.len())[i]);
            }
        }
    }
    r
}

} // verus!
