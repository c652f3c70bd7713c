//! A shape check for configured addresses.

use crate::text::{
    byte_len, chars_of, find, lemma_position, slices, split, split_bounds, utf8_len,
};
use vstd::prelude::*;

verus! {

/// What passes for an address in the configuration: there is an `@`, nothing
/// between, before or after the `@` signs is empty, and the whole is at least
/// five bytes long.
pub open spec fn email_like(s: Seq<char>) -> bool {
    &&& s.contains('@')
    &&& forall|k: int| 0 <= k < split(s, '@').len() ==> (#[trigger] split(s, '@')[k]).len() > 0
    &&& utf8_len(s) >= 5
}

/// Whether `s` has the shape of an address.
pub fn looks_like_email(s: &str) -> (r: bool)
    ensures
        r == email_like(s@),
{
    let cs = chars_of(s);
    let n = cs.len();
    assert(cs@.subrange(0, n as int) =~= s@);
    proof {
        lemma_position(s@, '@');
    }
    if find(&cs, 0, n, '@') >= n {
        return false;
    }
    let pieces = split_bounds(&cs, 0, n, '@');
    let mut k: usize = 0;
    while k < pieces.len()
        invariant
            k <= pieces.len(),
            slices(cs@, pieces@) == split(s@, '@'),
            forall|j: int| 0 <= j < k ==> (#[trigger] split(s@, '@')[j]).len() > 0,
            forall|j: int|
                0 <= j < pieces.len() ==> (#[trigger] pieces[j]).0 <= pieces[j].1 <= cs.len(),
        decreases pieces.len() - k,
    {
        if pieces[k].0 >= pieces[k].1 {
            assert(split(s@, '@')[k as int].len() == 0);
            return false;
        }
        assert(split(s@, '@')[k as int].len() > 0);
        k += 1;
    }
    byte_len(s) >= 5
}

} // verus!
