//! Exact-match URL blacklisting.

use vstd::prelude::*;

verus! {

/// Whether `link` is one of the blacklisted URLs, by exact string equality.
pub open spec fn blacklisted(blacklist: Seq<Seq<char>>, link: Seq<char>) -> bool {
    exists|i: int| 0 <= i < blacklist.len() && blacklist[i] == link
}

/// Whether `link` occurs in the blacklist.
pub fn contains(blacklist: &Vec<String>, link: &String) -> (r: bool)
    ensures
        r == blacklisted(blacklist.deep_view(), link@),
{
    let mut i: usize = 0;
    while i < blacklist.len()
        invariant
            i <= blacklist@.len(),
            forall|j: int| 0 <= j < i ==> (#[trigger] blacklist@[j])@ != link@,
        decreases blacklist@.len() - i,
    {
        if blacklist[i].eq(link) {
            assert(blacklist.deep_view()[i as int] == link@);
            return true;
        }
        i = i + 1;
    }
    assert forall|j: int| 0 <= j < blacklist.deep_view().len() implies #[trigger] blacklist.deep_view()[j]
        != link@ by {
        assert(blacklist@[j]@ != link@);
    }
    false
}

} // verus!
