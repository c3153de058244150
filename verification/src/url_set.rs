//! The frontier/visited set manager: sets of canonical URL strings, backed by
//! a duplicate-free vector, with the set-algebra operations the crawl engine
//! needs (membership, insertion, union, and the round merge's difference).

use vstd::prelude::*;

verus! {

/// A set of canonical URL strings.
#[derive(Debug)]
pub struct UrlSet {
    urls: Vec<String>,
}

impl UrlSet {
    /// Membership, as a predicate over the character sequence of a URL.
    pub closed spec fn has(self, u: Seq<char>) -> bool {
        exists|i: int| 0 <= i < self.urls@.len() && (#[trigger] self.urls@[i])@ == u
    }

    /// How many URLs the set holds.
    pub closed spec fn card(self) -> nat {
        self.urls@.len()
    }

    /// Well-formed: no URL occurs twice, and the backing vector's length is a
    /// machine length.
    pub closed spec fn wf(self) -> bool {
        &&& forall|i: int, j: int|
            0 <= i < j < self.urls@.len() ==> (#[trigger] self.urls@[i])@ != (
            #[trigger] self.urls@[j])@
        &&& self.urls@.len() <= usize::MAX
    }

    /// A well-formed set's size is a machine length.
    pub proof fn lemma_wf_card(self)
        requires
            self.wf(),
        ensures
            self.card() <= usize::MAX,
    {
    }

    /// The empty set.
    pub fn new() -> (r: Self)
        ensures
            r.wf(),
            forall|u: Seq<char>| !r.has(u),
            r.card() == 0,
    {
        UrlSet { urls: Vec::new() }
    }

    /// Number of URLs held.
    pub fn len(&self) -> (n: usize)
        ensures
            n == self.card(),
    {
        self.urls.len()
    }

    /// Whether the set holds no URL at all.
    pub fn is_empty(&self) -> (b: bool)
        ensures
            b ==> (forall|u: Seq<char>| !self.has(u)),
            !b ==> (exists|u: Seq<char>| self.has(u)),
            b == (self.card() == 0),
    {
        let n: usize = self.urls.len();
        if n == 0 {
            true
        } else {
            assert(self.has(self.urls@[0]@));
            false
        }
    }

    /// Exact membership test.
    pub fn contains(&self, u: &String) -> (b: bool)
        ensures
            b == self.has(u@),
    {
        let mut i: usize = 0;
        while i < self.urls.len()
            invariant
                i <= self.urls@.len(),
                forall|j: int| 0 <= j < i ==> (#[trigger] self.urls@[j])@ != u@,
            decreases self.urls@.len() - i,
        {
            if self.urls[i].eq(u) {
                assert(self.has(u@));
                return true;
            }
            i = i + 1;
        }
        false
    }

    /// Idempotent insertion.
    pub fn insert(&mut self, u: String)
        requires
            old(self).wf(),
        ensures
            final(self).wf(),
            forall|x: Seq<char>| final(self).has(x) == (old(self).has(x) || x == u@),
            old(self).has(u@) ==> final(self).card() == old(self).card(),
            !old(self).has(u@) ==> final(self).card() == old(self).card() + 1,
    {
        if !self.contains(&u) {
            let ghost pre = self.urls@;
            self.urls.push(u);
            let _n: usize = self.urls.len();
            assert forall|x: Seq<char>| self.has(x) == (old(self).has(x) || x == u@) by {
                if self.has(x) {
                    let i = choose|i: int|
                        0 <= i < self.urls@.len() && (#[trigger] self.urls@[i])@ == x;
                    if i < pre.len() {
                        assert(old(self).has(x));
                    }
                }
                if old(self).has(x) {
                    let i = choose|i: int| 0 <= i < pre.len() && (#[trigger] pre[i])@ == x;
                    assert(self.urls@[i]@ == x);
                }
                if x == u@ {
                    assert(self.urls@[pre.len() as int]@ == x);
                }
            }
        }
    }

    /// A snapshot of the set's URLs as a plain vector, duplicate-free.
    pub fn to_vec(&self) -> (v: Vec<String>)
        requires
            self.wf(),
        ensures
            v@.len() == self.card(),
            forall|i: int| 0 <= i < v@.len() ==> self.has((#[trigger] v@[i])@),
            forall|x: Seq<char>|
                self.has(x) ==> exists|i: int| 0 <= i < v@.len() && (#[trigger] v@[i])@ == x,
            forall|i: int, j: int|
                0 <= i < j < v@.len() ==> (#[trigger] v@[i])@ != (#[trigger] v@[j])@,
    {
        let mut v: Vec<String> = Vec::new();
        let mut i: usize = 0;
        while i < self.urls.len()
            invariant
                self.wf(),
                i <= self.urls@.len(),
                v@.len() == i,
                forall|j: int| 0 <= j < i ==> (#[trigger] v@[j])@ == self.urls@[j]@,
            decreases self.urls@.len() - i,
        {
            v.push(self.urls[i].clone());
            i = i + 1;
        }
        assert forall|x: Seq<char>|
            self.has(x) implies exists|i: int|
            0 <= i < v@.len() && (#[trigger] v@[i])@ == x by {
            let i = choose|i: int| 0 <= i < self.urls@.len() && (#[trigger] self.urls@[i])@ == x;
            assert(v@[i]@ == x);
        }
        v
    }

    /// Union: add every URL of `other` to `self`.
    pub fn extend_with(&mut self, other: &UrlSet)
        requires
            old(self).wf(),
        ensures
            final(self).wf(),
            forall|x: Seq<char>| final(self).has(x) == (old(self).has(x) || other.has(x)),
    {
        let mut i: usize = 0;
        while i < other.urls.len()
            invariant
                self.wf(),
                i <= other.urls@.len(),
                forall|x: Seq<char>|
                    self.has(x) == (old(self).has(x) || exists|j: int|
                        0 <= j < i && (#[trigger] other.urls@[j])@ == x),
            decreases other.urls@.len() - i,
        {
            self.insert(other.urls[i].clone());
            i = i + 1;
        }
    }

    /// The round merge: every URL of `self` that is not in `other`. Used with
    /// the visited set as `other`, so the new frontier is always disjoint
    /// from the visited set.
    pub fn minus(&self, other: &UrlSet) -> (r: UrlSet)
        requires
            self.wf(),
        ensures
            r.wf(),
            forall|x: Seq<char>| r.has(x) == (self.has(x) && !other.has(x)),
            forall|x: Seq<char>| !(r.has(x) && other.has(x)),
    {
        let mut r = UrlSet::new();
        let mut i: usize = 0;
        while i < self.urls.len()
            invariant
                self.wf(),
                r.wf(),
                i <= self.urls@.len(),
                forall|x: Seq<char>|
                    r.has(x) == ((exists|j: int| 0 <= j < i && (#[trigger] self.urls@[j])@ == x)
                        && !other.has(x)),
            decreases self.urls@.len() - i,
        {
            if !other.contains(&self.urls[i]) {
                r.insert(self.urls[i].clone());
            }
            i = i + 1;
        }
        r
    }
}

} // verus!
