//! The set of addresses at which a manifest was found.

use crate::text::{equal, views};
use vstd::prelude::*;

verus! {

/// A set of addresses. Addresses are added and never removed.
#[derive(Debug)]
pub struct Visited {
    urls: Vec<String>,
}

impl View for Visited {
    type V = Set<Seq<char>>;

    closed spec fn view(&self) -> Set<Seq<char>> {
        views(self.urls@).to_set()
    }
}

impl Visited {
    /// The empty set.
    pub fn new() -> (visited: Visited)
        ensures
            visited@ == Set::<Seq<char>>::empty(),
    {
        let visited = Visited { urls: Vec::new() };
        assert(visited@ =~= Set::<Seq<char>>::empty());
        visited
    }

    /// Whether `url` is in the set.
    pub fn contains(&self, url: &str) -> (found: bool)
        ensures
            found == self@.contains(url@),
    {
        let ghost all = views(self.urls@);
        let mut i: usize = 0;
        while i < self.urls.len()
            invariant
                i <= self.urls.len(),
                all == views(self.urls@),
                forall|j: int| 0 <= j < i ==> all[j] != url@,
            decreases self.urls.len() - i,
        {
            if equal(self.urls[i].as_str(), url) {
                assert(all[i as int] == url@);
                assert(all.contains(url@));
                return true;
            }
            i += 1;
        }
        assert(!all.contains(url@));
        false
    }

    /// Adds `url` to the set.
    pub fn insert(&mut self, url: String)
        ensures
            final(self)@ == old(self)@.insert(url@),
    {
        let ghost before = views(self.urls@);
        self.urls.push(url);
        proof {
            let after = views(self.urls@);
            assert(after =~= before.push(url@));
            assert forall|x: Seq<char>| after.to_set().contains(x) <==> before.to_set().insert(
                url@,
            ).contains(x) by {
                if after.contains(x) {
                    let i = choose|i: int| 0 <= i < after.len() && after[i] == x;
                    if i < before.len() {
                        assert(before[i] == x);
                        assert(before.contains(x));
                    }
                }
                if before.contains(x) {
                    let i = choose|i: int| 0 <= i < before.len() && before[i] == x;
                    assert(after[i] == x);
                }
                if x == url@ {
                    assert(after[before.len() as int] == x);
                }
            }
            assert(after.to_set() =~= before.to_set().insert(url@));
        }
    }
}

} // verus!
