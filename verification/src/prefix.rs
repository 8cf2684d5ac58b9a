//! The Markov state: a sliding window of the most recent words.

use vstd::prelude::*;
use crate::PREFIX_SIZE;

verus! {

/// An ordered window of exactly `PREFIX_SIZE` words, the key under which a
/// distribution of follower words is stored, and the cursor that generation
/// slides over the emitted text.
#[derive(Debug)]
pub struct Prefix {
    entries: Vec<String>,
}

impl View for Prefix {
    type V = Seq<Seq<char>>;

    closed spec fn view(&self) -> Seq<Seq<char>> {
        self.entries@.map_values(|s: String| s@)
    }
}

impl Prefix {
    /// A prefix is well formed when it holds exactly `PREFIX_SIZE` words.
    pub open spec fn wf(self) -> bool {
        self@.len() == PREFIX_SIZE
    }

    pub fn new(entries: Vec<String>) -> (p: Prefix)
        requires
            entries@.len() == PREFIX_SIZE,
        ensures
            p.wf(),
            p@ == entries@.map_values(|s: String| s@),
    {
        Prefix { entries }
    }

    /// Slide the window: the oldest word is dropped, every other word moves
    /// one slot towards the front, and `word` fills the freed last slot.
    pub fn push_new(&mut self, word: String)
        requires
            old(self).wf(),
        ensures
            final(self).wf(),
            final(self)@ == old(self)@.subrange(1, PREFIX_SIZE as int).push(word@),
    {
        self.entries.remove(0);
        self.entries.push(word);
        proof {
            assert(final(self)@ =~= old(self)@.subrange(1, PREFIX_SIZE as int).push(word@));
        }
    }

    /// Structural comparison of all slots in order.
    pub fn same_as(&self, other: &Prefix) -> (r: bool)
        ensures
            r == (self@ == other@),
    {
        if self.entries.len() != other.entries.len() {
            proof {
                assert(self@.len() == self.entries@.len());
                assert(other@.len() == other.entries@.len());
            }
            return false;
        }
        let n = self.entries.len();
        let mut i: usize = 0;
        while i < n
            invariant
                n == self.entries@.len(),
                n == other.entries@.len(),
                i <= n,
                forall|k: int| 0 <= k < i ==> self@[k] == other@[k],
            decreases n - i,
        {
            if !(self.entries[i] == other.entries[i]) {
                proof {
                    assert(self@[i as int] == self.entries@[i as int]@);
                    assert(other@[i as int] == other.entries@[i as int]@);
                }
                return false;
            }
            i = i + 1;
        }
        proof {
            assert(self@ =~= other@);
        }
        true
    }

    /// The word in slot `i`, oldest first.
    pub fn word_at(&self, i: usize) -> (w: String)
        requires
            i < self@.len(),
        ensures
            w@ == self@[i as int],
    {
        self.entries[i].clone()
    }

    /// The number of slots held.
    pub fn len(&self) -> (n: usize)
        ensures
            n == self@.len(),
    {
        self.entries.len()
    }
}

impl Clone for Prefix {
    fn clone(&self) -> (res: Self)
        ensures
            res@ == self@,
    {
        let n = self.entries.len();
        let mut entries: Vec<String> = Vec::new();
        let mut i: usize = 0;
        while i < n
            invariant
                n == self.entries@.len(),
                i <= n,
                entries@.len() == i,
                forall|k: int| 0 <= k < i ==> entries@[k]@ == self@[k],
            decreases n - i,
        {
            entries.push(self.entries[i].clone());
            i = i + 1;
        }
        let res = Prefix { entries };
        proof {
            assert(res@ =~= self@);
        }
        res
    }
}

impl PartialEq for Prefix {
    fn eq(&self, other: &Prefix) -> (r: bool) {
        self.same_as(other)
    }
}

impl Eq for Prefix {}

impl vstd::std_specs::cmp::PartialEqSpecImpl for Prefix {
    open spec fn obeys_eq_spec() -> bool {
        true
    }

    open spec fn eq_spec(&self, other: &Prefix) -> bool {
        self@ == other@
    }
}

} // verus!
