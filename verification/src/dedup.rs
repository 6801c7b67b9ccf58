//! Duplicate-suppression window: a fixed-capacity first-in-first-out set
//! of recently seen assignment ids. Inserting a fresh id past capacity
//! evicts the oldest one.
use vstd::prelude::*;

use crate::json::str_eq;

verus! {

/// A bounded FIFO set of assignment ids.
pub struct Dedup {
    ids: Vec<String>,
    capacity: usize,
}

impl Dedup {
    /// The ids currently held, oldest first.
    pub closed spec fn view(&self) -> Seq<Seq<char>> {
        self.ids.deep_view()
    }

    /// The configured capacity.
    pub closed spec fn spec_capacity(&self) -> nat {
        self.capacity as nat
    }

    /// The window never holds more ids than its capacity, and never holds
    /// an id twice.
    pub open spec fn wf(&self) -> bool {
        self@.len() <= self.spec_capacity() && (forall|i: int, j: int|
            0 <= i < j < self@.len() ==> self@[i] != self@[j])
    }

    /// An empty window of the given capacity.
    pub fn new(capacity: usize) -> (r: Self)
        ensures
            r.wf(),
            r@ == Seq::<Seq<char>>::empty(),
            r.spec_capacity() == capacity,
    {
        let r = Dedup { ids: Vec::new(), capacity };
        proof {
            assert(r@ =~= Seq::<Seq<char>>::empty());
        }
        r
    }

    /// Whether `key` is inside the window.
    pub fn contains(&self, key: &str) -> (r: bool)
        ensures
            r == self@.contains(key@),
    {
        let mut k: usize = 0;
        while k < self.ids.len()
            invariant
                k <= self.ids@.len(),
                forall|t: int| 0 <= t < k ==> self@[t] != key@,
            decreases self.ids@.len() - k,
        {
            if str_eq(self.ids[k].as_str(), key) {
                proof {
                    assert(self@[k as int] == key@);
                }
                return true;
            }
            k = k + 1;
        }
        proof {
            if self@.contains(key@) {
                let w = choose|w: int| 0 <= w < self@.len() && self@[w] == key@;
                assert(self@[w] != key@);
            }
        }
        false
    }

    /// Records `key`. A duplicate leaves the window unchanged; a fresh id
    /// is appended, evicting the oldest id when the window is full.
    pub fn insert(&mut self, key: String)
        requires
            old(self).wf(),
        ensures
            final(self).wf(),
            final(self).spec_capacity() == old(self).spec_capacity(),
            old(self)@.contains(key@) ==> final(self)@ == old(self)@,
            (!old(self)@.contains(key@) && old(self).spec_capacity() == 0)
                ==> final(self)@ == old(self)@,
            (!old(self)@.contains(key@) && old(self)@.len() < old(self).spec_capacity())
                ==> final(self)@ == old(self)@ + seq![key@],
            (!old(self)@.contains(key@) && old(self).spec_capacity() > 0
                && old(self)@.len() == old(self).spec_capacity())
                ==> final(self)@ == old(self)@.drop_first() + seq![key@],
    {
        if self.contains(key.as_str()) {
            return ;
        }
        if self.capacity == 0 {
            return ;
        }
        let ghost prev = self@;
        if self.ids.len() == self.capacity {
            self.ids.remove(0);
            proof {
                assert(self@ =~= prev.drop_first());
            }
        }
        let ghost mid = self@;
        self.ids.push(key);
        proof {
            assert(self@ =~= mid + seq![key@]);
            assert forall|i: int, j: int|
                0 <= i < j < self@.len() implies self@[i] != self@[j] by {
                if j == self@.len() - 1 {
                    if prev.len() == old(self).spec_capacity() {
                        assert(mid[i] == prev[i + 1]);
                        assert(!prev.contains(key@));
                        assert(prev[i + 1] != key@);
                    } else {
                        assert(!prev.contains(key@));
                        assert(prev[i] != key@);
                    }
                }
            }
        }
    }
}

} // verus!
