//! The deduplication set of claimed book ids. It grows monotonically:
//! a book id, once inserted, is never removed.

use vstd::prelude::*;

verus! {

/// A set of book ids, viewed as a `Set<usize>`. Used both for the global
/// scan ledger (books already claimed by some library) and for the
/// reservation set built during admission lookahead.
pub struct Ledger {
    items: Vec<usize>,
}

impl View for Ledger {
    type V = Set<usize>;

    closed spec fn view(&self) -> Set<usize> {
        self.items@.to_set()
    }
}

impl Ledger {
    /// A ledger always holds finitely many book ids.
    pub proof fn lemma_finite(&self)
        ensures
            self@.finite(),
    {
        broadcast use vstd::seq_lib::seq_to_set_is_finite;

        assert(self@ == self.items@.to_set());
    }

    /// An empty ledger: no book is claimed yet.
    pub fn new() -> (r: Ledger)
        ensures
            r@ == Set::<usize>::empty(),
    {
        let r = Ledger { items: Vec::new() };
        proof {
            assert(r@ =~= Set::<usize>::empty());
        }
        r
    }

    /// Whether `book` has been claimed.
    pub fn contains(&self, book: usize) -> (r: bool)
        ensures
            r == self@.contains(book),
    {
        let mut i: usize = 0;
        while i < self.items.len()
            invariant
                i <= self.items.len(),
                forall|k: int| 0 <= k < i ==> self.items@[k] != book,
            decreases self.items.len() - i,
        {
            if self.items[i] == book {
                assert(self@.contains(book));
                return true;
            }
            i += 1;
        }
        assert(!self.items@.contains(book));
        false
    }

    /// Claims `book`. Inserting a book twice leaves the ledger unchanged.
    pub fn insert(&mut self, book: usize)
        ensures
            final(self)@ == old(self)@.insert(book),
            old(self)@.subset_of(final(self)@),
    {
        if !self.contains(book) {
            self.items.push(book);
            proof {
                assert(self.items@.drop_last() == old(self).items@);
                assert(self.items@.last() == book);
                assert forall|x: usize| self@.contains(x) <==> old(self)@.insert(book).contains(x) by {
                    if self.items@.contains(x) {
                        let k = choose|k: int| 0 <= k < self.items@.len() && self.items@[k] == x;
                        if k < self.items@.len() - 1 {
                            assert(old(self).items@[k] == x);
                        }
                    }
                    if old(self).items@.contains(x) {
                        let k = choose|k: int| 0 <= k < old(self).items@.len() && old(self).items@[k] == x;
                        assert(self.items@[k] == x);
                    }
                    if x == book {
                        assert(self.items@.last() == x);
                    }
                }
                assert(self@ =~= old(self)@.insert(book));
            }
        } else {
            proof {
                assert(self@ =~= old(self)@.insert(book));
            }
        }
    }
}

} // verus!
