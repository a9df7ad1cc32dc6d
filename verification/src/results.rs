//! The results of a query, handed out one at a time.

use vstd::prelude::*;
use crate::sid::Sid;

verus! {

/// The results of a query, from the best on.
#[derive(Debug)]
pub struct QpickResults {
    items: Vec<Sid>,
    taken: usize,
}

impl QpickResults {
    #[verifier::type_invariant]
    spec fn well_formed(&self) -> bool {
        self.taken <= self.items@.len()
    }

    /// The results that have not been handed out yet.
    pub closed spec fn remaining(&self) -> Seq<Sid> {
        self.items@.skip(self.taken as int)
    }

    /// Results that hand out `items` in their order.
    pub fn new(items: Vec<Sid>) -> (r: QpickResults)
        ensures
            r.remaining() == items@,
    {
        proof {
            assert(items@.skip(0) =~= items@);
        }
        QpickResults { items, taken: 0 }
    }

    /// Hands out the next result, or `None` when all are handed out.
    pub fn next(&mut self) -> (r: Option<Sid>)
        ensures
            old(self).remaining().len() == 0 ==> r is None,
            old(self).remaining().len() == 0 ==> final(self).remaining() == old(self).remaining(),
            old(self).remaining().len() > 0 ==> r == Some(old(self).remaining()[0]),
            old(self).remaining().len() > 0 ==> final(self).remaining() == old(self).remaining().skip(
                1,
            ),
    {
        proof {
            use_type_invariant(&*self);
        }
        if self.taken < self.items.len() {
            let item: Sid = self.items[self.taken];
            proof {
                assert(self.items@.skip(self.taken as int).skip(1) =~= self.items@.skip(
                    self.taken + 1,
                ));
            }
            self.taken = self.taken + 1;
            Some(item)
        } else {
            None
        }
    }
}

} // verus!
