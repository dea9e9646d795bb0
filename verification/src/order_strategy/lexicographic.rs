use crate::hypercube::stop_value;
use crate::order_strategy::{next_step, OrderStrategy};
use vstd::arithmetic::power2::pow2;
use vstd::prelude::*;

verus! {

/// Visits the hypercube in increasing index order: `0, 1, ..., 2^num_vars - 1`.
pub struct LexicographicOrder {
    current_index: usize,
    stop_value: usize,
    num_vars: usize,
}

impl LexicographicOrder {
    #[verifier::type_invariant]
    closed spec fn inv(self) -> bool {
        &&& self.num_vars < usize::BITS
        &&& self.stop_value as nat == pow2(self.num_vars as nat)
        &&& self.current_index <= self.stop_value
    }

    /// Same as `next_index`.
    pub fn next(&mut self) -> (r: Option<usize>)
        ensures
            next_step(old(self).remaining(), r, final(self).remaining()),
            final(self).spec_num_vars() == old(self).spec_num_vars(),
    {
        self.next_index()
    }
}

impl OrderStrategy for LexicographicOrder {
    closed spec fn remaining(&self) -> Seq<usize> {
        Seq::new(
            (self.stop_value - self.current_index) as nat,
            |j: int| (self.current_index + j) as usize,
        )
    }

    closed spec fn spec_num_vars(&self) -> nat {
        self.num_vars as nat
    }

    fn new(num_vars: usize) -> (s: Self)
        ensures
            s.remaining() == Seq::new(pow2(num_vars as nat), |j: int| j as usize),
    {
        let stop = stop_value(num_vars);
        let s = Self { current_index: 0, stop_value: stop, num_vars };
        assert(s.remaining() =~= Seq::new(pow2(num_vars as nat), |j: int| j as usize));
        s
    }

    fn next_index(&mut self) -> (r: Option<usize>) {
        proof {
            use_type_invariant(&*self);
        }
        if self.current_index < self.stop_value {
            let this_index = Some(self.current_index);
            let ghost old_self = *self;
            self.current_index += 1;
            assert(self.remaining() =~= old_self.remaining().drop_first());
            assert(self.spec_num_vars() == old_self.spec_num_vars());
            this_index
        } else {
            None
        }
    }

    fn num_vars(&self) -> (r: usize) {
        self.num_vars
    }
}

} // verus!
