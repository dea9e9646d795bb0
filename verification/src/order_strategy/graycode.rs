use crate::bits::{
    count_ones, gray, gray_rank, is_single_bit, lemma_gray_below_power,
    lemma_gray_neighbors_differ_in_one_bit, lemma_gray_rank_inverse, lemma_gray_step_even,
    lemma_gray_step_odd, lemma_popcount_parity, trailing_zeros,
};
use crate::hypercube::stop_value;
use crate::order_strategy::{next_step, OrderStrategy};
use vstd::arithmetic::power2::pow2;
use vstd::bits::{lemma_usize_pow2_no_overflow, lemma_usize_shl_is_mul};
use vstd::prelude::*;

verus! {

/// Visits the hypercube in reflected binary Gray code order: the `k`-th
/// index produced is `gray(k)`, so two consecutive indices differ in one bit.
pub struct GraycodeOrder {
    current_index: usize,
    stop_value: usize,
    num_vars: usize,
}

impl GraycodeOrder {
    #[verifier::type_invariant]
    closed spec fn inv(self) -> bool {
        &&& self.num_vars < usize::BITS
        &&& self.stop_value == 1usize << self.num_vars
        &&& (self.current_index < self.stop_value || self.current_index == gray(self.stop_value))
    }

    /// How many indices have been produced so far.
    closed spec fn position(self) -> usize {
        if self.current_index < self.stop_value {
            gray_rank(self.current_index)
        } else {
            self.stop_value
        }
    }

    /// The word that follows `value` in the reflected binary Gray code: the
    /// lowest bit is flipped when `value` has an even number of set bits, and
    /// otherwise the bit just above its lowest set bit.
    pub fn next_gray_code(value: usize) -> (r: usize)
        requires
            value != gray(usize::MAX),
        ensures
            gray_rank(value) < usize::MAX,
            r == gray((gray_rank(value) + 1) as usize),
    {
        let ghost i = gray_rank(value);
        proof {
            lemma_gray_rank_inverse(value);
            lemma_popcount_parity(value);
        }
        let ones = count_ones(value);
        let mask: usize = if ones & 1 == 0 {
            proof {
                assert(ones & 1 == 0 ==> ones % 2 == 0) by (bit_vector);
                assert(i & 1 == 0);
                lemma_gray_step_even(i);
            }
            1
        } else {
            proof {
                assert(ones & 1 != 0 ==> ones % 2 == 1) by (bit_vector);
                assert(i & 1 == 1);
            }
            let t = trailing_zeros(value);
            proof {
                lemma_gray_step_odd(i, t);
            }
            1usize << (t + 1)
        };
        value ^ mask
    }

    /// Same as `next_index`.
    pub fn next(&mut self) -> (r: Option<usize>)
        ensures
            next_step(old(self).remaining(), r, final(self).remaining()),
            final(self).spec_num_vars() == old(self).spec_num_vars(),
    {
        self.next_index()
    }
}

impl OrderStrategy for GraycodeOrder {
    closed spec fn remaining(&self) -> Seq<usize> {
        let p = self.position();
        Seq::new((self.stop_value - p) as nat, |j: int| gray((p + j) as usize))
    }

    closed spec fn spec_num_vars(&self) -> nat {
        self.num_vars as nat
    }

    fn new(num_vars: usize) -> (s: Self)
        ensures
            s.remaining() == Seq::new(pow2(num_vars as nat), |j: int| gray(j as usize)),
    {
        let stop = stop_value(num_vars);
        assert(num_vars < usize::BITS ==> 0 < (1usize << num_vars)) by (bit_vector);
        let s = Self { current_index: 0, stop_value: stop, num_vars };
        assert(s.remaining() =~= Seq::new(pow2(num_vars as nat), |j: int| gray(j as usize))) by {
            assert(gray_rank(0) == 0) by (bit_vector);
        }
        s
    }

    fn next_index(&mut self) -> (r: Option<usize>) {
        proof {
            use_type_invariant(&*self);
            lemma_gray_below_power(self.num_vars, self.stop_value, self.current_index);
            lemma_gray_rank_inverse(self.current_index);
        }
        if self.current_index < self.stop_value {
            let this_index = Some(self.current_index);
            let ghost old_self = *self;
            let ghost p = gray_rank(self.current_index);
            let next = GraycodeOrder::next_gray_code(self.current_index);
            proof {
                lemma_gray_below_power(self.num_vars, self.stop_value, (p + 1) as usize);
                lemma_gray_rank_inverse((p + 1) as usize);
            }
            self.current_index = next;
            assert(self.remaining() =~= old_self.remaining().drop_first());
            assert(self.num_vars == old_self.num_vars);
            assert(self.spec_num_vars() == old_self.spec_num_vars());
            this_index
        } else {
            None
        }
    }

    fn num_vars(&self) -> (r: usize) {
        self.num_vars
    }
}

/// A fresh `GraycodeOrder` on `num_vars` variables visits every vertex index
/// below `2^num_vars` exactly once, and consecutive indices differ in one bit.
pub proof fn lemma_graycode_order_visits_each_vertex_once(num_vars: usize)
    requires
        num_vars < usize::BITS,
    ensures
        ({
            let s = Seq::new(pow2(num_vars as nat), |j: int| gray(j as usize));
            &&& forall|j: int| 0 <= j < s.len() ==> (#[trigger] s[j] as nat) < pow2(num_vars as nat)
            &&& forall|j: int, k: int| 0 <= j < k < s.len() ==> #[trigger] s[j] != #[trigger] s[k]
            &&& forall|v: usize| (v as nat) < pow2(num_vars as nat) ==> #[trigger] s.contains(v)
            &&& forall|j: int| 0 <= j < s.len() - 1 ==> is_single_bit(#[trigger] s[j] ^ s[j + 1])
        }),
{
    let n = num_vars;
    let bound = pow2(n as nat);
    let s = Seq::new(bound, |j: int| gray(j as usize));
    lemma_usize_pow2_no_overflow(n as nat);
    lemma_usize_shl_is_mul(1, n);
    let top = 1usize << n;
    assert forall|j: int| 0 <= j < s.len() implies (#[trigger] s[j] as nat) < bound by {
        lemma_gray_below_power(n, top, j as usize);
    }
    assert forall|j: int, k: int| 0 <= j < k < s.len() implies #[trigger] s[j] != #[trigger] s[k] by {
        lemma_gray_rank_inverse(j as usize);
        lemma_gray_rank_inverse(k as usize);
    }
    assert forall|v: usize| (v as nat) < bound implies #[trigger] s.contains(v) by {
        lemma_gray_below_power(n, top, v);
        lemma_gray_rank_inverse(v);
        assert(s[gray_rank(v) as int] == v);
    }
    assert forall|j: int| 0 <= j < s.len() - 1 implies is_single_bit(#[trigger] s[j] ^ s[j + 1]) by {
        lemma_gray_neighbors_differ_in_one_bit(j as usize);
    }
}

} // verus!
