use crate::bits::{
    bit_reverse, lemma_bit_reverse_bound, lemma_bit_reverse_ends, lemma_bit_reverse_involution,
    lemma_bit_reverse_step, lemma_flip_below_high_bits, lemma_flip_bit, low_mask,
};
use crate::hypercube::stop_value;
use crate::order_strategy::{next_step, OrderStrategy};
use vstd::arithmetic::div_mod::{
    lemma_div_denominator, lemma_fundamental_div_mod, lemma_fundamental_div_mod_converse,
    lemma_mod_breakdown, lemma_mod_mod, lemma_small_mod,
};
use vstd::arithmetic::power2::{lemma2_to64, lemma_pow2_pos, lemma_pow2_unfold, pow2};
use vstd::bits::{lemma_usize_pow2_no_overflow, lemma_usize_shl_is_mul, lemma_usize_shr_is_div};
use vstd::prelude::*;

verus! {

/// Visits the hypercube in the order in which bit 0 of the index is the most
/// significant digit: the `k`-th index produced is `k` with its `num_vars`
/// bits reversed.
pub struct SignificantBitOrder {
    current_index: usize,
    stop_value: usize,
    num_vars: usize,
}

/// Splitting `x % 2p` at `p`: its top part is bit `p` of `x`.
proof fn lemma_split_at(x: nat, p: nat)
    requires
        p > 0,
    ensures
        x % (2 * p) == ((x / p) % 2) * p + x % p,
        (x % (2 * p)) / p == (x / p) % 2,
        (x % (2 * p)) % p == x % p,
        x / p == 2 * (x / (2 * p)) + (x / p) % 2,
{
    lemma_mod_breakdown(x as int, p as int, 2);
    assert(p * 2 == 2 * p);
    assert(p * ((x / p) % 2) == ((x / p) % 2) * p) by (nonlinear_arith);
    lemma_fundamental_div_mod_converse(
        (x % (2 * p)) as int,
        p as int,
        ((x / p) % 2) as int,
        (x % p) as int,
    );
    lemma_div_denominator(x as int, p as int, 2);
    lemma_fundamental_div_mod((x / p) as int, 2);
}

/// Facts about one step of the flipping loop, for a value `x` below `2^n`
/// whose bits `k .. n` are all set and `result == x % 2^k`.
#[verifier::spinoff_prover]
proof fn lemma_msb_loop_step(x: usize, n: u32, k: u32, result: usize)
    requires
        1 <= k <= n <= usize::BITS,
        (x as nat) < pow2(n as nat),
        result as nat == x as nat % pow2(k as nat),
        x as nat / pow2(k as nat) == pow2((n - k) as nat) - 1,
    ensures
        result >> ((k - 1) as u32) <= 1,
        result >> ((k - 1) as u32) == 0 ==> (result ^ (1usize << ((k - 1) as u32))) >> ((k
            - 1) as u32) == 1 && ((result ^ (1usize << ((k - 1) as u32))) as nat) < pow2(n as nat)
            && bit_reverse((result ^ (1usize << ((k - 1) as u32))) as nat, n as nat) == (
        bit_reverse(x as nat, n as nat) + 1) % pow2(n as nat),
        result >> ((k - 1) as u32) == 1 ==> (result ^ (1usize << ((k - 1) as u32))) >> ((k
            - 1) as u32) == 0 && (result ^ (1usize << ((k - 1) as u32))) as nat == x as nat
            % pow2(((k - 1) as u32) as nat) && x as nat / pow2(((k - 1) as u32) as nat) == pow2(
            (n - ((k - 1) as u32)) as nat,
        ) - 1,
{
    lemma2_to64();
    let i = (k - 1) as u32;
    let p = pow2(i as nat);
    lemma_pow2_pos(i as nat);
    lemma_pow2_unfold(k as nat);
    lemma_pow2_unfold((n - i) as nat);
    lemma_usize_pow2_no_overflow(i as nat);
    lemma_usize_shl_is_mul(1, i as usize);
    lemma_usize_shr_is_div(result, i as usize);
    assert(pow2(k as nat) == 2 * p);
    lemma_split_at(x as nat, p);
    assert((1usize << i) == p);
    assert(result >> i == result as nat / p);
    assert(result as nat / p == (x as nat / p) % 2);
    assert(result as nat % p == x as nat % p);
    lemma_flip_bit(result, i);
    let flipped = result ^ (1usize << i);
    if result >> i == 0 {
        assert((x as nat / p) % 2 == 0);
        assert(result as nat == x as nat % p);
        assert(flipped == x as nat % p + p);
        lemma_bit_reverse_step(x as nat, n as nat, k as nat);
        lemma_bit_reverse_bound(flipped as nat, n as nat);
        lemma_bit_reverse_bound(x as nat, n as nat);
        lemma_small_mod((bit_reverse(x as nat, n as nat) + 1) as nat, pow2(n as nat));
        if k < n {
            vstd::arithmetic::power2::lemma_pow2_strictly_increases(k as nat, n as nat);
        }
        assert((flipped as nat) < pow2(n as nat));
    } else {
        assert((x as nat / p) % 2 == 1);
        assert(result as nat == p + x as nat % p);
        assert(flipped == x as nat % p);
    }
}

/// The value after `x` in the order of reversed `n`-bit counting: `x` read
/// with its bits reversed, plus one modulo `2^n`, read back reversed.
pub open spec fn msb_successor(x: nat, n: nat) -> nat {
    bit_reverse((bit_reverse(x, n) + 1) % pow2(n), n)
}

/// The value reached from zero after `k` steps of `msb_successor`.
pub open spec fn msb_iterate(n: nat, k: nat) -> nat
    decreases k,
{
    if k == 0 {
        0
    } else {
        msb_successor(msb_iterate(n, (k - 1) as nat), n)
    }
}

impl SignificantBitOrder {
    #[verifier::type_invariant]
    closed spec fn inv(self) -> bool {
        &&& self.num_vars < usize::BITS
        &&& self.stop_value as nat == pow2(self.num_vars as nat)
        &&& self.current_index <= self.stop_value
    }

    /// How many indices have been produced so far.
    closed spec fn position(self) -> nat {
        if self.current_index < self.stop_value {
            bit_reverse(self.current_index as nat, self.num_vars as nat)
        } else {
            self.stop_value as nat
        }
    }

    /// Same as `next_index`.
    pub fn next(&mut self) -> (r: Option<usize>)
        ensures
            next_step(old(self).remaining(), r, final(self).remaining()),
            final(self).spec_num_vars() == old(self).spec_num_vars(),
    {
        self.next_index()
    }

    /// The value that follows `x` when the low `n` bits are read as a number
    /// whose most significant digit is bit 0: the bits are flipped from bit
    /// `n - 1` down, and the first one that becomes set ends the step. The
    /// all-ones word of `n` bits is followed by zero. A value with a set bit
    /// at or above `n` has all of its low `n` bits flipped.
    pub fn next_value_in_msb_order(x: usize, n: u32) -> (r: usize)
        requires
            n <= usize::BITS,
        ensures
            (x as nat) < pow2(n as nat) ==> (r as nat) < pow2(n as nat) && bit_reverse(
                r as nat,
                n as nat,
            ) == (bit_reverse(x as nat, n as nat) + 1) % pow2(n as nat),
            (x as nat) < pow2(n as nat) ==> r as nat == msb_successor(x as nat, n as nat),
            (x as nat) >= pow2(n as nat) ==> n < usize::BITS && r == x ^ low_mask(n),
    {
        let ghost in_range = (x as nat) < pow2(n as nat);
        proof {
            lemma2_to64();
            lemma_pow2_pos(n as nat);
            if in_range {
                lemma_small_mod(x as nat, pow2(n as nat));
                vstd::arithmetic::div_mod::lemma_basic_div(x as int, pow2(n as nat) as int);
            } else {
                assert(n < usize::BITS) by {
                    if n == usize::BITS {
                        assert(pow2(usize::BITS as nat) > usize::MAX);
                    }
                }
                lemma_usize_shr_is_div(x, n as usize);
                vstd::arithmetic::div_mod::lemma_div_non_zero(x as int, pow2(n as nat) as int);
                assert(x ^ (low_mask(n) ^ low_mask(n)) == x) by (bit_vector);
            }
        }
        let mut result = x;
        let mut k: u32 = n;
        loop
            invariant_except_break
                k <= n <= usize::BITS,
                in_range == ((x as nat) < pow2(n as nat)),
                in_range ==> result as nat == x as nat % pow2(k as nat) && x as nat / pow2(
                    k as nat,
                ) == pow2((n - k) as nat) - 1,
                !in_range ==> n < usize::BITS && x >> n != 0 && result == x ^ (low_mask(n)
                    ^ low_mask(k)),
            ensures
                in_range ==> (result as nat) < pow2(n as nat) && bit_reverse(result as nat, n as nat)
                    == (bit_reverse(x as nat, n as nat) + 1) % pow2(n as nat),
                !in_range ==> n < usize::BITS && result == x ^ low_mask(n),
            decreases k,
        {
            if k == 0 {
                proof {
                    if in_range {
                        lemma2_to64();
                        lemma_bit_reverse_ends(n as nat);
                        vstd::arithmetic::div_mod::lemma_mod_self_0(pow2(n as nat) as int);
                    } else {
                        assert(x ^ (low_mask(n) ^ low_mask(0)) == x ^ low_mask(n)) by (bit_vector);
                    }
                }
                break ;
            }
            let i = k - 1;
            proof {
                if in_range {
                    lemma_msb_loop_step(x, n, k, result);
                } else {
                    lemma_flip_below_high_bits(x, n, i);
                }
            }
            result ^= 1usize << i;
            if result >> i == 1 {
                break ;
            }
            k = i;
        }
        proof {
            if in_range {
                lemma_bit_reverse_involution(result as nat, n as nat);
            }
        }
        result
    }
}

impl OrderStrategy for SignificantBitOrder {
    closed spec fn remaining(&self) -> Seq<usize> {
        let p = self.position();
        Seq::new(
            (self.stop_value - p) as nat,
            |j: int| bit_reverse((p + j) as nat, self.num_vars as nat) as usize,
        )
    }

    closed spec fn spec_num_vars(&self) -> nat {
        self.num_vars as nat
    }

    fn new(num_vars: usize) -> (s: Self)
        ensures
            s.remaining() == Seq::new(
                pow2(num_vars as nat),
                |j: int| bit_reverse(j as nat, num_vars as nat) as usize,
            ),
    {
        let stop = stop_value(num_vars);
        proof {
            lemma_pow2_pos(num_vars as nat);
            lemma_bit_reverse_ends(num_vars as nat);
        }
        let s = Self { current_index: 0, stop_value: stop, num_vars };
        assert(s.remaining() =~= Seq::new(
            pow2(num_vars as nat),
            |j: int| bit_reverse(j as nat, num_vars as nat) as usize,
        ));
        s
    }

    fn next_index(&mut self) -> (r: Option<usize>) {
        proof {
            use_type_invariant(&*self);
        }
        if self.current_index < self.stop_value {
            let ghost old_self = *self;
            let ghost n = self.num_vars as nat;
            let ghost p = bit_reverse(self.current_index as nat, n);
            proof {
                lemma_bit_reverse_bound(self.current_index as nat, n);
                lemma_bit_reverse_involution(self.current_index as nat, n);
                lemma_bit_reverse_ends(n);
            }
            let old_index = self.current_index;
            let next = SignificantBitOrder::next_value_in_msb_order(
                self.current_index,
                self.num_vars as u32,
            );
            proof {
                lemma_bit_reverse_involution(next as nat, n);
                if p + 1 < pow2(n) {
                    vstd::arithmetic::div_mod::lemma_small_mod((p + 1) as nat, pow2(n));
                } else {
                    vstd::arithmetic::div_mod::lemma_mod_self_0(pow2(n) as int);
                }
            }
            self.current_index = next;
            if self.current_index == 0 {
                // if the sequence rounds back to 0, we need to stop
                self.current_index = self.stop_value;
            }
            assert(self.remaining() =~= old_self.remaining().drop_first());
            assert(self.spec_num_vars() == old_self.spec_num_vars());
            Some(old_index)
        } else {
            None
        }
    }

    fn num_vars(&self) -> (r: usize) {
        self.num_vars
    }
}

/// A fresh `SignificantBitOrder` on `num_vars` variables visits every vertex
/// index below `2^num_vars` exactly once.
pub proof fn lemma_significant_bit_order_visits_each_vertex_once(num_vars: usize)
    requires
        num_vars < usize::BITS,
    ensures
        ({
            let s = Seq::new(
                pow2(num_vars as nat),
                |j: int| bit_reverse(j as nat, num_vars as nat) as usize,
            );
            &&& forall|j: int| 0 <= j < s.len() ==> (#[trigger] s[j] as nat) < pow2(num_vars as nat)
            &&& forall|j: int, k: int| 0 <= j < k < s.len() ==> #[trigger] s[j] != #[trigger] s[k]
            &&& forall|v: usize| (v as nat) < pow2(num_vars as nat) ==> #[trigger] s.contains(v)
        }),
{
    let n = num_vars as nat;
    let bound = pow2(n);
    let s = Seq::new(bound, |j: int| bit_reverse(j as nat, n) as usize);
    lemma_usize_pow2_no_overflow(n);
    assert forall|j: int| 0 <= j < s.len() implies (#[trigger] s[j] as nat) < bound by {
        lemma_bit_reverse_bound(j as nat, n);
    }
    assert forall|j: int, k: int| 0 <= j < k < s.len() implies #[trigger] s[j] != #[trigger] s[k] by {
        lemma_bit_reverse_bound(j as nat, n);
        lemma_bit_reverse_bound(k as nat, n);
        lemma_bit_reverse_involution(j as nat, n);
        lemma_bit_reverse_involution(k as nat, n);
    }
    assert forall|v: usize| (v as nat) < bound implies #[trigger] s.contains(v) by {
        lemma_bit_reverse_bound(v as nat, n);
        lemma_bit_reverse_involution(v as nat, n);
        assert(s[bit_reverse(v as nat, n) as int] == v);
    }
}

/// Iterating `next_value_in_msb_order` from zero counts in reversed order:
/// the `k`-th value is `k` with its `n` bits reversed, the values for
/// `0 <= k < 2^n` are pairwise distinct and are exactly `0 .. 2^n` (see
/// `lemma_significant_bit_order_visits_each_vertex_once`), and the walk
/// first returns to zero after exactly `2^n` steps.
pub proof fn lemma_msb_iteration(n: nat, k: nat)
    requires
        k <= pow2(n),
    ensures
        k < pow2(n) ==> msb_iterate(n, k) == bit_reverse(k, n),
        k == pow2(n) ==> msb_iterate(n, k) == 0,
        0 < k < pow2(n) ==> msb_iterate(n, k) != 0,
        msb_iterate(n, k) < pow2(n),
    decreases k,
{
    lemma_bit_reverse_ends(n);
    lemma_pow2_pos(n);
    if k > 0 {
        let j = (k - 1) as nat;
        lemma_msb_iteration(n, j);
        lemma_bit_reverse_bound(j, n);
        lemma_bit_reverse_involution(j, n);
        if k < pow2(n) {
            lemma_small_mod(k, pow2(n));
            lemma_bit_reverse_involution(k, n);
        } else {
            vstd::arithmetic::div_mod::lemma_mod_self_0(pow2(n) as int);
        }
        lemma_bit_reverse_bound((bit_reverse(msb_iterate(n, j), n) + 1) as nat % pow2(n), n);
    }
}

} // verus!
