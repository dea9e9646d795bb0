//! Strategies that enumerate the vertex indices `0..2^num_vars` of a boolean
//! hypercube, each in its own order.
pub mod graycode;
pub mod lexicographic;
pub mod significant_bit;

use vstd::prelude::*;

verus! {

/// One call of `next_index` on a strategy whose model goes from `before` to
/// `after` with result `r`: the first index is handed out and dropped, or,
/// when none is left, `None` is returned and the model stays empty.
pub open spec fn next_step(before: Seq<usize>, r: Option<usize>, after: Seq<usize>) -> bool {
    match r {
        Some(v) => {
            &&& before.len() > 0
            &&& v == before[0]
            &&& after == before.drop_first()
        },
        None => {
            &&& before.len() == 0
            &&& after == before
        },
    }
}

/// The model after `k` calls of `next_index` from the model `s`.
pub open spec fn model_after(s: Seq<usize>, k: nat) -> Seq<usize> {
    if k <= s.len() {
        s.skip(k as int)
    } else {
        Seq::empty()
    }
}

/// The result of call number `k` (from zero) of `next_index` from the model `s`.
pub open spec fn call_result(s: Seq<usize>, k: nat) -> Option<usize> {
    if k < s.len() {
        Some(s[k as int])
    } else {
        None
    }
}

/// A run of calls of `next_index` from a strategy whose model is `s`: after
/// `k` calls the model is `model_after(s, k)`, and call number `k` can only
/// return `call_result(s, k)` and leave `model_after(s, k + 1)`. So call `k`
/// returns `Some(s[k])` for `k < s.len()` and `None` for every later call:
/// the enumeration never restarts. Each call also keeps `spec_num_vars`.
pub proof fn lemma_next_index_run(s: Seq<usize>, k: nat, r: Option<usize>, after: Seq<usize>)
    requires
        next_step(model_after(s, k), r, after),
    ensures
        r == call_result(s, k),
        after == model_after(s, k + 1),
        k >= s.len() ==> r is None && after.len() == 0,
{
    if k < s.len() {
        assert(model_after(s, k)[0] == s[k as int]);
        assert(model_after(s, k).drop_first() =~= model_after(s, k + 1));
    } else {
        assert(model_after(s, k).len() == 0);
        assert(model_after(s, k + 1) =~= model_after(s, k));
    }
}

/// An enumeration of the vertex indices of a boolean hypercube.
///
/// Its model is the sequence of indices that are still to be produced,
/// `remaining()`: each call of `next_index` hands out the first of them, and
/// `None` once none is left.
pub trait OrderStrategy: Sized {
    /// The indices that this strategy will still produce, in order.
    spec fn remaining(&self) -> Seq<usize>;

    /// The number of variables of the hypercube.
    spec fn spec_num_vars(&self) -> nat;

    /// A strategy positioned on the first vertex of the hypercube with
    /// `num_vars` variables.
    fn new(num_vars: usize) -> (s: Self)
        requires
            num_vars < usize::BITS,
        ensures
            s.spec_num_vars() == num_vars,
    ;

    /// Hands out the next index, or `None` when the enumeration is over.
    fn next_index(&mut self) -> (r: Option<usize>)
        ensures
            next_step(old(self).remaining(), r, final(self).remaining()),
            final(self).spec_num_vars() == old(self).spec_num_vars(),
    ;

    /// The number of variables of the hypercube.
    fn num_vars(&self) -> (r: usize)
        ensures
            r == self.spec_num_vars(),
    ;

    /// Every index that is still to come, in order.
    fn collect(self) -> (r: Vec<usize>)
        ensures
            r@ == self.remaining(),
    {
        let ghost all = self.remaining();
        let mut s = self;
        let mut out: Vec<usize> = Vec::new();
        loop
            invariant
                out@ + s.remaining() == all,
            ensures
                s.remaining().len() == 0,
            decreases s.remaining().len(),
        {
            match s.next_index() {
                Some(v) => {
                    out.push(v);
                },
                None => {
                    break ;
                },
            }
        }
        assert(out@ + s.remaining() == out@);
        out
    }
}

} // verus!
