//! Addition of numbers that are written as arrays of binary digits, the
//! highest digit first.

use crate::binary::pow2;
use vstd::prelude::*;

verus! {

/// A number of `N` binary digits, the highest digit first.
#[derive(Debug, Eq, PartialEq)]
pub struct BitArray<const N: usize>(pub [usize; N]);

/// Every element is a binary digit.
pub open spec fn digits(s: Seq<usize>) -> bool {
    forall|i: int| 0 <= i < s.len() ==> #[trigger] s[i] <= 1
}

/// The number that the digits write, the highest digit first.
pub open spec fn value(s: Seq<usize>) -> nat
    decreases s.len(),
{
    if s.len() == 0 {
        0
    } else {
        (s[0] * pow2((s.len() - 1) as nat) + value(s.drop_first())) as nat
    }
}

/// `n` digits that are all 0.
pub open spec fn zeros(n: int) -> Seq<usize> {
    Seq::new(n as nat, |i: int| 0usize)
}

/// The digits of a sum in an array of `m` places: the digits `low` of the
/// sum and the digit `carry` that the addition carries out of them. Without
/// a carry the digits stand at the front and zeros fill the array. With a
/// carry all move one place back, the last place is lost, and the carry
/// stands at the front.
pub open spec fn placed(low: Seq<usize>, carry: usize, m: int) -> Seq<usize> {
    let filled = low + zeros(m - low.len());
    if carry == 0 {
        filled
    } else {
        Seq::empty().push(carry) + filled.take(m - 1)
    }
}

impl<const N: usize> BitArray<N> {
    /// Adds two numbers of `N` digits into an array of `M` places, which
    /// are at least as many.
    pub fn add<const M: usize>(&self, rhs: Self) -> (sum: BitArray<M>)
        requires
            N <= M,
            digits(self.0@),
            digits(rhs.0@),
        ensures
            exists|low: Seq<usize>, carry: usize|
                ({
                    &&& low.len() == N
                    &&& digits(low)
                    &&& carry <= 1
                    &&& value(low) + carry * pow2(N as nat) == value(self.0@) + value(rhs.0@)
                    &&& #[trigger] placed(low, carry, M as int) == sum.0@
                }),
    {
        let mut result = [0usize;M];
        let mut carry: usize = 0;
        let mut index: usize = N;
        assert(self.0@.skip(N as int) =~= Seq::<usize>::empty());
        assert(rhs.0@.skip(N as int) =~= Seq::<usize>::empty());
        assert(result@.subrange(N as int, N as int) =~= Seq::<usize>::empty());
        while index > 0
            invariant
                N <= M,
                index <= N,
                digits(self.0@),
                digits(rhs.0@),
                carry <= 1,
                forall|i: int| 0 <= i < index || N <= i < M ==> result@[i] == 0,
                forall|i: int| index <= i < N ==> result@[i] <= 1,
                value(result@.subrange(index as int, N as int)) + carry * pow2((N - index) as nat)
                    == value(self.0@.skip(index as int)) + value(rhs.0@.skip(index as int)),
            decreases index,
        {
            let ghost before = result@;
            let ghost was = carry;
            index -= 1;
            let digit = self.0[index] + rhs.0[index] + carry;
            result[index] = digit % 2;
            carry = digit / 2;
            proof {
                let p = pow2((N - index - 1) as nat);
                assert(pow2((N - index) as nat) == 2 * p);
                assert(result@.subrange(index as int, N as int).drop_first() =~= before.subrange(
                    index + 1,
                    N as int,
                ));
                assert(self.0@.skip(index as int).drop_first() =~= self.0@.skip(index + 1));
                assert(rhs.0@.skip(index as int).drop_first() =~= rhs.0@.skip(index + 1));
                assert((digit % 2) * p + (digit / 2) * (2 * p) == digit * p) by (nonlinear_arith)
                    requires
                        digit == (digit / 2) * 2 + digit % 2,
                ;
                assert(self.0@[index as int] * p + rhs.0@[index as int] * p + was * p == digit * p)
                    by (nonlinear_arith)
                    requires
                        digit == self.0@[index as int] + rhs.0@[index as int] + was,
                ;
            }
        }
        let ghost low = result@.take(N as int);
        proof {
            assert(self.0@.skip(0) =~= self.0@);
            assert(rhs.0@.skip(0) =~= rhs.0@);
            assert(result@.subrange(0, N as int) =~= low);
            assert(result@ =~= low + zeros(M - N));
            assert(digits(low));
            if N == 0 {
                assert(value(low) == 0);
                assert(value(self.0@) == 0);
                assert(value(rhs.0@) == 0);
                assert(carry * pow2(0) == carry) by (nonlinear_arith)
                    requires
                        pow2(0) == 1,
                ;
            }
            if carry == 0 {
                assert(placed(low, carry, M as int) =~= result@);
            }
        }
        if carry != 0 {
            let ghost filled = result@;
            let mut k: usize = M;
            while k > 1
                invariant
                    1 <= k <= M || M == 0,
                    k <= M,
                    filled.len() == M,
                    result@.len() == M,
                    forall|i: int| 0 <= i < k ==> result@[i] == filled[i],
                    forall|i: int| k <= i < M ==> result@[i] == filled[i - 1],
                decreases k,
            {
                k -= 1;
                result[k] = result[k - 1];
            }
            if M > 0 {
                result[0] = carry;
            }
            proof {
                assert(M >= N >= 1);
                assert(filled == low + zeros(M - N));
                assert forall|i: int| 0 <= i < M implies result@[i] == placed(
                    low,
                    carry,
                    M as int,
                )[i] by {
                    if i >= 1 {
                        assert(filled.take(M - 1)[i - 1] == filled[i - 1]);
                    }
                }
                assert(result@ =~= placed(low, carry, M as int));
            }
        }
        BitArray(result)
    }
}

} // verus!
