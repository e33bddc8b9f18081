//! Addition of numbers that are written in binary digits.

use vstd::prelude::*;

verus! {

/// Every element is a binary digit.
pub open spec fn digits(s: Seq<u8>) -> bool {
    forall|i: int| 0 <= i < s.len() ==> #[trigger] s[i] <= 1
}

/// The number that the digits write, the lowest digit first.
pub open spec fn value(s: Seq<u8>) -> nat
    decreases s.len(),
{
    if s.len() == 0 {
        0
    } else {
        s[0] as nat + 2 * value(s.drop_first())
    }
}

/// The place value of the digit at position `n`.
pub open spec fn pow2(n: nat) -> nat
    decreases n,
{
    if n == 0 {
        1
    } else {
        2 * pow2((n - 1) as nat)
    }
}

/// A digit behind the last one adds its place value.
pub proof fn lemma_value_push(s: Seq<u8>, d: u8)
    ensures
        value(s.push(d)) == value(s) + d * pow2(s.len()),
    decreases s.len(),
{
    if s.len() == 0 {
        assert(s.push(d).drop_first() =~= Seq::<u8>::empty());
        assert(value(s.push(d).drop_first()) == 0);
        assert(s.push(d)[0] == d);
        assert(d * pow2(0) == d) by (nonlinear_arith)
            requires
                pow2(0) == 1,
        ;
    } else {
        lemma_value_push(s.drop_first(), d);
        assert(s.push(d).drop_first() =~= s.drop_first().push(d));
        assert(s.push(d)[0] == s[0]);
        assert(2 * (d * pow2((s.len() - 1) as nat)) == d * pow2(s.len())) by (nonlinear_arith)
            requires
                pow2(s.len()) == 2 * pow2((s.len() - 1) as nat),
        ;
    }
}

/// Adds two numbers of as many binary digits, the lowest digit first. The
/// sum has one digit more where the addition carries out of the last one.
pub fn add(a: &[u8], b: &[u8]) -> (c: Vec<u8>)
    requires
        a@.len() == b@.len(),
        digits(a@),
        digits(b@),
    ensures
        digits(c@),
        value(c@) == value(a@) + value(b@),
        c@.len() == a@.len() + (if value(a@) + value(b@) >= pow2(a@.len()) {
            1int
        } else {
            0int
        }),
{
    let mut c: Vec<u8> = Vec::new();
    let mut carry: u8 = 0;
    let mut k: usize = 0;
    assert(a@.take(0) =~= Seq::<u8>::empty());
    assert(b@.take(0) =~= Seq::<u8>::empty());
    while k < a.len()
        invariant
            a@.len() == b@.len(),
            digits(a@),
            digits(b@),
            k <= a@.len(),
            c@.len() == k,
            carry <= 1,
            digits(c@),
            value(c@) + carry * pow2(k as nat) == value(a@.take(k as int)) + value(
                b@.take(k as int),
            ),
            value(c@) < pow2(k as nat),
        decreases a@.len() - k,
    {
        let sum = carry + a[k] + b[k];
        proof {
            lemma_value_push(c@, sum % 2);
            lemma_value_push(a@.take(k as int), a@[k as int]);
            lemma_value_push(b@.take(k as int), b@[k as int]);
            assert(a@.take(k + 1) =~= a@.take(k as int).push(a@[k as int]));
            assert(b@.take(k + 1) =~= b@.take(k as int).push(b@[k as int]));
            let p = pow2(k as nat);
            assert(pow2((k + 1) as nat) == 2 * p);
            assert((sum % 2) * p + (sum / 2) * (2 * p) == sum * p) by (nonlinear_arith)
                requires
                    sum == (sum / 2) * 2 + sum % 2,
            ;
            assert(carry * p + a@[k as int] * p + b@[k as int] * p == sum * p) by (nonlinear_arith)
                requires
                    sum == carry + a@[k as int] + b@[k as int],
            ;
            assert((sum % 2) * p <= p) by (nonlinear_arith)
                requires
                    sum % 2 <= 1,
            ;
        }
        c.push(sum % 2);
        carry = sum / 2;
        k += 1;
    }
    assert(a@.take(k as int) =~= a@);
    assert(b@.take(k as int) =~= b@);
    proof {
        let p = pow2(k as nat);
        assert(carry * p == if carry == 1 { p } else { 0 }) by (nonlinear_arith)
            requires
                carry <= 1,
        ;
    }
    if carry > 0 {
        proof {
            lemma_value_push(c@, carry);
        }
        c.push(carry);
    }
    c
}

} // verus!
