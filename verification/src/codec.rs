//! Feedback masks as base-3 numbers, used to index histogram buckets.

use vstd::prelude::*;
use crate::feedback::{Correctness, Mask, WORDLE_SIZE};

verus! {

/// Number of distinct masks of five verdicts: 3 to the power 5.
pub const MASK_COUNT: usize = 243;

/// 3 to the power `n`.
pub open spec fn pow3(n: nat) -> nat
    decreases n,
{
    if n == 0 {
        1
    } else {
        3 * pow3((n - 1) as nat)
    }
}

/// The mask read as a base-3 number whose least significant digit is the
/// verdict on position 0: the sum of `mask[i].digit() * 3^i`.
pub open spec fn radix(mask: Seq<Correctness>) -> nat
    decreases mask.len(),
{
    if mask.len() == 0 {
        0
    } else {
        mask[0].digit() + 3 * radix(mask.drop_first())
    }
}

/// The verdict that a base-3 digit stands for.
pub open spec fn verdict_of(d: nat) -> Correctness {
    if d == 0 {
        Correctness::Wrong
    } else if d == 1 {
        Correctness::Misplaced
    } else {
        Correctness::Correct
    }
}

/// The mask of `len` verdicts that are the `len` lowest base-3 digits of
/// `code`, lowest first.
pub open spec fn unradix(code: nat, len: nat) -> Seq<Correctness>
    decreases len,
{
    if len == 0 {
        Seq::empty()
    } else {
        seq![verdict_of(code % 3)] + unradix(code / 3, (len - 1) as nat)
    }
}

/// Every mask encodes to a number below 3 to the power of its length.
pub proof fn lemma_radix_bound(mask: Seq<Correctness>)
    ensures
        radix(mask) < pow3(mask.len()),
    decreases mask.len(),
{
    if mask.len() > 0 {
        lemma_radix_bound(mask.drop_first());
    }
}

/// Decoding what a mask encodes to gives the mask back.
pub proof fn lemma_radix_round_trip(mask: Seq<Correctness>)
    ensures
        unradix(radix(mask), mask.len()) == mask,
    decreases mask.len(),
{
    if mask.len() > 0 {
        let rest = mask.drop_first();
        lemma_radix_round_trip(rest);
        let d = mask[0].digit();
        let code = radix(mask);
        assert(code == d + 3 * radix(rest));
        assert(code % 3 == d && code / 3 == radix(rest));
        assert(verdict_of(d) == mask[0]);
        assert(unradix(code, mask.len()) =~= mask);
    } else {
        assert(unradix(radix(mask), mask.len()) =~= mask);
    }
}

/// Encoding what a number below `3^len` decodes to gives the number back, so
/// the encoding maps the masks of a length one to one onto the numbers below
/// `3^len`.
pub proof fn lemma_unradix_round_trip(code: nat, len: nat)
    requires
        code < pow3(len),
    ensures
        unradix(code, len).len() == len,
        radix(unradix(code, len)) == code,
    decreases len,
{
    if len > 0 {
        let rest = unradix(code / 3, (len - 1) as nat);
        lemma_unradix_round_trip(code / 3, (len - 1) as nat);
        let mask = unradix(code, len);
        assert(mask.drop_first() =~= rest);
        assert(mask[0] == verdict_of(code % 3));
        assert(mask[0].digit() == code % 3);
    }
}

/// Different masks of one length encode to different numbers.
pub proof fn lemma_radix_injective(a: Seq<Correctness>, b: Seq<Correctness>)
    requires
        a.len() == b.len(),
        radix(a) == radix(b),
    ensures
        a == b,
{
    lemma_radix_round_trip(a);
    lemma_radix_round_trip(b);
}

impl Correctness {
    /// The verdict as a number: 0, 1 or 2.
    pub fn to_digit(self) -> (d: usize)
        ensures
            d == self.digit(),
    {
        match self {
            Correctness::Wrong => 0,
            Correctness::Misplaced => 1,
            Correctness::Correct => 2,
        }
    }

    /// The bucket index of a mask.
    pub fn mask_radix(mask: &Mask) -> (code: usize)
        ensures
            code == radix(mask@),
            code < MASK_COUNT,
    {
        let mut code: usize = 0;
        let mut i: usize = WORDLE_SIZE;
        assert(mask@.skip(5) =~= Seq::empty());
        while i > 0
            invariant
                i <= 5,
                code == radix(mask@.skip(i as int)),
                code < pow3((5 - i) as nat),
                pow3((5 - i) as nat) <= 243,
            decreases i,
        {
            i -= 1;
            proof {
                let tail = mask@.skip(i as int);
                assert(tail.drop_first() =~= mask@.skip(i as int + 1));
                assert(tail[0] == mask@[i as int]);
                reveal_with_fuel(pow3, 6);
            }
            code = code * 3 + mask[i].to_digit();
        }
        assert(mask@.skip(0) =~= mask@);
        assert(pow3(5) == 243) by {
            reveal_with_fuel(pow3, 6);
        }
        code
    }

    /// The mask that a bucket index stands for; `None` when `code` is no
    /// bucket index.
    pub fn mask_from_radix(code: usize) -> (r: Option<Mask>)
        ensures
            code < MASK_COUNT <==> r is Some,
            r matches Some(mask) ==> mask@ == unradix(code as nat, 5),
    {
        if code >= MASK_COUNT {
            return None;
        }
        let mut mask: Mask = [Correctness::Wrong; 5];
        let mut rest: usize = code;
        let mut i: usize = 0;
        while i < WORDLE_SIZE
            invariant
                i <= 5,
                unradix(code as nat, 5) == mask@.take(i as int) + unradix(
                    rest as nat,
                    (5 - i) as nat,
                ),
            decreases 5 - i,
        {
            let d: usize = rest % 3;
            let ghost before = mask@;
            mask[i] = if d == 0 {
                Correctness::Wrong
            } else if d == 1 {
                Correctness::Misplaced
            } else {
                Correctness::Correct
            };
            proof {
                assert(mask@.take(i as int) =~= before.take(i as int));
                assert(mask@.take(i as int + 1) =~= before.take(i as int) + seq![
                    verdict_of(rest as nat % 3),
                ]);
                assert(mask@.take(i as int + 1) + unradix(rest as nat / 3, (5 - i - 1) as nat)
                    =~= before.take(i as int) + unradix(rest as nat, (5 - i) as nat));
            }
            rest = rest / 3;
            i += 1;
        }
        assert(mask@.take(5) + unradix(rest as nat, 0) =~= mask@);
        Some(mask)
    }
}

} // verus!
