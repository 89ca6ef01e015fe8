//! Conversion of operator feedback strings into packed codes.
//!
//! The interactive boundary reads one digit per letter position and packs
//! digit `i` into the `i`-th 2-bit field of a code, i.e. scales it by
//! `4^i`. Only the conversion lives here; reading the line is the outer
//! layer's business.

use vstd::prelude::*;
use crate::judges::Judge;
use crate::tree::TreeError;

verus! {

/// Four to the power `n`: the radix of one 2-bit feedback field.
pub open spec fn pow4(n: nat) -> int
    decreases n,
{
    if n == 0 {
        1
    } else {
        4 * pow4((n - 1) as nat)
    }
}

proof fn lemma_pow4_mono(i: nat, j: nat)
    requires
        i <= j,
    ensures
        1 <= pow4(i) <= pow4(j),
    decreases j,
{
    if j > 0 {
        if i == j {
            lemma_pow4_mono((i - 1) as nat, (j - 1) as nat);
        } else {
            lemma_pow4_mono(i, (j - 1) as nat);
        }
    }
}

/// An ASCII decimal digit.
pub open spec fn is_digit_byte(b: u8) -> bool {
    48 <= b <= 57
}

/// The packed code of a digit string: the byte at position `i`, less the
/// digit zero, scaled by `4^i`.
pub open spec fn packed_feedback(bytes: Seq<u8>) -> int
    decreases bytes.len(),
{
    if bytes.len() == 0 {
        0
    } else {
        (bytes[0] - 48) + 4 * packed_feedback(bytes.drop_first())
    }
}

/// Converts one line of operator feedback into a packed code: accepted
/// exactly when it holds one decimal digit per position; rejected as
/// `MalformedFeedbackInput` otherwise, before it ever reaches navigation.
pub fn parse_feedback(bytes: &Vec<u8>, positions: usize) -> (r: Result<Judge, TreeError>)
    requires
        positions <= 15,
    ensures
        r is Ok <==> bytes@.len() == positions
            && (forall|i: int| 0 <= i < bytes@.len() ==> is_digit_byte(#[trigger] bytes@[i])),
        r matches Ok(j) ==> j == packed_feedback(bytes@),
        r is Err ==> r == Err::<Judge, TreeError>(TreeError::MalformedFeedbackInput),
{
    if bytes.len() != positions {
        return Err(TreeError::MalformedFeedbackInput);
    }
    let mut judge: u32 = 0;
    let mut i: usize = positions;
    while i > 0
        invariant
            i <= positions <= 15,
            positions == bytes@.len(),
            judge as int == packed_feedback(bytes@.skip(i as int)),
            judge as int <= 3 * (pow4((positions - i) as nat) - 1),
            forall|m: int| i <= m < bytes@.len() ==> is_digit_byte(#[trigger] bytes@[m]),
        decreases i,
    {
        i = i - 1;
        let b = bytes[i];
        if !(b >= 48 && b <= 57) {
            return Err(TreeError::MalformedFeedbackInput);
        }
        proof {
            lemma_pow4_mono((positions - i - 1) as nat, 14);
            assert(pow4(14) == 268435456) by {
                reveal_with_fuel(pow4, 15);
            }
            assert(bytes@.skip(i as int)[0] == bytes@[i as int]);
            assert(bytes@.skip(i as int).drop_first() =~= bytes@.skip(i as int + 1));
        }
        judge = judge * 4 + (b - 48) as u32;
        proof {
            assert(pow4((positions - i) as nat) == 4 * pow4((positions - i - 1) as nat));
        }
    }
    proof {
        assert(bytes@.skip(0) =~= bytes@);
    }
    Ok(judge)
}

} // verus!
