use vstd::prelude::*;
use vstd::arithmetic::div_mod::lemma_fundamental_div_mod_converse;
use crate::game::priority_of;

verus! {

/// Side `i` (0..9) of the bootstrap set: first a missing box, then each fill
/// state `(a, b, c)` of a box's three other edges in binary counting order.
pub open spec fn sample_input(i: int) -> Seq<int> {
    if i == 0 {
        seq![-1int, -1int, -1int]
    } else {
        let j = i - 1;
        seq![j / 4, (j / 2) % 2, j % 2]
    }
}

/// The rule-based priority of side `i`; a missing box counts nothing.
pub open spec fn sample_target(i: int) -> int {
    if i == 0 {
        0
    } else {
        let j = i - 1;
        priority_of(j / 4 + (j / 2) % 2 + j % 2)
    }
}

/// The values of `v` as integers.
pub open spec fn ints(v: Seq<i8>) -> Seq<int> {
    v.map_values(|x: i8| x as int)
}

/// The nine sides of the bootstrap set with their priorities.
pub fn sample_cell() -> (r: Vec<(Vec<i8>, u32)>)
    ensures
        r@.len() == 9,
        forall|i: int|
            0 <= i < 9 ==> ints((#[trigger] r@[i]).0@) == sample_input(i) && r@[i].1 == sample_target(i),
{
    let mut r: Vec<(Vec<i8>, u32)> = Vec::new();
    let missing: Vec<i8> = vec![-1, -1, -1];
    assert(ints(missing@) =~= sample_input(0));
    r.push((missing, 0));
    let mut j: u32 = 0;
    while j < 8
        invariant
            j <= 8,
            r@.len() == j + 1,
            forall|i: int|
                0 <= i <= j ==> ints((#[trigger] r@[i]).0@) == sample_input(i) && r@[i].1
                    == sample_target(i),
        decreases 8 - j,
    {
        let a = j / 4;
        let b = (j / 2) % 2;
        let c = j % 2;
        let count = a + b + c;
        let weight: u32 = if count == 0 {
            2
        } else if count == 1 {
            1
        } else if count == 2 {
            0
        } else {
            3
        };
        let input: Vec<i8> = vec![a as i8, b as i8, c as i8];
        assert(ints(input@) =~= sample_input(j + 1));
        r.push((input, weight));
        j = j + 1;
    }
    r
}

/// The bootstrap training set: every pair of sides, left side `i / 9` and
/// right side `i % 9`, as six inputs and the sum of the two priorities
/// (the trained output is that sum over six).
pub fn training_examples() -> (r: Vec<(Vec<i8>, u32)>)
    ensures
        r@.len() == 81,
        forall|i: int|
            0 <= i < 81 ==> ints((#[trigger] r@[i]).0@) == sample_input(i / 9) + sample_input(i % 9)
                && r@[i].1 == sample_target(i / 9) + sample_target(i % 9),
{
    let sides = sample_cell();
    let mut r: Vec<(Vec<i8>, u32)> = Vec::new();
    let mut left: usize = 0;
    while left < 9
        invariant
            sides@.len() == 9,
            forall|i: int|
                0 <= i < 9 ==> ints((#[trigger] sides@[i]).0@) == sample_input(i) && sides@[i].1
                    == sample_target(i),
            left <= 9,
            r@.len() == 9 * left,
            forall|i: int|
                0 <= i < 9 * left ==> ints((#[trigger] r@[i]).0@) == sample_input(i / 9)
                    + sample_input(i % 9) && r@[i].1 == sample_target(i / 9) + sample_target(i % 9),
        decreases 9 - left,
    {
        let mut right: usize = 0;
        while right < 9
            invariant
                sides@.len() == 9,
                forall|i: int|
                    0 <= i < 9 ==> ints((#[trigger] sides@[i]).0@) == sample_input(i) && sides@[i].1
                        == sample_target(i),
                left < 9,
                right <= 9,
                r@.len() == 9 * left + right,
                forall|i: int|
                    0 <= i < 9 * left + right ==> ints((#[trigger] r@[i]).0@) == sample_input(i / 9)
                        + sample_input(i % 9) && r@[i].1 == sample_target(i / 9) + sample_target(
                        i % 9,
                    ),
            decreases 9 - right,
        {
            let l = &sides[left];
            let rr = &sides[right];
            let mut input: Vec<i8> = Vec::new();
            let mut k: usize = 0;
            while k < 3
                invariant
                    k <= 3,
                    l.0@.len() == 3,
                    input@.len() == k,
                    input@ == l.0@.take(k as int),
                decreases 3 - k,
            {
                input.push(l.0[k]);
                k = k + 1;
                assert(input@ =~= l.0@.take(k as int));
            }
            let mut k: usize = 0;
            while k < 3
                invariant
                    k <= 3,
                    l.0@.len() == 3,
                    rr.0@.len() == 3,
                    input@ == l.0@ + rr.0@.take(k as int),
                decreases 3 - k,
            {
                input.push(rr.0[k]);
                k = k + 1;
                assert(input@ =~= l.0@ + rr.0@.take(k as int));
            }
            let ghost i = 9 * left + right;
            proof {
                lemma_fundamental_div_mod_converse(i, 9, left as int, right as int);
                assert(ints(l.0@) == sample_input(left as int));
                assert(rr.0@.take(3) =~= rr.0@);
                assert(l.0@.take(3) =~= l.0@);
                assert(ints(l.0@ + rr.0@) =~= ints(l.0@) + ints(rr.0@));
            }
            r.push((input, l.1 + rr.1));
            right = right + 1;
        }
        left = left + 1;
    }
    r
}

} // verus!
