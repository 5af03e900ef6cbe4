use vstd::prelude::*;
use vstd::arithmetic::power2::{pow2, lemma2_to64, lemma_pow2_pos};
use vstd::arithmetic::div_mod::lemma_fundamental_div_mod;
use crate::natural::Natural;
use crate::collatz::{collatz, iterate, odd_steps, even_steps, reaches_one, stops_at, stopping_time, lemma_iterate_split, lemma_one_step, lemma_steps_total, lemma_stopping_time, lemma_stop_bound, lemma_odd_pair, lemma_halvings, lemma_positive};

verus! {

/// The operation counts of the trajectory of `n` down to 1: how many odd steps
/// (`n -> 3n + 1`) and how many even steps (`n -> n / 2`) it takes.
pub open spec fn op_counts(n: nat) -> (nat, nat) {
    (odd_steps(n, stopping_time(n)), even_steps(n, stopping_time(n)))
}

/// The two operation counts of a trajectory that reaches 1 add up to its stopping
/// time, the number of single steps after which it is at 1.
pub proof fn lemma_op_counts_total(n: nat)
    requires
        reaches_one(n),
    ensures
        op_counts(n).0 + op_counts(n).1 == stopping_time(n),
        iterate(n, stopping_time(n)) == 1,
{
    lemma_stopping_time(n);
    lemma_steps_total(n, stopping_time(n));
}

/// The bitwise forms of the map take the same steps as the arithmetic ones:
/// `x >> 1` halves an even `x`, `(x << 1) + x + 1` is `3x + 1` for an odd `x`, and
/// shifting that right once lands where two single steps land.
pub proof fn lemma_bitwise_steps(x: nat)
    ensures
        x % 2 == 0 ==> x / pow2(1) == collatz(x) && collatz(x) == iterate(x, 1),
        x % 2 == 1 ==> x * pow2(1) + x + 1 == collatz(x) && collatz(x) == iterate(x, 1),
        x % 2 == 1 ==> (x * pow2(1) + x + 1) / pow2(1) == iterate(x, 2),
{
    lemma2_to64();
    lemma_one_step(x);
    if x % 2 == 1 {
        lemma_odd_pair(x);
    }
}

/// The operation counts depend on the starting value alone: running a strategy again
/// on an equal value gives the same counts.
pub proof fn lemma_op_counts_deterministic(a: &Natural, b: &Natural)
    requires
        a@ == b@,
    ensures
        op_counts(a@) == op_counts(b@),
{
}

/// The trajectory of 1 is already at 1: it takes no step and counts nothing.
pub proof fn lemma_one_is_terminal()
    ensures
        reaches_one(1),
        stopping_time(1) == 0,
        op_counts(1) == (0nat, 0nat),
{
    assert(iterate(1, 0) == 1);
    assert(stops_at(1, 0));
    lemma_stopping_time(1);
    lemma_stop_bound(1, stopping_time(1), 0);
}

/// Basic strategy: divide by two or multiply by three and add one, until 1.
pub fn basic(n: &Natural) -> (r: (u64, u64))
    requires
        reaches_one(n@),
    ensures
        r == (0u64, 0u64),
{
    let one = Natural::from_u64(1);
    let two = Natural::from_u64(2);
    let three = Natural::from_u64(3);
    let mut i = n.duplicate();
    let ghost total = stopping_time(n@);
    let ghost mut done: nat = 0;
    proof {
        lemma_stopping_time(n@);
    }
    while !i.equals(&one)
        invariant
            stops_at(n@, total),
            one@ == 1 && two@ == 2 && three@ == 3,
            i@ == iterate(n@, done),
            forall|t: nat| t < done ==> iterate(n@, t) != 1,
        decreases total - done,
    {
        proof {
            lemma_stop_bound(n@, total, done);
            lemma_iterate_split(n@, done, 1);
            lemma_one_step(i@);
        }
        if i.is_even() {
            i = i.quotient(&two);
        } else {
            i = i.product(&three).sum(&one);
        }
        proof {
            done = done + 1;
        }
    }
    (0, 0)
}

/// Basic strategy, counting the multiplications (odd steps) and divisions (even steps).
pub fn basic_with_count(n: &Natural) -> (r: (u64, u64))
    requires
        reaches_one(n@),
        stopping_time(n@) <= u64::MAX,
    ensures
        (r.0 as nat, r.1 as nat) == op_counts(n@),
{
    let one = Natural::from_u64(1);
    let two = Natural::from_u64(2);
    let three = Natural::from_u64(3);
    let mut i = n.duplicate();
    let mut count_divide: u64 = 0;
    let mut count_multiply: u64 = 0;
    let ghost total = stopping_time(n@);
    let ghost mut done: nat = 0;
    proof {
        lemma_stopping_time(n@);
    }
    while !i.equals(&one)
        invariant
            stops_at(n@, total),
            total <= u64::MAX,
            one@ == 1 && two@ == 2 && three@ == 3,
            i@ == iterate(n@, done),
            forall|t: nat| t < done ==> iterate(n@, t) != 1,
            count_multiply == odd_steps(n@, done),
            count_divide == even_steps(n@, done),
        decreases total - done,
    {
        proof {
            lemma_stop_bound(n@, total, done);
            lemma_iterate_split(n@, done, 1);
            lemma_one_step(i@);
            lemma_steps_total(n@, done + 1);
        }
        if i.is_even() {
            count_divide += 1;
            i = i.quotient(&two);
        } else {
            count_multiply += 1;
            i = i.product(&three).sum(&one);
        }
        proof {
            done = done + 1;
        }
    }
    proof {
        lemma_stop_bound(n@, total, done);
    }
    (count_multiply, count_divide)
}

/// Bitwise strategy: halve by a right shift, and compute `3i + 1` as `(i << 1) + i + 1`.
pub fn bitwise(n: &Natural) -> (r: (u64, u64))
    requires
        reaches_one(n@),
    ensures
        r == (0u64, 0u64),
{
    let one = Natural::from_u64(1);
    let mut i = n.duplicate();
    let ghost total = stopping_time(n@);
    let ghost mut done: nat = 0;
    proof {
        lemma_stopping_time(n@);
        lemma2_to64();
    }
    while !i.equals(&one)
        invariant
            stops_at(n@, total),
            one@ == 1,
            pow2(1) == 2,
            i@ == iterate(n@, done),
            forall|t: nat| t < done ==> iterate(n@, t) != 1,
        decreases total - done,
    {
        proof {
            lemma_stop_bound(n@, total, done);
            lemma_iterate_split(n@, done, 1);
            lemma_one_step(i@);
        }
        if i.is_even() {
            i = i.shr(1);
        } else {
            i = i.shl(1).sum(&i).sum(&one);
        }
        proof {
            done = done + 1;
        }
    }
    (0, 0)
}

/// Bitwise strategy, counting the multiplications (odd steps) and divisions (even steps).
pub fn bitwise_with_count(n: &Natural) -> (r: (u64, u64))
    requires
        reaches_one(n@),
        stopping_time(n@) <= u64::MAX,
    ensures
        (r.0 as nat, r.1 as nat) == op_counts(n@),
{
    let one = Natural::from_u64(1);
    let mut i = n.duplicate();
    let mut count_divide: u64 = 0;
    let mut count_multiply: u64 = 0;
    let ghost total = stopping_time(n@);
    let ghost mut done: nat = 0;
    proof {
        lemma_stopping_time(n@);
        lemma2_to64();
    }
    while !i.equals(&one)
        invariant
            stops_at(n@, total),
            total <= u64::MAX,
            one@ == 1,
            pow2(1) == 2,
            i@ == iterate(n@, done),
            forall|t: nat| t < done ==> iterate(n@, t) != 1,
            count_multiply == odd_steps(n@, done),
            count_divide == even_steps(n@, done),
        decreases total - done,
    {
        proof {
            lemma_stop_bound(n@, total, done);
            lemma_iterate_split(n@, done, 1);
            lemma_one_step(i@);
            lemma_steps_total(n@, done + 1);
        }
        if i.is_even() {
            count_divide += 1;
            i = i.shr(1);
        } else {
            count_multiply += 1;
            i = i.shl(1).sum(&i).sum(&one);
        }
        proof {
            done = done + 1;
        }
    }
    proof {
        lemma_stop_bound(n@, total, done);
    }
    (count_multiply, count_divide)
}


/// Number of low-order zero bits of a positive number: it is `2^a` times an odd number.
pub(crate) fn low_zero_bits(x: &Natural) -> (a: u64)
    requires
        x@ > 0,
    ensures
        x@ == pow2(a as nat) * (x@ / pow2(a as nat)),
        (x@ / pow2(a as nat)) % 2 == 1,
{
    match x.trailing_zeros() {
        Some(a) => {
            proof {
                lemma_pow2_pos(a as nat);
                lemma_fundamental_div_mod(x@ as int, pow2(a as nat) as int);
            }
            a
        },
        None => 0,
    }
}

/// The fused odd step `(3i + 1) / 2` at step `done` of a trajectory that stops at
/// `total` covers two steps, neither of them at 1.
pub(crate) proof fn lemma_fused_odd(n: nat, total: nat, done: nat, i: nat)
    requires
        stops_at(n, total),
        i == iterate(n, done),
        i % 2 == 1,
        i != 1,
        forall|t: nat| t < done ==> iterate(n, t) != 1,
    ensures
        done + 2 <= total,
        iterate(n, done + 2) == (3 * i + 1) / 2,
        (3 * i + 1) / 2 >= 2,
        odd_steps(n, done + 2) == odd_steps(n, done) + 1,
        even_steps(n, done + 2) == even_steps(n, done) + 1,
        odd_steps(n, done + 2) + even_steps(n, done + 2) == done + 2,
        forall|t: nat| t < done + 2 ==> iterate(n, t) != 1,
{
    lemma_odd_pair(i);
    lemma_iterate_split(n, done, 2);
    lemma_iterate_split(n, done, 1);
    lemma_steps_total(n, done + 2);
    assert forall|t: nat| t < done + 2 implies iterate(n, t) != 1 by {
        if t == done + 1 {
            assert(iterate(n, t) == 3 * i + 1);
        }
    }
    lemma_stop_bound(n, total, done + 2);
}

/// A run of `a` halvings at step `done`, from `2^a * q` down to `q >= 1`: none of
/// the values before `q` is 1, and each is at least `2q`.
pub(crate) proof fn lemma_fused_halvings(n: nat, total: nat, done: nat, q: nat, a: nat)
    requires
        stops_at(n, total),
        iterate(n, done) == pow2(a) * q,
        q >= 1,
        forall|t: nat| t < done ==> iterate(n, t) != 1,
    ensures
        done + a <= total,
        iterate(n, done + a) == q,
        odd_steps(n, done + a) == odd_steps(n, done),
        even_steps(n, done + a) == even_steps(n, done) + a,
        odd_steps(n, done + a) + even_steps(n, done + a) == done + a,
        forall|t: nat| t < done + a ==> iterate(n, t) != 1,
        forall|t: nat| done <= t < done + a ==> iterate(n, t) >= 2 * q,
{
    lemma_halvings(q, a);
    lemma_iterate_split(n, done, a);
    lemma_steps_total(n, done + a);
    assert forall|t: nat| done <= t < done + a implies iterate(n, t) >= 2 * q by {
        lemma_iterate_split(n, done, (t - done) as nat);
        assert(iterate(pow2(a) * q, (t - done) as nat) % 2 == 0);
    }
    lemma_stop_bound(n, total, done + a);
}

/// Reduced bitwise strategy: an odd step and the halving that must follow it are
/// fused into `((i << 1) + i + 1) >> 1`.
pub fn reduced_bitwise(n: &Natural) -> (r: (u64, u64))
    requires
        reaches_one(n@),
    ensures
        r == (0u64, 0u64),
{
    let one = Natural::from_u64(1);
    let mut i = n.duplicate();
    let ghost total = stopping_time(n@);
    let ghost mut done: nat = 0;
    proof {
        lemma_stopping_time(n@);
        lemma2_to64();
    }
    while !i.equals(&one)
        invariant
            stops_at(n@, total),
            one@ == 1,
            pow2(1) == 2,
            i@ == iterate(n@, done),
            forall|t: nat| t < done ==> iterate(n@, t) != 1,
        decreases total - done,
    {
        proof {
            lemma_stop_bound(n@, total, done);
        }
        if i.is_odd() {
            proof {
                lemma_fused_odd(n@, total, done, i@);
            }
            i = i.shl(1).sum(&i).sum(&one).shr(1);
            proof {
                done = done + 2;
            }
        } else {
            proof {
                lemma_iterate_split(n@, done, 1);
                lemma_one_step(i@);
            }
            i = i.shr(1);
            proof {
                done = done + 1;
            }
        }
    }
    (0, 0)
}

/// Reduced bitwise strategy, counting one multiplication and one division for each
/// fused odd step and one division for each halving.
pub fn reduced_bitwise_with_count(n: &Natural) -> (r: (u64, u64))
    requires
        reaches_one(n@),
        stopping_time(n@) <= u64::MAX,
    ensures
        (r.0 as nat, r.1 as nat) == op_counts(n@),
{
    let one = Natural::from_u64(1);
    let mut i = n.duplicate();
    let mut count_divide: u64 = 0;
    let mut count_multiply: u64 = 0;
    let ghost total = stopping_time(n@);
    let ghost mut done: nat = 0;
    proof {
        lemma_stopping_time(n@);
        lemma2_to64();
    }
    while !i.equals(&one)
        invariant
            stops_at(n@, total),
            total <= u64::MAX,
            one@ == 1,
            pow2(1) == 2,
            i@ == iterate(n@, done),
            forall|t: nat| t < done ==> iterate(n@, t) != 1,
            count_multiply == odd_steps(n@, done),
            count_divide == even_steps(n@, done),
        decreases total - done,
    {
        proof {
            lemma_stop_bound(n@, total, done);
        }
        if i.is_odd() {
            proof {
                lemma_fused_odd(n@, total, done, i@);
            }
            count_multiply += 1;
            count_divide += 1;
            i = i.shl(1).sum(&i).sum(&one).shr(1);
            proof {
                done = done + 2;
            }
        } else {
            proof {
                lemma_iterate_split(n@, done, 1);
                lemma_one_step(i@);
                lemma_steps_total(n@, done + 1);
            }
            count_divide += 1;
            i = i.shr(1);
            proof {
                done = done + 1;
            }
        }
    }
    proof {
        lemma_stop_bound(n@, total, done);
    }
    (count_multiply, count_divide)
}

/// Reduced bitwise strategy in which each round drains a run of fused odd steps
/// and then a run of halvings before checking for 1; counts as the reduced strategy.
pub fn reduced_syracuse_bitwise_while_with_count(n: &Natural) -> (r: (u64, u64))
    requires
        reaches_one(n@),
        stopping_time(n@) <= u64::MAX,
    ensures
        (r.0 as nat, r.1 as nat) == op_counts(n@),
{
    let one = Natural::from_u64(1);
    let mut i = n.duplicate();
    let mut count_divide: u64 = 0;
    let mut count_multiply: u64 = 0;
    let ghost total = stopping_time(n@);
    let ghost mut done: nat = 0;
    proof {
        lemma_stopping_time(n@);
        lemma2_to64();
    }
    while !i.equals(&one)
        invariant
            stops_at(n@, total),
            total <= u64::MAX,
            one@ == 1,
            pow2(1) == 2,
            i@ == iterate(n@, done),
            forall|t: nat| t < done ==> iterate(n@, t) != 1,
            count_multiply == odd_steps(n@, done),
            count_divide == even_steps(n@, done),
        decreases total - done,
    {
        let ghost start = done;
        while i.is_odd()
            invariant
                stops_at(n@, total),
                total <= u64::MAX,
                one@ == 1,
                pow2(1) == 2,
                i@ == iterate(n@, done),
                forall|t: nat| t < done ==> iterate(n@, t) != 1,
                count_multiply == odd_steps(n@, done),
                count_divide == even_steps(n@, done),
                i@ != 1,
                start <= done,
            decreases total - done,
        {
            proof {
                lemma_fused_odd(n@, total, done, i@);
            }
            i = i.shl(1).sum(&i).sum(&one).shr(1);
            count_multiply += 1;
            count_divide += 1;
            proof {
                done = done + 2;
            }
        }
        while i.is_even()
            invariant
                stops_at(n@, total),
                total <= u64::MAX,
                one@ == 1,
                pow2(1) == 2,
                i@ == iterate(n@, done),
                forall|t: nat| t < done ==> iterate(n@, t) != 1,
                count_multiply == odd_steps(n@, done),
                count_divide == even_steps(n@, done),
                start <= done,
                start < done || i@ % 2 == 0,
            decreases total - done,
        {
            proof {
                lemma_stop_bound(n@, total, done);
                lemma_iterate_split(n@, done, 1);
                lemma_one_step(i@);
                lemma_steps_total(n@, done + 1);
            }
            count_divide += 1;
            i = i.shr(1);
            proof {
                done = done + 1;
            }
        }
    }
    proof {
        lemma_stop_bound(n@, total, done);
    }
    (count_multiply, count_divide)
}

/// The uncounted form of `reduced_syracuse_bitwise_while_with_count`.
pub fn reduced_syracuse_bitwise_while(n: &Natural) -> (r: (u64, u64))
    requires
        reaches_one(n@),
    ensures
        r == (0u64, 0u64),
{
    let one = Natural::from_u64(1);
    let mut i = n.duplicate();
    let ghost total = stopping_time(n@);
    let ghost mut done: nat = 0;
    proof {
        lemma_stopping_time(n@);
        lemma2_to64();
    }
    while !i.equals(&one)
        invariant
            stops_at(n@, total),
            one@ == 1,
            pow2(1) == 2,
            i@ == iterate(n@, done),
            forall|t: nat| t < done ==> iterate(n@, t) != 1,
        decreases total - done,
    {
        let ghost start = done;
        while i.is_odd()
            invariant
                stops_at(n@, total),
                one@ == 1,
                pow2(1) == 2,
                i@ == iterate(n@, done),
                forall|t: nat| t < done ==> iterate(n@, t) != 1,
                i@ != 1,
                start <= done,
            decreases total - done,
        {
            proof {
                lemma_fused_odd(n@, total, done, i@);
            }
            i = i.shl(1).sum(&i).sum(&one).shr(1);
            proof {
                done = done + 2;
            }
        }
        while i.is_even()
            invariant
                stops_at(n@, total),
                one@ == 1,
                pow2(1) == 2,
                i@ == iterate(n@, done),
                forall|t: nat| t < done ==> iterate(n@, t) != 1,
                start <= done,
                start < done || i@ % 2 == 0,
            decreases total - done,
        {
            proof {
                lemma_stop_bound(n@, total, done);
                lemma_iterate_split(n@, done, 1);
                lemma_one_step(i@);
            }
            i = i.shr(1);
            proof {
                done = done + 1;
            }
        }
    }
    (0, 0)
}

/// Optimum strategy: strip all low zero bits at once, then repeat a fused odd step
/// followed by one shift by the new number of low zero bits.
pub fn optimum_syracuse(n: &Natural) -> (r: (u64, u64))
    requires
        reaches_one(n@),
    ensures
        r == (0u64, 0u64),
{
    let one = Natural::from_u64(1);
    let mut i = n.duplicate();
    let ghost total = stopping_time(n@);
    let ghost mut done: nat = 0;
    proof {
        lemma_stopping_time(n@);
        lemma2_to64();
        lemma_positive(n@, total, 0);
    }
    if i.is_even() {
        let a = low_zero_bits(&i);
        proof {
            let q = i@ / pow2(a as nat);
            lemma_pow2_pos(a as nat);
            lemma_fused_halvings(n@, total, 0, q, a as nat);
        }
        i = i.shr(a);
        proof {
            done = a as nat;
        }
    }
    while !i.equals(&one)
        invariant
            stops_at(n@, total),
            one@ == 1,
            pow2(1) == 2,
            i@ == iterate(n@, done),
            forall|t: nat| t < done ==> iterate(n@, t) != 1,
            i@ % 2 == 1,
        decreases total - done,
    {
        proof {
            lemma_fused_odd(n@, total, done, i@);
        }
        i = i.shl(1).sum(&i).sum(&one).shr(1);
        proof {
            done = done + 2;
        }
        let a = low_zero_bits(&i);
        proof {
            lemma_pow2_pos(a as nat);
            lemma_fused_halvings(n@, total, done, i@ / pow2(a as nat), a as nat);
        }
        i = i.shr(a);
        proof {
            done = done + a as nat;
        }
    }
    (0, 0)
}

/// Optimum strategy, counting one multiplication and one division per fused odd
/// step, and one division per low zero bit shifted out.
pub fn optimum_syracuse_with_count(n: &Natural) -> (r: (u64, u64))
    requires
        reaches_one(n@),
        stopping_time(n@) <= u64::MAX,
    ensures
        (r.0 as nat, r.1 as nat) == op_counts(n@),
{
    let one = Natural::from_u64(1);
    let mut i = n.duplicate();
    let mut count_divide: u64 = 0;
    let mut count_multiply: u64 = 0;
    let ghost total = stopping_time(n@);
    let ghost mut done: nat = 0;
    proof {
        lemma_stopping_time(n@);
        lemma2_to64();
        lemma_positive(n@, total, 0);
    }
    if i.is_even() {
        let a = low_zero_bits(&i);
        proof {
            let q = i@ / pow2(a as nat);
            lemma_pow2_pos(a as nat);
            lemma_fused_halvings(n@, total, 0, q, a as nat);
        }
        i = i.shr(a);
        count_divide = a;
        proof {
            done = a as nat;
        }
    }
    while !i.equals(&one)
        invariant
            stops_at(n@, total),
            total <= u64::MAX,
            one@ == 1,
            pow2(1) == 2,
            i@ == iterate(n@, done),
            forall|t: nat| t < done ==> iterate(n@, t) != 1,
            count_multiply == odd_steps(n@, done),
            count_divide == even_steps(n@, done),
            i@ % 2 == 1,
        decreases total - done,
    {
        proof {
            lemma_fused_odd(n@, total, done, i@);
        }
        i = i.shl(1).sum(&i).sum(&one).shr(1);
        count_divide += 1;
        count_multiply += 1;
        proof {
            done = done + 2;
        }
        let a = low_zero_bits(&i);
        proof {
            lemma_pow2_pos(a as nat);
            lemma_fused_halvings(n@, total, done, i@ / pow2(a as nat), a as nat);
        }
        i = i.shr(a);
        count_divide += a;
        proof {
            done = done + a as nat;
        }
    }
    proof {
        lemma_stop_bound(n@, total, done);
    }
    (count_multiply, count_divide)
}

} // verus!
