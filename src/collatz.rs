use vstd::prelude::*;
use vstd::arithmetic::power2::{pow2, lemma2_to64, lemma_pow2_unfold, lemma_pow2_pos};

verus! {

/// One step of the Collatz map: halve an even number, send an odd `n` to `3n + 1`.
pub open spec fn collatz(n: nat) -> nat {
    if n % 2 == 0 {
        n / 2
    } else {
        3 * n + 1
    }
}

/// The value reached from `n` after `k` steps of the map.
pub open spec fn iterate(n: nat, k: nat) -> nat
    decreases k,
{
    if k == 0 {
        n
    } else {
        iterate(collatz(n), (k - 1) as nat)
    }
}

/// How many of the first `k` steps from `n` start at an odd value (steps `n -> 3n + 1`).
pub open spec fn odd_steps(n: nat, k: nat) -> nat
    decreases k,
{
    if k == 0 {
        0
    } else {
        (if n % 2 == 1 { 1nat } else { 0nat }) + odd_steps(collatz(n), (k - 1) as nat)
    }
}

/// How many of the first `k` steps from `n` start at an even value (steps `n -> n / 2`).
pub open spec fn even_steps(n: nat, k: nat) -> nat
    decreases k,
{
    if k == 0 {
        0
    } else {
        (if n % 2 == 0 { 1nat } else { 0nat }) + even_steps(collatz(n), (k - 1) as nat)
    }
}

/// The trajectory of `n` reaches 1.
pub open spec fn reaches_one(n: nat) -> bool {
    exists|k: nat| iterate(n, k) == 1
}

/// `k` is the first step at which the trajectory of `n` is at 1.
pub open spec fn stops_at(n: nat, k: nat) -> bool {
    &&& iterate(n, k) == 1
    &&& forall|j: nat| j < k ==> iterate(n, j) != 1
}

/// The number of steps the trajectory of `n` takes to first reach 1.
pub open spec fn stopping_time(n: nat) -> nat
    recommends
        reaches_one(n),
{
    choose|k: nat| stops_at(n, k)
}

/// Walking `a` steps and then `b` steps is walking `a + b` steps, and the step
/// counts add up.
pub proof fn lemma_iterate_split(n: nat, a: nat, b: nat)
    ensures
        iterate(n, a + b) == iterate(iterate(n, a), b),
        odd_steps(n, a + b) == odd_steps(n, a) + odd_steps(iterate(n, a), b),
        even_steps(n, a + b) == even_steps(n, a) + even_steps(iterate(n, a), b),
    decreases a,
{
    if a > 0 {
        lemma_iterate_split(collatz(n), (a - 1) as nat, b);
        assert((a + b - 1) as nat == (a - 1) as nat + b);
    }
}

/// A single step of the map.
pub proof fn lemma_one_step(n: nat)
    ensures
        iterate(n, 1) == collatz(n),
        odd_steps(n, 1) == (if n % 2 == 1 { 1nat } else { 0nat }),
        even_steps(n, 1) == (if n % 2 == 0 { 1nat } else { 0nat }),
{
    assert(iterate(collatz(n), 0) == collatz(n));
    assert(odd_steps(collatz(n), 0) == 0);
    assert(even_steps(collatz(n), 0) == 0);
}

/// Every step is either odd or even.
pub proof fn lemma_steps_total(n: nat, k: nat)
    ensures
        odd_steps(n, k) + even_steps(n, k) == k,
    decreases k,
{
    if k > 0 {
        lemma_steps_total(collatz(n), (k - 1) as nat);
    }
}

/// A trajectory that reaches 1 has a first step at which it is at 1.
pub proof fn lemma_stopping_time(n: nat)
    requires
        reaches_one(n),
    ensures
        stops_at(n, stopping_time(n)),
{
    let k = choose|k: nat| iterate(n, k) == 1;
    lemma_first_one(n, k);
}

proof fn lemma_first_one(n: nat, k: nat)
    requires
        iterate(n, k) == 1,
    ensures
        exists|m: nat| stops_at(n, m),
    decreases k,
{
    if exists|j: nat| j < k && iterate(n, j) == 1 {
        let j = choose|j: nat| j < k && iterate(n, j) == 1;
        lemma_first_one(n, j);
    } else {
        assert(stops_at(n, k));
    }
}

/// The first step at 1 is unique, and no step before it is at 1.
pub proof fn lemma_stop_bound(n: nat, total: nat, j: nat)
    requires
        stops_at(n, total),
        forall|t: nat| t < j ==> iterate(n, t) != 1,
    ensures
        j <= total,
        stops_at(n, j) ==> j == total,
{
}

/// Before its stopping time a trajectory never repeats a value.
pub proof fn lemma_no_repeat(n: nat, total: nat, s: nat, t: nat)
    requires
        stops_at(n, total),
        s < t <= total,
    ensures
        iterate(n, s) != iterate(n, t),
{
    if iterate(n, s) == iterate(n, t) {
        let rest = (total - t) as nat;
        lemma_iterate_split(n, t, rest);
        lemma_iterate_split(n, s, rest);
        assert(t + rest == total);
        assert(iterate(n, s + rest) == 1);
    }
}

/// Zero is a fixed point, so no trajectory that reaches 1 passes through it.
pub proof fn lemma_zero_stays(k: nat)
    ensures
        iterate(0, k) == 0,
    decreases k,
{
    if k > 0 {
        lemma_zero_stays((k - 1) as nat);
    }
}

/// No value on a trajectory that reaches 1, up to its stopping time, is zero.
pub proof fn lemma_positive(n: nat, total: nat, j: nat)
    requires
        stops_at(n, total),
        j <= total,
    ensures
        iterate(n, j) > 0,
{
    if iterate(n, j) == 0 {
        lemma_iterate_split(n, j, (total - j) as nat);
        lemma_zero_stays((total - j) as nat);
        assert(j + (total - j) as nat == total);
    }
}

/// An odd step followed by the halving of `3n + 1`: two steps reaching `(3n + 1) / 2`.
pub proof fn lemma_odd_pair(n: nat)
    requires
        n % 2 == 1,
    ensures
        iterate(n, 1) == 3 * n + 1,
        iterate(n, 2) == (3 * n + 1) / 2,
        odd_steps(n, 2) == 1,
        even_steps(n, 2) == 1,
{
    let m = 3 * n + 1;
    assert(collatz(n) == m);
    assert(m % 2 == 0);
    let h = collatz(m);
    assert(iterate(h, 0) == h);
    assert(iterate(m, 1) == iterate(h, 0));
    assert(iterate(m, 0) == m);
    assert(odd_steps(h, 0) == 0 && even_steps(h, 0) == 0);
    assert(odd_steps(m, 1) == odd_steps(h, 0));
    assert(even_steps(m, 1) == 1 + even_steps(h, 0));
    assert(odd_steps(m, 0) == 0 && even_steps(m, 0) == 0);
}

/// A run of `a` halvings from `2^a * q` reaches `q`; every value before is even
/// and at least `2q`.
pub proof fn lemma_halvings(q: nat, a: nat)
    ensures
        iterate(pow2(a) * q, a) == q,
        odd_steps(pow2(a) * q, a) == 0,
        even_steps(pow2(a) * q, a) == a,
        forall|t: nat| t < a ==> iterate(pow2(a) * q, t) >= 2 * q && #[trigger] iterate(pow2(a) * q, t) % 2 == 0,
    decreases a,
{
    if a == 0 {
        lemma2_to64();
    } else {
        let p = pow2((a - 1) as nat);
        lemma_pow2_unfold(a);
        lemma_pow2_pos((a - 1) as nat);
        let x = pow2(a) * q;
        assert(x == 2 * (p * q)) by (nonlinear_arith)
            requires
                x == pow2(a) * q,
                pow2(a) == 2 * p,
        ;
        assert(p * q >= q) by (nonlinear_arith)
            requires
                p > 0,
        ;
        assert(collatz(x) == p * q);
        lemma_halvings(q, (a - 1) as nat);
        assert forall|t: nat| t < a implies iterate(x, t) >= 2 * q && #[trigger] iterate(x, t) % 2 == 0 by {
            if t > 0 {
                assert(iterate(x, t) == iterate(p * q, (t - 1) as nat));
            }
        }
    }
}

} // verus!
