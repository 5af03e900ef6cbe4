use vstd::prelude::*;
use vstd::arithmetic::power2::{pow2, lemma2_to64, lemma_pow2_pos, lemma_pow2_unfold};
use std::time::Instant;
use vstd::string::StringSliceAdditionalSpecFns;
use crate::natural::Natural;
use crate::collatz::{iterate, odd_steps, even_steps, reaches_one, stops_at, stopping_time, lemma_stopping_time, lemma_stop_bound, lemma_no_repeat, lemma_positive, lemma_iterate_split};
use crate::strategies::{
    op_counts, low_zero_bits, lemma_fused_odd, lemma_fused_halvings, basic, basic_with_count,
    bitwise, bitwise_with_count, reduced_bitwise, reduced_bitwise_with_count,
    reduced_syracuse_bitwise_while, reduced_syracuse_bitwise_while_with_count, optimum_syracuse,
    optimum_syracuse_with_count,
};
use crate::timing::Elapsed;

verus! {

/// The odd part of `x`: `x` with all factors two removed (0 stays 0).
pub open spec fn odd_part(x: nat) -> nat
    decreases x,
{
    if x == 0 {
        0
    } else if x % 2 == 0 {
        odd_part(x / 2)
    } else {
        x
    }
}

/// The next odd value of a trajectory after the odd value `o`.
pub open spec fn next_odd(o: nat) -> nat {
    odd_part(3 * o + 1)
}

/// Starting from the odd value `o` with running minimum `low`, how many of the next
/// `k` odd values fall strictly below the running minimum (each one that does becomes
/// the new minimum).
pub open spec fn new_minima(o: nat, k: nat, low: nat) -> nat
    decreases k,
{
    if k == 0 {
        0
    } else if next_odd(o) < low {
        1 + new_minima(next_odd(o), (k - 1) as nat, next_odd(o))
    } else {
        new_minima(next_odd(o), (k - 1) as nat, low)
    }
}

/// Removing the factor `2^a` from `2^a * q`, for odd `q`, leaves `q`.
pub proof fn lemma_odd_part(q: nat, a: nat)
    requires
        q % 2 == 1,
    ensures
        odd_part(pow2(a) * q) == q,
    decreases a,
{
    if a == 0 {
        lemma2_to64();
    } else {
        let p = pow2((a - 1) as nat);
        lemma_pow2_unfold(a);
        lemma_pow2_pos((a - 1) as nat);
        let x = pow2(a) * q;
        assert(x == 2 * (p * q)) by (nonlinear_arith)
            requires
                x == pow2(a) * q,
                pow2(a) == 2 * p,
        ;
        assert(p * q > 0) by (nonlinear_arith)
            requires
                p > 0,
                q > 0,
        ;
        lemma_odd_part(q, (a - 1) as nat);
    }
}

/// Why a trajectory run was abandoned.
#[derive(Clone, Copy, Debug, PartialEq, Eq, Structural)]
pub enum SyracuseError {
    /// The running value came back to a minimum already recorded: a cycle other
    /// than the one through 1.
    CycleDetected,
}

/// The optimum strategy with its operation counts, its running time, and the number
/// of times a value checked after a fused odd step fell below every earlier minimum.
/// A value equal to the current minimum is a cycle and ends the run with an error;
/// no trajectory that reaches 1 ever gives one.
pub fn optimum_syracuse_with_min_count(n: &Natural) -> (r: Result<(u64, u64, Elapsed, u64), SyracuseError>)
    requires
        reaches_one(n@),
        stopping_time(n@) <= u64::MAX,
    ensures
        r is Ok,
        r matches Ok(t) ==> {
            &&& (t.0 as nat, t.1 as nat) == op_counts(n@)
            &&& t.2.wf()
            &&& t.3 == new_minima(odd_part(n@), op_counts(n@).0, n@)
        },
{
    let one = Natural::from_u64(1);
    let mut i = n.duplicate();
    let mut count_divide: u64 = 0;
    let mut count_multiply: u64 = 0;
    let mut min = n.duplicate();
    let mut min_counter: u64 = 0;
    let now = Instant::now();
    let ghost total = stopping_time(n@);
    let ghost mut done: nat = 0;
    let ghost mut min_at: nat = 0;
    let ghost odd_total = op_counts(n@).0;
    proof {
        lemma_stopping_time(n@);
        lemma2_to64();
        lemma_positive(n@, total, 0);
        if n@ % 2 == 1 {
            lemma_odd_part(n@, 0);
        }
    }
    if i.is_even() {
        let a = low_zero_bits(&i);
        proof {
            lemma_pow2_pos(a as nat);
            lemma_fused_halvings(n@, total, 0, i@ / pow2(a as nat), a as nat);
            lemma_odd_part(i@ / pow2(a as nat), a as nat);
        }
        i = i.shr(a);
        count_divide = a;
        proof {
            done = a as nat;
        }
    }
    while !i.equals(&one)
        invariant
            stops_at(n@, total),
            total <= u64::MAX,
            one@ == 1,
            pow2(1) == 2,
            i@ == iterate(n@, done),
            i@ % 2 == 1,
            forall|t: nat| t < done ==> iterate(n@, t) != 1,
            count_multiply == odd_steps(n@, done),
            count_divide == even_steps(n@, done),
            min@ == iterate(n@, min_at),
            min_at <= done,
            count_multiply <= odd_total,
            min_counter <= count_multiply,
            odd_total == odd_steps(n@, total),
            min_counter + new_minima(i@, (odd_total - count_multiply) as nat, min@)
                == new_minima(odd_part(n@), odd_total, n@),
        decreases total - done,
    {
        let ghost prev = i@;
        let ghost rem = (odd_total - count_multiply) as nat;
        proof {
            lemma_fused_odd(n@, total, done, i@);
            lemma_iterate_split(n@, done + 2, (total - (done + 2)) as nat);
        }
        i = i.shl(1).sum(&i).sum(&one).shr(1);
        count_divide += 1;
        count_multiply += 1;
        proof {
            done = done + 2;
        }
        let a = low_zero_bits(&i);
        proof {
            lemma_pow2_pos(a as nat);
            lemma_fused_halvings(n@, total, done, i@ / pow2(a as nat), a as nat);
            let q = i@ / pow2(a as nat);
            lemma_pow2_unfold(a as nat + 1);
            assert(3 * prev + 1 == pow2(a as nat + 1) * q) by (nonlinear_arith)
                requires
                    i@ == (3 * prev + 1) / 2,
                    (3 * prev + 1) % 2 == 0,
                    i@ == pow2(a as nat) * q,
                    pow2(a as nat + 1) == 2 * pow2(a as nat),
            ;
            lemma_odd_part(q, a as nat + 1);
            assert(rem > 0);
        }
        i = i.shr(a);
        count_divide += a;
        proof {
            done = done + a as nat;
        }
        if i.less_than(&min) {
            min = i.duplicate();
            min_counter += 1;
            proof {
                min_at = done;
            }
        } else if i.equals(&min) {
            proof {
                lemma_no_repeat(n@, total, min_at, done);
            }
            return Err(SyracuseError::CycleDetected);
        }
    }
    proof {
        lemma_stop_bound(n@, total, done);
    }
    Ok((count_multiply, count_divide, Elapsed::since(&now), min_counter))
}

/// The step strategies.
#[derive(Clone, Copy, Debug, PartialEq, Eq, Structural)]
pub enum Method {
    Optimum,
    While,
    Reduced,
    Bitwise,
    Basic,
}

/// The strategy that a name selects: "optimum", "while", "reduced", "bitwise";
/// any other name selects the basic strategy.
pub open spec fn method_named(name: Seq<u8>) -> Method {
    if name == "optimum".spec_bytes() {
        Method::Optimum
    } else if name == "while".spec_bytes() {
        Method::While
    } else if name == "reduced".spec_bytes() {
        Method::Reduced
    } else if name == "bitwise".spec_bytes() {
        Method::Bitwise
    } else {
        Method::Basic
    }
}

fn same_bytes(a: &[u8], b: &[u8]) -> (r: bool)
    ensures
        r == (a@ == b@),
{
    if a.len() != b.len() {
        return false;
    }
    let mut k: usize = 0;
    while k < a.len()
        invariant
            a@.len() == b@.len(),
            k <= a@.len(),
            a@.subrange(0, k as int) == b@.subrange(0, k as int),
        decreases a@.len() - k,
    {
        if a[k] != b[k] {
            assert(a@.subrange(0, k as int + 1)[k as int] != b@.subrange(0, k as int + 1)[k as int]);
            return false;
        }
        assert(a@.subrange(0, k as int + 1) == a@.subrange(0, k as int).push(a@[k as int]));
        assert(b@.subrange(0, k as int + 1) == b@.subrange(0, k as int).push(b@[k as int]));
        k = k + 1;
    }
    assert(a@ == a@.subrange(0, k as int));
    assert(b@ == b@.subrange(0, k as int));
    true
}

impl Method {
    /// The strategy that `name` selects.
    pub fn from_name(name: &str) -> (r: Method)
        ensures
            r == method_named(name.spec_bytes()),
    {
        let b = name.as_bytes();
        if same_bytes(b, "optimum".as_bytes()) {
            Method::Optimum
        } else if same_bytes(b, "while".as_bytes()) {
            Method::While
        } else if same_bytes(b, "reduced".as_bytes()) {
            Method::Reduced
        } else if same_bytes(b, "bitwise".as_bytes()) {
            Method::Bitwise
        } else {
            Method::Basic
        }
    }
}

/// Runs the trajectory of `n` down to 1 with the strategy that `method` names,
/// with or without counting, and times it. Counted, every strategy gives the
/// operation counts of the trajectory; uncounted, both counts are zero.
pub fn syracuse(n: &Natural, count: bool, method: &str) -> (r: (u64, u64, Elapsed))
    requires
        reaches_one(n@),
        count ==> stopping_time(n@) <= u64::MAX,
    ensures
        count ==> (r.0 as nat, r.1 as nat) == op_counts(n@),
        !count ==> r.0 == 0 && r.1 == 0,
        r.2.wf(),
{
    let now = Instant::now();
    let (count_mult, count_div) = match Method::from_name(method) {
        Method::Optimum => if count {
            optimum_syracuse_with_count(n)
        } else {
            optimum_syracuse(n)
        },
        Method::While => if count {
            reduced_syracuse_bitwise_while_with_count(n)
        } else {
            reduced_syracuse_bitwise_while(n)
        },
        Method::Reduced => if count {
            reduced_bitwise_with_count(n)
        } else {
            reduced_bitwise(n)
        },
        Method::Bitwise => if count {
            bitwise_with_count(n)
        } else {
            bitwise(n)
        },
        Method::Basic => if count {
            basic_with_count(n)
        } else {
            basic(n)
        },
    };
    (count_mult, count_div, Elapsed::since(&now))
}

} // verus!
