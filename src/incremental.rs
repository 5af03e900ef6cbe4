use vstd::prelude::*;
use vstd::arithmetic::power2::{pow2, lemma2_to64, lemma_pow2_pos, lemma_pow2_strictly_increases, lemma_pow2_unfold};
use crate::natural::Natural;
use crate::collatz::{iterate, reaches_one, stopping_time, lemma_iterate_split, lemma_one_step, lemma_odd_pair, lemma_halvings, lemma_stopping_time, lemma_stop_bound};
use crate::strategies::low_zero_bits;
use crate::driver::{odd_part, next_odd, lemma_odd_part};

verus! {

/// After this many seconds a still-running check reports that it is slow.
pub const TIMEOUT_SECS: u64 = 600;

/// An incremental check of one starting value: it follows the trajectory until it
/// is at 1 or below the start, so that the start is settled by a smaller value.
/// Starting values below 2^64 count as settled from the outset.
pub struct Incremental {
    pub start: Natural,
    pub current: Natural,
    /// Whether the trailing-zero shortcut is used after every odd step.
    pub optimal: bool,
    pub finished: bool,
    /// How many steps of the map `current` lies past `start`.
    pub steps: Ghost<nat>,
}

impl Incremental {
    pub open spec fn wf(&self) -> bool {
        &&& self.current@ == iterate(self.start@, self.steps@)
        &&& !self.finished ==> self.start@ >= pow2(64)
        &&& !self.finished ==> forall|t: nat| t < self.steps@ ==> iterate(self.start@, t) != 1
        &&& (self.optimal && !self.finished) ==> self.current@ % 2 == 1
        &&& (!self.optimal && !self.finished) ==> forall|t: nat| t < self.steps@ ==> iterate(self.start@, t) >= self.start@
        &&& self.finished ==> (self.start@ < pow2(64) || self.current@ == 1 || self.current@ < self.start@)
    }

    /// Begins the check of `n`, with the plain fused step or the optimal one.
    pub fn new(n: &Natural, optimal: bool) -> (r: Incremental)
        ensures
            r.wf(),
            r.start@ == n@,
            r.optimal == optimal,
            r.finished <==> n@ < pow2(64),
            n@ < pow2(64) ==> r.steps@ == 0,
            !r.finished && optimal ==> r.current@ == odd_part(n@),
            !r.finished && !optimal ==> r.current@ == n@,
    {
        let one = Natural::from_u64(1);
        let bound = one.shl(64);
        let start = n.duplicate();
        let mut current = n.duplicate();
        let ghost mut steps: nat = 0;
        proof {
            lemma2_to64();
        }
        if current.less_than(&bound) {
            return Incremental { start, current, optimal, finished: true, steps: Ghost(0) };
        }
        if optimal && current.is_even() {
            let a = low_zero_bits(&current);
            proof {
                let q = current@ / pow2(a as nat);
                lemma_pow2_pos(a as nat);
                lemma_halvings(q, a as nat);
                lemma_odd_part(q, a as nat);
                assert forall|t: nat| t < a implies iterate(n@, t) != 1 by {
                    assert(iterate(pow2(a as nat) * q, t) % 2 == 0);
                }
                steps = a as nat;
            }
            current = current.shr(a);
        } else if optimal {
            proof {
                lemma_odd_part(n@, 0);
            }
        }
        Incremental { start, current, optimal, finished: false, steps: Ghost(steps) }
    }

    pub fn is_finished(&self) -> (r: bool)
        ensures
            r == self.finished,
    {
        self.finished
    }

    /// One round of the check, `elapsed_secs` after it began. Returns whether the
    /// check has run longer than `TIMEOUT_SECS`, which only calls for a warning.
    /// The plain flavour first stops at 1 or below the start, else takes a step; the
    /// optimal one takes a fused odd step and a shift, then stops at 1 or below the start.
    pub fn poll(&mut self, elapsed_secs: u64) -> (warn: bool)
        requires
            old(self).wf(),
            !old(self).finished,
        ensures
            final(self).wf(),
            warn == (elapsed_secs > TIMEOUT_SECS),
            final(self).start == old(self).start,
            final(self).optimal == old(self).optimal,
            final(self).finished || final(self).steps@ > old(self).steps@,
            !old(self).optimal ==> (final(self).finished <==> (old(self).current@ == 1 || old(self).current@ < old(self).start@)),
            !old(self).optimal && !final(self).finished ==> final(self).current@ == iterate(
                old(self).current@,
                if old(self).current@ % 2 == 1 { 2nat } else { 1nat },
            ),
            old(self).optimal ==> final(self).current@ == next_odd(old(self).current@),
            old(self).optimal ==> (final(self).finished <==> (final(self).current@ == 1 || final(self).current@ < old(self).start@)),
    {
        let warn = elapsed_secs > TIMEOUT_SECS;
        let one = Natural::from_u64(1);
        let ghost n = self.start@;
        let ghost steps = self.steps@;
        let i = self.current.duplicate();
        proof {
            lemma2_to64();
        }
        if !self.optimal {
            if i.equals(&one) || i.less_than(&self.start) {
                self.finished = true;
                return warn;
            }
            if i.is_odd() {
                proof {
                    lemma_odd_pair(i@);
                    lemma_iterate_split(n, steps, 2);
                    lemma_iterate_split(n, steps, 1);
                    assert forall|t: nat| t < steps + 2 implies iterate(n, t) != 1 && iterate(n, t) >= n by {
                        if t == steps + 1 {
                            assert(iterate(n, t) == 3 * i@ + 1);
                        }
                    }
                }
                self.current = i.shl(1).sum(&i).sum(&one).shr(1);
                self.steps = Ghost(steps + 2);
            } else {
                proof {
                    lemma_iterate_split(n, steps, 1);
                    lemma_one_step(i@);
                }
                self.current = i.shr(1);
                self.steps = Ghost(steps + 1);
            }
            return warn;
        }
        proof {
            lemma_odd_pair(i@);
            lemma_iterate_split(n, steps, 2);
            lemma_iterate_split(n, steps, 1);
        }
        let j = i.shl(1).sum(&i).sum(&one).shr(1);
        let a = low_zero_bits(&j);
        let ghost q = j@ / pow2(a as nat);
        proof {
            lemma_pow2_pos(a as nat);
            lemma_halvings(q, a as nat);
            lemma_iterate_split(n, steps + 2, a as nat);
            assert(j@ == pow2(a as nat) * q);
            lemma_pow2_unfold(a as nat + 1);
            assert(3 * i@ + 1 == pow2(a as nat + 1) * q) by (nonlinear_arith)
                requires
                    j@ == (3 * i@ + 1) / 2,
                    (3 * i@ + 1) % 2 == 0,
                    j@ == pow2(a as nat) * q,
                    pow2(a as nat + 1) == 2 * pow2(a as nat),
            ;
            lemma_odd_part(q, a as nat + 1);
            if i@ == 1 {
                assert(j@ == 2);
                if a >= 2 {
                    lemma_pow2_strictly_increases(1, a as nat);
                    assert(pow2(a as nat) * q >= pow2(a as nat)) by (nonlinear_arith)
                        requires
                            q >= 1,
                    ;
                }
                assert(a == 1);
                assert(q == 1);
            }
        }
        let k = j.shr(a);
        self.finished = k.equals(&one) || k.less_than(&self.start);
        proof {
            if !self.finished {
                assert forall|t: nat| t < steps + 2 + a implies iterate(n, t) != 1 by {
                    if t == steps + 1 {
                        assert(iterate(n, t) == 3 * i@ + 1);
                    } else if t >= steps + 2 {
                        lemma_iterate_split(n, steps + 2, (t - (steps + 2)) as nat);
                        assert(iterate(pow2(a as nat) * q, (t - (steps + 2)) as nat) % 2 == 0);
                    }
                }
            }
        }
        self.current = k;
        self.steps = Ghost(steps + 2 + a as nat);
        warn
    }
}

/// A check of a value whose trajectory reaches 1 finishes: while it runs it has
/// not gone past the stopping time, and each round moves it forward or ends it.
pub proof fn lemma_incremental_progress(run: Incremental)
    requires
        run.wf(),
        !run.finished,
        reaches_one(run.start@),
    ensures
        run.steps@ <= stopping_time(run.start@),
{
    lemma_stopping_time(run.start@);
    lemma_stop_bound(run.start@, stopping_time(run.start@), run.steps@);
}

} // verus!
