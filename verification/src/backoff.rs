//! The delay between reconnection attempts: it starts at a base, doubles
//! with every failure in a row and never goes above a cap.

use vstd::prelude::*;

verus! {

/// Two to the power of `n`.
pub open spec fn pow2(n: nat) -> nat
    decreases n,
{
    if n == 0 {
        1
    } else {
        2 * pow2((n - 1) as nat)
    }
}

/// The delay before the attempt that follows `failures` failures in a row:
/// the base doubled once for each of them, but no more than the cap.
pub open spec fn delay_after(base: nat, cap: nat, failures: nat) -> nat {
    if base * pow2(failures) <= cap {
        base * pow2(failures)
    } else {
        cap
    }
}

/// The delay for one more failure is the double of the last one, held at the
/// cap.
pub proof fn lemma_delay_step(base: nat, cap: nat, failures: nat)
    ensures
        delay_after(base, cap, failures + 1) == if 2 * delay_after(base, cap, failures) <= cap {
            2 * delay_after(base, cap, failures)
        } else {
            cap
        },
{
    let p = pow2(failures);
    assert(pow2(failures + 1) == 2 * p);
    assert(base * (2 * p) == 2 * (base * p)) by (nonlinear_arith);
    if base * p > cap {
        assert(base * (2 * p) > cap);
    }
}

/// The delay never falls from one failure to the next, and never passes the
/// cap.
pub proof fn lemma_delay_monotonic(base: nat, cap: nat, earlier: nat, later: nat)
    requires
        earlier <= later,
    ensures
        delay_after(base, cap, earlier) <= delay_after(base, cap, later),
        delay_after(base, cap, later) <= cap,
    decreases later - earlier,
{
    if earlier < later {
        lemma_delay_monotonic(base, cap, earlier, (later - 1) as nat);
        lemma_delay_step(base, cap, (later - 1) as nat);
    }
}

/// Once the delay has reached the cap it stays there.
pub proof fn lemma_delay_stays_at_cap(base: nat, cap: nat, earlier: nat, later: nat)
    requires
        earlier <= later,
        delay_after(base, cap, earlier) == cap,
    ensures
        delay_after(base, cap, later) == cap,
{
    lemma_delay_monotonic(base, cap, earlier, later);
}

/// What the backoff is made with, and how many attempts have failed in a
/// row.
pub struct BackoffView {
    pub base: nat,
    pub cap: nat,
    pub max_attempts: Option<nat>,
    pub failures: nat,
}

impl BackoffView {
    /// The delay before the next attempt.
    pub open spec fn delay(self) -> nat {
        delay_after(self.base, self.cap, self.failures)
    }

    /// Whether another attempt may be made.
    pub open spec fn may_retry(self) -> bool {
        match self.max_attempts {
            Some(max) => self.failures < max,
            None => true,
        }
    }

    /// The backoff after one more failure.
    pub open spec fn failed(self) -> BackoffView {
        BackoffView { failures: self.failures + 1, ..self }
    }

    /// The backoff after one more failure, as a count that stops at the
    /// largest number that fits.
    pub open spec fn failed_bounded(self) -> BackoffView {
        if self.failures < u64::MAX {
            self.failed()
        } else {
            self
        }
    }

    /// The backoff after a success.
    pub open spec fn succeeded(self) -> BackoffView {
        BackoffView { failures: 0, ..self }
    }

    /// The backoff after each of `outcomes` in turn, `true` for a success.
    pub open spec fn after(self, outcomes: Seq<bool>) -> BackoffView
        decreases outcomes.len(),
    {
        if outcomes.len() == 0 {
            self
        } else if outcomes.last() {
            self.after(outcomes.drop_last()).succeeded()
        } else {
            self.after(outcomes.drop_last()).failed()
        }
    }
}

/// Whatever came before: one more failure never shortens the delay and
/// never takes it above the cap, and right after a success the delay is the
/// base delay again (the cap, if the base is above it).
pub proof fn lemma_backoff_law(start: BackoffView, outcomes: Seq<bool>)
    ensures
        start.after(outcomes).delay() <= start.after(outcomes.push(false)).delay(),
        start.after(outcomes.push(false)).delay() <= start.cap,
        start.after(outcomes.push(true)).delay() == delay_after(start.base, start.cap, 0),
        start.after(outcomes.push(true)).delay() == if start.base <= start.cap {
            start.base
        } else {
            start.cap
        },
        start.after(outcomes).base == start.base,
        start.after(outcomes).cap == start.cap,
    decreases outcomes.len(),
{
    let now = start.after(outcomes);
    if outcomes.len() > 0 {
        lemma_backoff_law(start, outcomes.drop_last());
        assert(outcomes.drop_last().push(outcomes.last()) =~= outcomes);
    }
    assert(now.base == start.base && now.cap == start.cap);
    assert(outcomes.push(false).drop_last() =~= outcomes);
    assert(outcomes.push(true).drop_last() =~= outcomes);
    lemma_delay_monotonic(start.base, start.cap, now.failures, now.failures + 1);
    assert(start.base * pow2(0) == start.base) by (nonlinear_arith)
        requires
            pow2(0) == 1,
    ;
}

/// The reconnection backoff of one client. Times are in milliseconds.
#[derive(Clone, Copy, Debug, PartialEq, Eq)]
pub struct Backoff {
    base: u64,
    cap: u64,
    max_attempts: Option<u64>,
    failures: u64,
    current: u64,
}

impl View for Backoff {
    type V = BackoffView;

    closed spec fn view(&self) -> BackoffView {
        BackoffView {
            base: self.base as nat,
            cap: self.cap as nat,
            max_attempts: match self.max_attempts {
                Some(max) => Some(max as nat),
                None => None,
            },
            failures: self.failures as nat,
        }
    }
}

impl Backoff {
    /// Whether the delay that is kept is the one that the failures so far
    /// call for.
    pub closed spec fn wf(&self) -> bool {
        self.current as nat == self@.delay()
    }

    /// A backoff with no failure yet. `max_attempts` is the number of
    /// attempts in a row that may fail before the client gives up; `None`
    /// sets no bound.
    pub fn new(base: u64, cap: u64, max_attempts: Option<u64>) -> (out: Backoff)
        ensures
            out.wf(),
            out@ == (BackoffView {
                base: base as nat,
                cap: cap as nat,
                max_attempts: match max_attempts {
                    Some(max) => Some(max as nat),
                    None => None,
                },
                failures: 0,
            }),
    {
        proof {
            assert((base as nat) * pow2(0) == base as nat) by (nonlinear_arith)
                requires
                    pow2(0) == 1,
            ;
        }
        Backoff { base, cap, max_attempts, failures: 0, current: if base <= cap {
            base
        } else {
            cap
        } }
    }

    /// The delay before the next attempt.
    pub fn delay(&self) -> (d: u64)
        requires
            self.wf(),
        ensures
            d as nat == self@.delay(),
    {
        self.current
    }

    /// The number of attempts that have failed in a row.
    pub fn failures(&self) -> (n: u64)
        ensures
            n as nat == self@.failures,
    {
        self.failures
    }

    /// Whether another attempt may be made.
    pub fn may_retry(&self) -> (ok: bool)
        ensures
            ok == self@.may_retry(),
    {
        match self.max_attempts {
            Some(max) => self.failures < max,
            None => true,
        }
    }

    /// Counts one more failed attempt. The count stops at the largest number
    /// that fits; by then the delay has long been at the cap or at zero.
    pub fn record_failure(&mut self)
        requires
            old(self).wf(),
        ensures
            final(self).wf(),
            final(self)@ == old(self)@.failed_bounded(),
    {
        if self.failures < u64::MAX {
            proof {
                lemma_delay_step(self.base as nat, self.cap as nat, self.failures as nat);
            }
            let doubled: u64 = if self.current <= self.cap / 2 {
                self.current * 2
            } else {
                self.cap
            };
            self.failures = self.failures + 1;
            self.current = doubled;
        }
    }

    /// Starts over after a success: the next delay is the base delay.
    pub fn record_success(&mut self)
        requires
            old(self).wf(),
        ensures
            final(self).wf(),
            final(self)@ == old(self)@.succeeded(),
    {
        proof {
            assert((self.base as nat) * pow2(0) == self.base as nat) by (nonlinear_arith)
                requires
                    pow2(0) == 1,
            ;
        }
        self.failures = 0;
        self.current = if self.base <= self.cap {
            self.base
        } else {
            self.cap
        };
    }
}

} // verus!
