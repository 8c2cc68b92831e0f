use vstd::prelude::*;

verus! {

/// A duty-cycle ticker: fires on its first call, then on every `period`-th call after it.
pub struct Ticker {
    /// Calls since the ticker last fired, less whole periods already paid out.
    ticks: usize,
    /// The ticker fires on every `period`-th call.
    period: usize,
    /// Whether the next call is the very first one.
    first: bool,
}

/// The abstract state of a ticker.
pub struct TickerState {
    pub ticks: nat,
    pub period: nat,
    pub first: bool,
}

/// Whether a call on a ticker in state `t` fires.
pub open spec fn fires(t: TickerState) -> bool {
    t.first || t.ticks + 1 >= t.period
}

/// The state of a ticker after one call on it in state `t`.
pub open spec fn after_tick(t: TickerState) -> TickerState {
    if t.first {
        TickerState { ticks: t.ticks, period: t.period, first: false }
    } else if t.period == 0 {
        TickerState { ticks: 0, period: t.period, first: false }
    } else {
        TickerState { ticks: (((t.ticks + 1) as int) % (t.period as int)) as nat, period: t.period, first: false }
    }
}

impl Ticker {
    pub closed spec fn view(&self) -> TickerState {
        TickerState { ticks: self.ticks as nat, period: self.period as nat, first: self.first }
    }

    /// The phase counter stays below the period (and at zero for a zero period).
    pub closed spec fn wf(&self) -> bool {
        if self.period == 0 { self.ticks == 0 } else { self.ticks < self.period }
    }

    pub fn new(period: usize) -> (r: Ticker)
        ensures
            r.wf(),
            r.view() == (TickerState { ticks: 0, period: period as nat, first: true }),
    {
        Ticker { ticks: 0, period, first: true }
    }

    /// Advances the ticker by one call and reports whether it fires on this call.
    pub fn tick(&mut self) -> (r: bool)
        requires
            old(self).wf(),
        ensures
            final(self).wf(),
            r == fires(old(self).view()),
            final(self).view() == after_tick(old(self).view()),
    {
        if self.first {
            self.first = false;
            return true;
        }
        if self.period == 0 {
            return true;
        }
        self.ticks = self.ticks + 1;
        if self.ticks >= self.period {
            self.ticks = self.ticks - self.period;
            proof {
                vstd::arithmetic::div_mod::lemma_mod_self_0(self.period as int);
            }
            true
        } else {
            proof {
                vstd::arithmetic::div_mod::lemma_small_mod(self.ticks as nat, self.period as nat);
            }
            false
        }
    }
}

/// The state of a ticker after `n` calls on it from state `t`.
pub open spec fn after_ticks(t: TickerState, n: nat) -> TickerState
    decreases n,
{
    if n == 0 {
        t
    } else {
        after_tick(after_ticks(t, (n - 1) as nat))
    }
}

/// A new ticker with a positive period fires on call `n` (counted from zero) exactly
/// when `n` is a multiple of the period.
pub proof fn lemma_fires_on_multiples(period: nat, n: nat)
    requires
        period > 0,
    ensures
        fires(after_ticks(TickerState { ticks: 0, period, first: true }, n)) == (n % period == 0),
        n > 0 ==> after_ticks(TickerState { ticks: 0, period, first: true }, n) == (TickerState {
            ticks: ((n - 1) as int % period as int) as nat,
            period,
            first: false,
        }),
    decreases n,
{
    if n == 0 {
        vstd::arithmetic::div_mod::lemma_small_mod(0, period);
    } else {
        let t0 = TickerState { ticks: 0, period, first: true };
        let prev = after_ticks(t0, (n - 1) as nat);
        assert(after_ticks(t0, n) == after_tick(prev));
        lemma_fires_on_multiples(period, (n - 1) as nat);
        lemma_mod_step(n - 1, period as int);
        let r = (n - 1) as int % period as int;
        if n >= 2 {
            lemma_mod_step(n - 2, period as int);
            assert(prev.ticks == (n - 2) as int % period as int);
            let q = (n - 2) as int % period as int;
            if q + 1 == period {
                vstd::arithmetic::div_mod::lemma_mod_self_0(period as int);
            } else {
                vstd::arithmetic::div_mod::lemma_small_mod((q + 1) as nat, period);
            }
            assert(after_tick(prev).ticks == r);
        } else {
            vstd::arithmetic::div_mod::lemma_small_mod(0, period);
            assert(r == 0);
            assert(after_tick(prev).ticks == 0);
        }
        assert(after_ticks(t0, n).ticks == r);
        assert(fires(after_ticks(t0, n)) == (r + 1 >= period));
        assert((n as int) % (period as int) == 0 <==> r + 1 == period);
    }
}

/// One step of counting modulo `p`: the remainder goes up by one or wraps to zero.
proof fn lemma_mod_step(x: int, p: int)
    requires
        x >= 0,
        p > 0,
    ensures
        0 <= x % p < p,
        (x + 1) % p == if x % p + 1 == p { 0 } else { x % p + 1 },
{
    vstd::arithmetic::div_mod::lemma_fundamental_div_mod(x, p);
    vstd::arithmetic::div_mod::lemma_mod_bound(x, p);
    let q = x / p;
    let r = x % p;
    if r + 1 == p {
        assert(x + 1 == (q + 1) * p + 0) by (nonlinear_arith)
            requires
                x == p * q + r,
                r + 1 == p,
        ;
        vstd::arithmetic::div_mod::lemma_fundamental_div_mod_converse(x + 1, p, q + 1, 0);
    } else {
        assert(x + 1 == q * p + (r + 1)) by (nonlinear_arith)
            requires
                x == p * q + r,
        ;
        vstd::arithmetic::div_mod::lemma_fundamental_div_mod_converse(x + 1, p, q, r + 1);
    }
}

} // verus!
