//! Wall-clock budget for one layout flush.
//!
//! The outermost [`arm`] owns the deadline and a nested one does nothing, so that one
//! flush has one budget however often layout is re-entered. Whoever runs a pass polls
//! the deadline before each box that it lays out or transforms and before each page that
//! it cuts, on a stride: most polls only count down, and the clock is read once per
//! [`STRIDE`]. The steps of this
//! library that a pass is made of do not poll: each comes to its end on its own.
//!
//! Times are nanoseconds: a limit as a duration, the others as points on one clock.

use vstd::prelude::*;

use crate::chars;

verus! {

/// How many polls pass between two reads of the clock. The countdown starts at zero,
/// so that the first poll under a fresh budget always reads it.
pub const STRIDE: u32 = 512;

/// The limit that disables the budget: the longest duration there is.
pub const UNLIMITED: u128 = 18_446_744_073_709_551_615_999_999_999;

/// Why a layout flush ended without a layout.
#[derive(Debug, Clone, PartialEq, Eq)]
pub enum LayoutAborted {
    /// The flush outran its budget of `limit` nanoseconds.
    Deadline { limit: u128 },
    /// A panic raised by the layout pass itself.
    EnginePanic(String),
}

/// The digits of the fraction `f`, where `unit` is the weight of its first digit,
/// without trailing zeros.
pub open spec fn fraction_digits(f: nat, unit: nat) -> Seq<char>
    decreases unit,
{
    if f == 0 || unit == 0 {
        Seq::empty()
    } else {
        seq![chars::digit_char((f / unit) as int)] + fraction_digits(f % unit, unit / 10)
    }
}

/// A number with its integer part and its fraction, the point only before a fraction.
pub open spec fn decimal_text(integer: nat, f: nat, unit: nat) -> Seq<char> {
    chars::decimal_digits(integer) + if f > 0 {
        seq!['.'] + fraction_digits(f, unit)
    } else {
        Seq::empty()
    }
}

/// A duration in the largest of the units s, ms, µs and ns that it has one of.
pub open spec fn duration_text(ns: nat) -> Seq<char> {
    if ns >= 1_000_000_000 {
        decimal_text(ns / 1_000_000_000, ns % 1_000_000_000, 100_000_000) + "s"@
    } else if ns >= 1_000_000 {
        decimal_text(ns / 1_000_000, ns % 1_000_000, 100_000) + "ms"@
    } else if ns >= 1_000 {
        decimal_text(ns / 1_000, ns % 1_000, 100) + "µs"@
    } else {
        decimal_text(ns, 0, 1) + "ns"@
    }
}

/// A power of ten.
pub open spec fn is_power_of_ten(unit: nat) -> bool
    decreases unit,
{
    unit == 1 || (unit > 1 && unit % 10 == 0 && is_power_of_ten(unit / 10))
}

fn push_fraction(out: &mut String, f: u32, unit: u32)
    requires
        unit > 0 ==> f < 10 * unit && is_power_of_ten(unit as nat),
    ensures
        final(out)@ == old(out)@ + fraction_digits(f as nat, unit as nat),
    decreases unit,
{
    if f > 0 && unit > 0 {
        assert(f / unit < 10) by (nonlinear_arith)
            requires
                f < 10 * unit,
                unit > 0,
        ;
        out.push(chars::digit((f / unit) as u8));
        push_fraction(out, f % unit, unit / 10);
        assert(out@ =~= old(out)@ + fraction_digits(f as nat, unit as nat));
    }
}

/// Appends a number with its integer part and its fraction.
pub fn push_decimal(out: &mut String, integer: u128, f: u32, unit: u32)
    requires
        f < 10 * unit,
        is_power_of_ten(unit as nat),
    ensures
        final(out)@ == old(out)@ + decimal_text(integer as nat, f as nat, unit as nat),
{
    chars::push_digits(out, integer);
    if f > 0 {
        out.push('.');
        push_fraction(out, f, unit);
    }
    assert(out@ =~= old(out)@ + decimal_text(integer as nat, f as nat, unit as nat));
}

impl LayoutAborted {
    /// The sentence that reports why the flush ended.
    pub open spec fn text(self) -> Seq<char> {
        match self {
            LayoutAborted::Deadline { limit } => "layout exceeded its "@ + duration_text(
                limit as nat,
            ) + " budget"@,
            LayoutAborted::EnginePanic(message) => "layout failed: "@ + message@,
        }
    }

    /// The sentence that reports why the flush ended.
    pub fn message(&self) -> (r: String)
        ensures
            r@ == self.text(),
    {
        let mut out: String = String::new();
        match self {
            LayoutAborted::Deadline { limit } => {
                let ns: u128 = *limit;
                out.append("layout exceeded its ");
                let ghost head = out@;
                proof {
                    reveal_with_fuel(is_power_of_ten, 10);
                }
                if ns >= 1_000_000_000 {
                    push_decimal(
                        &mut out,
                        ns / 1_000_000_000,
                        (ns % 1_000_000_000) as u32,
                        100_000_000,
                    );
                    out.append("s");
                } else if ns >= 1_000_000 {
                    push_decimal(&mut out, ns / 1_000_000, (ns % 1_000_000) as u32, 100_000);
                    out.append("ms");
                } else if ns >= 1_000 {
                    push_decimal(&mut out, ns / 1_000, (ns % 1_000) as u32, 100);
                    out.append("µs");
                } else {
                    push_decimal(&mut out, ns, 0, 1);
                    out.append("ns");
                }
                assert(out@ =~= head + duration_text(ns as nat));
                out.append(" budget");
            },
            LayoutAborted::EnginePanic(message) => {
                out.append("layout failed: ");
                out.append(message.as_str());
            },
        }
        assert(out@ =~= self.text());
        out
    }
}

/// The budget of a thread.
#[derive(Debug, Clone, Copy, PartialEq, Eq, Structural)]
pub struct BudgetState {
    /// The deadline, while a flush with a budget is on the stack.
    pub deadline: Option<u128>,
    /// The limit that the deadline was armed with.
    pub limit: u128,
    /// Polls remaining before the next read of the clock.
    pub countdown: u32,
}

/// Disarms the budget that it armed, where it armed one.
#[derive(Debug, PartialEq, Eq, Structural)]
pub struct LayoutBudgetGuard {
    /// Whether the guard's own call armed the live deadline.
    pub owns: bool,
}

/// Arming does something: the limit is one, and no budget is armed yet.
pub open spec fn arms(budget: BudgetState, limit: u128) -> bool {
    limit != UNLIMITED && budget.deadline is None
}

/// The budget after [`arm`].
pub open spec fn armed(budget: BudgetState, limit: u128, now: u128) -> BudgetState {
    if arms(budget, limit) {
        BudgetState { deadline: Some((now + limit) as u128), limit, countdown: 0 }
    } else {
        budget
    }
}

/// The budget after [`disarm`].
pub open spec fn disarmed(budget: BudgetState, guard: LayoutBudgetGuard) -> BudgetState {
    if guard.owns {
        BudgetState { deadline: None, ..budget }
    } else {
        budget
    }
}

/// Whether a poll reads the clock.
pub open spec fn reads_clock(budget: BudgetState) -> bool {
    budget.deadline is Some && budget.countdown == 0
}

/// The budget after a poll.
pub open spec fn polled(budget: BudgetState) -> BudgetState {
    match budget.deadline {
        None => budget,
        Some(_) => BudgetState {
            countdown: if budget.countdown > 0 {
                (budget.countdown - 1) as u32
            } else {
                (STRIDE - 1) as u32
            },
            ..budget
        },
    }
}

/// The budget after `n` polls.
pub open spec fn polled_times(budget: BudgetState, n: nat) -> BudgetState
    decreases n,
{
    if n == 0 {
        budget
    } else {
        polled(polled_times(budget, (n - 1) as nat))
    }
}

/// The abort that a read of the clock at `now` causes, if any.
pub open spec fn overdue(budget: BudgetState, now: u128) -> Option<LayoutAborted> {
    match budget.deadline {
        Some(deadline) => if now >= deadline {
            Some(LayoutAborted::Deadline { limit: budget.limit })
        } else {
            None
        },
        None => None,
    }
}

impl BudgetState {
    /// No budget.
    pub fn new() -> (r: BudgetState)
        ensures
            r.deadline is None,
            r.limit == UNLIMITED,
            r.countdown == 0,
    {
        BudgetState { deadline: None, limit: UNLIMITED, countdown: 0 }
    }

    /// Whether a budget is armed.
    pub fn is_armed(&self) -> (r: bool)
        ensures
            r == (self.deadline is Some),
    {
        self.deadline.is_some()
    }
}

/// Arms a budget for the layout work done until the guard is handed to [`disarm`].
/// Does nothing when `limit` is [`UNLIMITED`] or a budget is armed already: the
/// outermost call owns the deadline. A limit of zero trips at the first poll.
pub fn arm(budget: &mut BudgetState, limit: u128, now: u128) -> (r: LayoutBudgetGuard)
    requires
        now + limit <= u128::MAX,
    ensures
        r.owns == arms(*old(budget), limit),
        *final(budget) == armed(*old(budget), limit, now),
{
    if limit == UNLIMITED || budget.deadline.is_some() {
        return LayoutBudgetGuard { owns: false };
    }
    budget.limit = limit;
    budget.deadline = Some(now + limit);
    budget.countdown = 0;
    LayoutBudgetGuard { owns: true }
}

/// Ends the budget that `guard` owns, where it owns one.
pub fn disarm(budget: &mut BudgetState, guard: LayoutBudgetGuard)
    ensures
        *final(budget) == disarmed(*old(budget), guard),
{
    if guard.owns {
        budget.deadline = None;
    }
}

/// Polls the budget, and says whether the clock is to be read and handed to
/// [`check_deadline`].
pub fn checkpoint(budget: &mut BudgetState) -> (r: bool)
    ensures
        r == reads_clock(*old(budget)),
        *final(budget) == polled(*old(budget)),
{
    if budget.deadline.is_none() {
        return false;
    }
    if budget.countdown > 0 {
        budget.countdown = budget.countdown - 1;
        return false;
    }
    budget.countdown = STRIDE - 1;
    true
}

/// The abort that a read of the clock at `now` causes once the deadline has passed.
/// The deadline stays: a flush walks several frames under one budget.
pub fn check_deadline(budget: &BudgetState, now: u128) -> (r: Option<LayoutAborted>)
    ensures
        r == overdue(*budget, now),
{
    match budget.deadline {
        Some(deadline) => if now >= deadline {
            Some(LayoutAborted::Deadline { limit: budget.limit })
        } else {
            None
        },
        None => None,
    }
}

/// What was caught when a layout pass unwound.
pub enum PanicPayload {
    /// The abort that a passed deadline raised.
    Aborted(LayoutAborted),
    /// Another panic, with its message.
    Message(String),
    /// Another panic, with a payload that is no text.
    Opaque,
}

/// Sorts what was caught into the pass's own deadline and a panic of another origin.
pub fn classify(payload: PanicPayload) -> (r: LayoutAborted)
    ensures
        match payload {
            PanicPayload::Aborted(aborted) => r == aborted,
            PanicPayload::Message(message) => r == LayoutAborted::EnginePanic(message),
            PanicPayload::Opaque => r matches LayoutAborted::EnginePanic(message) && message@
                == "layout panicked"@,
        },
{
    match payload {
        PanicPayload::Aborted(aborted) => aborted,
        PanicPayload::Message(message) => LayoutAborted::EnginePanic(message),
        PanicPayload::Opaque => LayoutAborted::EnginePanic("layout panicked".to_owned()),
    }
}

/// A nested budget neither moves the outer deadline nor ends it.
pub proof fn nested_budget_does_nothing(budget: BudgetState, limit: u128, now: u128)
    requires
        budget.deadline is Some,
    ensures
        armed(budget, limit, now) == budget,
        disarmed(
            armed(budget, limit, now),
            LayoutBudgetGuard { owns: arms(budget, limit) },
        ) == budget,
{
}

/// The guard that armed a budget ends it, so that no deadline outlives its flush.
pub proof fn owner_disarms(budget: BudgetState, limit: u128, now: u128, polls: nat)
    requires
        arms(budget, limit),
    ensures
        disarmed(
            polled_times(armed(budget, limit, now), polls),
            LayoutBudgetGuard { owns: true },
        ).deadline is None,
{
}

/// A disabled or unarmed budget never reads the clock and never changes.
pub proof fn unarmed_budget_is_inert(budget: BudgetState, polls: nat)
    requires
        budget.deadline is None,
    ensures
        polled_times(budget, polls) == budget,
        !reads_clock(polled_times(budget, polls)),
    decreases polls,
{
    if polls > 0 {
        unarmed_budget_is_inert(budget, (polls - 1) as nat);
    }
}

/// A limit of zero trips at the first poll, at whatever later time the clock is read.
pub proof fn zero_budget_trips_at_once(budget: BudgetState, armed_at: u128, now: u128)
    requires
        budget.deadline is None,
        armed_at <= now,
    ensures
        reads_clock(armed(budget, 0, armed_at)),
        overdue(polled(armed(budget, 0, armed_at)), now) == Some(
            LayoutAborted::Deadline { limit: 0 },
        ),
{
}

/// Between two reads of the clock there are `STRIDE - 1` polls that do not read it.
pub proof fn stride_holds_the_clock_off(budget: BudgetState, n: nat)
    requires
        reads_clock(budget),
    ensures
        1 <= n < STRIDE ==> !reads_clock(polled_times(budget, n)),
        1 <= n <= STRIDE ==> polled_times(budget, n).countdown == STRIDE - n,
        n == STRIDE ==> reads_clock(polled_times(budget, n)),
        polled_times(budget, n).deadline == budget.deadline,
        polled_times(budget, n).limit == budget.limit,
    decreases n,
{
    if n > 0 {
        stride_holds_the_clock_off(budget, (n - 1) as nat);
    }
}

} // verus!
