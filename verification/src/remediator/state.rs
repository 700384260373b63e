//! Cooldown and circuit breaker: when a device may be rebooted.
//!
//! Nothing here reads a clock. The caller says what time it is and which day.

use crate::text::{decimal, decimal_text, same_text};
use vstd::prelude::*;

verus! {

/// Nanoseconds in a second.
pub const NANOS_PER_SEC: u64 = 1_000_000_000;

/// Seconds in a day.
pub const SECS_PER_DAY: u64 = 86_400;

/// The safety limits.
pub struct Limits {
    pub cooldown_secs: u64,
    pub max_reboots_per_day: u32,
}

/// What is remembered of a device.
#[derive(Debug, Clone)]
pub struct DeviceState {
    /// When its last reboot was attempted, in nanoseconds since the Unix epoch.
    pub last_reboot_unix: Option<u64>,
    /// The day that `reboots_today` counts.
    pub day: String,
    /// How many reboots were attempted on that day.
    pub reboots_today: u32,
}

/// A [`DeviceState`] with its text as a character sequence.
#[verifier::ext_equal]
pub struct DeviceStateView {
    pub last_reboot_unix: Option<u64>,
    pub day: Seq<char>,
    pub reboots_today: u32,
}

impl View for DeviceState {
    type V = DeviceStateView;

    open spec fn view(&self) -> DeviceStateView {
        DeviceStateView {
            last_reboot_unix: self.last_reboot_unix,
            day: self.day@,
            reboots_today: self.reboots_today,
        }
    }
}

/// A device of which nothing is known yet.
pub open spec fn fresh() -> DeviceStateView {
    DeviceStateView { last_reboot_unix: None, day: Seq::empty(), reboots_today: 0 }
}

impl Default for DeviceState {
    fn default() -> (r: DeviceState)
        ensures
            r@ == fresh(),
    {
        let r = DeviceState { last_reboot_unix: None, day: String::new(), reboots_today: 0 };
        assert(r@ =~= fresh());
        r
    }
}

impl DeviceState {
    /// The same state once more.
    pub fn copied(&self) -> (r: DeviceState)
        ensures
            r@ == self@,
    {
        DeviceState {
            last_reboot_unix: self.last_reboot_unix,
            day: self.day.as_str().to_owned(),
            reboots_today: self.reboots_today,
        }
    }
}

/// What may be done with a device.
#[derive(Debug, Clone, Copy, PartialEq, Eq, Structural)]
pub enum Decision {
    Reboot,
    Cooldown,
    CircuitOpen,
}

/// The reboots of a device that count for `today`.
pub open spec fn reboots_on(st: DeviceStateView, today: Seq<char>) -> u32 {
    if st.day == today {
        st.reboots_today
    } else {
        0
    }
}

/// Whether the last reboot is less than the cooldown ago.
pub open spec fn cooling(st: DeviceStateView, limits: Limits, now_unix: u64) -> bool {
    match st.last_reboot_unix {
        Some(last) => now_unix - last < limits.cooldown_secs * NANOS_PER_SEC,
        None => false,
    }
}

/// What may be done with a device at `now_unix` on `today`: the circuit breaker
/// comes before the cooldown.
pub open spec fn decision(
    st: DeviceStateView,
    limits: Limits,
    now_unix: u64,
    today: Seq<char>,
) -> Decision {
    if reboots_on(st, today) >= limits.max_reboots_per_day {
        Decision::CircuitOpen
    } else if cooling(st, limits, now_unix) {
        Decision::Cooldown
    } else {
        Decision::Reboot
    }
}

/// Decides what may be done with a device now.
pub fn decide(st: &DeviceState, limits: &Limits, now_unix: u64, today: &str) -> (r: Decision)
    ensures
        r == decision(st@, *limits, now_unix, today@),
{
    let reboots_today: u32 = if same_text(st.day.as_str(), today) {
        st.reboots_today
    } else {
        0
    };
    if reboots_today >= limits.max_reboots_per_day {
        return Decision::CircuitOpen;
    }
    if let Some(last) = st.last_reboot_unix {
        let cooldown: u128 = limits.cooldown_secs as u128 * NANOS_PER_SEC as u128;
        if (now_unix as u128) < last as u128 + cooldown {
            return Decision::Cooldown;
        }
    }
    Decision::Reboot
}

/// How much of the cooldown is left, in nanoseconds.
pub open spec fn spec_cooldown_left(st: DeviceStateView, limits: Limits, now_unix: u64) -> nat {
    match st.last_reboot_unix {
        Some(last) => {
            let end = last + limits.cooldown_secs * NANOS_PER_SEC;
            if now_unix < end {
                (end - now_unix) as nat
            } else {
                0
            }
        },
        None => 0,
    }
}

/// How much of the cooldown is left, in nanoseconds.
pub fn cooldown_left(st: &DeviceState, limits: &Limits, now_unix: u64) -> (r: u128)
    ensures
        r == spec_cooldown_left(st@, *limits, now_unix),
{
    match st.last_reboot_unix {
        Some(last) => {
            let end: u128 = last as u128 + limits.cooldown_secs as u128 * NANOS_PER_SEC as u128;
            if (now_unix as u128) < end {
                end - now_unix as u128
            } else {
                0
            }
        },
        None => 0,
    }
}

/// A device after a reboot was attempted at `now_unix` on `today`.
pub open spec fn after_attempt(
    st: DeviceStateView,
    now_unix: u64,
    today: Seq<char>,
) -> DeviceStateView {
    DeviceStateView {
        last_reboot_unix: Some(now_unix),
        day: today,
        reboots_today: (reboots_on(st, today) + 1) as u32,
    }
}

/// Records that a reboot was attempted: the cooldown begins anew, and the
/// attempt counts for `today`.
pub fn record_reboot(st: &mut DeviceState, now_unix: u64, today: &str)
    requires
        reboots_on(old(st)@, today@) < u32::MAX,
    ensures
        final(st)@ == after_attempt(old(st)@, now_unix, today@),
{
    st.last_reboot_unix = Some(now_unix);
    if !same_text(st.day.as_str(), today) {
        st.day = today.to_owned();
        st.reboots_today = 0;
    }
    st.reboots_today = st.reboots_today + 1;
    assert(st@ =~= after_attempt(old(st)@, now_unix, today@));
}

/// The day that a moment belongs to, as days since the Unix epoch.
pub open spec fn spec_day_bucket(unix_secs: u64) -> Seq<char> {
    decimal((unix_secs / SECS_PER_DAY) as nat)
}

/// The day that a moment belongs to.
pub fn day_bucket(unix_secs: u64) -> (r: String)
    ensures
        r@ == spec_day_bucket(unix_secs),
{
    decimal_text(unix_secs / SECS_PER_DAY)
}

/// A device of which nothing is known may be rebooted, unless reboots are
/// limited to none.
pub proof fn law_fresh_may_reboot(limits: Limits, now_unix: u64, today: Seq<char>)
    requires
        limits.max_reboots_per_day > 0,
    ensures
        decision(fresh(), limits, now_unix, today) == Decision::Reboot,
{
}

/// Once a reboot was attempted, the device is not rebooted again on any day
/// until the cooldown is over.
pub proof fn law_cooldown_blocks(
    st: DeviceStateView,
    limits: Limits,
    attempt: u64,
    today: Seq<char>,
    later: u64,
    day: Seq<char>,
)
    requires
        reboots_on(st, today) < u32::MAX,
        later < attempt + limits.cooldown_secs * NANOS_PER_SEC,
    ensures
        decision(after_attempt(st, attempt, today), limits, later, day) != Decision::Reboot,
{
}

/// When the cooldown is over, only the circuit breaker can hold a reboot back.
pub proof fn law_cooldown_ends(
    st: DeviceStateView,
    limits: Limits,
    attempt: u64,
    today: Seq<char>,
    later: u64,
    day: Seq<char>,
)
    requires
        reboots_on(st, today) < u32::MAX,
        later >= attempt + limits.cooldown_secs * NANOS_PER_SEC,
        reboots_on(after_attempt(st, attempt, today), day) < limits.max_reboots_per_day,
    ensures
        decision(after_attempt(st, attempt, today), limits, later, day) == Decision::Reboot,
{
}

/// A device that has reached its limit for the day is not rebooted on that day,
/// whenever it is asked, and the answer is the circuit breaker's even within the
/// cooldown.
pub proof fn law_breaker_blocks(st: DeviceStateView, limits: Limits, now_unix: u64, today: Seq<char>)
    ensures
        reboots_on(st, today) >= limits.max_reboots_per_day <==> decision(
            st,
            limits,
            now_unix,
            today,
        ) == Decision::CircuitOpen,
{
}

/// The count begins anew on another day.
pub proof fn law_new_day(
    st: DeviceStateView,
    limits: Limits,
    now_unix: u64,
    today: Seq<char>,
)
    requires
        st.day != today,
        limits.max_reboots_per_day > 0,
    ensures
        decision(st, limits, now_unix, today) != Decision::CircuitOpen,
        after_attempt(st, now_unix, today).reboots_today == 1,
{
}

/// The attempts that the decisions allow never exceed the limit of a day.
pub proof fn law_limit_kept(st: DeviceStateView, limits: Limits, now_unix: u64, today: Seq<char>)
    requires
        st.reboots_today <= limits.max_reboots_per_day,
        decision(st, limits, now_unix, today) == Decision::Reboot,
    ensures
        after_attempt(st, now_unix, today).reboots_today <= limits.max_reboots_per_day,
        reboots_on(after_attempt(st, now_unix, today), today) == reboots_on(st, today) + 1,
{
}

/// Moments of one day fall into one bucket, moments of different days into
/// different ones.
pub proof fn law_day_bucket(a: u64, b: u64)
    ensures
        spec_day_bucket(a) == spec_day_bucket(b) <==> a / SECS_PER_DAY == b / SECS_PER_DAY,
{
    crate::text::lemma_decimal_injective((a / SECS_PER_DAY) as nat, (b / SECS_PER_DAY) as nat);
}

} // verus!
