//! Host clocks: a clock counts nanoseconds from the moment it was made.
use crate::coremedia::time::{Time, KCM_TIME_FLAGS_HAS_BEEN_ROUNDED};
use vstd::prelude::*;

verus! {

pub const NANO_SECOND_SCALE: u32 = 1000000000;

/// A host clock with an id, a scale, and the host time in nanoseconds at
/// which it was made.
#[derive(Clone, Copy, Debug, PartialEq, Eq, Structural)]
pub struct Clock {
    pub id: u64,
    pub time_scale: u32,
    pub epoch_ns: u64,
}

/// Nanoseconds from `epoch` to `now`; zero if `now` is earlier.
pub open spec fn elapsed(epoch: u64, now: u64) -> u64 {
    if now >= epoch {
        (now - epoch) as u64
    } else {
        0
    }
}

/// `ns` nanoseconds counted in units of `1 / scale` seconds, rounded down;
/// the largest u64 if that does not fit.
pub open spec fn scaled_value(ns: u64, scale: u32) -> u64 {
    let v = ns as int * scale as int / NANO_SECOND_SCALE as int;
    if v <= u64::MAX {
        v as u64
    } else {
        u64::MAX
    }
}

/// A nanosecond clock counts nanoseconds unchanged.
pub proof fn lemma_nanosecond_scale(ns: u64)
    ensures
        scaled_value(ns, NANO_SECOND_SCALE) == ns,
{
    assert(ns as int * 1000000000 / 1000000000 == ns as int) by (nonlinear_arith);
}

/// What a clock made at `c.epoch_ns` reads at `now`.
pub open spec fn time_at(c: Clock, now: u64) -> Time {
    Time {
        value: scaled_value(elapsed(c.epoch_ns, now), c.time_scale),
        scale: c.time_scale,
        flags: KCM_TIME_FLAGS_HAS_BEEN_ROUNDED,
        epoch: 0,
    }
}

impl Clock {
    /// A nanosecond clock made at host time `now_ns`.
    pub fn new_with_host_time(id: u64, now_ns: u64) -> (r: Clock)
        ensures
            r == (Clock { id, time_scale: NANO_SECOND_SCALE, epoch_ns: now_ns }),
    {
        Clock { id, time_scale: NANO_SECOND_SCALE, epoch_ns: now_ns }
    }

    /// A clock of scale `ts` made at host time `now_ns`.
    pub fn new_with_host_time_and_scale(id: u64, ts: u32, now_ns: u64) -> (r: Clock)
        ensures
            r == (Clock { id, time_scale: ts, epoch_ns: now_ns }),
    {
        Clock { id, time_scale: ts, epoch_ns: now_ns }
    }

    /// The time since the clock was made, at host time `now_ns`, in the
    /// clock's scale.
    pub fn get_time(&self, now_ns: u64) -> (r: Time)
        ensures
            r == time_at(*self, now_ns),
    {
        let e = if now_ns >= self.epoch_ns {
            now_ns - self.epoch_ns
        } else {
            0
        };
        let scale = self.time_scale;
        assert((e as int) * (scale as int) <= 0xffff_ffff_ffff_ffff * 0xffff_ffffint) by (
        nonlinear_arith)
            requires
                e <= 0xffff_ffff_ffff_ffffu64,
                scale <= 0xffff_ffffu32,
        ;
        let product: u128 = (e as u128) * (scale as u128);
        let v: u128 = product / (NANO_SECOND_SCALE as u128);
        let value: u64 = if v > 0xffff_ffff_ffff_ffffu128 {
            0xffff_ffff_ffff_ffffu64
        } else {
            v as u64
        };
        Time::new(value, self.time_scale, KCM_TIME_FLAGS_HAS_BEEN_ROUNDED, 0)
    }
}

} // verus!
