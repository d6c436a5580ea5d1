//! The settle-delay used between driving a row and sampling its columns.
//!
//! The delay is a busy-wait calibrated against a fixed reference tick
//! rate. The primitive that actually burns cycles is a platform
//! capability, modelled by [`DelayTick`]; [`delay_us`] builds the
//! microsecond wait on top of it, issuing one small primitive call per
//! microsecond so that the tick argument of a single call never has to
//! hold a large product. The companion application crate supplies the
//! Cortex-M primitive.

use vstd::prelude::*;

verus! {

/// Reference tick rate the settle delay is calibrated against: 12 MHz.
pub const TICKS_PER_SECOND: u32 = 12_000_000;

/// Reference ticks that make up one microsecond.
pub const TICKS_PER_MICROSECOND: u32 = TICKS_PER_SECOND / 1_000_000;

/// A cycle-accurate busy-wait primitive, counted in reference clock ticks.
///
/// The spec function records every call, so that a scan's contract can
/// state exactly which waits it performs. An implementation outside this
/// crate is not verified against this contract; it records what the
/// matrix assumes of the platform layer.
pub trait DelayTick: Sized {
    /// The tick counts handed to the primitive so far, oldest first.
    /// Unspecified unless the implementation says otherwise.
    open spec fn issued(&self) -> Seq<u32> {
        arbitrary()
    }

    /// Busy-wait for at least `ticks` reference ticks.
    fn delay(&mut self, ticks: u32)
        ensures
            final(self).issued() == old(self).issued().push(ticks),
    ;
}

/// The primitive calls a wait of `us` microseconds issues: one bounded
/// call per microsecond, each of one microsecond's worth of ticks.
pub open spec fn tick_calls(us: nat) -> Seq<u32> {
    Seq::new(us, |i: int| TICKS_PER_MICROSECOND)
}

/// Issuing two waits back to back is one longer wait.
pub proof fn lemma_tick_calls_add(a: nat, b: nat)
    ensures
        tick_calls(a) + tick_calls(b) == tick_calls(a + b),
{
    assert(tick_calls(a) + tick_calls(b) =~= tick_calls(a + b));
}

/// Busy-wait for `us` microseconds against the reference tick rate.
///
/// The wait is issued as `us` primitive calls of one microsecond each,
/// rather than one call of `us * TICKS_PER_MICROSECOND` ticks, so the
/// tick argument cannot overflow however large `us` is.
pub fn delay_us<D: DelayTick>(d: &mut D, us: u32)
    ensures
        final(d).issued() == old(d).issued() + tick_calls(us as nat),
{
    for i in 0..us
        invariant
            d.issued() == old(d).issued() + tick_calls(i as nat),
    {
        d.delay(TICKS_PER_MICROSECOND);
        proof {
            assert(old(d).issued() + tick_calls((i + 1) as nat) =~= (old(d).issued()
                + tick_calls(i as nat)).push(TICKS_PER_MICROSECOND));
        }
    }
    proof {
        assert(old(d).issued() + tick_calls(0nat) =~= old(d).issued());
    }
}

} // verus!
