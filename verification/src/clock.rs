//! The coarse monotonic clock that cached pages and translations age by.
use vstd::prelude::*;

verus! {

/// A reading of the clock, or a span between two readings, in clock ticks.
#[derive(Clone, Copy, Debug, PartialEq, Eq, Structural, Hash)]
pub struct Ticks(pub u64);

/// The number of ticks of a span of `millis` milliseconds, as the clock's
/// crate counts them: the whole seconds in units of 2^32 ticks, up to the
/// greatest `u64`, joined bit by bit with the remaining milliseconds in
/// units of 2^22 ticks.
pub open spec fn millis_as_ticks(millis: u64) -> u64 {
    let secs = millis / 1000;
    let whole: u64 = if secs * 0x1_0000_0000 > u64::MAX {
        u64::MAX
    } else {
        (secs * 0x1_0000_0000) as u64
    };
    whole | (((millis - secs * 1000) as u64) << 22)
}

/// The number of milliseconds from which on every span has the greatest
/// number of ticks.
pub const MILLIS_LIMIT: u64 = 4_294_967_296_000;

/// `ticks` is the number of ticks for `millis` milliseconds, and stands in
/// order with the ticks for every other number of milliseconds: a longer
/// span has no fewer ticks, and more where the longer one is below
/// `MILLIS_LIMIT`.
pub open spec fn in_order(millis: u64, ticks: u64) -> bool {
    &&& ticks == millis_as_ticks(millis)
    &&& forall|other: u64| other <= millis ==> #[trigger] millis_as_ticks(other) <= ticks
    &&& forall|other: u64| millis <= other ==> ticks <= #[trigger] millis_as_ticks(other)
    &&& forall|other: u64| other < millis < MILLIS_LIMIT ==> #[trigger] millis_as_ticks(other) < ticks
    &&& forall|other: u64| millis < other < MILLIS_LIMIT ==> ticks < #[trigger] millis_as_ticks(other)
}

/// Below `MILLIS_LIMIT` the ticks of a span are 2^32 for each whole second
/// and 2^22 for each millisecond of the rest; from there on they are the
/// greatest `u64`.
pub proof fn lemma_ticks_value(millis: u64)
    ensures
        millis < MILLIS_LIMIT ==> millis_as_ticks(millis) == (millis / 1000) * 0x1_0000_0000 + (millis % 1000) * 0x40_0000,
        millis >= MILLIS_LIMIT ==> millis_as_ticks(millis) == u64::MAX,
{
    let secs: u64 = millis / 1000;
    let rest: u64 = (millis - secs * 1000) as u64;
    vstd::arithmetic::div_mod::lemma_fundamental_div_mod(millis as int, 1000);
    assert(rest == millis % 1000);
    if millis < MILLIS_LIMIT {
        assert(secs < 0x1_0000_0000);
        assert(secs * 0x1_0000_0000 <= 0xffff_ffff * 0x1_0000_0000) by (nonlinear_arith)
            requires
                secs <= 0xffff_ffff,
        ;
        let whole: u64 = (secs * 0x1_0000_0000) as u64;
        assert(whole == secs << 32) by (bit_vector)
            requires
                secs < 0x1_0000_0000,
                whole == secs * 0x1_0000_0000,
        ;
        assert(whole | (rest << 22) == whole + rest * 0x40_0000) by (bit_vector)
            requires
                whole == secs << 32,
                secs < 0x1_0000_0000,
                rest < 1000,
        ;
    } else {
        assert(secs >= 0x1_0000_0000);
        assert(secs * 0x1_0000_0000 >= 0x1_0000_0000 * 0x1_0000_0000) by (nonlinear_arith)
            requires
                secs >= 0x1_0000_0000,
        ;
        let top: u64 = u64::MAX;
        assert(top | (rest << 22) == top) by (bit_vector)
            requires
                top == 0xffff_ffff_ffff_ffff,
        ;
    }
}

/// A longer span has no fewer ticks, and more where it is shorter than
/// `MILLIS_LIMIT`.
pub proof fn lemma_ticks_grow(shorter: u64, longer: u64)
    requires
        shorter <= longer,
    ensures
        millis_as_ticks(shorter) <= millis_as_ticks(longer),
        shorter < longer < MILLIS_LIMIT ==> millis_as_ticks(shorter) < millis_as_ticks(longer),
{
    lemma_ticks_value(shorter);
    lemma_ticks_value(longer);
    if longer < MILLIS_LIMIT {
        let (a, b) = (shorter as int, longer as int);
        vstd::arithmetic::div_mod::lemma_fundamental_div_mod(a, 1000);
        vstd::arithmetic::div_mod::lemma_fundamental_div_mod(b, 1000);
        vstd::arithmetic::div_mod::lemma_div_is_ordered(a, b, 1000);
        if a / 1000 < b / 1000 {
            assert((a / 1000) * 0x1_0000_0000 + 0x1_0000_0000 <= (b / 1000) * 0x1_0000_0000) by (nonlinear_arith)
                requires
                    a / 1000 + 1 <= b / 1000,
            ;
        }
    }
}

/// The ticks of a span stand in order with those of every other span.
pub proof fn lemma_in_order(millis: u64)
    ensures
        in_order(millis, millis_as_ticks(millis)),
{
    assert forall|other: u64| other <= millis implies #[trigger] millis_as_ticks(other) <= millis_as_ticks(millis) by {
        lemma_ticks_grow(other, millis);
    }
    assert forall|other: u64| millis <= other implies millis_as_ticks(millis) <= #[trigger] millis_as_ticks(other) by {
        lemma_ticks_grow(millis, other);
    }
    assert forall|other: u64| other < millis < MILLIS_LIMIT implies #[trigger] millis_as_ticks(other) < millis_as_ticks(millis) by {
        lemma_ticks_grow(other, millis);
    }
    assert forall|other: u64| millis < other < MILLIS_LIMIT implies millis_as_ticks(millis) < #[trigger] millis_as_ticks(other) by {
        lemma_ticks_grow(millis, other);
    }
}

/// Calls `coarsetime::Duration::from_millis` and `as_ticks`. The crate
/// multiplies the whole seconds by 2^32, saturating, and joins the result
/// bit by bit with the remaining milliseconds shifted left by 22: what
/// `millis_as_ticks` says.
#[verifier::external_body]
fn duration_from_millis(millis: u64) -> (t: u64)
    ensures
        t == millis_as_ticks(millis),
{
    coarsetime::Duration::from_millis(millis).as_ticks()
}

/// Calls `coarsetime::Instant::now`; nothing is claimed of the reading.
#[verifier::external_body]
fn instant_now() -> (t: u64)
{
    coarsetime::Instant::now().as_ticks()
}

/// Calls `coarsetime::Instant::duration_since` on the two readings: the
/// ticks from `earlier` to `now`, and zero where `earlier` is the later.
#[verifier::external_body]
fn instant_duration_since(now: u64, earlier: u64) -> (d: u64)
    ensures
        d == if now >= earlier { now - earlier } else { 0 },
{
    coarsetime::Instant::from_ticks(now).duration_since(coarsetime::Instant::from_ticks(earlier)).as_ticks()
}

impl Ticks {
    /// The span of `millis` milliseconds.
    pub fn from_millis(millis: u64) -> (t: Ticks)
        ensures
            t.0 == millis_as_ticks(millis),
            in_order(millis, t.0),
    {
        proof {
            lemma_in_order(millis);
        }
        Ticks(duration_from_millis(millis))
    }

    /// The clock's present reading.
    pub fn now() -> Ticks {
        Ticks(instant_now())
    }

    /// The span from `earlier` to `self`; zero where `earlier` is the later.
    pub open spec fn since(self, earlier: Ticks) -> Ticks {
        if self.0 >= earlier.0 {
            Ticks((self.0 - earlier.0) as u64)
        } else {
            Ticks(0)
        }
    }

    /// The span from `earlier` to `self`; zero where `earlier` is the later.
    pub fn duration_since(self, earlier: Ticks) -> (d: Ticks)
        ensures
            d == self.since(earlier),
    {
        Ticks(instant_duration_since(self.0, earlier.0))
    }
}

} // verus!
