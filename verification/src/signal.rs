use vstd::prelude::*;

verus! {

/// Display band for a signal strength value, chosen purely by numeric range.
#[derive(Clone, Copy, PartialEq, Eq, Debug, Structural)]
pub enum SignalBand {
    /// 0 to 20 inclusive: rendered dark red.
    Weak,
    /// 21 to 50 inclusive: rendered orange.
    BelowAverage,
    /// 51 to 80 inclusive: rendered yellow.
    Good,
    /// 81 to 100 inclusive: rendered green.
    Excellent,
    /// Anything negative or above 100: rendered without color.
    Plain,
}

pub open spec fn band_of(s: int) -> SignalBand {
    if 0 <= s && s <= 20 {
        SignalBand::Weak
    } else if 21 <= s && s <= 50 {
        SignalBand::BelowAverage
    } else if 51 <= s && s <= 80 {
        SignalBand::Good
    } else if 81 <= s && s <= 100 {
        SignalBand::Excellent
    } else {
        SignalBand::Plain
    }
}

/// Total over all integers: out-of-range values fall through to the plain band
/// rather than erroring.
pub fn classify_signal(strength: i32) -> (band: SignalBand)
    ensures
        band == band_of(strength as int),
{
    if strength < 0 || strength > 100 {
        SignalBand::Plain
    } else if strength <= 20 {
        SignalBand::Weak
    } else if strength <= 50 {
        SignalBand::BelowAverage
    } else if strength <= 80 {
        SignalBand::Good
    } else {
        SignalBand::Excellent
    }
}

} // verus!
