use wifiscan::signal::classify_signal;
use wifiscan::signal::SignalBand;

#[test]
fn weak_band_boundaries() {
    assert_eq!(classify_signal(0), SignalBand::Weak);
    assert_eq!(classify_signal(1), SignalBand::Weak);
    assert_eq!(classify_signal(20), SignalBand::Weak);
}

#[test]
fn below_average_band_boundaries() {
    assert_eq!(classify_signal(21), SignalBand::BelowAverage);
    assert_eq!(classify_signal(35), SignalBand::BelowAverage);
    assert_eq!(classify_signal(50), SignalBand::BelowAverage);
}

#[test]
fn good_band_boundaries() {
    assert_eq!(classify_signal(51), SignalBand::Good);
    assert_eq!(classify_signal(73), SignalBand::Good);
    assert_eq!(classify_signal(80), SignalBand::Good);
}

#[test]
fn excellent_band_boundaries() {
    assert_eq!(classify_signal(81), SignalBand::Excellent);
    assert_eq!(classify_signal(100), SignalBand::Excellent);
}

#[test]
fn out_of_range_is_plain() {
    assert_eq!(classify_signal(-1), SignalBand::Plain);
    assert_eq!(classify_signal(101), SignalBand::Plain);
    assert_eq!(classify_signal(i32::MIN), SignalBand::Plain);
    assert_eq!(classify_signal(i32::MAX), SignalBand::Plain);
}
