use sciutil::digits::Digits;
use sciutil::rounding::round_with_uncertainty;

fn parse(value: f64) -> Digits {
    Digits::new(&value.to_string()).unwrap()
}

fn report(value: f64, uncertainty: f64, unit: Option<&str>) -> String {
    round_with_uncertainty(&parse(value), &parse(uncertainty), unit)
}

#[test]
fn reports_value_with_uncertainty() {
    assert_eq!(report(1_024.05, 0.015_555_312, None), "1024.05 ± 0.016");
}

#[test]
fn reports_value_rounded_to_uncertainty() {
    assert_eq!(
        report(1_024.051_123_125_5, 0.015_555_312, None),
        "1024.051 ± 0.016"
    );
}

#[test]
fn reports_with_unit() {
    assert_eq!(
        report(1_024.051_123_125_5, 0.015_555_312, Some("s")),
        "1024.051 s ± 0.016 s"
    );
}

#[test]
fn reports_coarse_uncertainty() {
    assert_eq!(report(1_024.05, 12.3, None), "1024 ± 12");
    assert_eq!(report(-1_024.05, 0.37, None), "-1024.0 ± 0.4");
    assert_eq!(report(0.5, 30.0, None), "0 ± 30");
    assert_eq!(report(64.0, 300.0, Some("m")), "100 m ± 300 m");
    assert_eq!(report(2.0, 0.0, None), "2 ± 0");
}
