use pm4wasm::alerting::{color_for_severity, severity_to_pagerduty, AlertSeverity};

#[test]
fn severity_colors() {
    assert_eq!(color_for_severity(AlertSeverity::Info), "#36a64f");
    assert_eq!(color_for_severity(AlertSeverity::Warning), "#ff9900");
    assert_eq!(color_for_severity(AlertSeverity::Error), "#ff0000");
    assert_eq!(color_for_severity(AlertSeverity::Critical), "#990000");
}

#[test]
fn severity_pagerduty_names() {
    assert_eq!(severity_to_pagerduty(AlertSeverity::Info), "info");
    assert_eq!(severity_to_pagerduty(AlertSeverity::Critical), "critical");
    assert!(AlertSeverity::Info < AlertSeverity::Critical);
}
