//! Severity levels of process-drift alerts and how they are shown to the
//! services that receive them.

use vstd::prelude::*;

verus! {

/// Alert severity levels, from least to most severe.
#[derive(Debug, Clone, Copy, PartialEq, Eq, Structural, PartialOrd, Ord, Hash)]
pub enum AlertSeverity {
    Info,
    Warning,
    Error,
    Critical,
}

/// The colour of a chat attachment for a severity.
pub open spec fn severity_color(s: AlertSeverity) -> Seq<char> {
    match s {
        AlertSeverity::Info => "#36a64f"@,
        AlertSeverity::Warning => "#ff9900"@,
        AlertSeverity::Error => "#ff0000"@,
        AlertSeverity::Critical => "#990000"@,
    }
}

/// The PagerDuty severity of a severity.
pub open spec fn pagerduty_severity(s: AlertSeverity) -> Seq<char> {
    match s {
        AlertSeverity::Info => "info"@,
        AlertSeverity::Warning => "warning"@,
        AlertSeverity::Error => "error"@,
        AlertSeverity::Critical => "critical"@,
    }
}

/// The colour of a chat attachment for a severity.
pub fn color_for_severity(severity: AlertSeverity) -> (res: &'static str)
    ensures
        res@ == severity_color(severity),
{
    match severity {
        AlertSeverity::Info => "#36a64f",
        AlertSeverity::Warning => "#ff9900",
        AlertSeverity::Error => "#ff0000",
        AlertSeverity::Critical => "#990000",
    }
}

/// The PagerDuty severity of a severity.
pub fn severity_to_pagerduty(severity: AlertSeverity) -> (res: &'static str)
    ensures
        res@ == pagerduty_severity(severity),
{
    match severity {
        AlertSeverity::Info => "info",
        AlertSeverity::Warning => "warning",
        AlertSeverity::Error => "error",
        AlertSeverity::Critical => "critical",
    }
}

} // verus!
