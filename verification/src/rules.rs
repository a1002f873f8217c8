//! What the style layer knows about each VSG rule.
use vstd::prelude::*;

use crate::config::Severity;

verus! {

/// A VSG rule: its id, the groups it belongs to, how severe its findings are, whether it runs
/// unless configured otherwise, and what it checks.
#[derive(Debug, Clone, Copy)]
pub struct RuleInfo {
    pub id: &'static str,
    pub groups: &'static [&'static str],
    pub severity: Severity,
    pub enabled_by_default: bool,
    pub description: &'static str,
}

impl RuleInfo {
    /// A rule the formatter applies.
    pub fn formatter(
        id: &'static str,
        groups: &'static [&'static str],
        enabled: bool,
        description: &'static str,
    ) -> (r: RuleInfo)
        ensures
            r.id == id,
            r.groups == groups,
            r.severity == Severity::Error,
            r.enabled_by_default == enabled,
            r.description == description,
    {
        RuleInfo { id, groups, severity: Severity::Error, enabled_by_default: enabled, description }
    }
}

} // verus!
