//! The release check over workload measurements: which safety or latency promises a
//! measured run broke.

use crate::ontology::string_views;
use vstd::prelude::*;

verus! {

/// Why a run fails when its p95 latency regressed past the SQL baseline.
pub const P95_REGRESSION: &'static str = "p95 latency exceeds SQL baseline";

/// Why a run fails when acknowledged writes were lost.
pub const WRITE_LOSS: &'static str = "acknowledged writes were lost";

/// Why a run fails when one tenant reached another's data.
pub const CROSS_TENANT: &'static str = "cross-tenant access was observed";

/// Why a run fails when a query ran without bounds.
pub const UNBOUNDED_QUERIES: &'static str = "unbounded queries were observed";

/// The verdict on a measured run: passed exactly when nothing failed, and why not otherwise.
#[derive(Clone, Debug, Default)]
pub struct GateReport {
    pub passed: bool,
    pub failures: Vec<String>,
}

/// The counted outcomes of a measured workload, each bounded by a limit.
#[derive(Clone, Copy, Debug)]
pub struct SafetyCounts {
    pub acknowledged_write_loss: u64,
    pub cross_tenant_violations: u64,
    pub unbounded_queries: u64,
}

/// The reasons a run fails, in this order: latency regression, lost writes,
/// cross-tenant access, unbounded queries.
pub open spec fn gate_failures(p95_regressed: bool, measured: SafetyCounts, limits: SafetyCounts) -> Seq<Seq<char>> {
    let a = if p95_regressed { seq![P95_REGRESSION@] } else { Seq::empty() };
    let b = if measured.acknowledged_write_loss > limits.acknowledged_write_loss { seq![WRITE_LOSS@] } else { Seq::empty() };
    let c = if measured.cross_tenant_violations > limits.cross_tenant_violations { seq![CROSS_TENANT@] } else { Seq::empty() };
    let d = if measured.unbounded_queries > limits.unbounded_queries { seq![UNBOUNDED_QUERIES@] } else { Seq::empty() };
    a + b + c + d
}

/// Judges a measured run: `p95_regressed` says whether the measured p95 latency exceeded
/// the SQL baseline by more than the allowed ratio; each count must stay within its
/// limit.
pub fn evaluate_gate(p95_regressed: bool, measured: &SafetyCounts, limits: &SafetyCounts) -> (r: GateReport)
    ensures
        string_views(r.failures@) == gate_failures(p95_regressed, *measured, *limits),
        r.passed == (r.failures@.len() == 0),
{
    let mut failures: Vec<String> = Vec::new();
    if p95_regressed {
        failures.push(P95_REGRESSION.to_owned());
    }
    if measured.acknowledged_write_loss > limits.acknowledged_write_loss {
        failures.push(WRITE_LOSS.to_owned());
    }
    if measured.cross_tenant_violations > limits.cross_tenant_violations {
        failures.push(CROSS_TENANT.to_owned());
    }
    if measured.unbounded_queries > limits.unbounded_queries {
        failures.push(UNBOUNDED_QUERIES.to_owned());
    }
    proof {
        assert(string_views(failures@) =~= gate_failures(p95_regressed, *measured, *limits));
    }
    let passed = failures.len() == 0;
    GateReport { passed, failures }
}

} // verus!
