use padagonia::benchmark_gate::{evaluate_gate, SafetyCounts};

#[test]
fn gate_rejects_safety_failures() {
    let sql_baseline_p95_ms = 1.0f64;
    let p95_ms = 2.0f64;
    let max_p95_regression_ratio = 1.0f64;
    let regressed = sql_baseline_p95_ms > 0.0 && p95_ms > sql_baseline_p95_ms * max_p95_regression_ratio;
    let report = evaluate_gate(
        regressed,
        &SafetyCounts { acknowledged_write_loss: 1, cross_tenant_violations: 0, unbounded_queries: 0 },
        &SafetyCounts { acknowledged_write_loss: 0, cross_tenant_violations: 0, unbounded_queries: 0 },
    );
    assert!(!report.passed);
    assert_eq!(report.failures.len(), 2);
}

#[test]
fn clean_run_passes() {
    let zero = SafetyCounts { acknowledged_write_loss: 0, cross_tenant_violations: 0, unbounded_queries: 0 };
    let report = evaluate_gate(false, &zero, &zero);
    assert!(report.passed);
    assert!(report.failures.is_empty());
    let report = evaluate_gate(
        false,
        &SafetyCounts { acknowledged_write_loss: 0, cross_tenant_violations: 2, unbounded_queries: 1 },
        &zero,
    );
    assert_eq!(report.failures, vec!["cross-tenant access was observed", "unbounded queries were observed"]);
}
