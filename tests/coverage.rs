use craprs::coverage::{range_coverage, LineCoverage};

#[test]
fn coverage_for_range_basic() {
    let mut cov = LineCoverage::new();
    cov.insert(3, 1);
    cov.insert(4, 1);
    cov.insert(5, 0);
    // 2 hit out of 3 instrumented
    let r = range_coverage(&cov, 3, 5);
    assert_eq!(r.instrumented, 3);
    assert_eq!(r.hit, 2);
}

#[test]
fn coverage_for_range_empty() {
    let cov = LineCoverage::new();
    let r = range_coverage(&cov, 1, 5);
    assert_eq!(r.instrumented, 0);
    assert_eq!(r.hit, 0);
}

#[test]
fn coverage_for_range_full() {
    let mut cov = LineCoverage::new();
    cov.insert(1, 1);
    cov.insert(2, 3);
    let r = range_coverage(&cov, 1, 2);
    assert_eq!(r.instrumented, 2);
    assert_eq!(r.hit, 2);
}

#[test]
fn range_coverage_ignores_lines_outside() {
    let mut cov = LineCoverage::new();
    cov.insert(1, 0);
    cov.insert(2, 4);
    cov.insert(9, 1);
    let r = range_coverage(&cov, 2, 8);
    assert_eq!(r.instrumented, 1);
    assert_eq!(r.hit, 1);
    let single = range_coverage(&cov, 1, 1);
    assert_eq!(single.instrumented, 1);
    assert_eq!(single.hit, 0);
    let backwards = range_coverage(&cov, 5, 2);
    assert_eq!(backwards.instrumented, 0);
}
