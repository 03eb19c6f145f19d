use craprs::complexity::{extract_functions, Body, Decision, FnDecl, Item, Node, SourceFile};
use craprs::coverage::{range_coverage, source_to_module_path, LineCoverage};
use craprs::lcov::{find_coverage_for_file, parse_lcov, CoverageMap};

#[test]
fn parse_lcov_basic() {
    let lcov = "\
SF:src/main.rs
DA:1,1
DA:2,0
DA:3,5
end_of_record
SF:src/lib.rs
DA:1,2
end_of_record
";
    let result = parse_lcov(lcov);
    assert_eq!(result.len(), 2);
    let main_cov = result.get("src/main.rs").unwrap();
    assert_eq!(main_cov[&1], 1);
    assert_eq!(main_cov[&2], 0);
    assert_eq!(main_cov[&3], 5);
    let lib_cov = result.get("src/lib.rs").unwrap();
    assert_eq!(lib_cov[&1], 2);
}

#[test]
fn lcov_with_no_matching_file() {
    let lcov = "\
SF:src/other.rs
DA:1,1
end_of_record
";
    let file_cov = parse_lcov(lcov);
    let line_cov = file_cov.get("src/example.rs");
    assert!(line_cov.is_none());

    // No coverage data means no instrumented line
    let empty_cov = LineCoverage::new();
    let cov = range_coverage(&empty_cov, 1, 10);
    assert_eq!(cov.instrumented, 0);
    assert_eq!(cov.hit, 0);
}

#[test]
fn lcov_later_record_replaces_earlier() {
    let lcov = "SF:a.rs\nDA:1,1\nend_of_record\nSF:a.rs\nDA:2,7\nend_of_record\n";
    let result = parse_lcov(lcov);
    assert_eq!(result.len(), 1);
    let cov = result.get("a.rs").unwrap();
    assert_eq!(cov.len(), 1);
    assert_eq!(cov[&2], 7);
}

#[test]
fn lcov_skips_malformed_lines() {
    let lcov = "SF:a.rs\nDA:1\nDA:x,1\nDA:2,-1\nDA:,3\nDA:3,\nDA:+4,+2\nFN:1,foo\nDA:5,1,9\nend_of_record";
    let result = parse_lcov(lcov);
    let cov = result.get("a.rs").unwrap();
    assert_eq!(cov.len(), 1);
    assert_eq!(cov[&4], 2);
}

#[test]
fn lcov_trims_and_accepts_crlf() {
    let lcov = "  SF:b.rs \r\n\tDA:10,3\r\nDA: 11,0\r\n end_of_record\r\n";
    let result = parse_lcov(lcov);
    let cov = result.get("b.rs").unwrap();
    assert_eq!(cov.len(), 1);
    assert_eq!(cov[&10], 3);
}

#[test]
fn lcov_needs_end_of_record_and_file() {
    let result = parse_lcov("DA:1,1\nend_of_record\nSF:c.rs\nDA:2,2\n");
    assert_eq!(result.len(), 0);
    assert!(!result.contains_key("c.rs"));
    assert!(!result.contains_key(""));
}

#[test]
fn lcov_hit_count_overflow_is_skipped() {
    let lcov = "SF:d.rs\nDA:1,18446744073709551615\nDA:2,18446744073709551616\nend_of_record\n";
    let result = parse_lcov(lcov);
    let cov = result.get("d.rs").unwrap();
    assert_eq!(cov.len(), 1);
    assert_eq!(cov[&1], u64::MAX);
}

#[test]
fn lcov_lines_after_record_go_to_same_file() {
    let lcov = "SF:e.rs\nDA:1,1\nend_of_record\nDA:2,2\nend_of_record\n";
    let result = parse_lcov(lcov);
    let cov = result.get("e.rs").unwrap();
    assert_eq!(cov.len(), 1);
    assert_eq!(cov[&2], 2);
}

fn one_file(path: &str, line: usize, hits: u64) -> CoverageMap {
    let mut line_cov = LineCoverage::new();
    line_cov.insert(line, hits);
    let mut file_cov = CoverageMap::new();
    file_cov.insert(path.to_string(), line_cov);
    file_cov
}

#[test]
fn find_coverage_exact_match() {
    let file_cov = one_file("src/main.rs", 1, 5);
    let result = find_coverage_for_file("src/main.rs", &file_cov);
    assert_eq!(result.get(&1), Some(&5));
}

#[test]
fn find_coverage_suffix_match() {
    let file_cov = one_file("/home/user/project/src/main.rs", 1, 3);
    let result = find_coverage_for_file("src/main.rs", &file_cov);
    assert_eq!(result.get(&1), Some(&3));
}

#[test]
fn find_coverage_no_match() {
    let file_cov = CoverageMap::new();
    let result = find_coverage_for_file("src/main.rs", &file_cov);
    assert!(result.is_empty());
}

#[test]
fn find_coverage_prefers_exact_then_first_suffix() {
    let mut file_cov = one_file("/x/src/lib.rs", 1, 1);
    let mut exact = LineCoverage::new();
    exact.insert(2, 2);
    file_cov.insert("src/lib.rs".to_string(), exact);
    let result = find_coverage_for_file("src/lib.rs", &file_cov);
    assert_eq!(result.get(&2), Some(&2));
    assert_eq!(result.len(), 1);
    let longer = find_coverage_for_file("/root/x/src/lib.rs", &file_cov);
    assert_eq!(longer.get(&1), Some(&1));
}

fn decl(name: &str, name_line: usize, close_line: usize, nodes: Vec<Node>) -> Item {
    Item::Fn(FnDecl {
        name: name.to_string(),
        is_test: false,
        name_line,
        body: Some(Body { close_line, nodes, items: vec![] }),
    })
}

// fn simple() -> i32 {
//     42
// }
//
// fn branchy(x: bool, y: Option<i32>) -> i32 {
//     if x {
//         if let Some(v) = y {
//             v
//         } else {
//             0
//         }
//     } else {
//         -1
//     }
// }
#[test]
fn full_pipeline_synthetic() {
    let branchy = vec![Node::Point(Decision::If, vec![Node::Point(Decision::If, vec![])])];
    let file = SourceFile { items: vec![decl("simple", 2, 4, vec![]), decl("branchy", 6, 16, branchy)] };
    let lcov = "\
SF:src/example.rs
DA:2,1
DA:3,1
DA:7,5
DA:8,3
DA:9,3
DA:10,3
DA:12,2
DA:15,2
end_of_record
";

    let fns = extract_functions(&file).unwrap();
    assert_eq!(fns.len(), 2);
    assert_eq!(fns[0].name, "simple");
    assert_eq!(fns[0].complexity, 1);
    assert_eq!(fns[1].name, "branchy");
    assert_eq!(fns[1].complexity, 3);

    let file_cov = parse_lcov(lcov);
    assert!(file_cov.contains_key("src/example.rs"));
    let line_cov = file_cov.get("src/example.rs").unwrap();

    let simple_cov = range_coverage(line_cov, fns[0].start_line, fns[0].end_line);
    let branchy_cov = range_coverage(line_cov, fns[1].start_line, fns[1].end_line);
    assert!(simple_cov.hit > 0);
    assert!(branchy_cov.hit > 0);
    assert_eq!(simple_cov.instrumented, 2);
    assert_eq!(simple_cov.hit, 2);
    assert_eq!(branchy_cov.instrumented, 6);
    assert_eq!(branchy_cov.hit, 6);

    let module = source_to_module_path("src/example.rs", "src");
    assert_eq!(module, "example");
}
