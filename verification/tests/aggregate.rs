use walker::dedup::Deduplicator;
use walker::finding::{attach, Aggregator, Finding, MetaFinding};
use walker::identity::{short_name, ArtifactIdentity, CompilerVersion};
use walker::position::{LineTable, Position};
use walker::tree::Span;

fn finding(detector: &str, message: &str, start: Option<usize>) -> Finding {
    Finding {
        detector: detector.to_string(),
        message: message.to_string(),
        span: start.map(|s| Span { start: s, length: Some(3) }),
    }
}

fn texts(found: &[MetaFinding]) -> Vec<String> {
    found.iter().map(|m| m.finding.message.clone()).collect()
}

#[test]
fn new_aggregator_is_empty() {
    let all = Aggregator::new().finalize();
    assert_eq!(all.len(), 0);
    assert_eq!(all.total(), 0);
    assert!(all.get(&"any".to_string()).is_none());
}

#[test]
fn record_groups_by_detector_in_order() {
    let mut agg = Aggregator::new();
    agg.record(finding("reentrancy", "r1", None), "Vault".to_string(), None);
    agg.record(finding("overflow", "o1", None), "Vault".to_string(), Some(Position { line: 3, column: 1 }));
    agg.record(finding("reentrancy", "r2", None), "Token".to_string(), None);
    agg.record(finding("reentrancy", "r3", None), "Vault".to_string(), None);
    agg.record(finding("overflow", "o2", None), "Token".to_string(), None);
    let all = agg.finalize();
    assert_eq!(all.len(), 2);
    assert_eq!(all.total(), 5);
    assert_eq!(all.groups[0].detector, "reentrancy");
    assert_eq!(all.groups[1].detector, "overflow");
    assert_eq!(texts(all.get(&"reentrancy".to_string()).unwrap()), vec!["r1", "r2", "r3"]);
    assert_eq!(texts(all.get(&"overflow".to_string()).unwrap()), vec!["o1", "o2"]);
    let first = &all.get(&"overflow".to_string()).unwrap()[0];
    assert_eq!(first.file, "Vault");
    assert_eq!(first.position, Some(Position { line: 3, column: 1 }));
    assert!(all.get(&"missing".to_string()).is_none());
}

#[test]
fn record_meta_keeps_the_finding_whole() {
    let mut agg = Aggregator::new();
    let meta = MetaFinding {
        finding: finding("d", "m", Some(4)),
        file: "F".to_string(),
        position: Some(Position { line: 9, column: 8 }),
    };
    agg.record_meta(meta);
    let all = agg.finalize();
    assert_eq!(
        all.groups[0].findings,
        vec![MetaFinding {
            finding: finding("d", "m", Some(4)),
            file: "F".to_string(),
            position: Some(Position { line: 9, column: 8 }),
        }]
    );
}

#[test]
fn record_all_keeps_order_and_resolves_spans() {
    let table = LineTable::new(vec![0, 10, 25]).unwrap();
    let mut agg = Aggregator::new();
    agg.record(finding("a", "before", None), "Old".to_string(), None);
    agg.record_all(
        vec![finding("a", "one", Some(12)), finding("b", "two", None), finding("a", "three", Some(25))],
        &"New".to_string(),
        Some(&table),
    );
    let all = agg.finalize();
    let a = all.get(&"a".to_string()).unwrap();
    assert_eq!(texts(a), vec!["before", "one", "three"]);
    assert_eq!(a[0].file, "Old");
    assert_eq!(a[1].file, "New");
    assert_eq!(a[1].position, Some(Position { line: 2, column: 2 }));
    assert_eq!(a[2].position, Some(Position { line: 3, column: 0 }));
    let b = all.get(&"b".to_string()).unwrap();
    assert_eq!(b[0].position, None);
    assert_eq!(all.total(), 4);
}

#[test]
fn record_all_without_line_table_gives_no_positions() {
    let mut agg = Aggregator::new();
    agg.record_all(vec![finding("a", "one", Some(12)), finding("a", "two", Some(0))], &"F".to_string(), None);
    let all = agg.finalize();
    let a = all.get(&"a".to_string()).unwrap();
    assert_eq!(texts(a), vec!["one", "two"]);
    assert_eq!(a[0].position, None);
    assert_eq!(a[1].position, None);
}

#[test]
fn record_all_of_nothing_changes_nothing() {
    let mut agg = Aggregator::new();
    agg.record_all(Vec::new(), &"F".to_string(), None);
    assert_eq!(agg.finalize().len(), 0);
}

#[test]
fn attach_resolves_the_start_of_the_span() {
    let table = LineTable::new(vec![0, 10, 25]).unwrap();
    let with = attach(finding("d", "m", Some(12)), "F".to_string(), Some(&table));
    assert_eq!(with.position, Some(Position { line: 2, column: 2 }));
    assert_eq!(with.file, "F");
    assert_eq!(with.finding, finding("d", "m", Some(12)));
    let spanless = attach(finding("d", "m", None), "F".to_string(), Some(&table));
    assert_eq!(spanless.position, None);
    let tableless = attach(finding("d", "m", Some(12)), "F".to_string(), None);
    assert_eq!(tableless.position, None);
}

#[test]
fn short_name_strips_the_suffix_once() {
    assert_eq!(short_name(&Some("Token.sol".to_string())), Some("Token".to_string()));
    assert_eq!(short_name(&Some("Token.sol.sol".to_string())), Some("Token.sol".to_string()));
    assert_eq!(short_name(&Some(".sol".to_string())), Some(String::new()));
    assert_eq!(short_name(&Some("Grüße.sol".to_string())), Some("Grüße".to_string()));
}

#[test]
fn short_name_rejects_other_names() {
    assert_eq!(short_name(&Some("Token".to_string())), None);
    assert_eq!(short_name(&Some("Token.sol.txt".to_string())), None);
    assert_eq!(short_name(&Some("sol".to_string())), None);
    assert_eq!(short_name(&Some(String::new())), None);
    assert_eq!(short_name(&Some("Token.SOL".to_string())), None);
    assert_eq!(short_name(&None), None);
}

#[test]
fn information_carries_the_version() {
    let identity = ArtifactIdentity {
        path: "out/T.json".to_string(),
        name: "T".to_string(),
        source: "src/T.sol".to_string(),
        source_is_text: true,
        version: CompilerVersion { major: 0, minor: 8, patch: 21 },
    };
    let info = identity.information(&Some("T.sol".to_string())).unwrap();
    assert_eq!(info.name, "T");
    assert_eq!(info.version, CompilerVersion { major: 0, minor: 8, patch: 21 });
    assert_eq!(identity.information(&Some("T.vy".to_string())), None);
    assert_eq!(identity.information(&None), None);
}

#[test]
fn deduplicator_marks_each_unit_once() {
    let mut units = Deduplicator::new();
    assert!(units.should_visit(5));
    units.mark_visited(5);
    assert!(!units.should_visit(5));
    assert!(units.should_visit(6));
    units.mark_visited(6);
    units.mark_visited(5);
    units.mark_visited(0);
    assert_eq!(units.visited(), &vec![5, 6, 0]);
    assert!(!units.should_visit(0));
    assert!(units.should_visit(7));
    assert_eq!(units.into_visited(), vec![5, 6, 0]);
}
