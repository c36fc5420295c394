use std::cell::Cell;
use std::rc::Rc;

use walker::dispatch::Outcome;
use walker::error::WalkError;
use walker::finding::{Finding, MetaFinding};
use walker::identity::{Artifact, ArtifactIdentity, CompilerVersion};
use walker::position::{LineTable, Position, SourceMap};
use walker::tree::{Node, Span, SyntaxTree};
use walker::walker::{Report, Walker};

type Detector = Box<dyn Fn(&Node) -> Outcome>;

fn leaf(kind: &str, start: usize) -> Node {
    Node {
        id: None,
        kind: kind.to_string(),
        src: Span { start, length: Some(1) },
        attributes: Vec::new(),
        children: Vec::new(),
    }
}

fn branch(kind: &str, start: usize, children: Vec<Node>) -> Node {
    Node {
        id: None,
        kind: kind.to_string(),
        src: Span { start, length: None },
        attributes: Vec::new(),
        children,
    }
}

fn unit(id: usize, path: &str, children: Vec<Node>) -> SyntaxTree {
    SyntaxTree { id, absolute_path: path.to_string(), root: branch("SourceUnit", 0, children) }
}

fn artifact(source: &str, name: &str, ast: Option<SyntaxTree>) -> Artifact {
    Artifact {
        identity: ArtifactIdentity {
            path: format!("out/{}.json", name),
            name: name.to_string(),
            source: source.to_string(),
            source_is_text: true,
            version: CompilerVersion { major: 0, minor: 8, patch: 19 },
        },
        ast,
    }
}

fn lines(starts: &[usize]) -> LineTable {
    LineTable::new(starts.to_vec()).expect("a line table")
}

/// Reports every node under the name `kinds`, with the node's kind as the
/// message and its start as the span.
fn kinds() -> Detector {
    Box::new(|node: &Node| {
        Ok(vec![Finding {
            detector: "kinds".to_string(),
            message: node.kind.clone(),
            span: Some(node.src),
        }])
    })
}

/// Reports nodes of kind `kind`, without a span, and counts its calls.
fn only(kind: &'static str, calls: Rc<Cell<usize>>) -> Detector {
    Box::new(move |node: &Node| {
        calls.set(calls.get() + 1);
        if node.kind == kind {
            Ok(vec![Finding { detector: kind.to_string(), message: "seen".to_string(), span: None }])
        } else {
            Ok(Vec::new())
        }
    })
}

/// Fails at nodes of kind `kind`.
fn fails_at(kind: &'static str) -> Detector {
    Box::new(move |node: &Node| {
        if node.kind == kind {
            Err(format!("cannot read {}", kind))
        } else {
            Ok(Vec::new())
        }
    })
}

fn messages(found: &[MetaFinding]) -> Vec<String> {
    found.iter().map(|m| m.finding.message.clone()).collect()
}

fn report(walker: &mut Walker<Detector>) -> Report {
    walker.traverse().expect("a report")
}

#[test]
fn empty_registry_gives_empty_report() {
    let mut walker: Walker<Detector> = Walker::new(Vec::new(), vec![kinds()], SourceMap::new());
    let r = report(&mut walker);
    assert_eq!(r.findings.len(), 0);
    assert_eq!(r.findings.total(), 0);
    assert!(r.errors.is_empty());
    assert!(r.visited.is_empty());
    assert_eq!(r.skipped, 0);
    assert_eq!(r.completed, 0);
}

#[test]
fn nodes_are_offered_in_document_order() {
    let tree = unit(
        1,
        "/src/Token.sol",
        vec![
            branch("ContractDefinition", 5, vec![leaf("FunctionDefinition", 12), leaf("Block", 30)]),
            leaf("PragmaDirective", 40),
        ],
    );
    let mut map = SourceMap::new();
    map.insert("src/Token.sol".to_string(), lines(&[0, 10, 25]));
    let mut walker = Walker::new(vec![artifact("src/Token.sol", "Token", Some(tree))], vec![kinds()], map);
    let r = report(&mut walker);
    let found = r.findings.get(&"kinds".to_string()).expect("a group");
    assert_eq!(
        messages(found),
        vec!["SourceUnit", "ContractDefinition", "FunctionDefinition", "Block", "PragmaDirective"]
    );
    assert_eq!(found[0].position, Some(Position { line: 1, column: 0 }));
    assert_eq!(found[1].position, Some(Position { line: 1, column: 5 }));
    assert_eq!(found[2].position, Some(Position { line: 2, column: 2 }));
    assert_eq!(found[3].position, Some(Position { line: 3, column: 5 }));
    assert_eq!(found[4].position, Some(Position { line: 3, column: 15 }));
    for m in found {
        assert_eq!(m.file, "Token");
    }
    assert_eq!(r.completed, 1);
    assert_eq!(r.visited, vec![1]);
    assert!(r.errors.is_empty());
}

#[test]
fn every_detector_sees_every_node() {
    let a = Rc::new(Cell::new(0));
    let b = Rc::new(Cell::new(0));
    let tree = unit(3, "/x/A.sol", vec![leaf("Block", 1), leaf("Return", 2), leaf("Block", 3)]);
    let mut walker = Walker::new(
        vec![artifact("x/A.sol", "A", Some(tree))],
        vec![only("Block", a.clone()), only("Return", b.clone())],
        SourceMap::new(),
    );
    let r = report(&mut walker);
    assert_eq!(a.get(), 4);
    assert_eq!(b.get(), 4);
    assert_eq!(r.findings.len(), 2);
    assert_eq!(r.findings.groups[0].detector, "Block");
    assert_eq!(r.findings.groups[1].detector, "Return");
    assert_eq!(r.findings.get(&"Block".to_string()).unwrap().len(), 2);
    assert_eq!(r.findings.get(&"Return".to_string()).unwrap().len(), 1);
    assert_eq!(r.findings.total(), 3);
}

#[test]
fn shared_unit_is_walked_once() {
    let calls = Rc::new(Cell::new(0));
    let first = unit(7, "/lib/Shared.sol", vec![leaf("Block", 1)]);
    let second = unit(7, "/lib/Shared.sol", vec![leaf("Block", 1)]);
    let third = unit(7, "/lib/Shared.sol", vec![leaf("Block", 1)]);
    let mut walker = Walker::new(
        vec![
            artifact("lib/Shared.sol", "A", Some(first)),
            artifact("lib/Shared.sol", "B", Some(second)),
            artifact("lib/Shared.sol", "C", Some(third)),
        ],
        vec![only("Block", calls.clone())],
        SourceMap::new(),
    );
    let r = report(&mut walker);
    assert_eq!(calls.get(), 2);
    assert_eq!(r.visited, vec![7]);
    assert_eq!(r.skipped, 2);
    assert_eq!(r.completed, 1);
    assert_eq!(r.findings.total(), 1);
}

#[test]
fn shared_unit_is_filed_under_first_artifact() {
    let first = unit(7, "/one/First.sol", vec![leaf("Block", 1)]);
    let second = unit(7, "/two/Second.sol", vec![leaf("Block", 1), leaf("Block", 2)]);
    let mut walker = Walker::new(
        vec![artifact("one/First.sol", "First", Some(first)), artifact("two/Second.sol", "Second", Some(second))],
        vec![kinds()],
        SourceMap::new(),
    );
    let r = report(&mut walker);
    let found = r.findings.get(&"kinds".to_string()).unwrap();
    assert_eq!(messages(found), vec!["SourceUnit", "Block"]);
    for m in found {
        assert_eq!(m.file, "First");
    }
    assert_eq!(r.skipped, 1);
    assert_eq!(
        r.errors,
        vec![WalkError::MissingLineTable {
            artifact: "one/First.sol:First".to_string(),
            path: "one/First.sol".to_string()
        }]
    );
}

#[test]
fn same_path_with_other_unit_id_is_another_unit() {
    let old = unit(1, "/src/A.sol", vec![]);
    let new = unit(2, "/src/A.sol", vec![]);
    let mut walker = Walker::new(
        vec![artifact("src/A.sol", "A", Some(old)), artifact("src/A.sol", "A", Some(new))],
        vec![kinds()],
        SourceMap::new(),
    );
    let r = report(&mut walker);
    assert_eq!(r.visited, vec![1, 2]);
    assert_eq!(r.skipped, 0);
    assert_eq!(r.completed, 2);
    assert_eq!(r.findings.total(), 2);
}

#[test]
fn traversal_is_reproducible() {
    let build = || {
        let mut map = SourceMap::new();
        map.insert("a.sol".to_string(), lines(&[0, 4, 9]));
        Walker::new(
            vec![
                artifact("a.sol", "A", Some(unit(1, "/p/a.sol", vec![leaf("Block", 5), leaf("Return", 9)]))),
                artifact("b.sol", "B", None),
                artifact("c.sol", "C", Some(unit(2, "/p/c.sol", vec![leaf("Return", 0)]))),
                artifact("a.sol", "A2", Some(unit(1, "/p/a.sol", vec![]))),
            ],
            vec![kinds(), only("Return", Rc::new(Cell::new(0)))],
            map,
        )
    };
    let mut one = build();
    let mut two = build();
    let first = report(&mut one);
    assert_eq!(first, report(&mut two));
    assert_eq!(first, report(&mut one));
}

#[test]
fn no_finding_is_lost() {
    let raw = Rc::new(Cell::new(0usize));
    let counted = raw.clone();
    let many: Detector = Box::new(move |node: &Node| {
        let n = node.src.start % 4;
        counted.set(counted.get() + n);
        Ok((0..n)
            .map(|k| Finding {
                detector: format!("d{}", k % 2),
                message: format!("{}#{}", node.kind, k),
                span: None,
            })
            .collect())
    });
    let mut walker = Walker::new(
        vec![
            artifact("a.sol", "A", Some(unit(1, "/a.sol", vec![leaf("x", 1), leaf("y", 2), leaf("z", 3)]))),
            artifact("b.sol", "B", Some(unit(2, "/b.sol", vec![branch("w", 7, vec![leaf("v", 6)])]))),
            artifact("a.sol", "A2", Some(unit(1, "/a.sol", vec![leaf("x", 3)]))),
        ],
        vec![many],
        SourceMap::new(),
    );
    let r = report(&mut walker);
    assert_eq!(raw.get(), 11);
    assert_eq!(r.findings.total(), 11);
    let sum: usize = r.findings.groups.iter().map(|g| g.findings.len()).sum();
    assert_eq!(sum, 11);
    assert_eq!(
        messages(r.findings.get(&"d1".to_string()).unwrap()),
        vec!["y#1", "z#1", "w#1", "v#1"]
    );
}

#[test]
fn suffix_is_stripped_once() {
    let mut walker = Walker::new(
        vec![
            artifact("a", "A", Some(unit(1, "/deep/dir/Vault.sol", vec![]))),
            artifact("b", "B", Some(unit(2, "Twice.sol.sol", vec![]))),
        ],
        vec![kinds()],
        SourceMap::new(),
    );
    let r = report(&mut walker);
    let found = r.findings.get(&"kinds".to_string()).unwrap();
    assert_eq!(found[0].file, "Vault");
    assert_eq!(found[1].file, "Twice.sol");
}

#[test]
fn path_without_suffix_is_malformed() {
    let calls = Rc::new(Cell::new(0));
    let mut walker = Walker::new(
        vec![
            artifact("src/Readme.md", "R", Some(unit(1, "/src/Readme.md", vec![]))),
            artifact("src/up", "U", Some(unit(2, "/src/..", vec![]))),
            artifact("src/Ok.sol", "Ok", Some(unit(3, "/src/Ok.sol", vec![]))),
        ],
        vec![only("SourceUnit", calls.clone())],
        SourceMap::new(),
    );
    let r = report(&mut walker);
    assert_eq!(calls.get(), 1);
    assert_eq!(r.visited, vec![1, 2, 3]);
    assert_eq!(r.completed, 1);
    assert_eq!(
        r.errors,
        vec![
            WalkError::MalformedIdentity {
                artifact: "src/Readme.md:R".to_string(),
                path: "/src/Readme.md".to_string()
            },
            WalkError::MalformedIdentity { artifact: "src/up:U".to_string(), path: "/src/..".to_string() },
            WalkError::MissingLineTable {
                artifact: "src/Ok.sol:Ok".to_string(),
                path: "src/Ok.sol".to_string()
            },
        ]
    );
}

#[test]
fn missing_tree_is_reported_and_run_goes_on() {
    let mut map = SourceMap::new();
    map.insert("src/B.sol".to_string(), lines(&[0]));
    let mut walker = Walker::new(
        vec![artifact("src/A.sol", "A", None), artifact("src/B.sol", "B", Some(unit(4, "/src/B.sol", vec![])))],
        vec![kinds()],
        map,
    );
    let r = report(&mut walker);
    assert_eq!(r.errors, vec![WalkError::MissingTree { artifact: "src/A.sol:A".to_string() }]);
    assert_eq!(r.findings.total(), 1);
    assert_eq!(r.completed, 1);
}

#[test]
fn missing_line_table_keeps_findings() {
    let mut map = SourceMap::new();
    map.insert("src/Has.sol".to_string(), lines(&[0, 10, 25]));
    let mut walker = Walker::new(
        vec![
            artifact("src/Lacks.sol", "Lacks", Some(unit(1, "/src/Lacks.sol", vec![leaf("Block", 12)]))),
            artifact("src/Has.sol", "Has", Some(unit(2, "/src/Has.sol", vec![leaf("Block", 12)]))),
        ],
        vec![kinds()],
        map,
    );
    let r = report(&mut walker);
    let found = r.findings.get(&"kinds".to_string()).unwrap();
    assert_eq!(found.len(), 4);
    assert_eq!((found[0].file.as_str(), found[0].position), ("Lacks", None));
    assert_eq!((found[1].file.as_str(), found[1].position), ("Lacks", None));
    assert_eq!((found[2].file.as_str(), found[2].position), ("Has", Some(Position { line: 1, column: 0 })));
    assert_eq!((found[3].file.as_str(), found[3].position), ("Has", Some(Position { line: 2, column: 2 })));
    assert_eq!(
        r.errors,
        vec![WalkError::MissingLineTable {
            artifact: "src/Lacks.sol:Lacks".to_string(),
            path: "src/Lacks.sol".to_string()
        }]
    );
    assert_eq!(r.completed, 2);
}

#[test]
fn detector_failure_stops_the_unit_only() {
    let after = Rc::new(Cell::new(0));
    let mut walker = Walker::new(
        vec![
            artifact("a.sol", "A", Some(unit(1, "/a.sol", vec![leaf("Block", 1), leaf("Bad", 2), leaf("Block", 3)]))),
            artifact("b.sol", "B", Some(unit(2, "/b.sol", vec![leaf("Block", 1)]))),
        ],
        vec![kinds(), fails_at("Bad"), only("Block", after.clone())],
        SourceMap::new(),
    );
    let r = report(&mut walker);
    let found = r.findings.get(&"kinds".to_string()).unwrap();
    assert_eq!(messages(found), vec!["SourceUnit", "Block", "Bad", "SourceUnit", "Block"]);
    assert_eq!(after.get(), 4);
    assert_eq!(r.findings.get(&"Block".to_string()).unwrap().len(), 2);
    assert_eq!(r.completed, 1);
    assert_eq!(r.visited, vec![1, 2]);
    assert!(r.errors.contains(&WalkError::TraversalFailure {
        artifact: "a.sol:A".to_string(),
        node: 2,
        detector: 1,
        message: "cannot read Bad".to_string()
    }));
    assert_eq!(r.errors.len(), 3);
}

#[test]
fn run_that_walks_nothing_fails() {
    let mut walker = Walker::new(
        vec![artifact("a.sol", "A", None), artifact("b.txt", "B", Some(unit(1, "/b.txt", vec![])))],
        vec![kinds()],
        SourceMap::new(),
    );
    let errors = walker.traverse().expect_err("nothing was walked");
    assert_eq!(
        errors,
        vec![
            WalkError::MissingTree { artifact: "a.sol:A".to_string() },
            WalkError::MalformedIdentity { artifact: "b.txt:B".to_string(), path: "/b.txt".to_string() },
        ]
    );
}

#[test]
fn run_without_detectors_finds_nothing() {
    let mut walker: Walker<Detector> = Walker::new(
        vec![artifact("a.sol", "A", Some(unit(1, "/a.sol", vec![leaf("Block", 1)])))],
        Vec::new(),
        SourceMap::new(),
    );
    let r = report(&mut walker);
    assert_eq!(r.findings.len(), 0);
    assert_eq!(r.completed, 1);
}

#[test]
fn walker_keeps_what_it_was_made_of() {
    let mut map = SourceMap::new();
    map.insert("a.sol".to_string(), lines(&[0, 3]));
    let walker = Walker::new(vec![artifact("a.sol", "A", None)], vec![kinds()], map);
    assert_eq!(walker.artifact.len(), 1);
    assert_eq!(walker.artifact[0].identity.name, "A");
    assert_eq!(walker.detectors.len(), 1);
    assert_eq!(walker.source_map.get(&"a.sol".to_string()).unwrap().len(), 2);
    assert_eq!(walker.file_names, vec![None]);
}

#[test]
fn walker_takes_file_names_from_tree_paths() {
    let walker = Walker::new(
        vec![
            artifact("src/A.sol", "A", Some(unit(1, "/deep/dir/Vault.sol", vec![]))),
            artifact("src/B.sol", "B", None),
            artifact("src/C.sol", "C", Some(unit(2, "/src/..", vec![]))),
            artifact("src/D.sol", "D", Some(unit(3, "Plain", vec![]))),
            artifact("src/E.sol", "E", Some(unit(4, "", vec![]))),
        ],
        vec![kinds()],
        SourceMap::new(),
    );
    assert_eq!(
        walker.file_names,
        vec![Some("Vault.sol".to_string()), None, None, Some("Plain".to_string()), None]
    );
}

#[test]
fn findings_are_filed_under_the_walkers_file_names() {
    let mut walker = Walker {
        artifact: vec![
            artifact("a", "A", Some(unit(1, "/one/First.sol", vec![]))),
            artifact("b", "B", Some(unit(2, "/two/Second.sol", vec![]))),
            artifact("c", "C", Some(unit(3, "/three/Third.sol", vec![]))),
        ],
        detectors: vec![kinds()],
        source_map: SourceMap::new(),
        file_names: vec![Some("Other.sol".to_string()), Some("Readme".to_string())],
    };
    let r = report(&mut walker);
    let found = r.findings.get(&"kinds".to_string()).unwrap();
    assert_eq!(found.len(), 1);
    assert_eq!(found[0].file, "Other");
    assert_eq!(r.visited, vec![1, 2, 3]);
    assert_eq!(r.completed, 1);
    assert_eq!(
        r.errors,
        vec![
            WalkError::MissingLineTable { artifact: "a:A".to_string(), path: "a".to_string() },
            WalkError::MalformedIdentity { artifact: "b:B".to_string(), path: "/two/Second.sol".to_string() },
            WalkError::MalformedIdentity { artifact: "c:C".to_string(), path: "/three/Third.sol".to_string() },
        ]
    );
}

#[test]
fn source_path_that_is_not_text_is_malformed() {
    let calls = Rc::new(Cell::new(0));
    let mut odd = artifact("src/\u{fffd}.sol", "Odd", Some(unit(1, "/src/Odd.sol", vec![leaf("Block", 1)])));
    odd.identity.source_is_text = false;
    let mut map = SourceMap::new();
    map.insert("src/\u{fffd}.sol".to_string(), lines(&[0]));
    let mut walker = Walker::new(
        vec![
            odd,
            artifact("src/Fine.sol", "Fine", Some(unit(2, "/src/Fine.sol", vec![]))),
            artifact("src/Late.sol", "Late", Some(unit(1, "/src/Odd.sol", vec![]))),
        ],
        vec![only("SourceUnit", calls.clone())],
        map,
    );
    let r = report(&mut walker);
    assert_eq!(calls.get(), 1);
    assert_eq!(r.visited, vec![1, 2]);
    assert_eq!(r.skipped, 1);
    assert_eq!(r.completed, 1);
    assert_eq!(r.findings.total(), 1);
    assert_eq!(r.findings.groups[0].findings[0].file, "Fine");
    assert_eq!(
        r.errors,
        vec![
            WalkError::MalformedIdentity {
                artifact: "src/\u{fffd}.sol:Odd".to_string(),
                path: "src/\u{fffd}.sol".to_string()
            },
            WalkError::MissingLineTable {
                artifact: "src/Fine.sol:Fine".to_string(),
                path: "src/Fine.sol".to_string()
            },
        ]
    );
}
