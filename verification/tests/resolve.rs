use mvsync::executor::apply_plan;
use mvsync::resolver::{rename_plan, report_line, sync_renames, Correspondence, MatchKind};
use mvsync::server::{InMemoryServer, Server};
use mvsync::wire::WireOracle;

fn add(server: &mut InMemoryServer, path: &str, modified: u64, content: &str) {
    assert!(server.add_file(path.to_string(), modified, content.as_bytes().to_vec()));
}

fn has_file(server: &mut InMemoryServer, path: &str) -> bool {
    server.get_checksum(&path.to_string()).is_some()
}

/// The trees of the rename scenario: the original tree, then a stale copy,
/// then the original mutated by two renames that keep size, content and
/// modification time.
fn renamed_trees() -> (InMemoryServer, InMemoryServer) {
    let mut source = InMemoryServer::new();
    add(&mut source, "file3", 30, "22222");
    add(&mut source, "file7", 10, "000");
    add(&mut source, "file11", 20, "1111");

    let mut destination = InMemoryServer::new();
    add(&mut destination, "file1", 10, "000");
    add(&mut destination, "file2", 20, "1111");
    add(&mut destination, "file3", 30, "22222");
    (source, destination)
}

fn run_and_apply(source: &mut InMemoryServer, destination: &mut InMemoryServer) {
    let report = sync_renames(true, source, destination);
    let plan = rename_plan(&report);
    apply_plan(destination, &plan).unwrap();
}

#[test]
fn test_renames_via_single_process() {
    let (mut source, mut destination) = renamed_trees();
    run_and_apply(&mut source, &mut destination);
    assert!(!has_file(&mut destination, "file1"));
    assert!(!has_file(&mut destination, "file2"));
    assert!(has_file(&mut destination, "file7"));
    assert!(has_file(&mut destination, "file11"));
}

#[test]
fn test_renames_via_external_process() {
    let (source, mut destination) = renamed_trees();
    let mut remote = WireOracle { inner: source, root: "/original".to_string() };
    let report = sync_renames(true, &mut remote, &mut destination);
    let plan = rename_plan(&report);
    apply_plan(&mut destination, &plan).unwrap();
    assert!(!has_file(&mut destination, "file1"));
    assert!(!has_file(&mut destination, "file2"));
    assert!(has_file(&mut destination, "file7"));
    assert!(has_file(&mut destination, "file11"));
}

#[test]
fn exactly_two_renames_reported() {
    let (mut source, mut destination) = renamed_trees();
    let report = sync_renames(true, &mut source, &mut destination);
    let lines: Vec<String> = report.iter().map(report_line).collect();
    assert_eq!(lines.len(), 2);
    assert!(lines.contains(&"file1 was renamed to file7".to_string()));
    assert!(lines.contains(&"file2 was renamed to file11".to_string()));
}

#[test]
fn second_run_is_empty() {
    let (mut source, mut destination) = renamed_trees();
    run_and_apply(&mut source, &mut destination);
    let report = sync_renames(true, &mut source, &mut destination);
    assert!(report.is_empty());
}

#[test]
fn no_common_content_empty_plan() {
    let mut source = InMemoryServer::new();
    add(&mut source, "a", 1, "one");
    add(&mut source, "b", 2, "four");
    let mut destination = InMemoryServer::new();
    add(&mut destination, "c", 1, "two");
    add(&mut destination, "d", 3, "four");
    let report = sync_renames(true, &mut source, &mut destination);
    assert!(report.is_empty());
}

#[test]
fn self_match_is_excluded() {
    let mut source = InMemoryServer::new();
    add(&mut source, "same", 7, "payload");
    let mut destination = InMemoryServer::new();
    add(&mut destination, "same", 7, "payload");
    let report = sync_renames(true, &mut source, &mut destination);
    assert!(report.is_empty());
}

#[test]
fn duplicate_content_reported_as_copy() {
    let mut source = InMemoryServer::new();
    add(&mut source, "keep", 5, "aa");
    let mut destination = InMemoryServer::new();
    add(&mut destination, "keep", 5, "aa");
    add(&mut destination, "extra1", 5, "aa");
    add(&mut destination, "extra2", 5, "aa");
    let report = sync_renames(true, &mut source, &mut destination);
    assert_eq!(report.len(), 2);
    assert_eq!(report[0].destination, "extra1");
    assert_eq!(report[0].source, "keep");
    assert!(matches!(report[0].kind, MatchKind::Rename));
    assert_eq!(report[1].destination, "extra2");
    assert_eq!(report[1].source, "keep");
    assert!(matches!(report[1].kind, MatchKind::Copy));
    assert_eq!(report_line(&report[1]), "extra2 was copied to keep");
}

#[test]
fn checksum_flag_changes_candidate_not_bucket() {
    let mut source = InMemoryServer::new();
    add(&mut source, "x", 9, "ab");
    add(&mut source, "y", 9, "cd");
    let mut destination = InMemoryServer::new();
    add(&mut destination, "z", 9, "cd");

    let mut source2 = InMemoryServer::new();
    add(&mut source2, "x", 9, "ab");
    add(&mut source2, "y", 9, "cd");
    let mut destination2 = InMemoryServer::new();
    add(&mut destination2, "z", 9, "cd");

    let with_sums = sync_renames(true, &mut source, &mut destination);
    let without_sums = sync_renames(false, &mut source2, &mut destination2);
    assert_eq!(with_sums.len(), 1);
    assert_eq!(without_sums.len(), 1);
    assert_eq!(with_sums[0].destination, "z");
    assert_eq!(without_sums[0].destination, "z");
    assert_eq!(with_sums[0].source, "y");
    assert_eq!(without_sums[0].source, "x");
}

#[test]
fn no_checksums_accepts_fingerprint_collision() {
    let mut source = InMemoryServer::new();
    add(&mut source, "new_name", 4, "abc");
    let mut destination = InMemoryServer::new();
    add(&mut destination, "old_name", 4, "xyz");
    let report = sync_renames(false, &mut source, &mut destination);
    assert_eq!(report.len(), 1);
    assert_eq!(report[0].source, "new_name");
    let checked = sync_renames(true, &mut source, &mut destination);
    assert!(checked.is_empty());
}

#[test]
fn apply_plan_stops_at_missing_file() {
    let mut destination = InMemoryServer::new();
    add(&mut destination, "a", 1, "1");
    add(&mut destination, "b", 2, "22");
    let plan = vec![
        Correspondence {
            source: "a2".to_string(),
            destination: "a".to_string(),
            kind: MatchKind::Rename,
        },
        Correspondence {
            source: "missing2".to_string(),
            destination: "missing".to_string(),
            kind: MatchKind::Rename,
        },
        Correspondence {
            source: "b2".to_string(),
            destination: "b".to_string(),
            kind: MatchKind::Rename,
        },
    ];
    let outcome = apply_plan(&mut destination, &plan);
    assert_eq!(outcome, Err(1));
    assert!(has_file(&mut destination, "a2"));
    assert!(has_file(&mut destination, "b"));
    assert!(!has_file(&mut destination, "b2"));
}

#[test]
fn rename_onto_existing_file_replaces_it() {
    let mut destination = InMemoryServer::new();
    add(&mut destination, "from", 1, "fresh");
    add(&mut destination, "onto", 2, "stale");
    let plan = vec![
        Correspondence {
            source: "onto".to_string(),
            destination: "from".to_string(),
            kind: MatchKind::Rename,
        },
    ];
    apply_plan(&mut destination, &plan).unwrap();
    assert!(!has_file(&mut destination, "from"));
    let digest = destination.get_checksum(&"onto".to_string()).unwrap();
    let mut probe = InMemoryServer::new();
    add(&mut probe, "p", 1, "fresh");
    assert_eq!(digest, probe.get_checksum(&"p".to_string()).unwrap());
}

#[test]
fn known_digest_of_content() {
    let mut server = InMemoryServer::new();
    add(&mut server, "t", 1, "test");
    let digest = server.get_checksum(&"t".to_string()).unwrap();
    assert_eq!(digest, "a94a8fe5ccb19ba61c4c0873d391e987982fbbd3");
}

#[test]
fn add_file_rejects_duplicates_and_unsafe_paths() {
    let mut server = InMemoryServer::new();
    assert!(server.add_file("ok".to_string(), 1, vec![1, 2]));
    assert!(!server.add_file("ok".to_string(), 2, vec![3]));
    assert!(!server.add_file("bad\nname".to_string(), 1, vec![]));
    assert!(!server.add_file("bad\0name".to_string(), 1, vec![]));
    assert!(server.get_checksum(&"missing".to_string()).is_none());
}

#[test]
fn wire_oracle_equals_in_process_oracle() {
    let (mut source_a, mut destination_a) = renamed_trees();
    let report_local = sync_renames(true, &mut source_a, &mut destination_a);

    let (source_b, mut destination_b) = renamed_trees();
    let mut remote = WireOracle { inner: source_b, root: "/original".to_string() };
    let report_wire = sync_renames(true, &mut remote, &mut destination_b);

    assert_eq!(report_local.len(), report_wire.len());
    for (a, b) in report_local.iter().zip(report_wire.iter()) {
        assert_eq!(a.source, b.source);
        assert_eq!(a.destination, b.destination);
        assert_eq!(report_line(a), report_line(b));
    }
}

#[test]
fn wire_oracle_checksum_of_missing_path() {
    let mut server = InMemoryServer::new();
    assert!(server.add_file("present".to_string(), 1, vec![7]));
    let mut remote = WireOracle { inner: server, root: String::new() };
    assert!(remote.get_checksum(&"absent".to_string()).is_none());
    assert!(remote.get_checksum(&"present".to_string()).is_some());
    remote.exit();
}
