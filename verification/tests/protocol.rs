use mvsync::meta::{build_index, Metadata, MetadataIndex, MetadataReader};
use mvsync::server::InMemoryServer;
use mvsync::wire::{
    format_checksum_command, format_checksum_response, format_exit_command,
    format_metadata_command, format_metadata_response, manage_client, parse_checksum_response,
    parse_command, parse_dec, parse_metadata_response, push_dec, Command,
};

fn meta(path: &str, size: u64, modified: u64) -> Metadata {
    Metadata { path: path.to_string(), size, modified }
}

#[test]
fn decimal_round_trip() {
    let mut out: Vec<u8> = Vec::new();
    push_dec(0, &mut out);
    out.push(b' ');
    push_dec(18446744073709551615, &mut out);
    assert_eq!(out, b"0 18446744073709551615".to_vec());
    let (v, end) = parse_dec(&out, 2).unwrap();
    assert_eq!(v, u64::MAX);
    assert_eq!(end, out.len());
}

#[test]
fn decimal_rejects_overflow_and_empty() {
    assert!(parse_dec(b"18446744073709551616", 0).is_none());
    assert!(parse_dec(b"x1", 0).is_none());
}

#[test]
fn command_round_trips() {
    let checksum = format_checksum_command(&"some dir/a.txt".to_string());
    assert_eq!(checksum, b"checksum some dir/a.txt\n".to_vec());
    match parse_command(&checksum) {
        Command::Checksum(p) => assert_eq!(p, "some dir/a.txt"),
        _ => panic!("wrong command"),
    }
    let metadata = format_metadata_command(&"/root".to_string());
    assert_eq!(metadata, b"metadata /root\n".to_vec());
    match parse_command(&metadata) {
        Command::Metadata(p) => assert_eq!(p, "/root"),
        _ => panic!("wrong command"),
    }
    let exit = format_exit_command();
    assert_eq!(exit, b"exit\n".to_vec());
    assert!(matches!(parse_command(&exit), Command::Exit));
    assert!(matches!(parse_command(&b"frobnicate\n".to_vec()), Command::Invalid));
}

#[test]
fn metadata_response_round_trip() {
    let items = vec![meta("dir/a", 3, 100), meta("b c", 4, 200)];
    let idx = build_index(&items);
    let bytes = format_metadata_response(&idx);
    let expected = b"OK START\n3 100 dir/a\0\n4 200 b c\0\nEND\n".to_vec();
    assert_eq!(bytes, expected);
    let back = parse_metadata_response(&bytes).unwrap();
    assert_eq!(back.len(), 2);
    assert_eq!(back[0].path, "dir/a");
    assert_eq!(back[0].size, 3);
    assert_eq!(back[0].modified, 100);
    assert_eq!(back[1].path, "b c");
    assert_eq!(back[1].size, 4);
    assert_eq!(back[1].modified, 200);
}

#[test]
fn metadata_response_rejects_malformed() {
    assert!(parse_metadata_response(&b"OK START\n3 100 a\0\n".to_vec()).is_none());
    assert!(parse_metadata_response(&b"OK START\nEND\ngarbage".to_vec()).is_none());
    assert!(parse_metadata_response(&b"ERR Invalid command x\n".to_vec()).is_none());
    assert!(parse_metadata_response(&b"OK START\n3 a\0\nEND\n".to_vec()).is_none());
    assert!(parse_metadata_response(&b"OK START\nEND\n".to_vec()).unwrap().is_empty());
}

#[test]
fn checksum_response_round_trip() {
    let resp = format_checksum_response(&"abc123".to_string());
    assert_eq!(resp, b"OK abc123\n".to_vec());
    assert_eq!(parse_checksum_response(&resp).unwrap(), b"abc123".to_vec());
    assert!(parse_checksum_response(&b"ERR Invalid command y\n".to_vec()).is_none());
    assert!(parse_checksum_response(&b"OK two\nlines\n".to_vec()).is_none());
}

#[test]
fn session_serves_checksum_and_metadata() {
    let mut server = InMemoryServer::new();
    assert!(server.add_file("f".to_string(), 10, b"test".to_vec()));

    let (resp, quit) = manage_client(&mut server, &b"checksum f\n".to_vec());
    assert!(!quit);
    assert_eq!(resp, b"OK a94a8fe5ccb19ba61c4c0873d391e987982fbbd3\n".to_vec());

    let (resp, quit) = manage_client(&mut server, &b"metadata whatever\n".to_vec());
    assert!(!quit);
    assert_eq!(resp, b"OK START\n4 10 f\0\nEND\n".to_vec());

    let (resp, quit) = manage_client(&mut server, &b"checksum missing\n".to_vec());
    assert!(!quit);
    assert_eq!(resp, b"ERR Invalid command checksum missing\n".to_vec());

    let (resp, quit) = manage_client(&mut server, &b"nonsense here\n".to_vec());
    assert!(!quit);
    assert_eq!(resp, b"ERR Invalid command nonsense here\n".to_vec());

    let (resp, quit) = manage_client(&mut server, &b"exit\n".to_vec());
    assert!(quit);
    assert!(resp.is_empty());
}

#[test]
fn index_groups_by_fingerprint_in_order() {
    let items = vec![
        meta("a", 1, 1),
        meta("b", 2, 1),
        meta("c", 1, 1),
        meta("d", 1, 2),
    ];
    let idx = build_index(&items);
    assert_eq!(idx.buckets.len(), 3);
    assert_eq!(idx.buckets[0].paths, vec!["a".to_string(), "c".to_string()]);
    assert_eq!(idx.buckets[1].paths, vec!["b".to_string()]);
    assert_eq!(idx.buckets[2].paths, vec!["d".to_string()]);
    assert_eq!(idx.find_bucket(1, 1), Some(0));
    assert_eq!(idx.find_bucket(9, 9), None);
    assert!(idx.contains_path(&"d".to_string()));
    assert!(!idx.contains_path(&"e".to_string()));

    let mut fresh = MetadataIndex::new();
    fresh.insert("solo".to_string(), 5, 6);
    assert_eq!(fresh.buckets.len(), 1);
}

#[test]
fn reader_yields_in_order() {
    let mut reader = MetadataReader::new(vec![meta("x", 1, 2), meta("y", 3, 4)]);
    let first = reader.next().unwrap();
    assert_eq!(first.path, "x");
    let second = reader.next().unwrap();
    assert_eq!(second.path, "y");
    assert!(reader.next().is_none());
}
