use mvsync::args::parse_args;

fn argv(parts: &[&str]) -> Vec<String> {
    parts.iter().map(|p| p.to_string()).collect()
}

#[test]
fn test_incorrect_option() {
    let args = argv(&["./target/mvsync", "/source", "/destination", "--this-flag-does-not-exists"]);
    assert!(parse_args(&args).is_none());
}

#[test]
fn plain_invocation() {
    let config = parse_args(&argv(&["mvsync", "/old", "/new"])).unwrap();
    assert!(!config.server_mode);
    assert_eq!(config.source, "/old");
    assert_eq!(config.destination, "/new");
    assert!(!config.dry_run);
    assert!(!config.verbose);
    assert!(config.checksums);
    assert!(!config.use_external_process);
    assert_eq!(config.ssh_port, 22);
}

#[test]
fn all_flags() {
    let config = parse_args(
        &argv(&[
            "mvsync",
            "--dry-run",
            "host:/old",
            "--verbose",
            "/new",
            "--no-checksums",
            "--use-external-process",
            "--ssh-port",
            "2222",
        ]),
    ).unwrap();
    assert!(config.dry_run);
    assert!(config.verbose);
    assert!(!config.checksums);
    assert!(config.use_external_process);
    assert_eq!(config.ssh_port, 2222);
    assert_eq!(config.source, "host:/old");
    assert_eq!(config.destination, "/new");
}

#[test]
fn server_mode() {
    let config = parse_args(&argv(&["mvsync", "--server"])).unwrap();
    assert!(config.server_mode);
    assert!(parse_args(&argv(&["mvsync", "--server", "x"])).is_none());
}

#[test]
fn rejected_invocations() {
    assert!(parse_args(&argv(&["mvsync", "/only-one"])).is_none());
    assert!(parse_args(&argv(&["mvsync", "/a", "/b", "/c"])).is_none());
    assert!(parse_args(&argv(&["mvsync", "/a", "/b", "--ssh-port"])).is_none());
    assert!(parse_args(&argv(&["mvsync", "/a", "/b", "--ssh-port", "nan"])).is_none());
}
