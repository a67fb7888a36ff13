use nix_tree::cli::{parse_args, ArgError};

fn args(v: &[&str]) -> Vec<String> {
    std::iter::once("nix-tree")
        .chain(v.iter().copied())
        .map(|s| s.to_string())
        .collect()
}

#[test]
fn paths_and_flags() {
    let c = parse_args(&args(&["/nix/store/a-x", "-d", "--store", "local", "b"])).ok().unwrap();
    assert_eq!(c.paths, vec!["/nix/store/a-x", "b"]);
    assert!(c.derivation);
    assert_eq!(c.store, Some("local".to_string()));
    assert!(!c.help);
    assert!(!c.version);
}

#[test]
fn store_with_equals() {
    let c = parse_args(&args(&["--store=daemon"])).ok().unwrap();
    assert_eq!(c.store, Some("daemon".to_string()));
    assert!(c.paths.is_empty());
}

#[test]
fn no_arguments() {
    let c = parse_args(&args(&[])).ok().unwrap();
    assert!(c.paths.is_empty());
    assert_eq!(c.store, None);
    assert!(!c.derivation);
}

#[test]
fn help_and_version_stop_reading() {
    let c = parse_args(&args(&["a", "--help", "--bogus"])).ok().unwrap();
    assert!(c.help);
    assert_eq!(c.paths, vec!["a"]);
    let c = parse_args(&args(&["-v"])).ok().unwrap();
    assert!(c.version);
}

#[test]
fn store_without_value_is_an_error() {
    assert!(matches!(
        parse_args(&args(&["--store"])),
        Err(ArgError::MissingStoreValue)
    ));
}

#[test]
fn unknown_option_is_an_error() {
    match parse_args(&args(&["a", "--frobnicate"])) {
        Err(ArgError::UnknownOption(s)) => assert_eq!(s, "--frobnicate"),
        _ => panic!("expected an unknown option"),
    }
}
