use nix_tree::store_path::{PathEntry, StorePath, StorePathGraph};

fn path(hash: &str, name: &str) -> String {
    format!("/nix/store/{}-{}", hash, name)
}

fn node(hash: &str, name: &str) -> StorePath {
    StorePath::new(path(hash, name), 1, None, Vec::new(), Vec::new()).unwrap()
}

#[test]
fn parse_splits_hash_and_name() {
    let (h, n) = StorePath::parse(&"/nix/store/abc123-hello-2.12".to_string()).unwrap();
    assert_eq!(h, "abc123");
    assert_eq!(n, "hello-2.12");
}

#[test]
fn parse_rejects_malformed_identifiers() {
    assert!(StorePath::parse(&"/usr/bin/abc-x".to_string()).is_none());
    assert!(StorePath::parse(&"/nix/store/-x".to_string()).is_none());
    assert!(StorePath::parse(&"/nix/store/abc".to_string()).is_none());
    assert!(StorePath::parse(&"/nix/sto".to_string()).is_none());
    assert!(StorePath::new("nope".to_string(), 1, None, Vec::new(), Vec::new()).is_none());
}

#[test]
fn new_keeps_metadata() {
    let sp = StorePath::new(
        path("h1", "pkg"),
        7,
        Some(9),
        vec![path("h2", "dep")],
        vec!["sig".to_string()],
    )
    .unwrap();
    assert_eq!(sp.hash, "h1");
    assert_eq!(sp.short_name(), "pkg");
    assert_eq!(sp.nar_size, 7);
    assert_eq!(sp.closure_size, Some(9));
    assert_eq!(sp.references, vec![path("h2", "dep")]);
    assert_eq!(sp.signatures, vec!["sig".to_string()]);
}

#[test]
fn add_path_last_write_wins() {
    let mut g = StorePathGraph::new();
    g.add_path(node("h1", "a"));
    let mut again = node("h1", "a");
    again.nar_size = 99;
    g.add_path(again);
    g.add_path(node("h2", "b"));
    assert_eq!(g.paths.len(), 2);
    assert_eq!(g.get_path(&path("h1", "a")).unwrap().nar_size, 99);
    assert!(g.get_path(&path("h3", "c")).is_none());
}

#[test]
fn referrers_in_graph_order() {
    let mut g = StorePathGraph::new();
    let mut a = node("ha", "a");
    a.references = vec![path("hc", "c")];
    let mut b = node("hb", "b");
    b.references = vec![path("hc", "c"), path("hx", "missing")];
    g.add_path(a);
    g.add_path(b);
    g.add_path(node("hc", "c"));
    assert_eq!(
        g.get_referrers(&path("hc", "c")),
        vec![path("ha", "a"), path("hb", "b")]
    );
    assert_eq!(g.get_referrers(&path("hx", "missing")), vec![path("hb", "b")]);
    assert_eq!(g.get_references(&path("hb", "b")), vec![path("hc", "c")]);
}

#[test]
fn disambiguation_makes_equal_names_distinct() {
    let mut g = StorePathGraph::new();
    g.add_path(node("h1", "glibc"));
    g.add_path(node("h2", "glibc"));
    g.add_path(node("h3", "bash"));
    g.disambiguate_names();
    let n1 = g.paths[0].name.clone();
    let n2 = g.paths[1].name.clone();
    assert_ne!(n1, n2);
    assert_eq!(n1, "h1-glibc");
    assert_eq!(n2, "h2-glibc");
    assert_eq!(g.paths[2].name, "bash");
    assert_eq!(g.get_path(&path("h1", "glibc")).unwrap().name, n1);
    assert_eq!(g.get_path(&path("h2", "glibc")).unwrap().name, n2);
    let back: Vec<&String> = g.paths.iter().filter(|p| p.name == n1).map(|p| &p.path).collect();
    assert_eq!(back, vec![&path("h1", "glibc")]);
}

#[test]
fn disambiguation_avoids_clash_with_qualified_form() {
    let mut g = StorePathGraph::new();
    g.add_path(node("h1", "x"));
    g.add_path(node("h2", "x"));
    g.add_path(node("h9", "h1-x"));
    g.disambiguate_names();
    let names: Vec<String> = g.paths.iter().map(|p| p.name.clone()).collect();
    assert_eq!(names, vec!["h1-x", "h2-x", "h9-h1-x"]);
}

#[test]
fn disambiguation_leaves_unique_names() {
    let mut g = StorePathGraph::new();
    g.add_path(node("h1", "a"));
    g.add_path(node("h2", "b"));
    g.disambiguate_names();
    assert_eq!(g.paths[0].name, "a");
    assert_eq!(g.paths[1].name, "b");
}

#[test]
fn disambiguation_keeps_name_equal_to_unqualified_form() {
    let mut g = StorePathGraph::new();
    g.add_path(node("abc", "foo"));
    g.add_path(node("h", "abc-foo"));
    g.disambiguate_names();
    assert_eq!(g.paths[0].name, "foo");
    assert_eq!(g.paths[1].name, "abc-foo");
}

fn entry(hash: &str, name: &str, size: u64) -> PathEntry {
    PathEntry {
        path: path(hash, name),
        nar_size: size,
        closure_size: None,
        references: Vec::new(),
        signatures: Vec::new(),
    }
}

#[test]
fn from_entries_builds_disambiguated_graph() {
    let entries = vec![
        entry("h1", "glibc", 1),
        entry("h2", "glibc", 2),
        entry("h3", "bash", 3),
        entry("h3", "bash", 30),
    ];
    let g = StorePathGraph::from_entries(entries, vec![path("h3", "bash")]).unwrap();
    assert_eq!(g.paths.len(), 3);
    assert_eq!(g.roots, vec![path("h3", "bash")]);
    let bash = g.get_path(&path("h3", "bash")).unwrap();
    assert_eq!(bash.nar_size, 30);
    assert_eq!(bash.name, "bash");
    assert_eq!(g.get_path(&path("h1", "glibc")).unwrap().name, "h1-glibc");
    assert_eq!(g.get_path(&path("h2", "glibc")).unwrap().name, "h2-glibc");
}

#[test]
fn from_entries_rejects_unparsable_identifier() {
    let mut bad = entry("h1", "x", 1);
    bad.path = "/tmp/x".to_string();
    assert!(StorePathGraph::from_entries(vec![entry("h2", "y", 1), bad], Vec::new()).is_none());
}
