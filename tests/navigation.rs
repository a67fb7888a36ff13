use nix_tree::navigator::{App, Key, Pane};
use nix_tree::path_stats::{calculate_stats, SortOrder};
use nix_tree::status::Status;
use nix_tree::store_path::{StorePath, StorePathGraph};

fn id(name: &str) -> String {
    format!("/nix/store/h{}-{}", name.to_lowercase(), name)
}

fn node(name: &str, size: u64, refs: &[&str]) -> StorePath {
    StorePath::new(
        id(name),
        size,
        None,
        refs.iter().map(|r| id(r)).collect(),
        Vec::new(),
    )
    .unwrap()
}

fn app_with_roots(roots: &[&str]) -> App {
    let mut g = StorePathGraph::new();
    for n in [
        node("R", 10, &["A", "B"]),
        node("A", 20, &["C"]),
        node("B", 15, &["C"]),
        node("C", 5, &[]),
        node("Tool", 1, &[]),
    ] {
        g.add_path(n);
    }
    g.roots = roots.iter().map(|r| id(r)).collect();
    g.disambiguate_names();
    let stats = calculate_stats(&g);
    App::new(g, stats)
}

fn app() -> App {
    app_with_roots(&["R", "Tool"])
}

#[test]
fn new_browses_sorted_roots() {
    let a = app_with_roots(&["Tool", "R"]);
    assert_eq!(a.current_items, vec![id("R"), id("Tool")]);
    assert_eq!(a.current_selected, Some(0));
    assert_eq!(a.current_path, Some(id("R")));
    assert_eq!(a.next_items, vec![id("A"), id("B")]);
    assert!(a.previous_items.is_empty());
    assert_eq!(a.next_selected, Some(0));
    assert_eq!(a.previous_selected, None);
    assert_eq!(a.sort_order, SortOrder::Alphabetical);
}

#[test]
fn new_without_roots_is_empty() {
    let mut a = app_with_roots(&[]);
    assert!(a.current_items.is_empty());
    assert_eq!(a.current_selected, None);
    assert_eq!(a.current_path, None);
    assert!(!a.handle_key(Key::Down));
    assert!(!a.handle_key(Key::Right));
    assert_eq!(a.current_selected, None);
}

#[test]
fn descend_then_back_restores_view() {
    let mut a = app();
    assert!(!a.handle_key(Key::Down));
    assert!(!a.handle_key(Key::Up));
    let items = a.current_items.clone();
    let selected = a.current_selected;
    let focus = a.current_path.clone();
    assert!(!a.handle_key(Key::Right));
    assert_eq!(a.current_items, vec![id("A"), id("B")]);
    assert_eq!(a.history.len(), 1);
    assert_eq!(a.previous_items, vec![id("R")]);
    assert_eq!(a.next_items, vec![id("C")]);
    assert!(!a.handle_key(Key::Char('h')));
    assert_eq!(a.current_items, items);
    assert_eq!(a.current_selected, selected);
    assert_eq!(a.current_path, focus);
    assert!(a.history.is_empty());
}

#[test]
fn back_with_empty_history_does_nothing() {
    let mut a = app();
    assert!(!a.handle_key(Key::Left));
    assert_eq!(a.current_items, vec![id("R"), id("Tool")]);
    assert_eq!(a.current_selected, Some(0));
}

#[test]
fn descend_without_references_does_nothing() {
    let mut a = app();
    assert!(!a.handle_key(Key::Char('j')));
    assert_eq!(a.current_path, Some(id("Tool")));
    assert!(a.next_items.is_empty());
    assert!(!a.handle_key(Key::Enter));
    assert_eq!(a.current_items, vec![id("R"), id("Tool")]);
    assert!(a.history.is_empty());
}

#[test]
fn cursor_is_clamped() {
    let mut a = app();
    assert!(!a.handle_key(Key::Down));
    assert!(!a.handle_key(Key::Down));
    assert_eq!(a.current_selected, Some(1));
    assert!(!a.handle_key(Key::Char('k')));
    assert!(!a.handle_key(Key::Up));
    assert_eq!(a.current_selected, Some(0));
    assert_eq!(a.current_path, Some(id("R")));
}

#[test]
fn search_without_match_keeps_view() {
    let mut a = app();
    assert!(!a.handle_key(Key::Right));
    let items = a.current_items.clone();
    let selected = a.current_selected;
    let history = a.history.len();
    assert!(!a.handle_key(Key::Char('/')));
    assert!(a.searching);
    for c in "zzz".chars() {
        assert!(!a.handle_key(Key::Char(c)));
    }
    assert!(!a.handle_key(Key::Enter));
    assert!(!a.searching);
    assert_eq!(a.current_items, items);
    assert_eq!(a.current_selected, selected);
    assert_eq!(a.history.len(), history);
}

#[test]
fn search_ignores_case_and_spans_graph() {
    let mut a = app();
    assert!(!a.handle_key(Key::Char('/')));
    assert!(!a.handle_key(Key::Char('c')));
    assert!(!a.handle_key(Key::Enter));
    assert_eq!(a.current_items, vec![id("C")]);
    assert_eq!(a.current_selected, Some(0));
    assert_eq!(a.current_path, Some(id("C")));
    assert_eq!(a.previous_items, vec![id("A"), id("B")]);
    assert!(a.history.is_empty());
}

#[test]
fn search_text_editing() {
    let mut a = app();
    assert!(!a.handle_key(Key::Char('/')));
    assert!(!a.handle_key(Key::Char('q')));
    assert!(!a.handle_key(Key::Char('T')));
    assert_eq!(a.search_query, "qT");
    assert!(!a.handle_key(Key::Backspace));
    assert!(!a.handle_key(Key::Backspace));
    assert!(!a.handle_key(Key::Backspace));
    assert_eq!(a.search_query, "");
    assert!(!a.handle_key(Key::Char('t')));
    assert!(!a.handle_key(Key::Char('O')));
    assert!(!a.handle_key(Key::Enter));
    assert_eq!(a.current_items, vec![id("Tool")]);
}

#[test]
fn escape_cancels_search() {
    let mut a = app();
    assert!(!a.handle_key(Key::Char('/')));
    assert!(!a.handle_key(Key::Char('c')));
    assert!(!a.handle_key(Key::Esc));
    assert!(!a.searching);
    assert_eq!(a.search_query, "");
    assert_eq!(a.current_items, vec![id("R"), id("Tool")]);
}

#[test]
fn empty_search_does_nothing() {
    let mut a = app();
    assert!(!a.handle_key(Key::Char('/')));
    assert!(!a.handle_key(Key::Enter));
    assert_eq!(a.current_items, vec![id("R"), id("Tool")]);
}

#[test]
fn help_overlay_and_quit_priority() {
    let mut a = app();
    assert!(!a.handle_key(Key::Char('?')));
    assert!(a.show_help);
    assert!(!a.handle_key(Key::Down));
    assert_eq!(a.current_selected, Some(0));
    assert!(!a.handle_key(Key::Char('q')));
    assert!(!a.show_help);
    assert!(!a.handle_key(Key::Char('?')));
    assert!(!a.handle_key(Key::Char('?')));
    assert!(!a.show_help);
    assert!(a.handle_key(Key::Esc));
    assert!(a.handle_key(Key::Char('q')));
}

#[test]
fn cycling_sort_resorts_lists_in_place() {
    let mut a = app();
    assert!(!a.handle_key(Key::Right));
    assert_eq!(a.current_items, vec![id("A"), id("B")]);
    assert!(!a.handle_key(Key::Char('s')));
    assert_eq!(a.sort_order, SortOrder::ClosureSize);
    assert_eq!(a.current_items, vec![id("A"), id("B")]);
    assert!(!a.handle_key(Key::Down));
    assert_eq!(a.current_path, Some(id("B")));
    assert!(!a.handle_key(Key::Char('s')));
    assert_eq!(a.sort_order, SortOrder::AddedSize);
    assert!(!a.handle_key(Key::Char('s')));
    assert_eq!(a.sort_order, SortOrder::Alphabetical);
    assert_eq!(a.current_selected, Some(1));
}

#[test]
fn pane_to_the_left() {
    assert_eq!(Pane::Previous.previous(), Pane::Previous);
    assert_eq!(Pane::Current.previous(), Pane::Previous);
    assert_eq!(Pane::Next.previous(), Pane::Current);
}

#[test]
fn parents_preview_caps_at_five() {
    let mut g = StorePathGraph::new();
    let names = ["P1", "P2", "P3", "P4", "P5", "P6"];
    for n in names {
        g.add_path(node(n, 1, &["C"]));
    }
    g.add_path(node("C", 1, &[]));
    let stats = calculate_stats(&g);
    let parents = &stats[g.index_of(&id("C")).unwrap()].immediate_parents;
    assert_eq!(parents.len(), 6);
    let (shown, more) = nix_tree::navigator::parents_preview(&g, parents);
    assert_eq!(shown, vec!["P1", "P2", "P3", "P4", "P5"]);
    assert!(more);
    let few = vec![id("P1"), id("missing"), id("P2")];
    let (shown, more) = nix_tree::navigator::parents_preview(&g, &few);
    assert_eq!(shown, vec!["P1", "P2"]);
    assert!(!more);
}

#[test]
fn status_describes_focus() {
    let mut g = StorePathGraph::new();
    let mut r = node("R", 10, &["A", "B"]);
    r.signatures = vec!["k1:x".to_string(), "k2:y".to_string()];
    g.add_path(r);
    g.add_path(node("A", 1500, &["C"]));
    g.add_path(node("B", 15, &["C"]));
    g.add_path(node("C", 5, &[]));
    g.roots = vec![id("C"), id("R")];
    let stats = calculate_stats(&g);
    let mut a = App::new(g, stats);
    match a.status() {
        Status::Known(info) => {
            assert_eq!(info.path, id("C"));
            assert_eq!(info.nar_size, "5 B");
            assert_eq!(info.closure_size, "5 B");
            assert_eq!(info.added_size, "5 B");
            assert_eq!(info.signatures, "none");
            assert_eq!(info.parents_count, 2);
            assert_eq!(info.parents_preview, "A, B");
        }
        _ => panic!("expected a known artifact"),
    }
    assert!(!a.handle_key(Key::Down));
    match a.status() {
        Status::Known(info) => {
            assert_eq!(info.path, id("R"));
            assert_eq!(info.closure_size, "1.5 KB");
            assert_eq!(info.signatures, "k1:x, k2:y");
            assert_eq!(info.parents_count, 0);
            assert_eq!(info.parents_preview, "");
        }
        _ => panic!("expected a known artifact"),
    }
}

#[test]
fn status_without_focus() {
    let a = app_with_roots(&[]);
    assert!(matches!(a.status(), Status::NoSelection));
    let mut g = StorePathGraph::new();
    g.roots = vec!["/nix/store/hz-absent".to_string()];
    let b = App::new(g, Vec::new());
    match b.status() {
        Status::Unknown(p) => assert_eq!(p, "/nix/store/hz-absent"),
        _ => panic!("expected an unknown artifact"),
    }
}
