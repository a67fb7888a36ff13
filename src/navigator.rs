//! The three-pane navigator: the list being browsed, the referrers and the
//! references of its selected item, a history of descents, search, help and
//! sort-order cycling, driven one key at a time.
use vstd::prelude::*;

use crate::path_stats::{
    node_of, sort_outcome, sort_paths, stably_sorted_from, stats_for, PathStats,
    SortOrder,
};
use crate::store_path::{has_id, ids, ids_unique, present_refs, StorePath, StorePathGraph};
use crate::text::{is_substring, lower_of, matches_ignoring_case, pop_char, push_char};

verus! {

/// One of the three visible lists.
#[derive(Clone, Copy, Debug, PartialEq, Eq, Structural)]
pub enum Pane {
    Previous,
    Current,
    Next,
}

impl Pane {
    pub open spec fn spec_previous(self) -> Pane {
        match self {
            Pane::Previous => Pane::Previous,
            Pane::Current => Pane::Previous,
            Pane::Next => Pane::Current,
        }
    }

    /// The pane to the left of this one; the leftmost stays where it is.
    pub fn previous(&self) -> (r: Pane)
        ensures
            r == self.spec_previous(),
    {
        match self {
            Pane::Previous => Pane::Previous,
            Pane::Current => Pane::Previous,
            Pane::Next => Pane::Current,
        }
    }
}

/// A key press, as the navigator sees it.
#[derive(Clone, Copy, Debug, PartialEq, Eq, Structural)]
pub enum Key {
    Char(char),
    Up,
    Down,
    Left,
    Right,
    Enter,
    Esc,
    Backspace,
    Other,
}

/// A list that was browsed before a descent, with its cursor.
pub struct HistoryEntry {
    pub items: Vec<String>,
    pub selected: Option<usize>,
}

/// The navigator state.
pub struct App {
    pub graph: StorePathGraph,
    pub stats: Vec<PathStats>,
    pub sort_order: SortOrder,
    pub show_help: bool,
    pub searching: bool,
    pub search_query: String,
    pub previous_items: Vec<String>,
    pub current_items: Vec<String>,
    pub next_items: Vec<String>,
    pub previous_selected: Option<usize>,
    pub current_selected: Option<usize>,
    pub next_selected: Option<usize>,
    pub history: Vec<HistoryEntry>,
    /// The identifier in focus, shown on the status line.
    pub current_path: Option<String>,
}

/// A cursor points into a non-empty list and is unset on an empty one.
pub open spec fn cursor_ok(len: int, sel: Option<usize>) -> bool {
    match sel {
        Some(i) => (i as int) < len,
        None => len == 0,
    }
}

/// The cursor a freshly filled list starts with.
pub open spec fn first_cursor(len: int) -> Option<usize> {
    if len > 0 {
        Some(0usize)
    } else {
        None
    }
}

/// The recorded referrers of `id`; empty when `id` is not a node.
pub open spec fn parent_ids(p: Seq<StorePath>, st: Seq<PathStats>, id: Seq<char>) -> Seq<
    Seq<char>,
> {
    if has_id(p, id) {
        ids(st[node_of(p, id)].immediate_parents@)
    } else {
        Seq::empty()
    }
}

/// The present references of `id`; empty when `id` is not a node.
pub open spec fn child_ids(p: Seq<StorePath>, id: Seq<char>) -> Seq<Seq<char>> {
    if has_id(p, id) {
        present_refs(p, p[node_of(p, id)].references@)
    } else {
        Seq::empty()
    }
}

/// Identifiers of the first `k` nodes whose display name contains `q`,
/// ignoring case, in graph order.
pub open spec fn matching_upto(p: Seq<StorePath>, q: Seq<char>, k: int) -> Seq<Seq<char>>
    decreases k,
{
    if k <= 0 {
        Seq::empty()
    } else {
        let rest = matching_upto(p, q, k - 1);
        if is_substring(lower_of(p[k - 1].name@), lower_of(q)) {
            rest.push(p[k - 1].path@)
        } else {
            rest
        }
    }
}

/// Identifiers of all nodes whose display name contains `q`, ignoring case.
pub open spec fn search_matches(p: Seq<StorePath>, q: Seq<char>) -> Seq<Seq<char>> {
    matching_upto(p, q, p.len() as int)
}

/// Graph and statistics are the same.
pub open spec fn same_data(a: App, b: App) -> bool {
    a.graph == b.graph && a.stats == b.stats
}

/// Sort order, overlays and search text are the same.
pub open spec fn same_modes(a: App, b: App) -> bool {
    &&& a.sort_order == b.sort_order
    &&& a.show_help == b.show_help
    &&& a.searching == b.searching
    &&& a.search_query == b.search_query
}

/// The three lists, their cursors, the history and the focus are the same.
pub open spec fn same_lists(a: App, b: App) -> bool {
    &&& a.previous_items == b.previous_items
    &&& a.current_items == b.current_items
    &&& a.next_items == b.next_items
    &&& a.previous_selected == b.previous_selected
    &&& a.current_selected == b.current_selected
    &&& a.next_selected == b.next_selected
    &&& a.history == b.history
    &&& a.current_path == b.current_path
}

/// Only the search text changed, to `q`.
pub open spec fn query_set(a: App, b: App, q: Seq<char>) -> bool {
    &&& same_data(a, b)
    &&& same_lists(a, b)
    &&& a.sort_order == b.sort_order
    &&& a.show_help == b.show_help
    &&& a.searching == b.searching
    &&& b.search_query@ == q
}

/// Only the help overlay changed, to `on`.
pub open spec fn help_set(a: App, b: App, on: bool) -> bool {
    &&& same_data(a, b)
    &&& same_lists(a, b)
    &&& a.sort_order == b.sort_order
    &&& a.searching == b.searching
    &&& a.search_query == b.search_query
    &&& b.show_help == on
}

/// Search mode was entered, or left, with an empty search text.
pub open spec fn search_mode_set(a: App, b: App, on: bool) -> bool {
    &&& same_data(a, b)
    &&& same_lists(a, b)
    &&& a.sort_order == b.sort_order
    &&& a.show_help == b.show_help
    &&& b.searching == on
    &&& b.search_query@ == Seq::<char>::empty()
}

/// The current list, its cursor and the history are the same; the side
/// panes and the focus were derived afresh.
pub open spec fn refreshed_from(a: App, b: App) -> bool {
    &&& same_data(a, b)
    &&& same_modes(a, b)
    &&& b.current_items == a.current_items
    &&& b.current_selected == a.current_selected
    &&& b.history == a.history
    &&& b.panes_refreshed()
}

/// The cursor moved one item down, stopping at the last item.
pub open spec fn moved_down(a: App, b: App) -> bool {
    if a.current_items@.len() == 0 {
        b == a
    } else {
        let next = match a.current_selected {
            Some(i) => if i + 1 < a.current_items@.len() {
                (i + 1) as usize
            } else {
                i
            },
            None => 0usize,
        };
        &&& same_data(a, b)
        &&& same_modes(a, b)
        &&& b.current_items == a.current_items
        &&& b.current_selected == Some(next)
        &&& b.history == a.history
        &&& b.panes_refreshed()
    }
}

/// The cursor moved one item up, stopping at the first item.
pub open spec fn moved_up(a: App, b: App) -> bool {
    match a.current_selected {
        Some(i) => if i > 0 {
            &&& same_data(a, b)
            &&& same_modes(a, b)
            &&& b.current_items == a.current_items
            &&& b.current_selected == Some((i - 1) as usize)
            &&& b.history == a.history
            &&& b.panes_refreshed()
        } else {
            b == a
        },
        None => b == a,
    }
}

/// The selected item's references became the current list; the list left
/// behind, with its cursor, was pushed onto the history.
pub open spec fn descended(a: App, b: App) -> bool {
    &&& a.next_items@.len() > 0
    &&& same_data(a, b)
    &&& same_modes(a, b)
    &&& b.history@ == a.history@.push(
        (HistoryEntry { items: a.current_items, selected: a.current_selected }),
    )
    &&& b.current_items == a.next_items
    &&& b.current_selected == Some(0usize)
    &&& b.panes_refreshed()
}

/// The last history entry was popped and became the current list again.
pub open spec fn went_back(a: App, b: App) -> bool {
    &&& a.history@.len() > 0
    &&& same_data(a, b)
    &&& same_modes(a, b)
    &&& b.history@ == a.history@.drop_last()
    &&& b.current_items == a.history@.last().items
    &&& b.current_selected == a.history@.last().selected
    &&& b.panes_refreshed()
}

/// The sort order advanced and the three lists were sorted by it in place;
/// cursors stay at their positions.
pub open spec fn resorted(a: App, b: App) -> bool {
    let p = a.graph.paths@;
    let st = a.stats@;
    &&& same_data(a, b)
    &&& b.sort_order == a.sort_order.spec_next()
    &&& b.show_help == a.show_help
    &&& b.searching == a.searching
    &&& b.search_query == a.search_query
    &&& sort_outcome(p, st, b.sort_order, a.previous_items@, b.previous_items@)
    &&& sort_outcome(p, st, b.sort_order, a.current_items@, b.current_items@)
    &&& sort_outcome(p, st, b.sort_order, a.next_items@, b.next_items@)
    &&& b.previous_selected == a.previous_selected
    &&& b.current_selected == a.current_selected
    &&& b.next_selected == a.next_selected
    &&& b.history == a.history
    &&& b.current_path == a.current_path
}

/// The search text was run against every display name of the graph and
/// search mode was left. With matches, they became the current list, sorted,
/// with the cursor on the first; without (or with an empty text) the lists
/// stayed as they were. The history is never touched.
pub open spec fn searched(a: App, b: App) -> bool {
    let p = a.graph.paths@;
    let m = search_matches(p, a.search_query@);
    &&& same_data(a, b)
    &&& b.sort_order == a.sort_order
    &&& b.show_help == a.show_help
    &&& !b.searching
    &&& b.search_query == a.search_query
    &&& b.history == a.history
    &&& if a.search_query@.len() == 0 || m.len() == 0 {
        same_lists(a, b)
    } else {
        &&& stably_sorted_from(p, a.stats@, a.sort_order, m, b.current_items@)
        &&& b.current_selected == Some(0usize)
        &&& b.panes_refreshed()
    }
}

/// What one key press does, and whether it ends the session.
pub open spec fn key_effect(a: App, key: Key, b: App, quit: bool) -> bool {
    if a.searching {
        &&& !quit
        &&& match key {
            Key::Esc => search_mode_set(a, b, false),
            Key::Enter => searched(a, b),
            Key::Backspace => query_set(
                a,
                b,
                if a.search_query@.len() > 0 {
                    a.search_query@.drop_last()
                } else {
                    a.search_query@
                },
            ),
            Key::Char(c) => query_set(a, b, a.search_query@.push(c)),
            _ => b == a,
        }
    } else if a.show_help {
        &&& !quit
        &&& match key {
            Key::Char('?') | Key::Char('q') | Key::Esc => help_set(a, b, false),
            _ => b == a,
        }
    } else {
        match key {
            Key::Char('q') | Key::Esc => quit && b == a,
            Key::Char('?') => !quit && help_set(a, b, true),
            Key::Char('/') => !quit && search_mode_set(a, b, true),
            Key::Char('s') => !quit && resorted(a, b),
            Key::Down | Key::Char('j') => !quit && moved_down(a, b),
            Key::Up | Key::Char('k') => !quit && moved_up(a, b),
            Key::Left | Key::Char('h') => !quit && if a.history@.len() > 0 {
                went_back(a, b)
            } else {
                b == a
            },
            Key::Right | Key::Char('l') | Key::Enter => !quit && if a.next_items@.len() > 0 {
                descended(a, b)
            } else {
                b == a
            },
            _ => !quit && b == a,
        }
    }
}

/// An exact copy of a list of identifiers.
fn copy_ids(v: &Vec<String>) -> (r: Vec<String>)
    ensures
        r@ == v@,
{
    let mut r: Vec<String> = Vec::new();
    let mut k: usize = 0;
    while k < v.len()
        invariant
            k <= v@.len(),
            r@ == v@.subrange(0, k as int),
        decreases v@.len() - k,
    {
        r.push(v[k].clone());
        k = k + 1;
    }
    assert(r@ =~= v@);
    r
}

impl App {
    /// Graph and statistics agree, and every cursor fits its list.
    pub open spec fn wf(&self) -> bool {
        &&& self.wf_core()
        &&& cursor_ok(self.previous_items@.len() as int, self.previous_selected)
        &&& cursor_ok(self.next_items@.len() as int, self.next_selected)
    }

    /// Graph and statistics agree, and the cursors of the current list and
    /// of the history fit their lists.
    pub open spec fn wf_core(&self) -> bool {
        &&& self.graph.wf()
        &&& stats_for(self.graph.paths@, self.stats@)
        &&& cursor_ok(self.current_items@.len() as int, self.current_selected)
        &&& forall|k: int|
            0 <= k < self.history@.len() ==> cursor_ok(
                (#[trigger] self.history@[k]).items@.len() as int,
                self.history@[k].selected,
            )
    }

    /// The side panes hold the referrers and the references of the selected
    /// item, sorted by the active order, each with its cursor on the first
    /// item; the selected item is in focus. With nothing selected all is empty.
    pub open spec fn panes_refreshed(&self) -> bool {
        let p = self.graph.paths@;
        let st = self.stats@;
        match self.current_selected {
            Some(c) => {
                let id = self.current_items@[c as int];
                &&& self.current_path == Some(id)
                &&& stably_sorted_from(
                    p,
                    st,
                    self.sort_order,
                    parent_ids(p, st, id@),
                    self.previous_items@,
                )
                &&& stably_sorted_from(p, st, self.sort_order, child_ids(p, id@), self.next_items@)
                &&& self.previous_selected == first_cursor(self.previous_items@.len() as int)
                &&& self.next_selected == first_cursor(self.next_items@.len() as int)
            },
            None => {
                &&& self.previous_items@.len() == 0
                &&& self.next_items@.len() == 0
                &&& self.previous_selected.is_none()
                &&& self.next_selected.is_none()
                &&& self.current_path.is_none()
            },
        }
    }

    /// A navigator over `graph` browsing its roots, sorted by name, with the
    /// cursor on the first root.
    pub fn new(graph: StorePathGraph, stats: Vec<PathStats>) -> (r: App)
        requires
            graph.wf(),
            stats_for(graph.paths@, stats@),
        ensures
            r.wf(),
            r.graph == graph,
            r.stats == stats,
            r.sort_order == SortOrder::Alphabetical,
            !r.show_help,
            !r.searching,
            r.search_query@.len() == 0,
            r.history@.len() == 0,
            sort_outcome(graph.paths@, stats@, SortOrder::Alphabetical, graph.roots@, r.current_items@),
            r.current_selected == first_cursor(r.current_items@.len() as int),
            r.panes_refreshed(),
    {
        let mut items = copy_ids(&graph.roots);
        sort_paths(&mut items, &graph, &stats, SortOrder::Alphabetical);
        proof {
            broadcast use vstd::seq_lib::group_to_multiset_ensures;

            assert(ids(items@).to_multiset().len() == ids(graph.roots@).to_multiset().len());
        }
        let selected = if items.len() > 0 {
            Some(0)
        } else {
            None
        };
        let mut app = App {
            graph,
            stats,
            sort_order: SortOrder::Alphabetical,
            show_help: false,
            searching: false,
            search_query: String::new(),
            previous_items: Vec::new(),
            current_items: items,
            next_items: Vec::new(),
            previous_selected: None,
            current_selected: selected,
            next_selected: None,
            history: Vec::new(),
            current_path: None,
        };
        app.update_panes();
        app
    }

    /// Derives the side panes and the focus from the selected item.
    fn update_panes(&mut self)
        requires
            old(self).wf_core(),
        ensures
            final(self).wf(),
            refreshed_from(*old(self), *final(self)),
    {
        match self.current_selected {
            Some(c) => {
                let ghost p = self.graph.paths@;
                let ghost st = self.stats@;
                let id = self.current_items[c].clone();
                let (mut prev, mut next) = match self.graph.index_of(&id) {
                    Some(k) => {
                        proof {
                            let c2 = node_of(p, id@);
                            assert(ids_unique(p));
                            assert(p[c2].path@ == p[k as int].path@);
                        }
                        (copy_ids(&self.stats[k].immediate_parents), self.graph.get_references(&id))
                    },
                    None => {
                        assert(ids(Seq::<String>::empty()) =~= Seq::<Seq<char>>::empty());
                        (Vec::new(), Vec::new())
                    },
                };
                sort_paths(&mut prev, &self.graph, &self.stats, self.sort_order);
                sort_paths(&mut next, &self.graph, &self.stats, self.sort_order);
                self.previous_selected = if prev.len() > 0 {
                    Some(0)
                } else {
                    None
                };
                self.next_selected = if next.len() > 0 {
                    Some(0)
                } else {
                    None
                };
                self.previous_items = prev;
                self.next_items = next;
                self.current_path = Some(id);
            },
            None => {
                self.previous_items = Vec::new();
                self.next_items = Vec::new();
                self.previous_selected = None;
                self.next_selected = None;
                self.current_path = None;
            },
        }
    }

    /// Moves the cursor one item down, stopping at the last item.
    fn move_down(&mut self)
        requires
            old(self).wf(),
        ensures
            final(self).wf(),
            moved_down(*old(self), *final(self)),
    {
        let n = self.current_items.len();
        if n > 0 {
            let i = match self.current_selected {
                Some(i) => if i + 1 < n {
                    i + 1
                } else {
                    i
                },
                None => 0,
            };
            self.current_selected = Some(i);
            self.update_panes();
        }
    }

    /// Moves the cursor one item up, stopping at the first item.
    fn move_up(&mut self)
        requires
            old(self).wf(),
        ensures
            final(self).wf(),
            moved_up(*old(self), *final(self)),
    {
        if let Some(i) = self.current_selected {
            if i > 0 {
                self.current_selected = Some(i - 1);
                self.update_panes();
            }
        }
    }

    /// Goes back to the list browsed before the last descent.
    fn move_left(&mut self)
        requires
            old(self).wf(),
        ensures
            final(self).wf(),
            old(self).history@.len() > 0 ==> went_back(*old(self), *final(self)),
            old(self).history@.len() == 0 ==> *final(self) == *old(self),
    {
        if self.history.len() > 0 {
            let entry = self.history.pop().unwrap();
            self.current_items = entry.items;
            self.current_selected = entry.selected;
            self.update_panes();
        }
    }

    /// Descends into the references of the selected item.
    fn move_right(&mut self)
        requires
            old(self).wf(),
        ensures
            final(self).wf(),
            old(self).next_items@.len() > 0 ==> descended(*old(self), *final(self)),
            old(self).next_items@.len() == 0 ==> *final(self) == *old(self),
    {
        if self.next_items.len() > 0 {
            let mut items: Vec<String> = Vec::new();
            std::mem::swap(&mut items, &mut self.next_items);
            std::mem::swap(&mut items, &mut self.current_items);
            self.history.push(HistoryEntry { items, selected: self.current_selected });
            self.current_selected = Some(0);
            self.update_panes();
        }
    }

    /// Advances the sort order and re-sorts the three lists in place.
    fn resort_current_pane(&mut self)
        requires
            old(self).wf(),
        ensures
            final(self).wf(),
            resorted(*old(self), *final(self)),
    {
        self.sort_order = self.sort_order.next();
        let mut items: Vec<String> = Vec::new();
        std::mem::swap(&mut items, &mut self.current_items);
        sort_paths(&mut items, &self.graph, &self.stats, self.sort_order);
        std::mem::swap(&mut items, &mut self.current_items);
        std::mem::swap(&mut items, &mut self.previous_items);
        sort_paths(&mut items, &self.graph, &self.stats, self.sort_order);
        std::mem::swap(&mut items, &mut self.previous_items);
        std::mem::swap(&mut items, &mut self.next_items);
        sort_paths(&mut items, &self.graph, &self.stats, self.sort_order);
        std::mem::swap(&mut items, &mut self.next_items);
        proof {
            broadcast use vstd::seq_lib::group_to_multiset_ensures;

            assert(ids(self.current_items@).to_multiset().len() == ids(old(self).current_items@).to_multiset().len());
            assert(ids(self.previous_items@).to_multiset().len() == ids(old(self).previous_items@).to_multiset().len());
            assert(ids(self.next_items@).to_multiset().len() == ids(old(self).next_items@).to_multiset().len());
        }
    }

    /// Runs the search text against every display name of the graph.
    fn perform_search(&mut self)
        requires
            old(self).wf(),
        ensures
            final(self).wf(),
            same_data(*old(self), *final(self)),
            same_modes(*old(self), *final(self)),
            final(self).history == old(self).history,
            ({
                let p = old(self).graph.paths@;
                let m = search_matches(p, old(self).search_query@);
                if old(self).search_query@.len() == 0 || m.len() == 0 {
                    same_lists(*old(self), *final(self))
                } else {
                    &&& stably_sorted_from(p, old(self).stats@, old(self).sort_order, m, final(self).current_items@)
                    &&& final(self).current_selected == Some(0usize)
                    &&& final(self).panes_refreshed()
                }
            }),
    {
        if self.search_query.as_str().unicode_len() == 0 {
            return;
        }
        let ghost p = self.graph.paths@;
        let mut matching: Vec<String> = Vec::new();
        let mut k: usize = 0;
        while k < self.graph.paths.len()
            invariant
                p == self.graph.paths@,
                k <= p.len(),
                ids(matching@) == matching_upto(p, self.search_query@, k as int),
            decreases p.len() - k,
        {
            let ghost before = matching@;
            if matches_ignoring_case(&self.search_query, &self.graph.paths[k].name) {
                matching.push(self.graph.paths[k].path.clone());
                assert(ids(matching@) =~= ids(before).push(p[k as int].path@));
            }
            k = k + 1;
        }
        if matching.len() > 0 {
            let ghost unsorted = matching@;
            sort_paths(&mut matching, &self.graph, &self.stats, self.sort_order);
            proof {
                broadcast use vstd::seq_lib::group_to_multiset_ensures;

                assert(ids(matching@).to_multiset().len() == ids(unsorted).to_multiset().len());
            }
            self.current_items = matching;
            self.current_selected = Some(0);
            self.update_panes();
        } else {
            assert(ids(matching@).len() == 0);
        }
    }

    /// Applies one key press; returns whether the session ends.
    pub fn handle_key(&mut self, key: Key) -> (quit: bool)
        requires
            old(self).wf(),
        ensures
            final(self).wf(),
            key_effect(*old(self), key, *final(self), quit),
    {
        if self.searching {
            match key {
                Key::Esc => {
                    self.searching = false;
                    self.search_query = String::new();
                },
                Key::Enter => {
                    self.searching = false;
                    self.perform_search();
                },
                Key::Backspace => {
                    pop_char(&mut self.search_query);
                },
                Key::Char(c) => {
                    push_char(&mut self.search_query, c);
                },
                _ => {},
            }
            return false;
        }
        if self.show_help {
            match key {
                Key::Char('?') | Key::Char('q') | Key::Esc => {
                    self.show_help = false;
                },
                _ => {},
            }
            return false;
        }
        match key {
            Key::Char('q') | Key::Esc => {
                return true;
            },
            Key::Char('?') => {
                self.show_help = true;
            },
            Key::Char('/') => {
                self.searching = true;
                self.search_query = String::new();
            },
            Key::Char('s') => self.resort_current_pane(),
            Key::Down | Key::Char('j') => self.move_down(),
            Key::Up | Key::Char('k') => self.move_up(),
            Key::Left | Key::Char('h') => self.move_left(),
            Key::Right | Key::Char('l') | Key::Enter => self.move_right(),
            _ => {},
        }
        false
    }
}

/// How many referrers the status line names before it abbreviates.
pub const PREVIEW_LIMIT: usize = 5;

/// Display names of the identifiers in `v` that are nodes of `p`, in order.
pub open spec fn names_of_present(p: Seq<StorePath>, v: Seq<Seq<char>>) -> Seq<Seq<char>>
    decreases v.len(),
{
    if v.len() == 0 {
        Seq::empty()
    } else {
        let rest = names_of_present(p, v.drop_last());
        if has_id(p, v.last()) {
            rest.push(p[node_of(p, v.last())].name@)
        } else {
            rest
        }
    }
}

/// The display names of the first few `parents` that are nodes of the
/// graph, and whether `parents` holds more than are shown.
pub fn parents_preview(graph: &StorePathGraph, parents: &Vec<String>) -> (r: (Vec<String>, bool))
    requires
        graph.wf(),
    ensures
        ids(r.0@) == names_of_present(
            graph.paths@,
            ids(parents@).take(
                if parents@.len() > PREVIEW_LIMIT {
                    PREVIEW_LIMIT as int
                } else {
                    parents@.len() as int
                },
            ),
        ),
        r.1 == (parents@.len() > PREVIEW_LIMIT),
{
    let ghost p = graph.paths@;
    let shown = if parents.len() > PREVIEW_LIMIT {
        PREVIEW_LIMIT
    } else {
        parents.len()
    };
    let mut names: Vec<String> = Vec::new();
    let mut k: usize = 0;
    while k < shown
        invariant
            graph.wf(),
            p == graph.paths@,
            shown <= parents@.len(),
            k <= shown,
            ids(names@) == names_of_present(p, ids(parents@).take(k as int)),
        decreases shown - k,
    {
        let ghost before = names@;
        assert(ids(parents@).take(k + 1).drop_last() =~= ids(parents@).take(k as int));
        match graph.index_of(&parents[k]) {
            Some(i) => {
                proof {
                    let c = node_of(p, parents@[k as int]@);
                    assert(p[c].path@ == p[i as int].path@);
                }
                names.push(graph.paths[i].name.clone());
                assert(ids(names@) =~= ids(before).push(p[i as int].name@));
            },
            None => {},
        }
        k = k + 1;
    }
    (names, parents.len() > PREVIEW_LIMIT)
}

/// From browsing with a non-empty reference pane, descending and then going
/// back restores the current list, its cursor (so the selected identifier)
/// and the history.
pub proof fn lemma_descend_then_back(a: App, b: App, c: App, q1: bool, q2: bool)
    requires
        !a.searching,
        !a.show_help,
        a.next_items@.len() > 0,
        key_effect(a, Key::Right, b, q1),
        key_effect(b, Key::Left, c, q2),
    ensures
        !q1 && !q2,
        c.current_items == a.current_items,
        c.current_selected == a.current_selected,
        c.history@ == a.history@,
{
    assert(b.history@.len() > 0);
    assert(b.history@.drop_last() =~= a.history@);
}

/// A search that matches no display name leaves the current list, its
/// cursor and the history as they were.
pub proof fn lemma_search_without_match(a: App, b: App, q: bool)
    requires
        a.searching,
        key_effect(a, Key::Enter, b, q),
        search_matches(a.graph.paths@, a.search_query@).len() == 0,
    ensures
        !q,
        b.current_items == a.current_items,
        b.current_selected == a.current_selected,
        b.history == a.history,
{
}

} // verus!
