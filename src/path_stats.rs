//! Size analytics over the artifact graph: closure size (deduplicated
//! reachable bytes) and added size (bytes not shared with sibling subtrees),
//! plus the orderings used to present artifacts.
use vstd::prelude::*;

use crate::store_path::{
    count_unmarked, edge, has_id, ids, lemma_mark_decreases, ids_unique, is_walk, present_refs, reachable, referrers, referrers_upto,
    refs_contain, StorePath, StorePathGraph,
};
use crate::text::{chars_gt, chars_of, lex_gt};

verus! {

/// Sum of the own sizes of the nodes among the first `n` that satisfy `pred`.
pub open spec fn size_where(p: Seq<StorePath>, pred: spec_fn(int) -> bool, n: int) -> nat
    decreases n,
{
    if n <= 0 {
        0
    } else {
        size_where(p, pred, n - 1) + if pred(n - 1) {
            p[n - 1].nar_size as nat
        } else {
            0
        }
    }
}

pub open spec fn any_node() -> spec_fn(int) -> bool {
    |k: int| true
}

/// Sum of the own sizes of all nodes.
pub open spec fn total_size(p: Seq<StorePath>) -> nat {
    size_where(p, any_node(), p.len() as int)
}

/// Membership in the closure of node `i`.
pub open spec fn in_closure(p: Seq<StorePath>, i: int) -> spec_fn(int) -> bool {
    |k: int| reachable(p, i, k)
}

/// Total bytes of node `i` and everything reachable from it, each node once.
pub open spec fn closure_size(p: Seq<StorePath>, i: int) -> nat {
    size_where(p, in_closure(p, i), p.len() as int)
}

/// `s` is a sibling of `i`: another node referenced by one of `i`'s referrers.
pub open spec fn sibling(p: Seq<StorePath>, i: int, s: int) -> bool {
    s != i && exists|q: int| #[trigger] edge(p, q, i) && edge(p, q, s)
}

/// Node `k` lies in the closure of some sibling of `i`.
pub open spec fn shared_with_siblings(p: Seq<StorePath>, i: int, k: int) -> bool {
    exists|s: int| #[trigger] sibling(p, i, s) && reachable(p, s, k)
}

/// Membership in the part of `i`'s closure that no sibling's closure covers.
pub open spec fn in_added(p: Seq<StorePath>, i: int) -> spec_fn(int) -> bool {
    |k: int| reachable(p, i, k) && !shared_with_siblings(p, i, k)
}

/// Bytes of `i`'s closure not shared with the closure of any sibling.
pub open spec fn added_size(p: Seq<StorePath>, i: int) -> nat {
    size_where(p, in_added(p, i), p.len() as int)
}

/// `m` marks exactly the closure of node `i`.
pub open spec fn closure_mask(p: Seq<StorePath>, i: int, m: Seq<bool>) -> bool {
    m.len() == p.len() && forall|k: int| 0 <= k < p.len() ==> m[k] == reachable(p, i, k)
}

/// A sum over fewer nodes is no larger than the same sum over all of them.
pub proof fn lemma_size_where_mono(
    p: Seq<StorePath>,
    a: spec_fn(int) -> bool,
    b: spec_fn(int) -> bool,
    n: int,
)
    requires
        forall|k: int| 0 <= k < n && #[trigger] a(k) ==> b(k),
    ensures
        size_where(p, a, n) <= size_where(p, b, n),
    decreases n,
{
    if n > 0 {
        lemma_size_where_mono(p, a, b, n - 1);
    }
}

/// Two predicates that agree on the first `n` nodes give the same sum.
pub proof fn lemma_size_where_ext(
    p: Seq<StorePath>,
    a: spec_fn(int) -> bool,
    b: spec_fn(int) -> bool,
    n: int,
)
    requires
        forall|k: int| 0 <= k < n ==> #[trigger] a(k) == b(k),
    ensures
        size_where(p, a, n) == size_where(p, b, n),
    decreases n,
{
    if n > 0 {
        lemma_size_where_ext(p, a, b, n - 1);
    }
}

/// A set of nodes that holds the start of a walk and is closed under edges
/// holds every node of the walk up to position `k`.
proof fn lemma_closed_covers(p: Seq<StorePath>, vis: Seq<bool>, w: Seq<int>, k: int)
    requires
        vis.len() == p.len(),
        is_walk(p, w),
        vis[w[0]],
        forall|v: int, x: int| 0 <= v < p.len() && vis[v] && #[trigger] edge(p, v, x) ==> vis[x],
        0 <= k < w.len(),
    ensures
        vis[w[k]],
    decreases k,
{
    if k > 0 {
        lemma_closed_covers(p, vis, w, k - 1);
        assert(edge(p, w[k - 1], w[k]));
    }
}

/// Every node is in its own closure.
proof fn lemma_reach_self(p: Seq<StorePath>, i: int)
    requires
        0 <= i < p.len(),
    ensures
        reachable(p, i, i),
{
    let w = seq![i];
    assert(is_walk(p, w));
}

/// One step past a reachable node is reachable.
proof fn lemma_reach_step(p: Seq<StorePath>, i: int, m: int, x: int)
    requires
        reachable(p, i, m),
        edge(p, m, x),
    ensures
        reachable(p, i, x),
{
    let w = choose|w: Seq<int>| #[trigger] is_walk(p, w) && w[0] == i && w.last() == m;
    let w2 = w.push(x);
    assert forall|k: int| 0 <= k < w2.len() - 1 implies edge(p, #[trigger] w2[k], w2[k + 1]) by {
        if k < w.len() - 1 {
            assert(edge(p, w[k], w[k + 1]));
        }
    }
    assert(is_walk(p, w2));
}

/// `adj` lists, for every node, the positions of the nodes it references.
pub open spec fn adjacency_of(p: Seq<StorePath>, adj: Seq<Vec<usize>>) -> bool {
    &&& adj.len() == p.len()
    &&& forall|m: int, x: int|
        0 <= m < p.len() && 0 <= x < adj[m]@.len() ==> edge(p, m, #[trigger] adj[m]@[x] as int)
    &&& forall|m: int, w: int| #[trigger] edge(p, m, w) ==> adj[m]@.contains(w as usize)
}

/// For every node, the positions of its references that are nodes, in order.
pub fn build_adjacency(graph: &StorePathGraph) -> (r: Vec<Vec<usize>>)
    requires
        graph.wf(),
    ensures
        adjacency_of(graph.paths@, r@),
{
    let ghost p = graph.paths@;
    let n = graph.paths.len();
    let mut adj: Vec<Vec<usize>> = Vec::new();
    while adj.len() < n
        invariant
            graph.wf(),
            p == graph.paths@,
            n == p.len(),
            adj@.len() <= n,
            forall|m: int, x: int|
                0 <= m < adj@.len() && 0 <= x < adj@[m]@.len() ==> edge(p, m, #[trigger] adj@[m]@[x] as int),
            forall|m: int, w: int| 0 <= m < adj@.len() && #[trigger] edge(p, m, w) ==> adj@[m]@.contains(w as usize),
        decreases n - adj@.len(),
    {
        let m = adj.len();
        let refs = &graph.paths[m].references;
        let mut row: Vec<usize> = Vec::new();
        let mut x: usize = 0;
        while x < refs.len()
            invariant
                graph.wf(),
                p == graph.paths@,
                n == p.len(),
                m < n,
                refs == &p[m as int].references,
                x <= refs@.len(),
                forall|y: int| 0 <= y < row@.len() ==> edge(p, m as int, #[trigger] row@[y] as int),
                forall|y: int, w: int|
                    0 <= y < x && 0 <= w < n && #[trigger] refs@[y]@ == #[trigger] p[w].path@ ==> row@.contains(w as usize),
            decreases refs@.len() - x,
        {
            let ghost before = row@;
            match graph.index_of(&refs[x]) {
                Some(w) => {
                    assert(edge(p, m as int, w as int));
                    row.push(w);
                    assert(row@[row@.len() - 1] == w);
                },
                None => {},
            }
            proof {
                assert forall|y: int, w: int|
                    0 <= y < x + 1 && 0 <= w < n && #[trigger] refs@[y]@ == #[trigger] p[w].path@ implies row@.contains(w as usize) by {
                    if y < x {
                        let z = choose|z: int| 0 <= z < before.len() && before[z] == w as usize;
                        assert(row@[z] == w as usize);
                    }
                }
            }
            x = x + 1;
        }
        proof {
            assert forall|w: int| #[trigger] edge(p, m as int, w) implies row@.contains(w as usize) by {
                let y = choose|y: int| 0 <= y < p[m as int].references.len() && #[trigger] p[m as int].references@[y]@ == p[w].path@;
                assert(refs@[y]@ == p[w].path@);
            }
        }
        adj.push(row);
    }
    adj
}

/// The closure of node `start`, as a mask over node positions: a worklist
/// traversal with a visited set, which also terminates on cyclic input.
pub fn calculate_closure_set(graph: &StorePathGraph, adj: &Vec<Vec<usize>>, start: usize) -> (r: Vec<bool>)
    requires
        graph.wf(),
        adjacency_of(graph.paths@, adj@),
        start < graph.paths@.len(),
    ensures
        closure_mask(graph.paths@, start as int, r@),
{
    let ghost p = graph.paths@;
    let n = graph.paths.len();
    let mut visited: Vec<bool> = Vec::new();
    while visited.len() < n
        invariant
            visited@.len() <= n,
            forall|k: int| 0 <= k < visited@.len() ==> !visited@[k],
        decreases n - visited@.len(),
    {
        visited.push(false);
    }
    let mut stack: Vec<usize> = vec![start];
    proof {
        lemma_reach_self(p, start as int);
    }
    while stack.len() > 0
        invariant
            graph.wf(),
            p == graph.paths@,
            adjacency_of(p, adj@),
            n == p.len(),
            start < n,
            visited@.len() == n,
            forall|k: int| 0 <= k < stack@.len() ==> (#[trigger] stack@[k]) < n,
            forall|k: int| 0 <= k < stack@.len() ==> reachable(p, start as int, #[trigger] stack@[k] as int),
            forall|k: int| 0 <= k < n && #[trigger] visited@[k] ==> reachable(p, start as int, k),
            forall|v: int, w: int|
                0 <= v < n && visited@[v] && #[trigger] edge(p, v, w) ==> visited@[w]
                    || stack@.contains(w as usize),
            visited@[start as int] || stack@.contains(start),
        decreases count_unmarked(visited@), stack@.len(),
    {
        let ghost before_stack = stack@;
        let ghost before_vis = visited@;
        let m = stack.pop().unwrap();
        let ghost popped = stack@;
        assert(before_stack == popped.push(m));
        if !visited[m] {
            proof {
                lemma_mark_decreases(visited@, m as int);
            }
            visited.set(m, true);
            let ghost vis = visited@;
            let row = &adj[m];
            let mut r: usize = 0;
            while r < row.len()
                invariant
                    graph.wf(),
                    p == graph.paths@,
                    adjacency_of(p, adj@),
                    n == p.len(),
                    start < n,
                    m < n,
                    row == &adj@[m as int],
                    reachable(p, start as int, m as int),
                    visited@ == vis,
                    vis.len() == n,
                    vis[m as int],
                    r <= row@.len(),
                    forall|k: int| 0 <= k < popped.len() ==> stack@[k] == popped[k],
                    popped.len() <= stack@.len(),
                    forall|k: int| 0 <= k < stack@.len() ==> (#[trigger] stack@[k]) < n,
                    forall|k: int|
                        0 <= k < stack@.len() ==> reachable(p, start as int, #[trigger] stack@[k] as int),
                    forall|k: int| 0 <= k < n && #[trigger] visited@[k] ==> reachable(p, start as int, k),
                    forall|x: int|
                        0 <= x < r ==> visited@[#[trigger] row@[x] as int] || stack@.contains(row@[x]),
                decreases row@.len() - r,
            {
                let ghost stack_before = stack@;
                let w = row[r];
                proof {
                    assert(edge(p, m as int, w as int));
                    lemma_reach_step(p, start as int, m as int, w as int);
                }
                if !visited[w] {
                    stack.push(w);
                    assert(stack@[stack@.len() - 1] == w);
                }
                proof {
                    assert forall|x: int|
                        0 <= x < r + 1 implies visited@[#[trigger] row@[x] as int] || stack@.contains(row@[x]) by {
                        if x < r && !visited@[row@[x] as int] {
                            let y = choose|y: int| 0 <= y < stack_before.len() && stack_before[y] == row@[x];
                            assert(stack@[y] == row@[x]);
                        }
                    }
                }
                r = r + 1;
            }
            assert forall|v: int, w: int|
                0 <= v < n && visited@[v] && #[trigger] edge(p, v, w) implies visited@[w]
                    || stack@.contains(w as usize) by {
                if v == m {
                    assert(row@.contains(w as usize));
                    let x = choose|x: int| 0 <= x < row@.len() && row@[x] == w as usize;
                    assert(visited@[row@[x] as int] || stack@.contains(row@[x]));
                } else if w != m {
                    assert(before_vis[v]);
                    if before_stack.contains(w as usize) {
                        let y = choose|y: int| 0 <= y < before_stack.len() && before_stack[y] == w as usize;
                        assert(stack@[y] == w as usize);
                    }
                }
            }
        } else {
            assert forall|v: int, w: int|
                0 <= v < n && visited@[v] && #[trigger] edge(p, v, w) implies visited@[w]
                    || stack@.contains(w as usize) by {
                if w != m && before_stack.contains(w as usize) {
                    let y = choose|y: int| 0 <= y < before_stack.len() && before_stack[y] == w as usize;
                    assert(stack@[y] == w as usize);
                }
            }
        }
        assert(visited@[start as int] || stack@.contains(start)) by {
            if start != m && before_stack.contains(start) {
                let y = choose|y: int| 0 <= y < before_stack.len() && before_stack[y] == start;
                assert(stack@[y] == start);
            }
        }
    }
    proof {
        assert forall|k: int| 0 <= k < n implies visited@[k] == reachable(p, start as int, k) by {
            if reachable(p, start as int, k) {
                let w = choose|w: Seq<int>| #[trigger] is_walk(p, w) && w[0] == start && w.last() == k;
                lemma_closed_covers(p, visited@, w, w.len() - 1);
            }
        }
    }
    visited
}

/// Per-node statistics, derived once from the graph.
pub struct PathStats {
    /// Bytes of the node and everything it reaches, each node counted once.
    pub closure_size: u64,
    /// Bytes of the closure not shared with any sibling's closure.
    pub added_size: u64,
    /// Identifiers of the nodes that reference this one, in graph order.
    pub immediate_parents: Vec<String>,
}

/// Membership in a mask.
pub open spec fn marked(m: Seq<bool>) -> spec_fn(int) -> bool {
    |k: int| m[k]
}

/// Each filled cache entry is the exact closure of its node.
pub open spec fn cache_ok(p: Seq<StorePath>, c: Seq<Option<Vec<bool>>>) -> bool {
    &&& c.len() == p.len()
    &&& forall|k: int|
        0 <= k < c.len() && (#[trigger] c[k]).is_some() ==> closure_mask(p, k, c[k].unwrap()@)
}

/// `st` holds, for every node of `p` in order, its closure size, its added
/// size and its referrers.
pub open spec fn stats_for(p: Seq<StorePath>, st: Seq<PathStats>) -> bool {
    &&& st.len() == p.len()
    &&& forall|i: int|
        #![trigger st[i]]
        0 <= i < p.len() ==> {
            &&& st[i].closure_size == closure_size(p, i)
            &&& st[i].added_size == added_size(p, i)
            &&& ids(st[i].immediate_parents@) == referrers(p, p[i].path@)
        }
}

/// Sums over the first `k` nodes grow with `k`.
pub proof fn lemma_size_where_prefix(p: Seq<StorePath>, a: spec_fn(int) -> bool, k: int, n: int)
    requires
        k <= n,
    ensures
        size_where(p, a, k) <= size_where(p, a, n),
    decreases n - k,
{
    if k < n {
        lemma_size_where_prefix(p, a, k, n - 1);
    }
}

/// Whether the own sizes of all nodes sum to at most `u64::MAX`, so that
/// every closure size fits.
pub fn sizes_fit(graph: &StorePathGraph) -> (r: bool)
    ensures
        r == (total_size(graph.paths@) <= u64::MAX),
{
    let ghost p = graph.paths@;
    let mut sum: u64 = 0;
    let mut k: usize = 0;
    while k < graph.paths.len()
        invariant
            p == graph.paths@,
            k <= p.len(),
            sum == size_where(p, any_node(), k as int),
        decreases p.len() - k,
    {
        match sum.checked_add(graph.paths[k].nar_size) {
            Some(t) => {
                sum = t;
            },
            None => {
                proof {
                    lemma_size_where_prefix(p, any_node(), k + 1, p.len() as int);
                }
                return false;
            },
        }
        k = k + 1;
    }
    true
}

/// Total own size of the marked nodes.
fn size_of_mask(graph: &StorePathGraph, m: &Vec<bool>) -> (r: u64)
    requires
        m@.len() == graph.paths@.len(),
        total_size(graph.paths@) <= u64::MAX,
    ensures
        r == size_where(graph.paths@, marked(m@), m@.len() as int),
{
    let ghost p = graph.paths@;
    let mut sum: u64 = 0;
    let mut k: usize = 0;
    while k < m.len()
        invariant
            p == graph.paths@,
            m@.len() == p.len(),
            total_size(p) <= u64::MAX,
            k <= p.len(),
            sum == size_where(p, marked(m@), k as int),
        decreases p.len() - k,
    {
        proof {
            lemma_size_where_mono(p, marked(m@), any_node(), k + 1);
            lemma_size_where_prefix(p, any_node(), k + 1, p.len() as int);
        }
        if m[k] {
            sum = sum + graph.paths[k].nar_size;
        }
        k = k + 1;
    }
    sum
}

/// An exact copy of a mask.
fn copy_mask(m: &Vec<bool>) -> (r: Vec<bool>)
    ensures
        r@ == m@,
{
    let mut r: Vec<bool> = Vec::new();
    let mut k: usize = 0;
    while k < m.len()
        invariant
            k <= m@.len(),
            r@ == m@.subrange(0, k as int),
        decreases m@.len() - k,
    {
        r.push(m[k]);
        k = k + 1;
    }
    assert(r@ =~= m@);
    r
}

/// The closure of node `i`, taken from `cache` when present and stored
/// there otherwise.
pub fn calculate_closure(graph: &StorePathGraph, adj: &Vec<Vec<usize>>, i: usize, cache: &mut Vec<Option<Vec<bool>>>) -> (r: Vec<bool>)
    requires
        graph.wf(),
        adjacency_of(graph.paths@, adj@),
        i < graph.paths@.len(),
        cache_ok(graph.paths@, old(cache)@),
    ensures
        cache_ok(graph.paths@, final(cache)@),
        closure_mask(graph.paths@, i as int, r@),
        final(cache)@.len() == old(cache)@.len(),
        final(cache)@[i as int] matches Some(c) && c@ == r@,
        forall|k: int|
            0 <= k < old(cache)@.len() && k != i ==> #[trigger] final(cache)@[k] == old(cache)@[k],
{
    match &cache[i] {
        Some(m) => {
            assert(cache@[i as int].is_some());
            return copy_mask(m);
        },
        None => {},
    }
    let m = calculate_closure_set(graph, adj, i);
    let kept = copy_mask(&m);
    cache.set(i, Some(kept));
    proof {
        let c = cache@;
        assert forall|k: int|
            0 <= k < c.len() && (#[trigger] c[k]).is_some() implies closure_mask(graph.paths@, k, c[k].unwrap()@) by {
            if k != i {
                assert(c[k] == old(cache)@[k]);
            }
        }
    }
    m
}

/// An empty closure cache for `graph`.
fn empty_cache(graph: &StorePathGraph) -> (r: Vec<Option<Vec<bool>>>)
    ensures
        cache_ok(graph.paths@, r@),
{
    let mut r: Vec<Option<Vec<bool>>> = Vec::new();
    while r.len() < graph.paths.len()
        invariant
            r@.len() <= graph.paths@.len(),
            forall|k: int| 0 <= k < r@.len() ==> (#[trigger] r@[k]).is_none(),
        decreases graph.paths@.len() - r@.len(),
    {
        r.push(None);
    }
    r
}

/// Node `s` is a sibling of `i` through one of the first `q` nodes.
pub open spec fn sibling_upto(p: Seq<StorePath>, i: int, s: int, q: int) -> bool {
    s != i && exists|q2: int| 0 <= q2 < q && #[trigger] edge(p, q2, i) && edge(p, q2, s)
}

/// Whether `row` holds `i`.
fn row_contains(row: &Vec<usize>, i: usize) -> (r: bool)
    ensures
        r == row@.contains(i),
{
    let mut x: usize = 0;
    while x < row.len()
        invariant
            x <= row@.len(),
            forall|y: int| 0 <= y < x ==> row@[y] != i,
        decreases row@.len() - x,
    {
        if row[x] == i {
            return true;
        }
        x = x + 1;
    }
    false
}

/// Identifiers of the nodes that reference node `i`, in graph order.
fn parents_of(graph: &StorePathGraph, adj: &Vec<Vec<usize>>, i: usize) -> (r: Vec<String>)
    requires
        graph.wf(),
        adjacency_of(graph.paths@, adj@),
        i < graph.paths@.len(),
    ensures
        ids(r@) == referrers(graph.paths@, graph.paths@[i as int].path@),
{
    let ghost p = graph.paths@;
    let ghost id = p[i as int].path@;
    let mut r: Vec<String> = Vec::new();
    let mut q: usize = 0;
    while q < graph.paths.len()
        invariant
            p == graph.paths@,
            adjacency_of(p, adj@),
            i < p.len(),
            id == p[i as int].path@,
            q <= p.len(),
            ids(r@) == referrers_upto(p, id, q as int),
        decreases p.len() - q,
    {
        let ghost before = r@;
        let linked = row_contains(&adj[q], i);
        proof {
            let refs = p[q as int].references@;
            if linked {
                assert(edge(p, q as int, i as int));
                let k = choose|k: int| 0 <= k < refs.len() && #[trigger] refs[k]@ == p[i as int].path@;
                assert(ids(refs)[k] == id);
            }
            if ids(refs).contains(id) {
                let k = choose|k: int| 0 <= k < ids(refs).len() && ids(refs)[k] == id;
                assert(refs[k]@ == p[i as int].path@);
                assert(edge(p, q as int, i as int));
            }
        }
        if linked {
            r.push(graph.paths[q].path.clone());
            assert(ids(r@) =~= ids(before).push(p[q as int].path@));
        }
        q = q + 1;
    }
    r
}

/// The siblings of node `i`, as a mask over node positions.
fn sibling_mask(graph: &StorePathGraph, adj: &Vec<Vec<usize>>, i: usize) -> (r: Vec<bool>)
    requires
        graph.wf(),
        adjacency_of(graph.paths@, adj@),
        i < graph.paths@.len(),
    ensures
        r@.len() == graph.paths@.len(),
        forall|s: int| 0 <= s < r@.len() ==> r@[s] == sibling(graph.paths@, i as int, s),
{
    let ghost p = graph.paths@;
    let n = graph.paths.len();
    let mut r: Vec<bool> = Vec::new();
    while r.len() < n
        invariant
            r@.len() <= n,
            forall|k: int| 0 <= k < r@.len() ==> !r@[k],
        decreases n - r@.len(),
    {
        r.push(false);
    }
    let mut q: usize = 0;
    while q < n
        invariant
            graph.wf(),
            p == graph.paths@,
            adjacency_of(p, adj@),
            n == p.len(),
            i < n,
            q <= n,
            r@.len() == n,
            forall|s: int| 0 <= s < n ==> r@[s] == sibling_upto(p, i as int, s, q as int),
        decreases n - q,
    {
        let row = &adj[q];
        if row_contains(row, i) {
            let ghost y0 = choose|y: int| 0 <= y < row@.len() && row@[y] == i;
            assert(edge(p, q as int, row@[y0] as int));
            let mut x: usize = 0;
            while x < row.len()
                invariant
                    p == graph.paths@,
                    adjacency_of(p, adj@),
                    n == p.len(),
                    i < n,
                    q < n,
                    row == &adj@[q as int],
                    edge(p, q as int, i as int),
                    x <= row@.len(),
                    r@.len() == n,
                    forall|s: int|
                        0 <= s < n ==> r@[s] == (sibling_upto(p, i as int, s, q as int) || (s != i
                            && exists|y: int| 0 <= y < x && #[trigger] row@[y] == s as usize)),
                decreases row@.len() - x,
            {
                let s = row[x];
                assert(edge(p, q as int, s as int));
                if s != i {
                    r.set(s, true);
                }
                proof {
                    assert forall|t: int| 0 <= t < n implies r@[t] == (sibling_upto(p, i as int, t, q as int) || (t != i
                            && exists|y: int| 0 <= y < x + 1 && #[trigger] row@[y] == t as usize)) by {
                        if t == s && t != i {
                            assert(row@[x as int] == t as usize);
                        }
                    }
                }
                x = x + 1;
            }
            assert forall|s: int| 0 <= s < n implies r@[s] == sibling_upto(p, i as int, s, q + 1) by {
                if sibling_upto(p, i as int, s, q + 1) && !sibling_upto(p, i as int, s, q as int) {
                    let q2 = choose|q2: int| 0 <= q2 < q + 1 && #[trigger] edge(p, q2, i as int) && edge(p, q2, s);
                    assert(q2 == q);
                    assert(row@.contains(s as usize));
                }
                if s != i && exists|y: int| 0 <= y < row@.len() && #[trigger] row@[y] == s as usize {
                    let y = choose|y: int| 0 <= y < row@.len() && #[trigger] row@[y] == s as usize;
                    assert(edge(p, q as int, row@[y] as int));
                }
            }
        } else {
            assert forall|s: int| 0 <= s < n implies r@[s] == sibling_upto(p, i as int, s, q + 1) by {
                if sibling_upto(p, i as int, s, q + 1) && !sibling_upto(p, i as int, s, q as int) {
                    let q2 = choose|q2: int| 0 <= q2 < q + 1 && #[trigger] edge(p, q2, i as int) && edge(p, q2, s);
                    assert(q2 == q);
                    assert(row@.contains(i));
                }
            }
        }
        q = q + 1;
    }
    r
}

/// Node `k` lies in the closure of one of the siblings of `i` among the first `s` nodes.
pub open spec fn shared_upto(p: Seq<StorePath>, i: int, k: int, s: int) -> bool {
    exists|t: int| 0 <= t < s && #[trigger] sibling(p, i, t) && reachable(p, t, k)
}

/// The union of the closures of the siblings of node `i`, as a mask.
fn shared_mask(graph: &StorePathGraph, adj: &Vec<Vec<usize>>, i: usize, cache: &mut Vec<Option<Vec<bool>>>) -> (r: Vec<bool>)
    requires
        graph.wf(),
        adjacency_of(graph.paths@, adj@),
        i < graph.paths@.len(),
        cache_ok(graph.paths@, old(cache)@),
    ensures
        cache_ok(graph.paths@, final(cache)@),
        r@.len() == graph.paths@.len(),
        forall|k: int| 0 <= k < r@.len() ==> r@[k] == shared_with_siblings(graph.paths@, i as int, k),
{
    let ghost p = graph.paths@;
    let n = graph.paths.len();
    let sib = sibling_mask(graph, adj, i);
    let mut r: Vec<bool> = Vec::new();
    while r.len() < n
        invariant
            r@.len() <= n,
            forall|k: int| 0 <= k < r@.len() ==> !r@[k],
        decreases n - r@.len(),
    {
        r.push(false);
    }
    let mut s: usize = 0;
    while s < n
        invariant
            graph.wf(),
            adjacency_of(p, adj@),
            p == graph.paths@,
            n == p.len(),
            i < n,
            s <= n,
            cache_ok(p, cache@),
            sib@.len() == n,
            forall|t: int| 0 <= t < n ==> sib@[t] == sibling(p, i as int, t),
            r@.len() == n,
            forall|k: int| 0 <= k < n ==> r@[k] == shared_upto(p, i as int, k, s as int),
        decreases n - s,
    {
        if sib[s] {
            let c = calculate_closure(graph, adj, s, cache);
            let mut k: usize = 0;
            while k < n
                invariant
                    n == p.len(),
                    s < n,
                    k <= n,
                    c@.len() == n,
                    r@.len() == n,
                    forall|j: int| 0 <= j < n ==> c@[j] == reachable(p, s as int, j),
                    forall|j: int| 0 <= j < k ==> r@[j] == (shared_upto(p, i as int, j, s as int) || c@[j]),
                    forall|j: int| k <= j < n ==> r@[j] == shared_upto(p, i as int, j, s as int),
                decreases n - k,
            {
                if c[k] {
                    r.set(k, true);
                }
                k = k + 1;
            }
        }
        assert forall|k: int| 0 <= k < n implies r@[k] == shared_upto(p, i as int, k, s + 1) by {
            if shared_upto(p, i as int, k, s + 1) && !shared_upto(p, i as int, k, s as int) {
                let t = choose|t: int| 0 <= t < s + 1 && #[trigger] sibling(p, i as int, t) && reachable(p, t, k);
                assert(t == s);
            }
            if sib@[s as int] && reachable(p, s as int, k) {
                assert(sibling(p, i as int, s as int));
            }
        }
        s = s + 1;
    }
    assert forall|k: int| 0 <= k < n implies r@[k] == shared_with_siblings(p, i as int, k) by {
        if shared_with_siblings(p, i as int, k) {
            let t = choose|t: int| #[trigger] sibling(p, i as int, t) && reachable(p, t, k);
            let w = choose|w: Seq<int>| #[trigger] is_walk(p, w) && w[0] == t && w.last() == k;
            assert(0 <= w[0] < p.len());
        }
    }
    r
}

/// The added size of node `i`.
fn added_size_at(graph: &StorePathGraph, adj: &Vec<Vec<usize>>, i: usize, cache: &mut Vec<Option<Vec<bool>>>) -> (r: u64)
    requires
        graph.wf(),
        adjacency_of(graph.paths@, adj@),
        i < graph.paths@.len(),
        total_size(graph.paths@) <= u64::MAX,
        cache_ok(graph.paths@, old(cache)@),
    ensures
        cache_ok(graph.paths@, final(cache)@),
        r == added_size(graph.paths@, i as int),
{
    let ghost p = graph.paths@;
    let n = graph.paths.len();
    let c = calculate_closure(graph, adj, i, cache);
    let sh = shared_mask(graph, adj, i, cache);
    let mut m: Vec<bool> = Vec::new();
    let mut k: usize = 0;
    while k < n
        invariant
            n == p.len(),
            c@.len() == n,
            sh@.len() == n,
            k <= n,
            m@.len() == k,
            forall|j: int| 0 <= j < k ==> m@[j] == (c@[j] && !sh@[j]),
        decreases n - k,
    {
        m.push(c[k] && !sh[k]);
        k = k + 1;
    }
    let r = size_of_mask(graph, &m);
    proof {
        lemma_size_where_ext(p, marked(m@), in_added(p, i as int), n as int);
    }
    r
}

/// Closure sizes and referrers of `st` are those of `p`.
pub open spec fn closures_and_parents_for(p: Seq<StorePath>, st: Seq<PathStats>) -> bool {
    &&& st.len() == p.len()
    &&& forall|i: int|
        #![trigger st[i]]
        0 <= i < p.len() ==> {
            &&& st[i].closure_size == closure_size(p, i)
            &&& ids(st[i].immediate_parents@) == referrers(p, p[i].path@)
        }
}

/// Fills in the added size of every node.
fn calculate_added_sizes(
    stats: &mut Vec<PathStats>,
    graph: &StorePathGraph,
    adj: &Vec<Vec<usize>>,
    cache: &mut Vec<Option<Vec<bool>>>,
)
    requires
        graph.wf(),
        adjacency_of(graph.paths@, adj@),
        total_size(graph.paths@) <= u64::MAX,
        cache_ok(graph.paths@, old(cache)@),
        closures_and_parents_for(graph.paths@, old(stats)@),
    ensures
        stats_for(graph.paths@, final(stats)@),
{
    let ghost p = graph.paths@;
    let n = graph.paths.len();
    let mut i: usize = 0;
    while i < n
        invariant
            graph.wf(),
            adjacency_of(p, adj@),
            p == graph.paths@,
            n == p.len(),
            total_size(p) <= u64::MAX,
            cache_ok(p, cache@),
            i <= n,
            closures_and_parents_for(p, stats@),
            forall|j: int| 0 <= j < i ==> (#[trigger] stats@[j]).added_size == added_size(p, j),
        decreases n - i,
    {
        let a = added_size_at(graph, adj, i, cache);
        let mut entry = stats.remove(i);
        entry.added_size = a;
        stats.insert(i, entry);
        i = i + 1;
    }
}

/// Closure size, added size and referrers of every node, in graph order.
pub fn calculate_stats(graph: &StorePathGraph) -> (r: Vec<PathStats>)
    requires
        graph.wf(),
        total_size(graph.paths@) <= u64::MAX,
    ensures
        stats_for(graph.paths@, r@),
{
    let ghost p = graph.paths@;
    let n = graph.paths.len();
    let adj = build_adjacency(graph);
    let mut cache = empty_cache(graph);
    let mut stats: Vec<PathStats> = Vec::new();
    let mut i: usize = 0;
    while i < n
        invariant
            graph.wf(),
            adjacency_of(p, adj@),
            p == graph.paths@,
            n == p.len(),
            total_size(p) <= u64::MAX,
            cache_ok(p, cache@),
            i <= n,
            stats@.len() == i,
            forall|j: int|
                #![trigger stats@[j]]
                0 <= j < i ==> {
                    &&& stats@[j].closure_size == closure_size(p, j)
                    &&& ids(stats@[j].immediate_parents@) == referrers(p, p[j].path@)
                },
        decreases n - i,
    {
        let c = calculate_closure(graph, &adj, i, &mut cache);
        let closure_size = size_of_mask(graph, &c);
        proof {
            lemma_size_where_ext(p, marked(c@), in_closure(p, i as int), n as int);
        }
        let immediate_parents = parents_of(graph, &adj, i);
        stats.push(PathStats { closure_size, added_size: 0, immediate_parents });
        i = i + 1;
    }
    calculate_added_sizes(&mut stats, graph, &adj, &mut cache);
    stats
}

/// The added size of the node with identifier `path`, computed on its own;
/// zero when no such node exists.
pub fn calculate_added_size_for_path(path: &String, graph: &StorePathGraph) -> (r: u64)
    requires
        graph.wf(),
        total_size(graph.paths@) <= u64::MAX,
    ensures
        !has_id(graph.paths@, path@) ==> r == 0,
        forall|k: int|
            0 <= k < graph.paths@.len() && graph.paths@[k].path@ == path@ ==> r == added_size(
                graph.paths@,
                k,
            ),
{
    match graph.index_of(path) {
        Some(i) => {
            let adj = build_adjacency(graph);
            let mut cache = empty_cache(graph);
            added_size_at(graph, &adj, i, &mut cache)
        },
        None => 0,
    }
}

/// The order in which artifact lists are presented.
#[derive(Clone, Copy, Debug, PartialEq, Eq, Structural)]
pub enum SortOrder {
    /// Lexicographic by identifier.
    Alphabetical,
    /// Largest closure size first.
    ClosureSize,
    /// Largest added size first.
    AddedSize,
}

impl SortOrder {
    pub open spec fn spec_next(self) -> SortOrder {
        match self {
            SortOrder::Alphabetical => SortOrder::ClosureSize,
            SortOrder::ClosureSize => SortOrder::AddedSize,
            SortOrder::AddedSize => SortOrder::Alphabetical,
        }
    }

    /// The order that follows in the cycle name, closure size, added size.
    pub fn next(&self) -> (r: SortOrder)
        ensures
            r == self.spec_next(),
    {
        match self {
            SortOrder::Alphabetical => SortOrder::ClosureSize,
            SortOrder::ClosureSize => SortOrder::AddedSize,
            SortOrder::AddedSize => SortOrder::Alphabetical,
        }
    }

    /// A short label for the status line.
    pub fn as_str(&self) -> (r: &'static str)
        ensures
            *self == SortOrder::Alphabetical ==> r@ == "name"@,
            *self == SortOrder::ClosureSize ==> r@ == "closure size"@,
            *self == SortOrder::AddedSize ==> r@ == "added size"@,
    {
        match self {
            SortOrder::Alphabetical => "name",
            SortOrder::ClosureSize => "closure size",
            SortOrder::AddedSize => "added size",
        }
    }
}

/// Position of the node with identifier `id` (meaningful when one exists).
pub open spec fn node_of(p: Seq<StorePath>, id: Seq<char>) -> int {
    choose|k: int| 0 <= k < p.len() && p[k].path@ == id
}

/// Closure size recorded for `id`; zero when `id` is not a node.
pub open spec fn closure_key(p: Seq<StorePath>, st: Seq<PathStats>, id: Seq<char>) -> int {
    if has_id(p, id) {
        st[node_of(p, id)].closure_size as int
    } else {
        0
    }
}

/// Added size recorded for `id`; zero when `id` is not a node.
pub open spec fn added_key(p: Seq<StorePath>, st: Seq<PathStats>, id: Seq<char>) -> int {
    if has_id(p, id) {
        st[node_of(p, id)].added_size as int
    } else {
        0
    }
}

/// Under `order`, `a` belongs strictly after `b`.
pub open spec fn sorts_after(
    p: Seq<StorePath>,
    st: Seq<PathStats>,
    order: SortOrder,
    a: Seq<char>,
    b: Seq<char>,
) -> bool {
    match order {
        SortOrder::Alphabetical => lex_gt(a, b),
        SortOrder::ClosureSize => closure_key(p, st, a) < closure_key(p, st, b),
        SortOrder::AddedSize => added_key(p, st, a) < added_key(p, st, b),
    }
}

/// No neighbouring pair of `s` is out of order.
pub open spec fn sorted_by(
    p: Seq<StorePath>,
    st: Seq<PathStats>,
    order: SortOrder,
    s: Seq<Seq<char>>,
) -> bool {
    forall|k: int| 0 <= k < s.len() - 1 ==> !sorts_after(p, st, order, #[trigger] s[k], s[k + 1])
}

/// `after` holds the identifiers `before` in order under `order`.
pub open spec fn sorted_version_of(
    p: Seq<StorePath>,
    st: Seq<PathStats>,
    order: SortOrder,
    before: Seq<Seq<char>>,
    after: Seq<String>,
) -> bool {
    &&& ids(after).to_multiset() == before.to_multiset()
    &&& sorted_by(p, st, order, ids(after))
}

/// `after` holds the identifiers `before` in order under `order`, and items
/// that tie keep their order from `before`: the stable sort of `before`.
pub open spec fn stably_sorted_from(
    p: Seq<StorePath>,
    st: Seq<PathStats>,
    order: SortOrder,
    before: Seq<Seq<char>>,
    after: Seq<String>,
) -> bool {
    &&& sorted_version_of(p, st, order, before, after)
    &&& exists|perm: Seq<int>| ties_kept(p, st, order, before, after, perm)
}

/// `after` is a valid outcome of sorting `before`: its stable sort, which is
/// `before` itself when that already was in order.
pub open spec fn sort_outcome(
    p: Seq<StorePath>,
    st: Seq<PathStats>,
    order: SortOrder,
    before: Seq<String>,
    after: Seq<String>,
) -> bool {
    &&& stably_sorted_from(p, st, order, ids(before), after)
    &&& sorted_by(p, st, order, ids(before)) ==> after == before
}

/// `perm` maps each position of `after` to the position in `before` its
/// item came from, one to one, and items of which neither sorts after the
/// other keep their relative order.
pub open spec fn ties_kept(
    p: Seq<StorePath>,
    st: Seq<PathStats>,
    order: SortOrder,
    before: Seq<Seq<char>>,
    after: Seq<String>,
    perm: Seq<int>,
) -> bool {
    &&& perm.len() == after.len()
    &&& forall|k: int|
        0 <= k < after.len() ==> 0 <= #[trigger] perm[k] < before.len() && after[k]@ == before[perm[k]]
    &&& forall|a: int, b: int|
        0 <= a < after.len() && 0 <= b < after.len() && a != b ==> #[trigger] perm[a]
            != #[trigger] perm[b]
    &&& forall|a: int, b: int|
        0 <= a < b < after.len() && !sorts_after(p, st, order, #[trigger] after[b]@, #[trigger] after[a]@)
            ==> perm[a] < perm[b]
}

/// Progress of insertion sort after placing the first `i` items of `orig`.
spec fn insertion_state(
    p: Seq<StorePath>,
    st: Seq<PathStats>,
    order: SortOrder,
    orig: Seq<String>,
    cur: Seq<String>,
    perm: Seq<int>,
    i: int,
) -> bool {
    &&& cur.len() == orig.len()
    &&& perm.len() == orig.len()
    &&& forall|k: int|
        0 <= k < cur.len() ==> 0 <= #[trigger] perm[k] < orig.len() && cur[k] == orig[perm[k]]
    &&& forall|a: int, b: int|
        0 <= a < cur.len() && 0 <= b < cur.len() && a != b ==> #[trigger] perm[a]
            != #[trigger] perm[b]
    &&& forall|k: int| i <= k < cur.len() ==> #[trigger] perm[k] == k
    &&& forall|k: int| 0 <= k < i ==> #[trigger] perm[k] < i
    &&& forall|a: int, b: int|
        0 <= a < b < i && !sorts_after(p, st, order, #[trigger] cur[b]@, #[trigger] cur[a]@)
            ==> perm[a] < perm[b]
}

proof fn lemma_insertion_step(
    p: Seq<StorePath>,
    st: Seq<PathStats>,
    order: SortOrder,
    orig: Seq<String>,
    cur: Seq<String>,
    perm: Seq<int>,
    next: Seq<String>,
    i: int,
    j: int,
)
    requires
        insertion_state(p, st, order, orig, cur, perm, i),
        0 <= j <= i < cur.len(),
        forall|k: int| j <= k < i ==> sorts_after(p, st, order, #[trigger] cur[k]@, cur[i]@),
        moved_back(cur, next, i, j),
    ensures
        insertion_state(p, st, order, orig, next, perm.remove(i).insert(j, perm[i]), i + 1),
{
    let np = perm.remove(i).insert(j, perm[i]);
    assert forall|k: int| 0 <= k < np.len() implies #[trigger] np[k] == if k < j {
        perm[k]
    } else if k == j {
        perm[i]
    } else if k <= i {
        perm[k - 1]
    } else {
        perm[k]
    } by {}
    assert forall|a: int, b: int|
        0 <= a < b < i + 1 && !sorts_after(p, st, order, #[trigger] next[b]@, #[trigger] next[a]@)
            implies np[a] < np[b] by {
        if a == j {
            assert(next[b] == cur[b - 1]);
        } else if b == j {
        } else {
            let a0 = if a < j { a } else { a - 1 };
            let b0 = if b < j { b } else if b <= i { b - 1 } else { b };
            assert(next[a] == cur[a0] && next[b] == cur[b0]);
            assert(np[a] == perm[a0] && np[b] == perm[b0]);
        }
    }
}

proof fn lemma_lex_gt_asymmetric(a: Seq<char>, b: Seq<char>)
    requires
        lex_gt(a, b),
    ensures
        !lex_gt(b, a),
    decreases a.len(),
{
    if a.len() > 0 && b.len() > 0 && a[0] == b[0] {
        lemma_lex_gt_asymmetric(a.drop_first(), b.drop_first());
    }
}

/// What one item is compared by.
struct SortKey {
    text: Vec<char>,
    size: u64,
}

spec fn key_ok(
    p: Seq<StorePath>,
    st: Seq<PathStats>,
    order: SortOrder,
    key: SortKey,
    id: Seq<char>,
) -> bool {
    match order {
        SortOrder::Alphabetical => key.text@ == id,
        SortOrder::ClosureSize => key.size == closure_key(p, st, id),
        SortOrder::AddedSize => key.size == added_key(p, st, id),
    }
}

fn key_of(graph: &StorePathGraph, stats: &Vec<PathStats>, order: SortOrder, id: &String) -> (r: SortKey)
    requires
        graph.wf(),
        stats@.len() == graph.paths@.len(),
    ensures
        key_ok(graph.paths@, stats@, order, r, id@),
{
    match order {
        SortOrder::Alphabetical => SortKey { text: chars_of(id), size: 0 },
        _ => {
            let size = match graph.index_of(id) {
                Some(k) => {
                    let ghost c = node_of(graph.paths@, id@);
                    assert(ids_unique(graph.paths@));
                    assert(graph.paths@[c].path@ == graph.paths@[k as int].path@);
                    match order {
                        SortOrder::ClosureSize => stats[k].closure_size,
                        _ => stats[k].added_size,
                    }
                },
                None => 0,
            };
            SortKey { text: Vec::new(), size }
        },
    }
}

fn key_gt(order: SortOrder, a: &SortKey, b: &SortKey) -> (r: bool)
    ensures
        forall|p: Seq<StorePath>, st: Seq<PathStats>, x: Seq<char>, y: Seq<char>|
            key_ok(p, st, order, *a, x) && key_ok(p, st, order, *b, y) ==> r == sorts_after(
                p,
                st,
                order,
                x,
                y,
            ),
{
    match order {
        SortOrder::Alphabetical => chars_gt(&a.text, &b.text),
        _ => a.size < b.size,
    }
}

/// `after` is `before` with the item at `i` moved back to position `j`.
pub open spec fn moved_back<T>(before: Seq<T>, after: Seq<T>, i: int, j: int) -> bool {
    &&& after.len() == before.len()
    &&& forall|k: int| 0 <= k < j ==> after[k] == before[k]
    &&& after[j] == before[i]
    &&& forall|k: int| j < k <= i ==> after[k] == before[k - 1]
    &&& forall|k: int| i < k < before.len() ==> after[k] == before[k]
}

proof fn lemma_moved_back_multiset<T>(before: Seq<T>, after: Seq<T>, i: int, j: int)
    requires
        0 <= j <= i < before.len(),
        moved_back(before, after, i, j),
    ensures
        after.to_multiset() == before.to_multiset(),
{
    broadcast use vstd::multiset::group_multiset_axioms;

    vstd::seq_lib::to_multiset_remove(before, i);
    vstd::seq_lib::to_multiset_insert(before.remove(i), j, before[i]);
    vstd::seq_lib::to_multiset_contains(before, before[i]);
    assert(after =~= before.remove(i).insert(j, before[i]));
    assert(after.to_multiset() =~= before.to_multiset());
}

fn move_back<T>(v: &mut Vec<T>, i: usize, j: usize)
    requires
        j <= i < old(v)@.len(),
    ensures
        moved_back(old(v)@, final(v)@, i as int, j as int),
{
    let x = v.remove(i);
    v.insert(j, x);
}

/// Sorts `paths` in place by `order`: lexicographically by identifier, or by
/// descending closure or added size, with missing statistics counting as
/// zero. Insertion sort, so items that compare equal keep their order.
pub fn sort_paths(
    paths: &mut Vec<String>,
    graph: &StorePathGraph,
    stats: &Vec<PathStats>,
    order: SortOrder,
)
    requires
        graph.wf(),
        stats@.len() == graph.paths@.len(),
    ensures
        sort_outcome(graph.paths@, stats@, order, old(paths)@, final(paths)@),
{
    let ghost p = graph.paths@;
    let ghost st = stats@;
    let ghost orig = paths@;
    let n = paths.len();
    let mut keys: Vec<SortKey> = Vec::new();
    while keys.len() < n
        invariant
            graph.wf(),
            p == graph.paths@,
            st == stats@,
            st.len() == p.len(),
            paths@ == orig,
            n == orig.len(),
            keys@.len() <= n,
            forall|k: int| 0 <= k < keys@.len() ==> key_ok(p, st, order, #[trigger] keys@[k], orig[k]@),
        decreases n - keys@.len(),
    {
        let key = key_of(graph, stats, order, &paths[keys.len()]);
        keys.push(key);
    }
    let mut i: usize = 0;
    let ghost mut perm: Seq<int> = Seq::new(n as nat, |k: int| k);
    while i < n
        invariant
            paths@.len() == n,
            keys@.len() == n,
            i <= n,
            insertion_state(p, st, order, orig, paths@, perm, i as int),
            forall|k: int| 0 <= k < n ==> key_ok(p, st, order, #[trigger] keys@[k], paths@[k]@),
            ids(paths@).to_multiset() == ids(orig).to_multiset(),
            forall|k: int| 0 <= k < i - 1 ==> !sorts_after(p, st, order, #[trigger] paths@[k]@, paths@[k + 1]@),
            sorted_by(p, st, order, ids(orig)) ==> paths@ == orig,
        decreases n - i,
    {
        let mut j: usize = i;
        let ghost cur = paths@;
        while j > 0 && key_gt(order, &keys[j - 1], &keys[i])
            invariant
                paths@ == cur,
                cur.len() == n,
                keys@.len() == n,
                forall|k: int| 0 <= k < i - 1 ==> !sorts_after(p, st, order, #[trigger] cur[k]@, cur[k + 1]@),
                sorted_by(p, st, order, ids(orig)) ==> cur == orig,
                i < n,
                j <= i,
                forall|k: int| 0 <= k < n ==> key_ok(p, st, order, #[trigger] keys@[k], paths@[k]@),
                forall|k: int| j <= k < i ==> sorts_after(p, st, order, #[trigger] paths@[k]@, paths@[i as int]@),
                sorted_by(p, st, order, ids(orig)) ==> j == i,
            decreases j,
        {
            proof {
                if sorted_by(p, st, order, ids(orig)) {
                    assert(ids(orig)[j - 1] == paths@[j - 1]@);
                    assert(ids(orig)[i as int] == paths@[i as int]@);
                    if i > 0 {
                        assert(!sorts_after(p, st, order, ids(orig)[i - 1], ids(orig)[i as int]));
                    }
                }
            }
            j = j - 1;
        }
        let ghost placed = paths@;
        if j < i {
            let ghost before = paths@;
            let ghost before_keys = keys@;
            move_back(paths, i, j);
            move_back(&mut keys, i, j);
            proof {
                assert(moved_back(ids(before), ids(paths@), i as int, j as int));
                lemma_moved_back_multiset(ids(before), ids(paths@), i as int, j as int);
                assert forall|k: int| 0 <= k < n implies key_ok(p, st, order, #[trigger] keys@[k], paths@[k]@) by {
                    if k < j {
                        assert(keys@[k] == before_keys[k] && paths@[k] == before[k]);
                    } else if k == j {
                        assert(keys@[k] == before_keys[i as int] && paths@[k] == before[i as int]);
                    } else if k <= i {
                        assert(keys@[k] == before_keys[k - 1] && paths@[k] == before[k - 1]);
                    } else {
                        assert(keys@[k] == before_keys[k] && paths@[k] == before[k]);
                    }
                }
                assert forall|k: int| 0 <= k < i implies !sorts_after(p, st, order, #[trigger] paths@[k]@, paths@[k + 1]@) by {
                    if k < j - 1 {
                        assert(paths@[k] == before[k] && paths@[k + 1] == before[k + 1]);
                    } else if k == j - 1 {
                        assert(paths@[k] == before[k] && paths@[k + 1] == before[i as int]);
                    } else if k == j {
                        assert(paths@[k] == before[i as int] && paths@[k + 1] == before[j as int]);
                        if order == SortOrder::Alphabetical {
                            lemma_lex_gt_asymmetric(before[j as int]@, before[i as int]@);
                        }
                    } else {
                        assert(paths@[k] == before[k - 1] && paths@[k + 1] == before[k]);
                    }
                }
            }
        }
        proof {
            lemma_insertion_step(p, st, order, orig, placed, perm, paths@, i as int, j as int);
            perm = perm.remove(i as int).insert(j as int, perm[i as int]);
        }
        i = i + 1;
    }
    assert(ties_kept(p, st, order, ids(orig), paths@, perm));
}

/// Added size never exceeds closure size.
pub proof fn lemma_added_size_bounded(p: Seq<StorePath>, i: int)
    ensures
        0 <= added_size(p, i) <= closure_size(p, i),
{
    lemma_size_where_mono(p, in_added(p, i), in_closure(p, i), p.len() as int);
}

proof fn lemma_size_where_single(p: Seq<StorePath>, a: spec_fn(int) -> bool, i: int, n: int)
    requires
        0 <= i < p.len(),
        forall|k: int| #[trigger] a(k) <==> k == i,
    ensures
        size_where(p, a, n) == if n > i {
            p[i].nar_size as nat
        } else {
            0
        },
    decreases n,
{
    if n > 0 {
        lemma_size_where_single(p, a, i, n - 1);
    }
}

/// A node without references has its own size as closure size.
pub proof fn lemma_leaf_closure(p: Seq<StorePath>, i: int)
    requires
        0 <= i < p.len(),
        p[i].references.len() == 0,
    ensures
        closure_size(p, i) == p[i].nar_size,
{
    assert forall|k: int| #[trigger] in_closure(p, i)(k) <==> k == i by {
        if k == i {
            lemma_reach_self(p, i);
        }
        if reachable(p, i, k) {
            let w = choose|w: Seq<int>| #[trigger] is_walk(p, w) && w[0] == i && w.last() == k;
            if w.len() > 1 {
                assert(edge(p, w[0], w[1]));
            }
        }
    }
    lemma_size_where_single(p, in_closure(p, i), i, p.len() as int);
}

proof fn lemma_referrers_contain(p: Seq<StorePath>, id: Seq<char>, x: Seq<char>, k: int)
    requires
        0 <= k <= p.len(),
    ensures
        referrers_upto(p, id, k).contains(x) <==> exists|m: int|
            0 <= m < k && ids(p[m].references@).contains(id) && #[trigger] p[m].path@ == x,
    decreases k,
{
    if k > 0 {
        lemma_referrers_contain(p, id, x, k - 1);
        let rest = referrers_upto(p, id, k - 1);
        if ids(p[k - 1].references@).contains(id) {
            assert(referrers_upto(p, id, k) == rest.push(p[k - 1].path@));
            if rest.contains(x) {
                let y = choose|y: int| 0 <= y < rest.len() && rest[y] == x;
                assert(rest.push(p[k - 1].path@)[y] == x);
            }
            if p[k - 1].path@ == x {
                assert(rest.push(p[k - 1].path@)[rest.len() as int] == x);
            }
            if referrers_upto(p, id, k).contains(x) && !rest.contains(x) {
                let full = rest.push(p[k - 1].path@);
                let y = choose|y: int| 0 <= y < full.len() && full[y] == x;
                if y < rest.len() {
                    assert(rest[y] == x);
                }
            }
        }
    } else {
        assert(referrers_upto(p, id, k) =~= Seq::<Seq<char>>::empty());
    }
}

proof fn lemma_present_refs_contain(p: Seq<StorePath>, refs: Seq<String>, x: Seq<char>)
    ensures
        present_refs(p, refs).contains(x) <==> ids(refs).contains(x) && has_id(p, x),
    decreases refs.len(),
{
    if refs.len() > 0 {
        let init = refs.drop_last();
        lemma_present_refs_contain(p, init, x);
        let rest = present_refs(p, init);
        assert(present_refs(p, refs) == if has_id(p, refs.last()@) {
            rest.push(refs.last()@)
        } else {
            rest
        });
        assert(ids(refs) =~= ids(init).push(refs.last()@));
        assert(ids(refs)[refs.len() - 1] == refs.last()@);
        if ids(refs).contains(x) && has_id(p, x) && refs.last()@ == x {
            assert(has_id(p, refs.last()@));
        }
        if ids(init).contains(x) {
            let y = choose|y: int| 0 <= y < ids(init).len() && ids(init)[y] == x;
            assert(ids(refs)[y] == x);
        }
        if ids(refs).contains(x) && !ids(init).contains(x) {
            let y = choose|y: int| 0 <= y < ids(refs).len() && ids(refs)[y] == x;
            if y < ids(init).len() {
                assert(ids(init)[y] == x);
            }
            assert(refs.last()@ == x);
        }
        if has_id(p, refs.last()@) {
            if rest.contains(x) {
                let y = choose|y: int| 0 <= y < rest.len() && rest[y] == x;
                assert(rest.push(refs.last()@)[y] == x);
            }
            if refs.last()@ == x {
                assert(rest.push(refs.last()@)[rest.len() as int] == x);
            }
            if present_refs(p, refs).contains(x) && !rest.contains(x) {
                let full = rest.push(refs.last()@);
                let y = choose|y: int| 0 <= y < full.len() && full[y] == x;
                if y < rest.len() {
                    assert(rest[y] == x);
                }
            }
        }
    } else {
        assert(ids(refs) =~= Seq::<Seq<char>>::empty());
    }
}

/// The reverse index agrees with the forward edges: `q` is among the
/// immediate parents of `n` exactly when `n` is among the present references
/// of `q`.
pub proof fn lemma_parents_match_references(p: Seq<StorePath>, st: Seq<PathStats>, n: int, q: int)
    requires
        ids_unique(p),
        stats_for(p, st),
        0 <= n < p.len(),
        0 <= q < p.len(),
    ensures
        ids(st[n].immediate_parents@).contains(p[q].path@) <==> present_refs(
            p,
            p[q].references@,
        ).contains(p[n].path@),
{
    lemma_referrers_contain(p, p[n].path@, p[q].path@, p.len() as int);
    lemma_present_refs_contain(p, p[q].references@, p[n].path@);
}

/// Sorting by name an already name-sorted result changes nothing.
pub proof fn lemma_resort_alphabetical_is_identity(
    p: Seq<StorePath>,
    st: Seq<PathStats>,
    s0: Seq<String>,
    s1: Seq<String>,
    s2: Seq<String>,
)
    requires
        sort_outcome(p, st, SortOrder::Alphabetical, s0, s1),
        sort_outcome(p, st, SortOrder::Alphabetical, s1, s2),
    ensures
        s2 == s1,
{
}

/// Sorting by closure size yields non-increasing closure sizes.
pub proof fn lemma_closure_order_non_increasing(
    p: Seq<StorePath>,
    st: Seq<PathStats>,
    s0: Seq<String>,
    s1: Seq<String>,
    a: int,
    b: int,
)
    requires
        sort_outcome(p, st, SortOrder::ClosureSize, s0, s1),
        0 <= a <= b < s1.len(),
    ensures
        closure_key(p, st, s1[a]@) >= closure_key(p, st, s1[b]@),
    decreases b - a,
{
    if a < b {
        lemma_closure_order_non_increasing(p, st, s0, s1, a, b - 1);
        assert(!sorts_after(p, st, SortOrder::ClosureSize, ids(s1)[b - 1], ids(s1)[b]));
    }
}

} // verus!
