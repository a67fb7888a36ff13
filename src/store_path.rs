//! The artifact graph: store paths keyed by their unique identifier, with
//! forward edges (references) explicit and reverse edges derived on demand.
use vstd::prelude::*;

use crate::text::chars_of;

verus! {

/// The directory under which every artifact identifier lives.
pub open spec fn store_dir() -> Seq<char> {
    seq!['/', 'n', 'i', 'x', '/', 's', 't', 'o', 'r', 'e', '/']
}

/// `id` is a path directly under the store directory.
pub open spec fn in_store(id: Seq<char>) -> bool {
    id.len() >= store_dir().len() && id.subrange(0, store_dir().len() as int) == store_dir()
}

/// Position of the first `-` in `s` at or after `from`, or `s.len()` if none.
pub open spec fn dash_from(s: Seq<char>, from: int) -> int
    decreases s.len() - from,
{
    if from < 0 || from >= s.len() {
        s.len() as int
    } else if s[from] == '-' {
        from
    } else {
        dash_from(s, from + 1)
    }
}

/// An identifier splits as `<store dir><hash>-<name>` with a non-empty hash.
pub open spec fn parses(id: Seq<char>) -> bool {
    in_store(id) && store_dir().len() < dash_from(id, store_dir().len() as int) < id.len()
}

pub open spec fn hash_part(id: Seq<char>) -> Seq<char> {
    id.subrange(store_dir().len() as int, dash_from(id, store_dir().len() as int))
}

pub open spec fn name_part(id: Seq<char>) -> Seq<char> {
    id.skip(dash_from(id, store_dir().len() as int) + 1)
}

/// The identifier without the store directory: `<hash>-<name>`.
pub open spec fn base_name(id: Seq<char>) -> Seq<char> {
    id.skip(store_dir().len() as int)
}

/// One artifact of the graph.
pub struct StorePath {
    /// Unique identifier.
    pub path: String,
    /// Content hash taken from the identifier.
    pub hash: String,
    /// Display name; qualified with the hash when it would be ambiguous.
    pub name: String,
    /// Own size on disk, in bytes.
    pub nar_size: u64,
    /// Total reachable size as reported by the metadata source, if any.
    pub closure_size: Option<u64>,
    /// Identifiers of the direct dependencies, in order.
    pub references: Vec<String>,
    /// Signature strings; informational only.
    pub signatures: Vec<String>,
}

/// The identifiers that a vector of strings holds.
pub open spec fn ids(v: Seq<String>) -> Seq<Seq<char>> {
    v.map_values(|s: String| s@)
}

/// Some node of `p` carries identifier `id`.
pub open spec fn has_id(p: Seq<StorePath>, id: Seq<char>) -> bool {
    exists|k: int| 0 <= k < p.len() && p[k].path@ == id
}

/// No two nodes of `p` share an identifier.
pub open spec fn ids_unique(p: Seq<StorePath>) -> bool {
    forall|i: int, j: int|
        0 <= i < p.len() && 0 <= j < p.len() && #[trigger] p[i].path@ == #[trigger] p[j].path@
            ==> i == j
}

/// Node `i` lists node `j` among its references.
pub open spec fn edge(p: Seq<StorePath>, i: int, j: int) -> bool {
    0 <= i < p.len() && 0 <= j < p.len() && exists|k: int|
        0 <= k < p[i].references.len() && #[trigger] p[i].references@[k]@ == p[j].path@
}

/// `w` is a walk: a non-empty sequence of nodes, each referencing the next.
pub open spec fn is_walk(p: Seq<StorePath>, w: Seq<int>) -> bool {
    &&& w.len() >= 1
    &&& forall|k: int| 0 <= k < w.len() ==> 0 <= #[trigger] w[k] < p.len()
    &&& forall|k: int| 0 <= k < w.len() - 1 ==> edge(p, #[trigger] w[k], w[k + 1])
}

/// Node `j` belongs to the closure of node `i` (which holds `i` itself).
pub open spec fn reachable(p: Seq<StorePath>, i: int, j: int) -> bool {
    exists|w: Seq<int>| #[trigger] is_walk(p, w) && w[0] == i && w.last() == j
}

/// The references of a node that are present in `p`, in order.
pub open spec fn present_refs(p: Seq<StorePath>, refs: Seq<String>) -> Seq<Seq<char>>
    decreases refs.len(),
{
    if refs.len() == 0 {
        Seq::empty()
    } else {
        let rest = present_refs(p, refs.drop_last());
        if has_id(p, refs.last()@) {
            rest.push(refs.last()@)
        } else {
            rest
        }
    }
}

/// Identifiers of the nodes among the first `k` that reference `id`, in graph order.
pub open spec fn referrers_upto(p: Seq<StorePath>, id: Seq<char>, k: int) -> Seq<Seq<char>>
    decreases k,
{
    if k <= 0 {
        Seq::empty()
    } else {
        let rest = referrers_upto(p, id, k - 1);
        if ids(p[k - 1].references@).contains(id) {
            rest.push(p[k - 1].path@)
        } else {
            rest
        }
    }
}

/// Identifiers of all nodes that reference `id`, in graph order.
pub open spec fn referrers(p: Seq<StorePath>, id: Seq<char>) -> Seq<Seq<char>> {
    referrers_upto(p, id, p.len() as int)
}

/// No two nodes share a display name.
pub open spec fn names_distinct(p: Seq<StorePath>) -> bool {
    forall|i: int, j: int|
        0 <= i < p.len() && 0 <= j < p.len() && i != j ==> #[trigger] p[i].name@
            != #[trigger] p[j].name@
}

/// Another node has the same display name as node `i`.
pub open spec fn shares_name(p: Seq<StorePath>, i: int) -> bool {
    exists|j: int| 0 <= j < p.len() && j != i && #[trigger] p[j].name@ == p[i].name@
}

/// The display name of node `i` reads like the `<hash>-<name>` form of a
/// node marked in `q`.
pub open spec fn clashes_with_marked(p: Seq<StorePath>, q: Seq<bool>, i: int) -> bool {
    exists|j: int| 0 <= j < p.len() && q[j] && #[trigger] base_name(p[j].path@) == p[i].name@
}

/// `q` marks every node whose name is shared, and every node whose name
/// reads like the `<hash>-<name>` form of a marked node.
pub open spec fn qualifying_closed(p: Seq<StorePath>, q: Seq<bool>) -> bool {
    &&& q.len() == p.len()
    &&& forall|i: int|
        0 <= i < p.len() && (shares_name(p, i) || clashes_with_marked(p, q, i)) ==> #[trigger] q[i]
}

/// `q` is the smallest set closed in that sense: exactly the nodes whose
/// names must be qualified.
pub open spec fn least_qualifying(p: Seq<StorePath>, q: Seq<bool>) -> bool {
    &&& qualifying_closed(p, q)
    &&& forall|q2: Seq<bool>|
        #[trigger] qualifying_closed(p, q2) ==> forall|i: int| 0 <= i < p.len() && q[i] ==> q2[i]
}

/// `after` is `before` with the names of exactly the nodes that must be
/// qualified replaced by their `<hash>-<name>` form, and nothing else changed.
pub open spec fn disambiguated(before: Seq<StorePath>, after: Seq<StorePath>) -> bool {
    &&& after.len() == before.len()
    &&& exists|q: Seq<bool>|
        #[trigger] least_qualifying(before, q) && forall|i: int|
            #![trigger after[i]]
            0 <= i < before.len() ==> {
                &&& after[i].path == before[i].path
                &&& after[i].hash == before[i].hash
                &&& after[i].nar_size == before[i].nar_size
                &&& after[i].closure_size == before[i].closure_size
                &&& after[i].references == before[i].references
                &&& after[i].signatures == before[i].signatures
                &&& after[i].name@ == if q[i] {
                    base_name(before[i].path@)
                } else {
                    before[i].name@
                }
            }
}

/// Two store identifiers with the same `<hash>-<name>` form are equal.
pub proof fn lemma_base_name_injective(a: Seq<char>, b: Seq<char>)
    requires
        in_store(a),
        in_store(b),
        base_name(a) == base_name(b),
    ensures
        a == b,
{
    let d = store_dir().len() as int;
    assert(a =~= a.subrange(0, d) + base_name(a));
    assert(b =~= b.subrange(0, d) + base_name(b));
}

/// After disambiguation all display names are distinct, every node keeps
/// its identifier, so each name leads back to the node it named, and a name
/// that no other node shares and that is no node's `<hash>-<name>` form is
/// kept as it was.
pub proof fn lemma_disambiguated_names_distinct(before: Seq<StorePath>, after: Seq<StorePath>)
    requires
        ids_unique(before),
        forall|k: int| 0 <= k < before.len() ==> in_store(#[trigger] before[k].path@),
        disambiguated(before, after),
    ensures
        names_distinct(after),
        forall|k: int| 0 <= k < after.len() ==> (#[trigger] after[k]).path == before[k].path,
        forall|k: int|
            0 <= k < after.len() && !shares_name(before, k) && !(exists|j: int|
                0 <= j < before.len() && #[trigger] base_name(before[j].path@) == before[k].name@)
                ==> (#[trigger] after[k]).name@ == before[k].name@,
{
    let q = choose|q: Seq<bool>|
        #[trigger] least_qualifying(before, q) && forall|i: int|
            #![trigger after[i]]
            0 <= i < before.len() ==> {
                &&& after[i].path == before[i].path
                &&& after[i].hash == before[i].hash
                &&& after[i].nar_size == before[i].nar_size
                &&& after[i].closure_size == before[i].closure_size
                &&& after[i].references == before[i].references
                &&& after[i].signatures == before[i].signatures
                &&& after[i].name@ == if q[i] {
                    base_name(before[i].path@)
                } else {
                    before[i].name@
                }
            };
    assert forall|i: int, j: int|
        0 <= i < after.len() && 0 <= j < after.len() && i != j implies #[trigger] after[i].name@
            != #[trigger] after[j].name@ by {
        assert(after[i].path == before[i].path);
        assert(after[j].path == before[j].path);
        if q[i] && q[j] {
            if base_name(before[i].path@) == base_name(before[j].path@) {
                lemma_base_name_injective(before[i].path@, before[j].path@);
            }
        } else if q[i] {
            if base_name(before[i].path@) == before[j].name@ {
                assert(clashes_with_marked(before, q, j));
            }
        } else if q[j] {
            if base_name(before[j].path@) == before[i].name@ {
                assert(clashes_with_marked(before, q, i));
            }
        } else {
            if before[j].name@ == before[i].name@ {
                assert(shares_name(before, i));
            }
        }
    }
    assert forall|k: int|
        0 <= k < after.len() && !shares_name(before, k) && !(exists|j: int|
            0 <= j < before.len() && #[trigger] base_name(before[j].path@) == before[k].name@)
            implies (#[trigger] after[k]).name@ == before[k].name@ by {
        let q2 = q.update(k, false);
        assert forall|i: int|
            0 <= i < before.len() && (shares_name(before, i) || clashes_with_marked(before, q2, i))
                implies #[trigger] q2[i] by {
            if clashes_with_marked(before, q2, i) {
                let j = choose|j: int| 0 <= j < before.len() && q2[j] && #[trigger] base_name(before[j].path@) == before[i].name@;
                assert(clashes_with_marked(before, q, i));
            }
            assert(q[i]);
        }
        assert(qualifying_closed(before, q2));
    }
}

impl StorePath {
    pub open spec fn wf(&self) -> bool {
        in_store(self.path@)
    }

    /// Splits an identifier into its hash and its name; `None` when it does
    /// not have the form `<store dir><hash>-<name>` with a non-empty hash.
    pub fn parse(path: &String) -> (r: Option<(String, String)>)
        ensures
            r.is_some() == parses(path@),
            r matches Some((h, n)) ==> h@ == hash_part(path@) && n@ == name_part(path@),
    {
        let cs = chars_of(path);
        let dir = store_dir_chars();
        let dl = dir.len();
        if cs.len() < dl {
            return None;
        }
        let mut i: usize = 0;
        while i < dl
            invariant
                cs@ == path@,
                dir@ == store_dir(),
                dl == dir@.len(),
                dl <= cs@.len(),
                i <= dl,
                forall|m: int| 0 <= m < i ==> cs@[m] == dir@[m],
            decreases dl - i,
        {
            if cs[i] != dir[i] {
                assert(cs@.subrange(0, dl as int)[i as int] != store_dir()[i as int]);
                assert(cs@.subrange(0, dl as int) != store_dir());
                assert(!in_store(path@));
                return None;
            }
            i = i + 1;
        }
        assert(cs@.subrange(0, dl as int) =~= store_dir());
        let mut d: usize = dl;
        while d < cs.len() && cs[d] != '-'
            invariant
                cs@ == path@,
                dl == store_dir().len(),
                dl <= d <= cs@.len(),
                dash_from(cs@, dl as int) == dash_from(cs@, d as int),
            decreases cs@.len() - d,
        {
            d = d + 1;
        }
        if d == dl || d == cs.len() {
            return None;
        }
        let st = path.as_str();
        let h = st.substring_char(dl, d).to_owned();
        let n = st.substring_char(d + 1, cs.len()).to_owned();
        Some((h, n))
    }

    /// Builds an artifact from its identifier and metadata; `None` when the
    /// identifier does not parse. The display name starts as the parsed name.
    pub fn new(
        path: String,
        nar_size: u64,
        closure_size: Option<u64>,
        references: Vec<String>,
        signatures: Vec<String>,
    ) -> (r: Option<StorePath>)
        ensures
            r.is_some() == parses(path@),
            r matches Some(sp) ==> {
                &&& sp.wf()
                &&& sp.path == path
                &&& sp.hash@ == hash_part(path@)
                &&& sp.name@ == name_part(path@)
                &&& sp.nar_size == nar_size
                &&& sp.closure_size == closure_size
                &&& sp.references == references
                &&& sp.signatures == signatures
            },
    {
        match StorePath::parse(&path) {
            Some((hash, name)) => Some(
                StorePath { path, hash, name, nar_size, closure_size, references, signatures },
            ),
            None => None,
        }
    }

    /// The display name.
    pub fn short_name(&self) -> (r: &String)
        ensures
            r == &self.name,
    {
        &self.name
    }
}

fn store_dir_chars() -> (r: Vec<char>)
    ensures
        r@ == store_dir(),
{
    let r = vec!['/', 'n', 'i', 'x', '/', 's', 't', 'o', 'r', 'e', '/'];
    assert(r@ =~= store_dir());
    r
}

/// The artifact graph together with the roots the user asked to inspect.
pub struct StorePathGraph {
    pub paths: Vec<StorePath>,
    pub roots: Vec<String>,
}

impl StorePathGraph {
    /// Identifiers are unique and every node lies in the store.
    pub open spec fn wf(&self) -> bool {
        &&& ids_unique(self.paths@)
        &&& forall|i: int| 0 <= i < self.paths@.len() ==> (#[trigger] self.paths@[i]).wf()
    }

    pub fn new() -> (r: StorePathGraph)
        ensures
            r.wf(),
            r.paths@.len() == 0,
            r.roots@.len() == 0,
    {
        StorePathGraph { paths: Vec::new(), roots: Vec::new() }
    }

    /// Position of the node with identifier `id`.
    pub fn index_of(&self, id: &String) -> (r: Option<usize>)
        requires
            self.wf(),
        ensures
            r.is_some() == has_id(self.paths@, id@),
            r matches Some(k) ==> k < self.paths@.len() && self.paths@[k as int].path@ == id@,
    {
        let mut k: usize = 0;
        while k < self.paths.len()
            invariant
                k <= self.paths@.len(),
                forall|m: int| 0 <= m < k ==> self.paths@[m].path@ != id@,
            decreases self.paths@.len() - k,
        {
            if self.paths[k].path == *id {
                return Some(k);
            }
            k = k + 1;
        }
        None
    }

    /// Inserts `node`, replacing the node with the same identifier if present.
    pub fn add_path(&mut self, node: StorePath)
        requires
            old(self).wf(),
            node.wf(),
        ensures
            final(self).wf(),
            final(self).roots == old(self).roots,
            has_id(old(self).paths@, node.path@) ==> exists|k: int|
                0 <= k < old(self).paths@.len() && old(self).paths@[k].path@ == node.path@
                    && final(self).paths@ == old(self).paths@.update(k, node),
            !has_id(old(self).paths@, node.path@) ==> final(self).paths@ == old(self).paths@.push(
                node,
            ),
    {
        match self.index_of(&node.path) {
            Some(k) => {
                self.paths.set(k, node);
            },
            None => {
                self.paths.push(node);
            },
        }
    }

    /// The node with identifier `id`, if present.
    pub fn get_path(&self, id: &String) -> (r: Option<&StorePath>)
        requires
            self.wf(),
        ensures
            r.is_some() == has_id(self.paths@, id@),
            r matches Some(sp) ==> exists|k: int|
                0 <= k < self.paths@.len() && self.paths@[k] == *sp && sp.path@ == id@,
    {
        match self.index_of(id) {
            Some(k) => Some(&self.paths[k]),
            None => None,
        }
    }

    /// The identifiers among `refs` that are present in the graph, in order.
    pub fn present_references(&self, refs: &Vec<String>) -> (r: Vec<String>)
        requires
            self.wf(),
        ensures
            ids(r@) == present_refs(self.paths@, refs@),
    {
        let mut r: Vec<String> = Vec::new();
        let mut k: usize = 0;
        while k < refs.len()
            invariant
                self.wf(),
                k <= refs@.len(),
                ids(r@) == present_refs(self.paths@, refs@.subrange(0, k as int)),
            decreases refs@.len() - k,
        {
            let ghost before = r@;
            assert(refs@.subrange(0, k + 1).drop_last() =~= refs@.subrange(0, k as int));
            if self.index_of(&refs[k]).is_some() {
                r.push(refs[k].clone());
                assert(ids(r@) =~= ids(before).push(refs@[k as int]@));
            }
            k = k + 1;
        }
        assert(refs@.subrange(0, refs@.len() as int) =~= refs@);
        r
    }

    /// Identifiers of the direct dependencies of `id` that are present in the
    /// graph; empty when `id` itself is absent.
    pub fn get_references(&self, id: &String) -> (r: Vec<String>)
        requires
            self.wf(),
        ensures
            !has_id(self.paths@, id@) ==> r@.len() == 0,
            forall|k: int|
                0 <= k < self.paths@.len() && self.paths@[k].path@ == id@ ==> ids(r@)
                    == present_refs(self.paths@, self.paths@[k].references@),
    {
        match self.index_of(id) {
            Some(k) => self.present_references(&self.paths[k].references),
            None => Vec::new(),
        }
    }

    /// Identifiers of the nodes that reference `id`, in graph order.
    pub fn get_referrers(&self, id: &String) -> (r: Vec<String>)
        requires
            self.wf(),
        ensures
            ids(r@) == referrers(self.paths@, id@),
    {
        let mut r: Vec<String> = Vec::new();
        let mut k: usize = 0;
        while k < self.paths.len()
            invariant
                k <= self.paths@.len(),
                ids(r@) == referrers_upto(self.paths@, id@, k as int),
            decreases self.paths@.len() - k,
        {
            let ghost before = r@;
            if refs_contain(&self.paths[k].references, id) {
                r.push(self.paths[k].path.clone());
                assert(ids(r@) =~= ids(before).push(self.paths@[k as int].path@));
            }
            k = k + 1;
        }
        r
    }

    /// The `<hash>-<name>` form of each node's identifier, in graph order.
    fn base_names(&self) -> (r: Vec<String>)
        requires
            self.wf(),
        ensures
            r@.len() == self.paths@.len(),
            forall|k: int| 0 <= k < r@.len() ==> r@[k]@ == base_name(self.paths@[k].path@),
    {
        let mut r: Vec<String> = Vec::new();
        let mut k: usize = 0;
        while k < self.paths.len()
            invariant
                self.wf(),
                k <= self.paths@.len(),
                r@.len() == k,
                forall|m: int| 0 <= m < k ==> r@[m]@ == base_name(self.paths@[m].path@),
            decreases self.paths@.len() - k,
        {
            let st = self.paths[k].path.as_str();
            assert(self.paths@[k as int].wf());
            let len = st.unicode_len();
            r.push(st.substring_char(11, len).to_owned());
            k = k + 1;
        }
        r
    }

    /// Whether another node has the same display name as node `i`.
    fn shares_name_at(&self, i: usize) -> (r: bool)
        requires
            i < self.paths@.len(),
        ensures
            r == shares_name(self.paths@, i as int),
    {
        let mut j: usize = 0;
        while j < self.paths.len()
            invariant
                i < self.paths@.len(),
                j <= self.paths@.len(),
                forall|k: int| 0 <= k < j && k != i ==> self.paths@[k].name@ != self.paths@[i as int].name@,
            decreases self.paths@.len() - j,
        {
            if j != i && self.paths[j].name == self.paths[i].name {
                return true;
            }
            j = j + 1;
        }
        false
    }

    /// Whether node `i`'s display name reads like the `<hash>-<name>` form of
    /// a node marked in `q`, given every node's form in `bases`.
    fn clashes_at(&self, bases: &Vec<String>, q: &Vec<bool>, i: usize) -> (r: bool)
        requires
            i < self.paths@.len(),
            q@.len() == self.paths@.len(),
            bases@.len() == self.paths@.len(),
            forall|k: int| 0 <= k < bases@.len() ==> bases@[k]@ == base_name(self.paths@[k].path@),
        ensures
            r == clashes_with_marked(self.paths@, q@, i as int),
    {
        let mut j: usize = 0;
        while j < self.paths.len()
            invariant
                i < self.paths@.len(),
                q@.len() == self.paths@.len(),
                bases@.len() == self.paths@.len(),
                forall|k: int| 0 <= k < bases@.len() ==> bases@[k]@ == base_name(self.paths@[k].path@),
                j <= self.paths@.len(),
                forall|k: int| 0 <= k < j && q@[k] ==> base_name(self.paths@[k].path@) != self.paths@[i as int].name@,
            decreases self.paths@.len() - j,
        {
            if q[j] && bases[j] == self.paths[i].name {
                return true;
            }
            j = j + 1;
        }
        false
    }

    /// The nodes whose display names must be qualified: those sharing a
    /// name, then, until nothing changes, those whose name reads like the
    /// `<hash>-<name>` form of a node already chosen.
    fn qualifying_nodes(&self, bases: &Vec<String>) -> (r: Vec<bool>)
        requires
            bases@.len() == self.paths@.len(),
            forall|k: int| 0 <= k < bases@.len() ==> bases@[k]@ == base_name(self.paths@[k].path@),
        ensures
            least_qualifying(self.paths@, r@),
    {
        let ghost p = self.paths@;
        let n = self.paths.len();
        let mut q: Vec<bool> = Vec::new();
        while q.len() < n
            invariant
                p == self.paths@,
                n == p.len(),
                q@.len() <= n,
                forall|k: int| 0 <= k < q@.len() ==> q@[k] == shares_name(p, k),
            decreases n - q@.len(),
        {
            let f = self.shares_name_at(q.len());
            q.push(f);
        }
        loop
            invariant
                p == self.paths@,
                n == p.len(),
                bases@.len() == n,
                forall|k: int| 0 <= k < bases@.len() ==> bases@[k]@ == base_name(p[k].path@),
                q@.len() == n,
                forall|k: int| 0 <= k < n && shares_name(p, k) ==> q@[k],
                forall|q2: Seq<bool>|
                    #[trigger] qualifying_closed(p, q2) ==> forall|i: int| 0 <= i < n && q@[i] ==> q2[i],
            decreases count_unmarked(q@),
        {
            let mut next: Vec<bool> = Vec::new();
            let mut added = false;
            let mut i: usize = 0;
            while i < n
                invariant
                    p == self.paths@,
                    n == p.len(),
                    bases@.len() == n,
                    forall|k: int| 0 <= k < bases@.len() ==> bases@[k]@ == base_name(p[k].path@),
                    q@.len() == n,
                    i <= n,
                    next@.len() == i,
                    forall|k: int| 0 <= k < i ==> next@[k] == (q@[k] || clashes_with_marked(p, q@, k)),
                    added == exists|k: int| 0 <= k < i && !q@[k] && next@[k],
                decreases n - i,
            {
                if q[i] {
                    next.push(true);
                } else {
                    let c = self.clashes_at(bases, &q, i);
                    next.push(c);
                    if c {
                        added = true;
                    }
                }
                i = i + 1;
            }
            if !added {
                assert forall|k: int|
                    0 <= k < n && (shares_name(p, k) || clashes_with_marked(p, q@, k)) implies #[trigger] q@[k] by {
                    assert(next@[k] == (q@[k] || clashes_with_marked(p, q@, k)));
                }
                assert(qualifying_closed(p, q@));
                return q;
            }
            proof {
                let k0 = choose|k: int| 0 <= k < n && !q@[k] && next@[k];
                lemma_mark_decreases(q@, k0);
                lemma_unmarked_mono(q@.update(k0, true), next@);
                assert forall|q2: Seq<bool>|
                    #[trigger] qualifying_closed(p, q2) implies forall|i: int| 0 <= i < n && next@[i] ==> q2[i] by {
                    assert forall|i: int| 0 <= i < n && next@[i] implies q2[i] by {
                        if !q@[i] {
                            let j = choose|j: int| 0 <= j < p.len() && q@[j] && #[trigger] base_name(p[j].path@) == p[i].name@;
                            assert(q2[j]);
                            assert(clashes_with_marked(p, q2, i));
                        }
                    }
                }
            }
            q = next;
        }
    }

    /// Rewrites the display names that must be qualified to the node's
    /// `<hash>-<name>` form: first every name shared by two or more nodes,
    /// then any name that now reads like such a qualified name. Afterwards
    /// all display names are distinct.
    pub fn disambiguate_names(&mut self)
        requires
            old(self).wf(),
        ensures
            final(self).wf(),
            final(self).roots == old(self).roots,
            disambiguated(old(self).paths@, final(self).paths@),
            names_distinct(final(self).paths@),
            forall|k: int|
                0 <= k < old(self).paths@.len() && !shares_name(old(self).paths@, k) && !(exists|j: int|
                    0 <= j < old(self).paths@.len() && #[trigger] base_name(old(self).paths@[j].path@)
                        == old(self).paths@[k].name@) ==> (#[trigger] final(self).paths@[k]).name@
                    == old(self).paths@[k].name@,
    {
        let ghost before = self.paths@;
        let bases = self.base_names();
        let n = self.paths.len();
        let flags = self.qualifying_nodes(&bases);
        let mut i: usize = 0;
        while i < n
            invariant
                ids_unique(before),
                self.roots == old(self).roots,
                self.paths@.len() == n,
                n == before.len(),
                bases@.len() == n,
                forall|k: int| 0 <= k < bases@.len() ==> bases@[k]@ == base_name(before[k].path@),
                flags@.len() == n,
                least_qualifying(before, flags@),
                i <= n,
                forall|k: int| i <= k < n ==> self.paths@[k] == before[k],
                forall|k: int|
                    #![trigger self.paths@[k]]
                    0 <= k < i ==> {
                        &&& self.paths@[k].path == before[k].path
                        &&& self.paths@[k].hash == before[k].hash
                        &&& self.paths@[k].nar_size == before[k].nar_size
                        &&& self.paths@[k].closure_size == before[k].closure_size
                        &&& self.paths@[k].references == before[k].references
                        &&& self.paths@[k].signatures == before[k].signatures
                        &&& self.paths@[k].name@ == if flags@[k] {
                            base_name(before[k].path@)
                        } else {
                            before[k].name@
                        }
                    },
            decreases n - i,
        {
            if flags[i] {
                let mut node = self.paths.remove(i);
                node.name = bases[i].clone();
                self.paths.insert(i, node);
            }
            i = i + 1;
        }
        let ghost after = self.paths@;
        assert(disambiguated(before, after));
        proof {
            lemma_disambiguated_names_distinct(before, after);
        }
        assert forall|k: int| 0 <= k < after.len() implies (#[trigger] after[k]).wf() by {
            assert(after[k].path == before[k].path);
        }
        assert forall|a: int, b: int|
            0 <= a < after.len() && 0 <= b < after.len() && #[trigger] after[a].path@
                == #[trigger] after[b].path@ implies a == b by {
            assert(after[a].path == before[a].path);
            assert(after[b].path == before[b].path);
        }
    }
}

/// Number of unmarked entries.
pub open spec fn count_unmarked(v: Seq<bool>) -> nat
    decreases v.len(),
{
    if v.len() == 0 {
        0
    } else {
        count_unmarked(v.drop_last()) + if v.last() {
            0nat
        } else {
            1nat
        }
    }
}

/// Marking an unmarked entry lowers the count by one.
pub proof fn lemma_mark_decreases(v: Seq<bool>, k: int)
    requires
        0 <= k < v.len(),
        !v[k],
    ensures
        count_unmarked(v.update(k, true)) + 1 == count_unmarked(v),
    decreases v.len(),
{
    if k < v.len() - 1 {
        assert(v.update(k, true).drop_last() =~= v.drop_last().update(k, true));
        lemma_mark_decreases(v.drop_last(), k);
    } else {
        assert(v.update(k, true).drop_last() =~= v.drop_last());
    }
}

/// Marking more entries never raises the count.
pub proof fn lemma_unmarked_mono(a: Seq<bool>, b: Seq<bool>)
    requires
        a.len() == b.len(),
        forall|k: int| 0 <= k < a.len() && a[k] ==> b[k],
    ensures
        count_unmarked(b) <= count_unmarked(a),
    decreases a.len(),
{
    if a.len() > 0 {
        lemma_unmarked_mono(a.drop_last(), b.drop_last());
    }
}

/// Whether `id` is among `refs`.
pub fn refs_contain(refs: &Vec<String>, id: &String) -> (r: bool)
    ensures
        r == ids(refs@).contains(id@),
{
    let mut k: usize = 0;
    while k < refs.len()
        invariant
            k <= refs@.len(),
            forall|m: int| 0 <= m < k ==> refs@[m]@ != id@,
        decreases refs@.len() - k,
    {
        if refs[k] == *id {
            assert(ids(refs@)[k as int] == id@);
            return true;
        }
        k = k + 1;
    }
    assert forall|m: int| 0 <= m < ids(refs@).len() implies ids(refs@)[m] != id@ by {}
    false
}

/// One artifact's metadata as the metadata source reports it.
pub struct PathEntry {
    pub path: String,
    pub nar_size: u64,
    pub closure_size: Option<u64>,
    pub references: Vec<String>,
    pub signatures: Vec<String>,
}

/// No later entry has the identifier of entry `e`.
pub open spec fn is_last_entry(entries: Seq<PathEntry>, e: int) -> bool {
    forall|e2: int| e < e2 < entries.len() ==> #[trigger] entries[e2].path@ != entries[e].path@
}

/// `node` is built from entry `e`, with the name and hash parsed from its
/// identifier.
pub open spec fn built_from(node: StorePath, e: PathEntry) -> bool {
    &&& node.path == e.path
    &&& node.hash@ == hash_part(e.path@)
    &&& node.name@ == name_part(e.path@)
    &&& node.nar_size == e.nar_size
    &&& node.closure_size == e.closure_size
    &&& node.references == e.references
    &&& node.signatures == e.signatures
}

/// `p` holds one node for each identifier of `entries`, node `k` built from
/// entry `src[k]`, the last entry with that identifier.
pub open spec fn loaded(entries: Seq<PathEntry>, p: Seq<StorePath>, src: Seq<int>) -> bool {
    &&& ids_unique(p)
    &&& src.len() == p.len()
    &&& forall|k: int| 0 <= k < src.len() ==> 0 <= #[trigger] src[k] < entries.len()
    &&& forall|k: int| 0 <= k < src.len() ==> is_last_entry(entries, #[trigger] src[k])
    &&& forall|k: int| #![trigger p[k]] 0 <= k < p.len() ==> built_from(p[k], entries[src[k]])
    &&& forall|e: int| 0 <= e < entries.len() ==> has_id(p, #[trigger] entries[e].path@)
}

impl StorePathGraph {
    /// Builds the graph from metadata entries, a later entry replacing an
    /// earlier one with the same identifier, with the given roots and
    /// disambiguated display names; `None` when some identifier does not
    /// parse.
    #[verifier::loop_isolation(false)]
    pub fn from_entries(entries: Vec<PathEntry>, roots: Vec<String>) -> (r: Option<StorePathGraph>)
        ensures
            r.is_none() == exists|e: int| 0 <= e < entries@.len() && !parses(#[trigger] entries@[e].path@),
            r matches Some(g) ==> {
                &&& g.wf()
                &&& g.roots == roots
                &&& exists|pre: Seq<StorePath>, src: Seq<int>|
                    #[trigger] loaded(entries@, pre, src) && disambiguated(pre, g.paths@)
            },
    {
        let ghost orig = entries@;
        let mut rest = entries;
        let mut graph = StorePathGraph::new();
        let ghost mut src: Seq<int> = Seq::empty();
        while rest.len() > 0
            invariant
                graph.wf(),
                rest@.len() <= orig.len(),
                rest@ == orig.take(rest@.len() as int),
                src.len() == graph.paths@.len(),
                forall|k: int| 0 <= k < src.len() ==> rest@.len() <= #[trigger] src[k] < orig.len(),
                forall|k: int| 0 <= k < src.len() ==> is_last_entry(orig, #[trigger] src[k]),
                forall|k: int|
                    #![trigger graph.paths@[k]]
                    0 <= k < graph.paths@.len() ==> built_from(graph.paths@[k], orig[src[k]]),
                forall|e: int| rest@.len() <= e < orig.len() ==> has_id(graph.paths@, #[trigger] orig[e].path@),
                forall|e: int| rest@.len() <= e < orig.len() ==> parses(#[trigger] orig[e].path@),
            decreases rest@.len(),
        {
            let ghost m = rest@.len() - 1;
            let ghost before = graph.paths@;
            let e = rest.pop().unwrap();
            assert(e == orig[m]);
            assert(rest@ =~= orig.take(m));
            if graph.index_of(&e.path).is_none() {
                match StorePath::new(e.path, e.nar_size, e.closure_size, e.references, e.signatures) {
                    Some(node) => {
                        proof {
                            assert forall|e2: int| m < e2 < orig.len() implies #[trigger] orig[e2].path@ != orig[m].path@ by {
                                assert(has_id(before, orig[e2].path@));
                            }
                            assert(built_from(node, orig[m]));
                        }
                        graph.add_path(node);
                        proof {
                            assert(graph.paths@ == before.push(node));
                            src = src.push(m);
                            assert forall|k: int|
                                #![trigger graph.paths@[k]]
                                0 <= k < graph.paths@.len() implies built_from(graph.paths@[k], orig[src[k]]) by {
                                if k < before.len() {
                                    assert(graph.paths@[k] == before[k]);
                                }
                            }
                            assert forall|e2: int| m <= e2 < orig.len() implies has_id(graph.paths@, #[trigger] orig[e2].path@) by {
                                if e2 == m {
                                    assert(graph.paths@[before.len() as int].path@ == orig[m].path@);
                                } else {
                                    let k = choose|k: int| 0 <= k < before.len() && before[k].path@ == orig[e2].path@;
                                    assert(graph.paths@[k] == before[k]);
                                }
                            }
                        }
                    },
                    None => {
                        assert(!parses(orig[m].path@));
                        return None;
                    },
                }
            } else {
                proof {
                    assert(orig[m].path@ == e.path@);
                    let k = choose|k: int| 0 <= k < before.len() && before[k].path@ == orig[m].path@;
                    assert(graph.paths@[k] == before[k]);
                    assert(parses(orig[src[k]].path@));
                }
            }
        }
        let ghost pre = graph.paths@;
        proof {
            assert forall|e: int| 0 <= e < orig.len() implies has_id(pre, #[trigger] orig[e].path@) by {
                assert(has_id(graph.paths@, orig[e].path@));
            }
            assert(loaded(orig, pre, src));
        }
        graph.roots = roots;
        graph.disambiguate_names();
        Some(graph)
    }
}

} // verus!
