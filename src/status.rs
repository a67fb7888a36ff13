//! The status line: what is known of the artifact in focus, as text.
use vstd::prelude::*;
use vstd::string::StringExecFns;

use crate::navigator::{names_of_present, parents_preview, App, PREVIEW_LIMIT};
use crate::path_stats::node_of;
use crate::store_path::{has_id, ids, ids_unique};

verus! {

/// The decimal digit for `d < 10`.
pub open spec fn digit(d: nat) -> char {
    seq!['0', '1', '2', '3', '4', '5', '6', '7', '8', '9'][d as int]
}

/// The decimal notation of `n`, without leading zeros.
pub open spec fn decimal(n: nat) -> Seq<char>
    decreases n,
{
    if n < 10 {
        seq![digit(n)]
    } else {
        decimal(n / 10).push(digit(n % 10))
    }
}

/// What is known of a displayed byte count: never empty, and below one
/// kilobyte the plain number followed by `" B"`.
pub open spec fn size_text_ok(n: u64, t: Seq<char>) -> bool {
    &&& t.len() > 0
    &&& n < 1000 ==> t == decimal(n as nat) + seq![' ', 'B']
}

/// Relies on `bytesize::ByteSize`'s `Display` (`bytesize::to_string` with
/// decimal units): below 1000 it writes the number and `" B"`; above, a
/// one-decimal value and a unit, whose choice goes through floating point.
#[verifier::external_body]
fn human_bytes(n: u64) -> (r: String)
    ensures
        size_text_ok(n, r@),
{
    bytesize::ByteSize(n).to_string()
}

pub open spec fn comma() -> Seq<char> {
    seq![',', ' ']
}

pub open spec fn ellipsis() -> Seq<char> {
    seq![',', ' ', '.', '.', '.']
}

pub open spec fn none_text() -> Seq<char> {
    seq!['n', 'o', 'n', 'e']
}

/// The parts of `v` with `sep` between neighbours.
pub open spec fn join_spec(v: Seq<Seq<char>>, sep: Seq<char>) -> Seq<char>
    decreases v.len(),
{
    if v.len() == 0 {
        Seq::empty()
    } else if v.len() == 1 {
        v[0]
    } else {
        join_spec(v.drop_last(), sep) + sep + v.last()
    }
}

/// The parts of `parts` separated by `", "`.
pub fn join_comma(parts: &Vec<String>) -> (r: String)
    ensures
        r@ == join_spec(ids(parts@), comma()),
{
    let sep = ", ";
    proof {
        reveal_strlit(", ");
        assert(sep@ =~= comma());
    }
    let mut r = String::new();
    let mut k: usize = 0;
    while k < parts.len()
        invariant
            sep@ == comma(),
            k <= parts@.len(),
            r@ == join_spec(ids(parts@).take(k as int), comma()),
        decreases parts@.len() - k,
    {
        assert(ids(parts@).take(k + 1).drop_last() =~= ids(parts@).take(k as int));
        if k > 0 {
            r.append(sep);
        } else {
            assert(r@ =~= Seq::<char>::empty());
        }
        r.append(parts[k].as_str());
        proof {
            if k == 0 {
                assert(r@ =~= ids(parts@).take(1)[0]);
            }
        }
        k = k + 1;
    }
    assert(ids(parts@).take(parts@.len() as int) =~= ids(parts@));
    r
}

/// The status line's facts about a known artifact.
pub struct StatusInfo {
    pub path: String,
    pub nar_size: String,
    pub closure_size: String,
    pub added_size: String,
    pub signatures: String,
    pub parents_count: usize,
    pub parents_preview: String,
}

/// What the status line shows.
pub enum Status {
    /// Nothing is in focus.
    NoSelection,
    /// The identifier in focus is not an artifact of the graph.
    Unknown(String),
    /// The identifier in focus and its facts.
    Known(StatusInfo),
}

/// The preview text for a list of referrers: the first few display names,
/// then `", ..."` when there are more.
pub open spec fn preview_text(
    p: Seq<crate::store_path::StorePath>,
    parents: Seq<Seq<char>>,
) -> Seq<char> {
    let shown = if parents.len() > PREVIEW_LIMIT {
        PREVIEW_LIMIT as int
    } else {
        parents.len() as int
    };
    join_spec(names_of_present(p, parents.take(shown)), comma()) + if parents.len()
        > PREVIEW_LIMIT {
        ellipsis()
    } else {
        Seq::empty()
    }
}

impl App {
    /// The status line for the artifact in focus.
    pub fn status(&self) -> (r: Status)
        requires
            self.wf(),
        ensures
            ({
                let p = self.graph.paths@;
                let st = self.stats@;
                match self.current_path {
                    None => r is NoSelection,
                    Some(id) => if !has_id(p, id@) {
                        r matches Status::Unknown(s) && s@ == id@
                    } else {
                        let k = node_of(p, id@);
                        r matches Status::Known(info) && {
                            &&& info.path@ == id@
                            &&& size_text_ok(p[k].nar_size, info.nar_size@)
                            &&& size_text_ok(st[k].closure_size, info.closure_size@)
                            &&& size_text_ok(st[k].added_size, info.added_size@)
                            &&& info.signatures@ == if p[k].signatures@.len() == 0 {
                                none_text()
                            } else {
                                join_spec(ids(p[k].signatures@), comma())
                            }
                            &&& info.parents_count == st[k].immediate_parents@.len()
                            &&& info.parents_preview@ == preview_text(
                                p,
                                ids(st[k].immediate_parents@),
                            )
                        }
                    },
                }
            }),
    {
        let id = match &self.current_path {
            Some(id) => id,
            None => {
                return Status::NoSelection;
            },
        };
        let k = match self.graph.index_of(id) {
            Some(k) => k,
            None => {
                return Status::Unknown(id.clone());
            },
        };
        let ghost p = self.graph.paths@;
        proof {
            let c = node_of(p, id@);
            assert(ids_unique(p));
            assert(p[c].path@ == p[k as int].path@);
        }
        let node = &self.graph.paths[k];
        let stats = &self.stats[k];
        let signatures = if node.signatures.len() == 0 {
            let t = "none";
            proof {
                reveal_strlit("none");
            }
            let s = t.to_owned();
            assert(s@ =~= none_text());
            s
        } else {
            join_comma(&node.signatures)
        };
        let (names, more) = parents_preview(&self.graph, &stats.immediate_parents);
        let mut preview = join_comma(&names);
        if more {
            proof {
                reveal_strlit(", ...");
            }
            let tail = ", ...";
            assert(tail@ =~= ellipsis());
            preview.append(tail);
        } else {
            assert(preview@ =~= preview@ + Seq::<char>::empty());
        }
        Status::Known(
            StatusInfo {
                path: id.clone(),
                nar_size: human_bytes(node.nar_size),
                closure_size: human_bytes(stats.closure_size),
                added_size: human_bytes(stats.added_size),
                signatures,
                parents_count: stats.immediate_parents.len(),
                parents_preview: preview,
            },
        )
    }
}

} // verus!
