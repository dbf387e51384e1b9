//! The Hamiltonian-path search: a recursive backtracking walk over a graph,
//! tracking the visited set in a bitmask and trying candidates in increasing
//! index order.

use vstd::prelude::*;

use crate::bits::bit64;
use crate::bitset::BitSet;
use crate::graph::{path_names, str_views, Graph, GraphError};

verus! {

/// A valid partial walk: every index is a node, none repeats, and each
/// consecutive pair is an edge.
pub open spec fn path_ok(g: Graph, p: Seq<usize>) -> bool {
    &&& (forall|k: int| 0 <= k < p.len() ==> ((#[trigger] p[k]) as int) < g.spec_size())
    &&& p.no_duplicates()
    &&& (forall|k: int|
        1 <= k < p.len() ==> g.spec_edge(p[k - 1] as int, (#[trigger] p[k]) as int))
}

/// A Hamiltonian path: a valid walk that visits every node exactly once.
pub open spec fn is_hamiltonian(g: Graph, p: Seq<usize>) -> bool {
    p.len() == g.spec_size() && path_ok(g, p)
}

/// No Hamiltonian path of `g` starts with the index sequence `base`.
pub open spec fn no_ham_with_prefix(g: Graph, base: Seq<usize>) -> bool {
    forall|q: Seq<usize>| is_hamiltonian(g, q) ==> !(#[trigger] base.is_prefix_of(q))
}

/// The visited word holds exactly the indices on the path.
pub open spec fn visited_matches(v: u64, p: Seq<usize>) -> bool {
    forall|i: u64| i < 64 ==> (#[trigger] bit64(v, i) <==> p.contains(i as usize))
}

/// One backtracking step: appends the current node to the path, succeeds if
/// the path now covers the graph, else recurses into each unvisited
/// neighbour in increasing index order; on failure restores the path and the
/// visited set. A success reports the full path's names; a failure means no
/// Hamiltonian path extends the path through the current node.
#[verifier::loop_isolation(false)]
fn find_hamiltonian_r(
    graph: &Graph,
    current_node_idx: usize,
    path: &mut Vec<usize>,
    visited: &mut BitSet,
) -> (r: Option<Vec<String>>)
    requires
        graph.wf(),
        old(path)@.len() < graph.spec_size(),
        (current_node_idx as int) < graph.spec_size(),
        path_ok(*graph, old(path)@),
        !old(path)@.contains(current_node_idx),
        old(path)@.len() > 0 ==> graph.spec_edge(
            old(path)@.last() as int,
            current_node_idx as int,
        ),
        visited_matches(old(visited).state, old(path)@),
    ensures
        r matches Some(names) ==> {
            &&& is_hamiltonian(*graph, final (path)@)
            &&& old(path)@.push(current_node_idx).is_prefix_of(final (path)@)
            &&& str_views(names@) == path_names(*graph, final (path)@)
        },
        r is None ==> {
            &&& final (path)@ == old(path)@
            &&& final (visited).state == old(visited).state
            &&& no_ham_with_prefix(*graph, old(path)@.push(current_node_idx))
        },
    decreases graph.spec_size() - old(path)@.len(),
{
    let ghost base = old(path)@.push(current_node_idx);
    path.push(current_node_idx);
    visited.set(current_node_idx);
    proof {
        assert forall|k: int| 0 <= k < base.len() implies ((#[trigger] base[k]) as int)
            < graph.spec_size() by {
            if k < base.len() - 1 {
                assert(base[k] == old(path)@[k]);
            }
        }
        crate::graph::lemma_push_no_dup(old(path)@, current_node_idx);
        assert forall|k: int| 1 <= k < base.len() implies graph.spec_edge(
            base[k - 1] as int,
            (#[trigger] base[k]) as int,
        ) by {
            if k < base.len() - 1 {
                assert(base[k - 1] == old(path)@[k - 1]);
                assert(base[k] == old(path)@[k]);
            } else {
                assert(base[k] == current_node_idx);
                assert(base[k - 1] == old(path)@[k - 1]);
                assert(old(path)@[k - 1] == old(path)@.last());
            }
        }
        assert(path_ok(*graph, base));
        assert forall|i: u64| i < 64 implies (#[trigger] bit64(visited.state, i) <==> base.contains(
            i as usize,
        )) by {
            crate::graph::lemma_push_contains(old(path)@, current_node_idx, i as usize);
        }
        assert(visited_matches(visited.state, base));
    }
    if path.len() == graph.size() {
        let names = graph.get_node_names(path.as_slice());
        proof {
            assert(base.is_prefix_of(path@));
            assert(is_hamiltonian(*graph, path@));
        }
        return Some(names);
    }
    let current_node = graph.get_node_by_index(current_node_idx);
    let mut to_visit: u64 = current_node.0 & !visited.state;
    let ghost tv0 = to_visit;
    let ghost vis1 = visited.state;
    proof {
        crate::bits::lemma_bit_diff(current_node.0, vis1);
        assert(base.len() < graph.spec_size());
    }
    while to_visit != 0
        invariant
            path@ == base,
            visited.state == vis1,
            forall|b: u64| b < 64 && #[trigger] bit64(to_visit, b) ==> bit64(tv0, b),
            forall|b: u64|
                b < 64 && #[trigger] bit64(tv0, b) && !bit64(to_visit, b) ==> no_ham_with_prefix(
                    *graph,
                    base.push(b as usize),
                ),
        decreases to_visit,
    {
        let next_u: u32 = to_visit.trailing_zeros();
        let next: usize = next_u as usize;
        proof {
            vstd::std_specs::bits::axiom_u64_trailing_zeros(to_visit);
            assert(next_u < 64);
            assert(bit64(to_visit, next as u64));
            assert(bit64(tv0, next as u64));
            assert(bit64(current_node.0, next as u64) && !bit64(vis1, next as u64));
            assert((next as int) < graph.spec_size());
            assert(!base.contains(next));
            assert(graph.spec_edge(current_node_idx as int, next as int));
            assert(base.last() == current_node_idx);
        }
        let r = find_hamiltonian_r(graph, next, path, visited);
        if r.is_some() {
            proof {
                assert(base.push(next).is_prefix_of(path@));
                assert(path@.subrange(0, base.len() as int) =~= base);
                assert(base.is_prefix_of(path@));
            }
            return r;
        }
        proof {
            crate::bits::lemma_bit_clear(to_visit, next as u64);
            crate::bits::lemma_bit_clear_decreases(to_visit, next as u64);
        }
        let ghost tv_prev = to_visit;
        to_visit = to_visit & !(1u64 << (next as u64));
        proof {
            assert(no_ham_with_prefix(*graph, base.push(next)));
            assert forall|b: u64|
                b < 64 && #[trigger] bit64(tv0, b) && !bit64(to_visit, b) implies no_ham_with_prefix(
                *graph,
                base.push(b as usize),
            ) by {
                if b == next as u64 {
                    assert((b as usize) == next);
                    assert(base.push(b as usize) == base.push(next));
                } else {
                    assert(!bit64(tv_prev, b));
                }
            }
        }
    }
    proof {
        crate::bits::lemma_bit_zero();
        assert forall|q: Seq<usize>| is_hamiltonian(*graph, q) implies !(#[trigger] base.is_prefix_of(
            q,
        )) by {
            if base.is_prefix_of(q) {
                assert(q.len() == graph.spec_size());
                let nn = q[base.len() as int];
                assert((nn as int) < graph.spec_size());
                assert(q[base.len() - 1] == base[base.len() - 1]);
                assert(q[base.len() - 1] == current_node_idx);
                assert(graph.spec_edge(current_node_idx as int, nn as int));
                assert(!base.contains(nn)) by {
                    if base.contains(nn) {
                        let w = choose|w: int| 0 <= w < base.len() && base[w] == nn;
                        assert(q[w] == nn);
                        assert(q[w] == q[base.len() as int]);
                    }
                }
                assert(bit64(current_node.0, nn as u64));
                assert(!bit64(vis1, nn as u64));
                assert(bit64(tv0, nn as u64));
                assert(no_ham_with_prefix(*graph, base.push((nn as u64) as usize)));
                assert(base.push((nn as u64) as usize) == base.push(nn));
                assert(no_ham_with_prefix(*graph, base.push(nn)));
                assert(base.push(nn) =~= q.subrange(0, base.len() as int + 1));
                assert(base.push(nn).is_prefix_of(q));
                assert(false);
            }
        }
        assert(no_ham_with_prefix(*graph, base));
    }
    visited.unset(current_node_idx);
    path.pop();
    proof {
        assert(!bit64(old(visited).state, current_node_idx as u64));
        crate::bits::lemma_bit_set_then_clear(old(visited).state, current_node_idx as u64);
        assert(visited.state == old(visited).state);
        assert(path@ =~= old(path)@);
    }
    None
}

/// Searches for a Hamiltonian path of `graph` starting at the node named
/// `starting_node`: fails exactly when that name is not in the graph, and
/// otherwise returns the names of some Hamiltonian path from it, or `None`
/// exactly when no Hamiltonian path starts there.
pub fn find_hamiltonian(graph: &Graph, starting_node: &str) -> (r: Result<
    Option<Vec<String>>,
    GraphError,
>)
    requires
        graph.wf(),
    ensures
        r is Err <==> !graph.names().contains(starting_node@),
        r matches Err(e) ==> e == GraphError::NodeNotFound,
        r matches Ok(found) ==> match found {
            Some(names) => exists|q: Seq<usize>|
                {
                    &&& #[trigger] is_hamiltonian(*graph, q)
                    &&& q.len() > 0
                    &&& graph.names()[q[0] as int] == starting_node@
                    &&& str_views(names@) == path_names(*graph, q)
                },
            None => forall|q: Seq<usize>|
                #[trigger] is_hamiltonian(*graph, q) ==> !(q.len() > 0 && graph.names()[
                    q[0] as int
                ] == starting_node@),
        },
{
    let starting_idx = match graph.get_node_idx(starting_node) {
        Ok(i) => i,
        Err(e) => {
            return Err(e);
        },
    };
    let mut path: Vec<usize> = Vec::with_capacity(graph.size());
    let mut bitset = BitSet::new();
    proof {
        crate::bits::lemma_bit_zero();
        assert(graph.spec_size() > 0);
        assert(visited_matches(bitset.state, path@));
    }
    let ghost start_prefix = path@.push(starting_idx);
    let r = find_hamiltonian_r(graph, starting_idx, &mut path, &mut bitset);
    proof {
        if r is Some {
            assert(is_hamiltonian(*graph, path@));
            assert(start_prefix.is_prefix_of(path@));
            assert(path@[0] == start_prefix[0]);
            assert(graph.names()[path@[0] as int] == starting_node@);
        } else {
            assert(no_ham_with_prefix(*graph, start_prefix));
                assert forall|q: Seq<usize>| #[trigger] is_hamiltonian(*graph, q) implies !(q.len()
                    > 0 && graph.names()[q[0] as int] == starting_node@) by {
                    if q.len() > 0 && graph.names()[q[0] as int] == starting_node@ {
                        assert((q[0] as int) < graph.spec_size());
                        assert(graph.names()[q[0] as int] == graph.names()[starting_idx as int]);
                        assert(q[0] as int == starting_idx as int);
                        assert(start_prefix =~= q.subrange(0, 1));
                        assert(start_prefix.is_prefix_of(q));
                    }
                }
        }
    }
    Ok(r)
}

} // verus!
