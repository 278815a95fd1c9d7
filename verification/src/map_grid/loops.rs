//! Chaining: segments that follow one another head to tail become loops.

use crate::map_grid::path::{count_true, lemma_count_true_bound, lemma_count_true_set};
use crate::map_grid::stitch::{copy_edge, is_one_of, same_point};
use crate::map_grid::{Edge, Point};
use vstd::arithmetic::div_mod::{lemma_mod_self_0, lemma_small_mod};
use vstd::prelude::*;

verus! {

/// Whether edge `i` ends where the edge after it starts; the edge after the
/// last is the first.
pub open spec fn is_followed(edges: Seq<Edge>, i: int) -> bool {
    edges[i].1 == edges[(i + 1) % (edges.len() as int)].0
}

/// Whether the edges form a closed loop: each edge ends where the next one
/// starts, and the last ends where the first starts.
pub open spec fn is_closed_loop(edges: Seq<Edge>) -> bool {
    forall|i: int| 0 <= i < edges.len() ==> #[trigger] is_followed(edges, i)
}

/// Whether edge `k` of a chain ends where the next edge starts.
pub open spec fn is_joint(chain: Seq<Edge>, k: int) -> bool {
    chain[k].1 == chain[k + 1].0
}

/// The first segment, from `from` on, that is not yet used and starts at the
/// point `at`.
pub open spec fn next_unused_from(
    segments: Seq<Edge>,
    used: Seq<bool>,
    at: Point,
    from: int,
) -> Option<int>
    decreases segments.len() - from,
{
    if from < 0 || from >= segments.len() {
        None
    } else if !used[from] && segments[from].0 == at {
        Some(from)
    } else {
        next_unused_from(segments, used, at, from + 1)
    }
}

/// A chain that has come to its end: the segments used so far, the chain,
/// and whether it came back to the point at which it started.
pub struct Chase {
    pub used: Seq<bool>,
    pub chain: Seq<Edge>,
    pub closed: bool,
}

/// The chain that started with segment `first` and stands at segment
/// `current`, followed to its end: it goes on with the first unused segment
/// that starts where the current one ends, and it is closed as soon as a
/// segment ends where the first one starts.
pub open spec fn chased(
    segments: Seq<Edge>,
    used: Seq<bool>,
    first: int,
    current: int,
    chain: Seq<Edge>,
) -> Chase
    decreases used.len() - count_true(used),
{
    match next_unused_from(segments, used, segments[current].1, 0) {
        Some(next) => {
            if 0 <= next < used.len() && !used[next] {
                proof {
                    lemma_count_true_set(used, next);
                    lemma_count_true_bound(used.update(next, true));
                }
                if segments[next].1 == segments[first].0 {
                    Chase {
                        used: used.update(next, true),
                        chain: chain.push(segments[next]),
                        closed: true,
                    }
                } else {
                    chased(
                        segments,
                        used.update(next, true),
                        first,
                        next,
                        chain.push(segments[next]),
                    )
                }
            } else {
                Chase { used, chain, closed: false }
            }
        },
        None => Chase { used, chain, closed: false },
    }
}

/// The loops found from segment `first` on: every segment that is not yet
/// used starts a chain, and the chains that close are the loops.
pub open spec fn loops_from(segments: Seq<Edge>, used: Seq<bool>, first: int) -> Seq<Seq<Edge>>
    decreases segments.len() - first,
{
    if first < 0 || first >= segments.len() {
        Seq::empty()
    } else if used[first] {
        loops_from(segments, used, first + 1)
    } else {
        let chase = chased(segments, used.update(first, true), first, first, seq![segments[first]]);
        if chase.closed {
            seq![chase.chain] + loops_from(segments, chase.used, first + 1)
        } else {
            loops_from(segments, chase.used, first + 1)
        }
    }
}

/// The loops into which the segments chain.
pub open spec fn chained(segments: Seq<Edge>) -> Seq<Seq<Edge>> {
    loops_from(segments, Seq::new(segments.len(), |i: int| false), 0)
}

/// The edges of each of a list of loops.
pub open spec fn edges_of(loops: Seq<Vec<Edge>>) -> Seq<Seq<Edge>> {
    Seq::new(loops.len(), |l: int| loops[l]@)
}

/// A chain of edges in which each ends where the next starts, and the last
/// ends where the first starts, is a closed loop.
pub proof fn lemma_chain_closes(edges: Seq<Edge>)
    requires
        edges.len() > 0,
        forall|k: int| 0 <= k < edges.len() - 1 ==> #[trigger] is_joint(edges, k),
        edges[edges.len() - 1].1 == edges[0].0,
    ensures
        is_closed_loop(edges),
{
    let n = edges.len() as int;
    assert forall|i: int| 0 <= i < n implies #[trigger] is_followed(edges, i) by {
        if i + 1 < n {
            lemma_small_mod((i + 1) as nat, n as nat);
            assert(is_joint(edges, i));
        } else {
            lemma_mod_self_0(n);
        }
    }
}

/// The first segment not yet used that starts at the point `at`.
fn next_unused(segments: &Vec<Edge>, used: &Vec<bool>, at: &Point) -> (found: Option<usize>)
    requires
        used@.len() == segments@.len(),
    ensures
        match found {
            Some(j) => j < segments@.len() && !used@[j as int] && segments@[j as int].0 == *at
                && next_unused_from(segments@, used@, *at, 0) == Some(j as int),
            None => next_unused_from(segments@, used@, *at, 0) is None,
        },
{
    let mut j: usize = 0;
    while j < segments.len()
        invariant
            j <= segments@.len(),
            used@.len() == segments@.len(),
            next_unused_from(segments@, used@, *at, j as int) == next_unused_from(
                segments@,
                used@,
                *at,
                0,
            ),
        decreases segments@.len() - j,
    {
        if !used[j] && same_point(&segments[j].0, at) {
            return Some(j);
        }
        j = j + 1;
    }
    None
}

/// Whether every loop is a closed, non-empty loop of segments.
pub open spec fn are_loops_of(segments: Seq<Edge>, loops: Seq<Vec<Edge>>) -> bool {
    &&& forall|l: int|
        0 <= l < loops.len() ==> (#[trigger] loops[l])@.len() > 0 && is_closed_loop(loops[l]@)
    &&& forall|l: int, k: int|
        0 <= l < loops.len() && 0 <= k < loops[l]@.len() ==> is_one_of(
            segments,
            #[trigger] loops[l]@[k],
        )
}

/// Follows the chain that starts with segment `first` to its end and marks
/// the segments that it uses. Returns the chain and whether it is closed.
fn chase(segments: &Vec<Edge>, used: &mut Vec<bool>, first: usize) -> (found: (Vec<Edge>, bool))
    requires
        old(used)@.len() == segments@.len(),
        first < segments@.len(),
        old(used)@[first as int],
    ensures
        final(used)@.len() == segments@.len(),
        chased(segments@, old(used)@, first as int, first as int, seq![segments@[first as int]])
            == (Chase { used: final(used)@, chain: found.0@, closed: found.1 }),
        found.0@.len() > 0,
        found.1 ==> is_closed_loop(found.0@),
        forall|k: int| 0 <= k < found.0@.len() ==> is_one_of(segments@, #[trigger] found.0@[k]),
{
    let count = segments.len();
    let mut chain: Vec<Edge> = Vec::new();
    chain.push(copy_edge(&segments[first]));
    assert(chain@ =~= seq![segments@[first as int]]);
    let ghost end = chased(segments@, used@, first as int, first as int, chain@);
    let mut current: usize = first;
    let mut closed = false;
    loop
        invariant_except_break
            !closed,
            chased(segments@, used@, first as int, current as int, chain@) == end,
        invariant
            count == segments@.len(),
            used@.len() == count,
            first < count,
            current < count,
            chain@.len() > 0,
            chain@[0] == segments@[first as int],
            chain@[chain@.len() - 1] == segments@[current as int],
            forall|k: int| 0 <= k < chain@.len() - 1 ==> #[trigger] is_joint(chain@, k),
            forall|k: int| 0 <= k < chain@.len() ==> is_one_of(segments@, #[trigger] chain@[k]),
        ensures
            chain@.len() > 0,
            closed ==> is_closed_loop(chain@),
            forall|k: int| 0 <= k < chain@.len() ==> is_one_of(segments@, #[trigger] chain@[k]),
            used@.len() == count,
            end == (Chase { used: used@, chain: chain@, closed }),
        decreases count - count_true(used@),
    {
        proof {
            lemma_count_true_bound(used@);
        }
        match next_unused(segments, used, &segments[current].1) {
            Some(next) => {
                proof {
                    lemma_count_true_set(used@, next as int);
                    lemma_count_true_bound(used@.update(next as int, true));
                }
                let ghost before = chain@;
                used[next] = true;
                chain.push(copy_edge(&segments[next]));
                assert forall|k: int| 0 <= k < chain@.len() implies is_one_of(
                    segments@,
                    #[trigger] chain@[k],
                ) by {
                    if k < before.len() {
                        assert(chain@[k] == before[k]);
                    }
                }
                assert forall|k: int| 0 <= k < chain@.len() - 1 implies #[trigger] is_joint(
                    chain@,
                    k,
                ) by {
                    if k < before.len() - 1 {
                        assert(is_joint(before, k));
                    }
                }
                current = next;
                if same_point(&segments[next].1, &segments[first].0) {
                    proof {
                        lemma_chain_closes(chain@);
                    }
                    closed = true;
                    break ;
                }
            },
            None => {
                break ;
            },
        }
    }
    (chain, closed)
}

/// Adding a loop of segments to loops of segments gives loops of segments.
proof fn lemma_loop_joins(segments: Seq<Edge>, loops: Seq<Vec<Edge>>, chain: Vec<Edge>)
    requires
        are_loops_of(segments, loops),
        chain@.len() > 0,
        is_closed_loop(chain@),
        forall|k: int| 0 <= k < chain@.len() ==> is_one_of(segments, #[trigger] chain@[k]),
    ensures
        are_loops_of(segments, loops.push(chain)),
        edges_of(loops.push(chain)) == edges_of(loops) + seq![chain@],
{
    let more = loops.push(chain);
    assert forall|l: int| 0 <= l < more.len() implies (#[trigger] more[l])@.len() > 0
        && is_closed_loop(more[l]@) by {
        if l < loops.len() {
            assert(more[l] == loops[l]);
        }
    }
    assert forall|l: int, k: int| 0 <= l < more.len() && 0 <= k < more[l]@.len() implies is_one_of(
        segments,
        #[trigger] more[l]@[k],
    ) by {
        if l < loops.len() {
            assert(more[l] == loops[l]);
        }
    }
    assert(edges_of(more) =~= edges_of(loops) + seq![chain@]);
}

/// Chains the segments head to tail into loops. A chain is a loop, and is
/// kept, only when it comes back to the point at which it started.
pub(crate) fn chain_loops(segments: &Vec<Edge>) -> (loops: Vec<Vec<Edge>>)
    ensures
        edges_of(loops@) == chained(segments@),
        are_loops_of(segments@, loops@),
{
    let count = segments.len();
    let mut used: Vec<bool> = vec![false; count];
    assert(used@ =~= Seq::new(segments@.len(), |i: int| false));
    let mut loops: Vec<Vec<Edge>> = Vec::new();
    assert(edges_of(loops@) =~= Seq::<Seq<Edge>>::empty());
    let mut first: usize = 0;
    while first < count
        invariant
            count == segments@.len(),
            used@.len() == count,
            first <= count,
            edges_of(loops@) + loops_from(segments@, used@, first as int) == chained(segments@),
            are_loops_of(segments@, loops@),
        decreases count - first,
    {
        if !used[first] {
            let ghost unused = used@;
            let ghost found = loops@;
            used[first] = true;
            let (chain, closed) = chase(segments, &mut used, first);
            let ghost edges = chain@;
            if closed {
                proof {
                    lemma_loop_joins(segments@, loops@, chain);
                }
                loops.push(chain);
            }
            proof {
                let rest = loops_from(segments@, used@, first + 1);
                assert(loops_from(segments@, unused, first as int) == if closed {
                    seq![edges] + rest
                } else {
                    rest
                });
                assert(edges_of(found) + (seq![edges] + rest) =~= (edges_of(found) + seq![edges])
                    + rest);
            }
        }
        first = first + 1;
    }
    assert(edges_of(loops@) + loops_from(segments@, used@, count as int) =~= edges_of(loops@));
    loops
}

} // verus!
