//! Stitching: unit edges that adjoin on one line become straight segments.

use crate::map_grid::{Edge, Point};
use vstd::prelude::*;

verus! {

/// Whether an edge runs along a row.
pub open spec fn is_horizontal(e: Edge) -> bool {
    e.0.y == e.1.y
}

/// Whether an edge runs along a column.
pub open spec fn is_vertical(e: Edge) -> bool {
    e.0.x == e.1.x
}

/// Whether an edge runs along the chosen axis.
pub open spec fn is_aligned(e: Edge, horizontal: bool) -> bool {
    if horizontal {
        is_horizontal(e)
    } else {
        is_vertical(e)
    }
}

/// The coordinate of a point along the chosen axis.
pub open spec fn along(p: Point, horizontal: bool) -> int {
    if horizontal {
        p.x as int
    } else {
        p.y as int
    }
}

/// The coordinate of a point across the chosen axis: the line on which an
/// edge along that axis lies.
pub open spec fn across(p: Point, horizontal: bool) -> int {
    if horizontal {
        p.y as int
    } else {
        p.x as int
    }
}

/// Whether `e` is one of `edges`.
pub open spec fn is_one_of(edges: Seq<Edge>, e: Edge) -> bool {
    exists|k: int| 0 <= k < edges.len() && #[trigger] edges[k] == e
}

/// Whether the segment `e` starts where one of `edges` starts and ends where
/// one of `edges` ends, all three running along the same axis.
pub open spec fn spans(edges: Seq<Edge>, e: Edge) -> bool {
    exists|i: int, j: int|
        0 <= i < edges.len() && 0 <= j < edges.len() && (#[trigger] edges[i]).0 == e.0
            && (#[trigger] edges[j]).1 == e.1 && ((is_horizontal(e) && is_horizontal(edges[i])
            && is_horizontal(edges[j])) || (is_vertical(e) && is_vertical(edges[i]) && is_vertical(
            edges[j],
        )))
}

/// Whether `e` is one of `edges`, runs along the chosen axis and lies on the
/// given line.
pub open spec fn is_on_line(edges: Seq<Edge>, e: Edge, horizontal: bool, line: int) -> bool {
    is_one_of(edges, e) && is_aligned(e, horizontal) && across(e.0, horizontal) == line
}

/// Whether each of `group` is one of `edges` on the given line.
pub open spec fn all_on_line(
    edges: Seq<Edge>,
    group: Seq<Edge>,
    horizontal: bool,
    line: int,
) -> bool {
    forall|k: int| 0 <= k < group.len() ==> is_on_line(edges, #[trigger] group[k], horizontal, line)
}

/// Whether each of `segments` spans edges of `edges`.
pub open spec fn all_span(edges: Seq<Edge>, segments: Seq<Edge>) -> bool {
    forall|k: int| 0 <= k < segments.len() ==> spans(edges, #[trigger] segments[k])
}

/// Where an edge that starts at `key` goes into a group ordered by start:
/// behind every edge, from `from` on, that starts at `key` or before it.
pub open spec fn insert_position(group: Seq<Edge>, horizontal: bool, key: int, from: int) -> int
    decreases group.len() - from,
{
    if 0 <= from < group.len() && along(group[from].0, horizontal) <= key {
        insert_position(group, horizontal, key, from + 1)
    } else {
        from
    }
}

/// The edges among the first `upto` of `edges` that run along the axis on
/// the given line, ordered by where they start; edges that start at the same
/// coordinate keep their order.
pub open spec fn line_group(edges: Seq<Edge>, horizontal: bool, line: int, upto: int) -> Seq<Edge>
    decreases upto,
{
    if upto <= 0 {
        Seq::empty()
    } else {
        let rest = line_group(edges, horizontal, line, upto - 1);
        let e = edges[upto - 1];
        if is_aligned(e, horizontal) && across(e.0, horizontal) == line {
            rest.insert(insert_position(rest, horizontal, along(e.0, horizontal), 0), e)
        } else {
            rest
        }
    }
}

/// The first edge of `group`, from `from` on, whose start (or, if `at_start`
/// is false, whose end) has the coordinate `at` along the axis.
pub open spec fn first_at_from(
    group: Seq<Edge>,
    at: int,
    horizontal: bool,
    at_start: bool,
    from: int,
) -> Option<int>
    decreases group.len() - from,
{
    if from < 0 || from >= group.len() {
        None
    } else if at == (if at_start {
        along(group[from].0, horizontal)
    } else {
        along(group[from].1, horizontal)
    }) {
        Some(from)
    } else {
        first_at_from(group, at, horizontal, at_start, from + 1)
    }
}

/// A segment that is being stitched: the edge at its head, the edge at its
/// tail, and the edges that are left.
pub struct Growth {
    pub rest: Seq<Edge>,
    pub head: Edge,
    pub tail: Edge,
}

/// The segment from `tail` to `head`, fully grown: it grows at its head by
/// the first edge that starts where the head ends, else at its tail by the
/// first edge that ends where the tail starts, until neither exists.
pub open spec fn grown(group: Seq<Edge>, head: Edge, tail: Edge, horizontal: bool) -> Growth
    decreases group.len(),
{
    match first_at_from(group, along(head.1, horizontal), horizontal, true, 0) {
        Some(k) => if 0 <= k < group.len() {
            grown(group.remove(k), group[k], tail, horizontal)
        } else {
            Growth { rest: group, head, tail }
        },
        None => match first_at_from(group, along(tail.0, horizontal), horizontal, false, 0) {
            Some(k) => if 0 <= k < group.len() {
                grown(group.remove(k), head, group[k], horizontal)
            } else {
                Growth { rest: group, head, tail }
            },
            None => Growth { rest: group, head, tail },
        },
    }
}

/// The segments into which the edges of one line are stitched: each segment
/// starts with the first edge that is left and grows as far as it can.
pub open spec fn stitched_line(group: Seq<Edge>, horizontal: bool) -> Seq<Edge>
    decreases group.len(),
{
    if group.len() == 0 {
        Seq::empty()
    } else {
        let growth = grown(group.remove(0), group[0], group[0], horizontal);
        let segment = Edge(growth.tail.0, growth.head.1);
        if growth.rest.len() < group.len() {
            seq![segment] + stitched_line(growth.rest, horizontal)
        } else {
            seq![segment]
        }
    }
}

/// The segments of the lines from `from_line` to `size`, line by line.
pub open spec fn stitched_lines(
    edges: Seq<Edge>,
    size: int,
    horizontal: bool,
    from_line: int,
) -> Seq<Edge>
    decreases size + 1 - from_line,
{
    if from_line < 0 || from_line > size {
        Seq::empty()
    } else {
        stitched_line(line_group(edges, horizontal, from_line, edges.len() as int), horizontal)
            + stitched_lines(edges, size, horizontal, from_line + 1)
    }
}

/// The maximal straight segments of the edges of a grid of the given size:
/// the horizontal ones line by line from the top, then the vertical ones
/// line by line from the left.
pub open spec fn stitched(edges: Seq<Edge>, size: int) -> Seq<Edge> {
    stitched_lines(edges, size, true, 0) + stitched_lines(edges, size, false, 0)
}

/// Growing a segment never adds to the edges that are left.
pub proof fn lemma_grown_shrinks(group: Seq<Edge>, head: Edge, tail: Edge, horizontal: bool)
    ensures
        grown(group, head, tail, horizontal).rest.len() <= group.len(),
    decreases group.len(),
{
    match first_at_from(group, along(head.1, horizontal), horizontal, true, 0) {
        Some(k) => {
            if 0 <= k < group.len() {
                lemma_grown_shrinks(group.remove(k), group[k], tail, horizontal);
            }
        },
        None => {
            match first_at_from(group, along(tail.0, horizontal), horizontal, false, 0) {
                Some(k) => {
                    if 0 <= k < group.len() {
                        lemma_grown_shrinks(group.remove(k), head, group[k], horizontal);
                    }
                },
                None => {},
            }
        },
    }
}

/// The segment from the start of one edge to the end of another on the same
/// line spans the edges.
pub proof fn lemma_segment_spans(
    edges: Seq<Edge>,
    tail: Edge,
    head: Edge,
    horizontal: bool,
    line: int,
)
    requires
        is_on_line(edges, tail, horizontal, line),
        is_on_line(edges, head, horizontal, line),
    ensures
        spans(edges, Edge(tail.0, head.1)),
{
    let i = choose|k: int| 0 <= k < edges.len() && #[trigger] edges[k] == tail;
    let j = choose|k: int| 0 <= k < edges.len() && #[trigger] edges[k] == head;
    assert(edges[i].0 == tail.0 && edges[j].1 == head.1);
}

/// A copy of a point.
pub(crate) fn copy_point(p: &Point) -> (q: Point)
    ensures
        q == *p,
{
    Point { x: p.x, y: p.y }
}

/// A copy of an edge.
pub(crate) fn copy_edge(e: &Edge) -> (f: Edge)
    ensures
        f == *e,
{
    Edge(copy_point(&e.0), copy_point(&e.1))
}

/// Whether two points are the same.
pub(crate) fn same_point(a: &Point, b: &Point) -> (same: bool)
    ensures
        same == (*a == *b),
{
    a.x == b.x && a.y == b.y
}

/// The coordinate of a point along the chosen axis.
fn coordinate_along(p: &Point, horizontal: bool) -> (c: i32)
    ensures
        c == along(*p, horizontal),
{
    if horizontal {
        p.x
    } else {
        p.y
    }
}

/// The coordinate of a point across the chosen axis.
fn coordinate_across(p: &Point, horizontal: bool) -> (c: i32)
    ensures
        c == across(*p, horizontal),
{
    if horizontal {
        p.y
    } else {
        p.x
    }
}

/// Whether an edge runs along the chosen axis.
fn runs_along(e: &Edge, horizontal: bool) -> (aligned: bool)
    ensures
        aligned == is_aligned(*e, horizontal),
{
    if horizontal {
        e.0.y == e.1.y
    } else {
        e.0.x == e.1.x
    }
}

/// The first edge of `group` whose start (or, if `at_start` is false, whose
/// end) has the coordinate `at` along the axis.
fn first_at(group: &Vec<Edge>, at: i32, horizontal: bool, at_start: bool) -> (found: Option<usize>)
    ensures
        match found {
            Some(k) => k < group@.len() && first_at_from(
                group@,
                at as int,
                horizontal,
                at_start,
                0,
            ) == Some(k as int),
            None => first_at_from(group@, at as int, horizontal, at_start, 0) is None,
        },
{
    let mut k: usize = 0;
    while k < group.len()
        invariant
            k <= group@.len(),
            first_at_from(group@, at as int, horizontal, at_start, k as int) == first_at_from(
                group@,
                at as int,
                horizontal,
                at_start,
                0,
            ),
        decreases group@.len() - k,
    {
        let c = if at_start {
            coordinate_along(&group[k].0, horizontal)
        } else {
            coordinate_along(&group[k].1, horizontal)
        };
        if c == at {
            return Some(k);
        }
        k = k + 1;
    }
    None
}

/// The edges of `edges` that run along the axis on the given line, ordered
/// by where they start.
fn edges_on_line(edges: &Vec<Edge>, horizontal: bool, line: i32) -> (group: Vec<Edge>)
    ensures
        group@ == line_group(edges@, horizontal, line as int, edges@.len() as int),
        all_on_line(edges@, group@, horizontal, line as int),
{
    let mut group: Vec<Edge> = Vec::new();
    let mut i: usize = 0;
    while i < edges.len()
        invariant
            i <= edges@.len(),
            group@ == line_group(edges@, horizontal, line as int, i as int),
            all_on_line(edges@, group@, horizontal, line as int),
        decreases edges@.len() - i,
    {
        if runs_along(&edges[i], horizontal) && coordinate_across(&edges[i].0, horizontal) == line {
            let key = coordinate_along(&edges[i].0, horizontal);
            let mut pos: usize = 0;
            while pos < group.len() && coordinate_along(&group[pos].0, horizontal) <= key
                invariant
                    pos <= group@.len(),
                    insert_position(group@, horizontal, key as int, pos as int) == insert_position(
                        group@,
                        horizontal,
                        key as int,
                        0,
                    ),
                decreases group@.len() - pos,
            {
                pos = pos + 1;
            }
            let e = copy_edge(&edges[i]);
            assert(is_on_line(edges@, e, horizontal, line as int)) by {
                assert(edges@[i as int] == e);
            }
            let ghost before = group@;
            group.insert(pos, e);
            assert forall|k: int| 0 <= k < group@.len() implies is_on_line(
                edges@,
                #[trigger] group@[k],
                horizontal,
                line as int,
            ) by {
                if k < pos {
                    assert(group@[k] == before[k]);
                } else if k > pos {
                    assert(group@[k] == before[k - 1]);
                }
            }
        }
        i = i + 1;
    }
    group
}

/// Stitches the edges of one line into segments and appends the segments to
/// `stitched`.
fn stitch_line(
    group: Vec<Edge>,
    horizontal: bool,
    stitched: &mut Vec<Edge>,
    Ghost(edges): Ghost<Seq<Edge>>,
    Ghost(line): Ghost<int>,
)
    requires
        all_on_line(edges, group@, horizontal, line),
        all_span(edges, old(stitched)@),
    ensures
        final(stitched)@ == old(stitched)@ + stitched_line(group@, horizontal),
        all_span(edges, final(stitched)@),
{
    let ghost target = old(stitched)@ + stitched_line(group@, horizontal);
    let mut group = group;
    while group.len() > 0
        invariant
            all_on_line(edges, group@, horizontal, line),
            all_span(edges, stitched@),
            stitched@ + stitched_line(group@, horizontal) == target,
        decreases group@.len(),
    {
        let ghost whole = group@;
        let ghost done = stitched@;
        let mut head = group.remove(0);
        let mut tail = copy_edge(&head);
        let ghost growth = grown(group@, head, tail, horizontal);
        proof {
            lemma_grown_shrinks(group@, head, tail, horizontal);
        }
        loop
            invariant
                group@.len() < whole.len(),
                all_on_line(edges, group@, horizontal, line),
                is_on_line(edges, head, horizontal, line),
                is_on_line(edges, tail, horizontal, line),
                grown(group@, head, tail, horizontal) == growth,
                stitched@ == done,
            ensures
                group@.len() < whole.len(),
                all_on_line(edges, group@, horizontal, line),
                is_on_line(edges, head, horizontal, line),
                is_on_line(edges, tail, horizontal, line),
                growth == (Growth { rest: group@, head, tail }),
                stitched@ == done,
            decreases group@.len(),
        {
            let head_end = coordinate_along(&head.1, horizontal);
            let tail_start = coordinate_along(&tail.0, horizontal);
            match first_at(&group, head_end, horizontal, true) {
                Some(k) => {
                    head = group.remove(k);
                },
                None => {
                    match first_at(&group, tail_start, horizontal, false) {
                        Some(k) => {
                            tail = group.remove(k);
                        },
                        None => {
                            break ;
                        },
                    }
                },
            }
        }
        proof {
            lemma_segment_spans(edges, tail, head, horizontal, line);
        }
        let segment = Edge(tail.0, head.1);
        stitched.push(segment);
        proof {
            assert forall|k: int| 0 <= k < stitched@.len() implies spans(
                edges,
                #[trigger] stitched@[k],
            ) by {
                if k < done.len() {
                    assert(stitched@[k] == done[k]);
                }
            }
            assert(stitched@ + stitched_line(group@, horizontal) =~= done + (seq![segment]
                + stitched_line(group@, horizontal)));
        }
    }
    assert(stitched@ + stitched_line(group@, horizontal) =~= stitched@);
}

/// The maximal straight segments of the boundary: the horizontal ones line
/// by line from the top, then the vertical ones line by line from the left.
pub(crate) fn stitch(edges: &Vec<Edge>, size: usize) -> (segments: Vec<Edge>)
    requires
        size <= i32::MAX,
    ensures
        segments@ == stitched(edges@, size as int),
        all_span(edges@, segments@),
{
    let mut segments: Vec<Edge> = Vec::new();
    let mut pass: usize = 0;
    while pass < 2
        invariant
            pass <= 2,
            size <= i32::MAX,
            all_span(edges@, segments@),
            pass == 0 ==> segments@ == Seq::<Edge>::empty(),
            pass == 1 ==> segments@ == stitched_lines(edges@, size as int, true, 0),
            pass == 2 ==> segments@ == stitched(edges@, size as int),
        decreases 2 - pass,
    {
        let horizontal = pass == 0;
        let ghost done = segments@;
        let mut line: usize = 0;
        while line <= size
            invariant
                line <= size + 1,
                size <= i32::MAX,
                all_span(edges@, segments@),
                segments@ + stitched_lines(edges@, size as int, horizontal, line as int) == done
                    + stitched_lines(edges@, size as int, horizontal, 0),
            decreases size + 1 - line,
        {
            let ghost before = segments@;
            let group = edges_on_line(edges, horizontal, line as i32);
            stitch_line(group, horizontal, &mut segments, Ghost(edges@), Ghost(line as int));
            assert(segments@ + stitched_lines(edges@, size as int, horizontal, line + 1) =~= before
                + stitched_lines(edges@, size as int, horizontal, line as int));
            line = line + 1;
        }
        assert(segments@ + stitched_lines(edges@, size as int, horizontal, size + 1) =~= segments@);
        assert(Seq::<Edge>::empty() + stitched_lines(edges@, size as int, true, 0)
            =~= stitched_lines(edges@, size as int, true, 0));
        pass = pass + 1;
    }
    segments
}

} // verus!
