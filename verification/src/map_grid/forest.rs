//! The parent forest behind the union-find structure, as a mathematical
//! object: which node is the root of which, and how the roots change when a
//! parent pointer is rewritten.

use vstd::prelude::*;

verus! {

/// A parent array is a forest when every pointer stays inside the array and
/// `depth` strictly falls along every pointer that is not a self-loop. The
/// depths witness that following parents always ends at a root.
pub open spec fn is_forest(parent: Seq<usize>, depth: Seq<nat>) -> bool {
    &&& depth.len() == parent.len()
    &&& forall|i: int| 0 <= i < parent.len() ==> 0 <= #[trigger] parent[i] < parent.len()
    &&& forall|i: int|
        0 <= i < parent.len() && #[trigger] parent[i] != i ==> depth[parent[i] as int] < depth[i]
}

/// The root reached from node `i` by following parent pointers.
pub open spec fn root(parent: Seq<usize>, depth: Seq<nat>, i: int) -> int
    decreases depth[i],
{
    if 0 <= i < parent.len() && parent[i] != i && 0 <= parent[i] < parent.len()
        && depth[parent[i] as int] < depth[i] {
        root(parent, depth, parent[i] as int)
    } else {
        i
    }
}

/// The root of a node is a node of the forest and its own parent.
pub proof fn lemma_root_is_fixed(parent: Seq<usize>, depth: Seq<nat>, i: int)
    requires
        is_forest(parent, depth),
        0 <= i < parent.len(),
    ensures
        0 <= root(parent, depth, i) < parent.len(),
        parent[root(parent, depth, i)] == root(parent, depth, i),
        root(parent, depth, root(parent, depth, i)) == root(parent, depth, i),
        root(parent, depth, i) != i ==> depth[root(parent, depth, i)] < depth[i],
        parent[i] == i ==> root(parent, depth, i) == i,
        root(parent, depth, parent[i] as int) == root(parent, depth, i),
    decreases depth[i],
{
    if parent[i] != i {
        lemma_root_is_fixed(parent, depth, parent[i] as int);
    }
}

/// Path compression: pointing a node straight at its root keeps the forest
/// and every node's root.
pub proof fn lemma_compress(parent: Seq<usize>, depth: Seq<nat>, k: int, i: int)
    requires
        is_forest(parent, depth),
        0 <= k < parent.len(),
        0 <= i < parent.len(),
    ensures
        is_forest(parent.update(k, root(parent, depth, k) as usize), depth),
        root(parent.update(k, root(parent, depth, k) as usize), depth, i) == root(
            parent,
            depth,
            i,
        ),
    decreases depth[i],
{
    let top = root(parent, depth, k);
    let after = parent.update(k, top as usize);
    lemma_root_is_fixed(parent, depth, k);
    assert(is_forest(after, depth));
    lemma_root_is_fixed(parent, depth, i);
    if i == k {
        if top != k {
            lemma_compress(parent, depth, k, top);
        }
    } else if parent[i] != i {
        lemma_compress(parent, depth, k, parent[i] as int);
    }
}

/// The depths after root `a` is linked below root `b`: `b` drops to 0 and
/// every other node rises by one.
pub open spec fn linked_depth(depth: Seq<nat>, b: int) -> Seq<nat> {
    Seq::new(
        depth.len(),
        |k: int|
            if k == b {
                0nat
            } else {
                depth[k] + 1
            },
    )
}

/// Linking: making root `b` the parent of another root `a` keeps the forest,
/// moves the nodes of `a` to `b` and leaves every other node's root alone.
pub proof fn lemma_link(parent: Seq<usize>, depth: Seq<nat>, a: int, b: int, i: int)
    requires
        is_forest(parent, depth),
        0 <= a < parent.len(),
        0 <= b < parent.len(),
        a != b,
        parent[a] == a,
        parent[b] == b,
        0 <= i < parent.len(),
    ensures
        is_forest(parent.update(a, b as usize), linked_depth(depth, b)),
        root(parent.update(a, b as usize), linked_depth(depth, b), i) == if root(parent, depth, i)
            == a {
            b
        } else {
            root(parent, depth, i)
        },
    decreases depth[i],
{
    let after = parent.update(a, b as usize);
    let lifted = linked_depth(depth, b);
    assert(is_forest(after, lifted));
    if i == a {
        assert(root(after, lifted, b) == b);
    } else if parent[i] != i {
        lemma_link(parent, depth, a, b, parent[i] as int);
    }
}

/// Crowning: making a node `m` its own parent, with `m` at depth 0 and every
/// other node one deeper, keeps the forest. The nodes below `m` now have `m`
/// as their root; every other node keeps its root.
pub proof fn lemma_crown(parent: Seq<usize>, depth: Seq<nat>, m: usize, j: int)
    requires
        is_forest(parent, depth),
        0 <= m < parent.len(),
        0 <= j < parent.len(),
    ensures
        is_forest(parent.update(m as int, m), linked_depth(depth, m as int)),
        root(parent.update(m as int, m), linked_depth(depth, m as int), m as int) == m,
        root(parent.update(m as int, m), linked_depth(depth, m as int), j) == root(
            parent,
            depth,
            j,
        ) || root(parent.update(m as int, m), linked_depth(depth, m as int), j) == m,
        root(parent, depth, j) != root(parent, depth, m as int) ==> root(
            parent.update(m as int, m),
            linked_depth(depth, m as int),
            j,
        ) == root(parent, depth, j),
        parent[j] == j ==> root(parent.update(m as int, m), linked_depth(depth, m as int), j) == j,
    decreases depth[j],
{
    let after = parent.update(m as int, m);
    let lifted = linked_depth(depth, m as int);
    assert(is_forest(after, lifted));
    assert(root(after, lifted, m as int) == m);
    if j != m && parent[j] != j {
        lemma_crown(parent, depth, m, parent[j] as int);
    }
}

/// Re-pointing: making a root `to` the parent of a node `k` that lies deeper
/// keeps the forest. The nodes that had the root of `k` keep it or move to
/// `to`; `k` moves to `to`; every node that lies higher than `k`, and every
/// node with another root, keeps its root.
pub proof fn lemma_repoint(parent: Seq<usize>, depth: Seq<nat>, k: int, to: usize, j: int)
    requires
        is_forest(parent, depth),
        0 <= k < parent.len(),
        0 <= to < parent.len(),
        0 <= j < parent.len(),
        parent[to as int] == to,
        depth[to as int] < depth[k],
    ensures
        is_forest(parent.update(k, to), depth),
        root(parent.update(k, to), depth, k) == to,
        root(parent.update(k, to), depth, j) == root(parent, depth, j) || (root(parent, depth, j)
            == root(parent, depth, k) && root(parent.update(k, to), depth, j) == to),
        depth[j] < depth[k] ==> root(parent.update(k, to), depth, j) == root(parent, depth, j),
    decreases depth[j],
{
    let after = parent.update(k, to);
    assert(is_forest(after, depth));
    assert(root(after, depth, to as int) == to);
    assert(root(after, depth, k) == to);
    if j != k && parent[j] != j {
        lemma_repoint(parent, depth, k, to, parent[j] as int);
    }
}

/// A root that is no other node's parent is no other node's root.
pub proof fn lemma_childless_root(parent: Seq<usize>, depth: Seq<nat>, r: int, j: int)
    requires
        is_forest(parent, depth),
        0 <= r < parent.len(),
        0 <= j < parent.len(),
        forall|k: int| 0 <= k < parent.len() && k != r ==> #[trigger] parent[k] != r,
        root(parent, depth, j) == r,
    ensures
        j == r,
    decreases depth[j],
{
    if j != r {
        lemma_root_is_fixed(parent, depth, j);
        lemma_childless_root(parent, depth, r, parent[j] as int);
    }
}

} // verus!
