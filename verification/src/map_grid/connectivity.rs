//! Connectivity of grid cells: chains of adjacent cells of equal value.

use vstd::arithmetic::div_mod::{
    lemma_fundamental_div_mod, lemma_fundamental_div_mod_converse, lemma_mod_bound,
};
use vstd::prelude::*;

verus! {

/// A cell index below `n * n` splits into a column `c % n` and a row `c / n`,
/// both below `n`.
pub proof fn lemma_cell_coords(n: int, c: int)
    requires
        n > 0,
        0 <= c < n * n,
    ensures
        0 <= c % n < n,
        0 <= c / n < n,
        c == (c / n) * n + c % n,
{
    lemma_fundamental_div_mod(c, n);
    lemma_mod_bound(c, n);
    let q = c / n;
    assert(n * q == q * n) by (nonlinear_arith);
    assert(0 <= q < n) by (nonlinear_arith)
        requires
            n > 0,
            0 <= c < n * n,
            c == q * n + c % n,
            0 <= c % n < n,
    ;
}

/// The cell in column `x` of row `y` has an index below `n * n`, from which
/// division by `n` gives the row and the remainder the column again.
pub proof fn lemma_cell_index(n: int, x: int, y: int)
    requires
        n > 0,
        0 <= x < n,
        0 <= y < n,
    ensures
        0 <= y * n + x < n * n,
        (y * n + x) / n == y,
        (y * n + x) % n == x,
{
    assert(0 <= y * n + x < n * n) by (nonlinear_arith)
        requires
            n > 0,
            0 <= x < n,
            0 <= y < n,
    ;
    lemma_fundamental_div_mod_converse(y * n + x, n, y, x);
}

/// Whether `a` and `b` are cells of the grid that share an edge: neighbours
/// in one row, or one directly above the other.
pub open spec fn adjacent(size: nat, a: int, b: int) -> bool {
    &&& 0 <= a < size * size
    &&& 0 <= b < size * size
    &&& (b == a + 1 && a / (size as int) == b / (size as int)) || (a == b + 1 && a / (size as int)
        == b / (size as int)) || b == a + size || a == b + size
}

/// Whether cell `k` of `chain` is adjacent to the next cell and has the
/// same value.
pub open spec fn is_link(values: Seq<i32>, size: nat, chain: Seq<int>, k: int) -> bool {
    adjacent(size, chain[k], chain[k + 1]) && values[chain[k]] == values[chain[k + 1]]
}

/// Whether `chain` is a walk over cells of one value in which each cell is
/// adjacent to the next.
pub open spec fn is_chain(values: Seq<i32>, size: nat, chain: Seq<int>) -> bool {
    &&& chain.len() > 0
    &&& forall|k: int| 0 <= k < chain.len() ==> 0 <= #[trigger] chain[k] < values.len()
    &&& forall|k: int| 0 <= k < chain.len() - 1 ==> #[trigger] is_link(values, size, chain, k)
}

/// Whether a chain of adjacent cells of equal value leads from `a` to `b`.
pub open spec fn connected(values: Seq<i32>, size: nat, a: int, b: int) -> bool {
    exists|chain: Seq<int>| #[trigger]
        is_chain(values, size, chain) && chain[0] == a && chain[chain.len() - 1] == b
}

/// Every cell is connected to itself.
pub proof fn lemma_connected_reflexive(values: Seq<i32>, size: nat, a: int)
    requires
        0 <= a < values.len(),
    ensures
        connected(values, size, a, a),
{
    let chain = seq![a];
    assert(is_chain(values, size, chain));
}

/// Adjacent cells of equal value are connected.
pub proof fn lemma_connected_step(values: Seq<i32>, size: nat, a: int, b: int)
    requires
        0 <= a < values.len(),
        0 <= b < values.len(),
        adjacent(size, a, b),
        values[a] == values[b],
    ensures
        connected(values, size, a, b),
{
    let chain = seq![a, b];
    assert(is_link(values, size, chain, 0));
    assert(is_chain(values, size, chain));
}

/// Connection runs both ways.
pub proof fn lemma_connected_symmetric(values: Seq<i32>, size: nat, a: int, b: int)
    requires
        connected(values, size, a, b),
    ensures
        connected(values, size, b, a),
{
    let chain = choose|chain: Seq<int>| #[trigger]
        is_chain(values, size, chain) && chain[0] == a && chain[chain.len() - 1] == b;
    let n = chain.len() as int;
    let back = Seq::new(chain.len(), |k: int| chain[n - 1 - k]);
    assert forall|k: int| 0 <= k < back.len() - 1 implies #[trigger] is_link(
        values,
        size,
        back,
        k,
    ) by {
        assert(is_link(values, size, chain, n - 2 - k));
    }
    assert(is_chain(values, size, back));
}

/// Connections compose.
pub proof fn lemma_connected_transitive(values: Seq<i32>, size: nat, a: int, b: int, c: int)
    requires
        connected(values, size, a, b),
        connected(values, size, b, c),
    ensures
        connected(values, size, a, c),
{
    let first = choose|chain: Seq<int>| #[trigger]
        is_chain(values, size, chain) && chain[0] == a && chain[chain.len() - 1] == b;
    let second = choose|chain: Seq<int>| #[trigger]
        is_chain(values, size, chain) && chain[0] == b && chain[chain.len() - 1] == c;
    let n = first.len() as int;
    let joined = first + second.subrange(1, second.len() as int);
    assert forall|k: int| 0 <= k < joined.len() - 1 implies #[trigger] is_link(
        values,
        size,
        joined,
        k,
    ) by {
        if k < n - 1 {
            assert(is_link(values, size, first, k));
        } else {
            assert(is_link(values, size, second, k - n + 1));
        }
    }
    assert(is_chain(values, size, joined));
}

/// All cells of a chain have the value of its first cell.
pub proof fn lemma_chain_one_value(values: Seq<i32>, size: nat, chain: Seq<int>, k: int)
    requires
        is_chain(values, size, chain),
        0 <= k < chain.len(),
    ensures
        values[chain[k]] == values[chain[0]],
    decreases k,
{
    if k > 0 {
        lemma_chain_one_value(values, size, chain, k - 1);
        assert(is_link(values, size, chain, k - 1));
    }
}

/// Connected cells are cells of the grid and have equal values.
pub proof fn lemma_connected_same_value(values: Seq<i32>, size: nat, a: int, b: int)
    requires
        connected(values, size, a, b),
    ensures
        0 <= a < values.len(),
        0 <= b < values.len(),
        values[a] == values[b],
{
    let chain = choose|chain: Seq<int>| #[trigger]
        is_chain(values, size, chain) && chain[0] == a && chain[chain.len() - 1] == b;
    lemma_chain_one_value(values, size, chain, chain.len() - 1);
}

} // verus!
