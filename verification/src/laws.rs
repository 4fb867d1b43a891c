use vstd::prelude::*;

use crate::model::{
    align_cost, cell, dist_spec, lemma_cell_nonneg, lemma_push_unroll, lemma_walk_counts, lens_ok,
    walk, Action, Costs, SENTINEL,
};

verus! {

/// Matrix entries transpose when the sequences are swapped, provided the
/// two directional costs coincide.
proof fn lemma_cell_symmetry(a: Seq<char>, b: Seq<char>, c: Costs, i: int, j: int)
    requires
        c.insert_cost == c.del_cost,
    ensures
        cell(a, b, c, i, j) == cell(b, a, c, j, i),
    decreases i + j,
{
    if i >= 2 && j >= 2 {
        lemma_cell_symmetry(a, b, c, i - 1, j);
        lemma_cell_symmetry(a, b, c, i, j - 1);
        lemma_cell_symmetry(a, b, c, i - 1, j - 1);
    }
}

/// The distance is symmetric in its two sequences whenever the insertion
/// and deletion costs are equal. (With unequal directional costs the
/// matrix is not symmetric by construction.)
pub proof fn lemma_conditional_symmetry(a: Seq<char>, b: Seq<char>, c: Costs)
    requires
        c.insert_cost == c.del_cost,
    ensures
        dist_spec(a, b, c) == dist_spec(b, a, c),
{
    lemma_cell_symmetry(a, b, c, a.len() + 1int, b.len() + 1int);
}

/// Along the diagonal of a self-comparison every entry is zero: each pair
/// of tokens matches, and no cheaper route below zero exists.
proof fn lemma_cell_diag_zero(a: Seq<char>, c: Costs, i: int)
    requires
        1 <= i,
    ensures
        cell(a, a, c, i, i) == 0,
    decreases i,
{
    if i >= 2 {
        lemma_cell_diag_zero(a, c, i - 1);
        lemma_cell_nonneg(a, a, c, i - 1, i);
        lemma_cell_nonneg(a, a, c, i, i - 1);
    }
}

/// Comparing any sequence with itself costs nothing, whatever the cost
/// configuration.
pub proof fn lemma_self_distance(a: Seq<char>, c: Costs)
    ensures
        dist_spec(a, a, c) == 0,
{
    lemma_cell_diag_zero(a, c, a.len() + 1int);
}

/// Against an empty first sequence the distance is the length of the
/// second sequence: the boundary row charges one unit per leading token.
pub proof fn lemma_empty_first(b: Seq<char>, c: Costs)
    ensures
        dist_spec(Seq::<char>::empty(), b, c) == b.len(),
{
}

/// The product form of the empty-sequence distance: with a unit insertion
/// cost it equals the second sequence's length times that cost. (The
/// boundary row is unweighted, so the product form needs the unit cost.)
pub proof fn lemma_empty_first_scaled(b: Seq<char>, c: Costs)
    requires
        c.insert_cost == 1,
    ensures
        dist_spec(Seq::<char>::empty(), b, c) == b.len() * c.insert_cost,
{
}

/// Against an empty second sequence the distance is the length of the
/// first sequence.
pub proof fn lemma_empty_second(a: Seq<char>, c: Costs)
    ensures
        dist_spec(a, Seq::<char>::empty(), c) == a.len(),
{
}

/// A reconstructed alignment has at least as many steps as the longer
/// sequence and at most as many as both sequences together.
pub proof fn lemma_alignment_length(a: Seq<char>, b: Seq<char>, c: Costs)
    requires
        lens_ok(a, b),
    ensures
        walk(a, b, c, a.len() + 1int, b.len() + 1int).len() >= a.len(),
        walk(a, b, c, a.len() + 1int, b.len() + 1int).len() >= b.len(),
        walk(a, b, c, a.len() + 1int, b.len() + 1int).len() <= a.len() + b.len(),
{
    lemma_walk_counts(a, b, c, a.len() + 1int, b.len() + 1int);
}

/// Under the default costs every matrix entry at real indices has the
/// parity of `i + j`: the boundary rows do, and each recurrence step adds
/// one unit per axis moved or an even substitution charge.
proof fn lemma_cell_parity(a: Seq<char>, b: Seq<char>, c: Costs, i: int, j: int)
    requires
        c.insert_cost == 1,
        c.del_cost == 1,
        c.change_cost == 2,
        1 <= i,
        1 <= j,
    ensures
        (cell(a, b, c, i, j) - (i + j)) % 2 == 0,
    decreases i + j,
{
    if i >= 2 && j >= 2 {
        lemma_cell_parity(a, b, c, i - 1, j);
        lemma_cell_parity(a, b, c, i, j - 1);
        lemma_cell_parity(a, b, c, i - 1, j - 1);
    }
}

/// Under the default costs, the backtrace's raw neighbour comparison picks
/// at every cell a step whose configured cost is exactly the drop to the
/// chosen neighbour, so the costs of a walk telescope to the cell value.
proof fn lemma_walk_cost_cell(a: Seq<char>, b: Seq<char>, c: Costs, i: int, j: int)
    requires
        c.insert_cost == 1,
        c.del_cost == 1,
        c.change_cost == 2,
        lens_ok(a, b),
        1 <= i <= a.len() + 1,
        1 <= j <= b.len() + 1,
    ensures
        align_cost(walk(a, b, c, i, j), c) == cell(a, b, c, i, j),
    decreases i + j,
{
    if i == 1 && j == 1 {
    } else {
        let left = cell(a, b, c, i, j - 1);
        let up = cell(a, b, c, i - 1, j);
        let diag = cell(a, b, c, i - 1, j - 1);
        let cur = cell(a, b, c, i, j);
        if left <= up && left <= diag {
            assert(j >= 2) by {
                if j == 1 {
                    assert(left == SENTINEL as int);
                    assert(up == i - 2);
                }
            }
            lemma_walk_cost_cell(a, b, c, i, j - 1);
            lemma_push_unroll(walk(a, b, c, i, j - 1), Action::Insert, c);
            if i >= 2 {
                lemma_cell_parity(a, b, c, i - 1, j - 1);
                lemma_cell_parity(a, b, c, i, j - 1);
                assert(diag != left);
                assert(cur == left + 1);
            }
        } else if up <= diag {
            assert(i >= 2) by {
                if i == 1 {
                    assert(left == j - 2);
                    assert(up == SENTINEL as int);
                    assert(diag == SENTINEL as int);
                }
            }
            lemma_walk_cost_cell(a, b, c, i - 1, j);
            lemma_push_unroll(walk(a, b, c, i - 1, j), Action::Delete, c);
            if j >= 2 {
                lemma_cell_parity(a, b, c, i - 1, j - 1);
                lemma_cell_parity(a, b, c, i - 1, j);
                assert(diag != up);
                assert(cur == up + 1);
            }
        } else {
            assert(i >= 2) by {
                if i == 1 {
                    assert(left == j - 2);
                    assert(up == SENTINEL as int);
                    assert(diag == SENTINEL as int);
                }
            }
            assert(j >= 2) by {
                if j == 1 {
                    assert(up == i - 2);
                    assert(diag == SENTINEL as int);
                }
            }
            lemma_walk_cost_cell(a, b, c, i - 1, j - 1);
            assert(diag < left && diag < up);
            if a[i - 2] == b[j - 2] {
                assert(cur == diag);
                lemma_push_unroll(walk(a, b, c, i - 1, j - 1), Action::Keep, c);
            } else {
                assert(cur == diag + 2);
                lemma_push_unroll(walk(a, b, c, i - 1, j - 1), Action::Change, c);
            }
        }
    }
}

/// The round-trip invariant under the default costs: summing the
/// configured cost of every step of the reconstructed alignment yields
/// exactly the computed distance.
pub proof fn lemma_alignment_cost(a: Seq<char>, b: Seq<char>, c: Costs)
    requires
        c.insert_cost == 1,
        c.del_cost == 1,
        c.change_cost == 2,
        lens_ok(a, b),
    ensures
        align_cost(walk(a, b, c, a.len() + 1int, b.len() + 1int), c) == dist_spec(a, b, c),
{
    lemma_walk_cost_cell(a, b, c, a.len() + 1int, b.len() + 1int);
}

} // verus!
