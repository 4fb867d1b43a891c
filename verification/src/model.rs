use vstd::prelude::*;

verus! {

/// Value written into row 0 and column 0 of the distance matrix. These
/// cells stand for "before the sentinel token" and must never win a
/// comparison, so they hold a value larger than any reachable distance.
/// Token sequences must therefore be shorter than this value.
pub const SENTINEL: u32 = 1000000;

/// The three edit costs. They are fixed for the lifetime of one run.
#[derive(Clone, Copy, PartialEq, Eq, Structural, Debug)]
pub struct Costs {
    /// Cost of an insertion step (advancing along the first sequence's axis).
    pub insert_cost: u32,
    /// Cost of a deletion step (advancing along the second sequence's axis).
    pub del_cost: u32,
    /// Cost of substituting one token for a different one. The backtrace
    /// relies on a zero-cost change meaning a match, so this must be positive.
    pub change_cost: u32,
}

impl Costs {
    /// A configuration from the three raw costs.
    pub fn new(insert_cost: u32, del_cost: u32, change_cost: u32) -> (c: Costs)
        ensures
            c == (Costs { insert_cost, del_cost, change_cost }),
    {
        Costs { insert_cost, del_cost, change_cost }
    }
}

impl Default for Costs {
    /// The default configuration: insertion 1, deletion 1, substitution 2.
    fn default() -> (c: Costs)
        ensures
            c == (Costs { insert_cost: 1u32, del_cost: 1u32, change_cost: 2u32 }),
    {
        Costs { insert_cost: 1, del_cost: 1, change_cost: 2 }
    }
}

/// A valid cost configuration: substitution is never free.
pub open spec fn costs_ok(c: Costs) -> bool {
    c.change_cost >= 1
}

/// Both token sequences are short enough that every boundary value stays
/// below the sentinel.
pub open spec fn lens_ok(a: Seq<char>, b: Seq<char>) -> bool {
    a.len() < SENTINEL && b.len() < SENTINEL
}

/// Every matrix entry plus one edit cost fits in a `u32`, so the dynamic
/// program can be computed without overflow. `cell` is bounded by
/// `(i - 1) + (j - 1) * (del_cost + 1)` (see `lemma_cell_bound`).
pub open spec fn fits(a_len: int, b_len: int, c: Costs) -> bool {
    a_len + b_len * (c.del_cost + 1) + c.insert_cost + c.del_cost + c.change_cost
        < 0x1_0000_0000
}

/// Minimum of three integers.
pub open spec fn min3(x: int, y: int, z: int) -> int {
    if x <= y && x <= z {
        x
    } else if y <= z {
        y
    } else {
        z
    }
}

/// Cost of aligning token `x` of the first sequence against token `y` of
/// the second: free exactly when they are equal.
pub open spec fn sub_cost(c: Costs, x: char, y: char) -> int {
    if x == y {
        0
    } else {
        c.change_cost as int
    }
}

/// The distance matrix, as a mathematical function. Indices follow the
/// sentinel convention: index 0 is arithmetic padding and holds the
/// sentinel, index 1 stands for the empty prefix, and index `i >= 2` stands
/// for the prefix ending at token `i - 2` of the sequence. Row 1 and
/// column 1 count the leading tokens of the other sequence one unit each,
/// whatever the configured costs.
pub open spec fn cell(a: Seq<char>, b: Seq<char>, c: Costs, i: int, j: int) -> int
    decreases i + j,
{
    if i <= 0 || j <= 0 {
        SENTINEL as int
    } else if i == 1 {
        j - 1
    } else if j == 1 {
        i - 1
    } else {
        min3(
            cell(a, b, c, i - 1, j) + c.insert_cost,
            cell(a, b, c, i, j - 1) + c.del_cost,
            cell(a, b, c, i - 1, j - 1) + sub_cost(c, a[i - 2], b[j - 2]),
        )
    }
}

/// The weighted edit distance of the two sequences: the matrix entry at
/// the final real-token index of each sequence.
pub open spec fn dist_spec(a: Seq<char>, b: Seq<char>, c: Costs) -> int {
    cell(a, b, c, a.len() + 1int, b.len() + 1int)
}

/// One step of a reconstructed alignment.
#[derive(Clone, Copy, PartialEq, Eq, Structural, Debug)]
pub enum Action {
    /// A token of the second sequence with no counterpart in the first.
    Insert,
    /// A token of the first sequence with no counterpart in the second.
    Delete,
    /// Two differing tokens aligned against each other.
    Change,
    /// Two equal tokens aligned against each other (a match).
    Keep,
}

/// The alignment recovered by walking the matrix backward from `(i, j)` to
/// `(1, 1)`, in forward (oldest first) order. At each cell the smallest of
/// the left, upper and diagonal neighbours decides the step, ties resolved
/// left before up before diagonal; a diagonal step whose source equals the
/// current cell is a match. The comparison is over the raw neighbour
/// values, exactly as the matrix walk performs it.
pub open spec fn walk(a: Seq<char>, b: Seq<char>, c: Costs, i: int, j: int) -> Seq<Action>
    decreases i + j,
{
    if i <= 1 && j <= 1 {
        Seq::empty()
    } else if i <= 0 || j <= 0 {
        Seq::empty()
    } else {
        let left = cell(a, b, c, i, j - 1);
        let up = cell(a, b, c, i - 1, j);
        let diag = cell(a, b, c, i - 1, j - 1);
        if left <= up && left <= diag {
            walk(a, b, c, i, j - 1).push(Action::Insert)
        } else if up <= diag {
            walk(a, b, c, i - 1, j).push(Action::Delete)
        } else if diag == cell(a, b, c, i, j) {
            walk(a, b, c, i - 1, j - 1).push(Action::Keep)
        } else {
            walk(a, b, c, i - 1, j - 1).push(Action::Change)
        }
    }
}

/// How many tokens of the first sequence a list of actions consumes.
pub open spec fn count_a(acts: Seq<Action>) -> int
    decreases acts.len(),
{
    if acts.len() == 0 {
        0
    } else {
        count_a(acts.drop_last()) + (if acts.last() is Insert { 0int } else { 1int })
    }
}

/// How many tokens of the second sequence a list of actions consumes.
pub open spec fn count_b(acts: Seq<Action>) -> int
    decreases acts.len(),
{
    if acts.len() == 0 {
        0
    } else {
        count_b(acts.drop_last()) + (if acts.last() is Delete { 0int } else { 1int })
    }
}

/// The configured cost of one alignment step; a match is free.
pub open spec fn step_cost(c: Costs, a: Action) -> int {
    match a {
        Action::Insert => c.insert_cost as int,
        Action::Delete => c.del_cost as int,
        Action::Change => c.change_cost as int,
        Action::Keep => 0,
    }
}

/// Total configured cost of a list of alignment steps.
pub open spec fn align_cost(acts: Seq<Action>, c: Costs) -> int
    decreases acts.len(),
{
    if acts.len() == 0 {
        0
    } else {
        align_cost(acts.drop_last(), c) + step_cost(c, acts.last())
    }
}

/// The symbol printed for one alignment step.
pub open spec fn symbol_of(a: Action) -> char {
    match a {
        Action::Insert => '+',
        Action::Delete => '-',
        Action::Change => '#',
        Action::Keep => '=',
    }
}

/// The symbol line of an alignment.
pub open spec fn ops_row(acts: Seq<Action>) -> Seq<char> {
    Seq::new(acts.len(), |k: int| symbol_of(acts[k]))
}

/// The first-sequence line of an alignment: its tokens in order, with a
/// blank placeholder wherever a token was inserted from the second side.
pub open spec fn left_row(acts: Seq<Action>, a: Seq<char>) -> Seq<char> {
    Seq::new(
        acts.len(),
        |k: int|
            if acts[k] is Insert {
                ' '
            } else {
                a[count_a(acts.take(k))]
            },
    )
}

/// The second-sequence line of an alignment: its tokens in order, with a
/// blank placeholder wherever a token of the first side was deleted.
pub open spec fn right_row(acts: Seq<Action>, b: Seq<char>) -> Seq<char> {
    Seq::new(
        acts.len(),
        |k: int|
            if acts[k] is Delete {
                ' '
            } else {
                b[count_b(acts.take(k))]
            },
    )
}

/// A row of fields joined by single spaces.
pub open spec fn joined(row: Seq<char>) -> Seq<char> {
    if row.len() == 0 {
        Seq::empty()
    } else {
        Seq::new((2 * row.len() - 1) as nat, |k: int| if k % 2 == 0 { row[k / 2] } else { ' ' })
    }
}

/// Matrix entries at real indices are never negative.
pub proof fn lemma_cell_nonneg(a: Seq<char>, b: Seq<char>, c: Costs, i: int, j: int)
    requires
        i >= 1,
        j >= 1,
    ensures
        cell(a, b, c, i, j) >= 0,
    decreases i + j,
{
    if i >= 2 && j >= 2 {
        lemma_cell_nonneg(a, b, c, i - 1, j);
        lemma_cell_nonneg(a, b, c, i, j - 1);
        lemma_cell_nonneg(a, b, c, i - 1, j - 1);
    }
}

/// Every matrix entry at real indices is bounded by the cost of walking
/// down column 1 and then along the row, so the dynamic program stays
/// within machine range whenever `fits` holds.
pub proof fn lemma_cell_bound(a: Seq<char>, b: Seq<char>, c: Costs, i: int, j: int)
    requires
        i >= 1,
        j >= 1,
    ensures
        cell(a, b, c, i, j) <= (i - 1) + (j - 1) * (c.del_cost + 1),
    decreases i + j,
{
    if i == 1 {
        assert((j - 1) * (c.del_cost + 1) >= (j - 1) * 1) by (nonlinear_arith)
            requires j >= 1;
    } else if j == 1 {
    } else {
        lemma_cell_bound(a, b, c, i, j - 1);
        assert((j - 2) * (c.del_cost + 1) + (c.del_cost + 1) == (j - 1) * (c.del_cost + 1))
            by (nonlinear_arith);
    }
}

/// Appending one action to a step list adds its token consumption and its
/// configured cost.
pub proof fn lemma_push_unroll(w: Seq<Action>, x: Action, c: Costs)
    ensures
        count_a(w.push(x)) == count_a(w) + (if x is Insert { 0int } else { 1int }),
        count_b(w.push(x)) == count_b(w) + (if x is Delete { 0int } else { 1int }),
        align_cost(w.push(x), c) == align_cost(w, c) + step_cost(c, x),
{
    assert(w.push(x).drop_last() =~= w);
    assert(w.push(x).last() == x);
}

/// Token consumption lies between zero and the number of steps.
pub proof fn lemma_count_bounds(w: Seq<Action>)
    ensures
        0 <= count_a(w) <= w.len(),
        0 <= count_b(w) <= w.len(),
    decreases w.len(),
{
    if w.len() > 0 {
        lemma_count_bounds(w.drop_last());
    }
}

/// A prefix of a step list consumes no more tokens than the whole list.
pub proof fn lemma_count_take_le(w: Seq<Action>, k: int)
    requires
        0 <= k <= w.len(),
    ensures
        count_a(w.take(k)) <= count_a(w),
        count_b(w.take(k)) <= count_b(w),
    decreases w.len() - k,
{
    if k == w.len() {
        assert(w.take(k) =~= w);
    } else {
        assert(w.take(k + 1).drop_last() =~= w.take(k));
        assert(w.take(k + 1).last() == w[k]);
        lemma_count_take_le(w, k + 1);
    }
}

/// The walk from `(i, j)` stays inside the real indices, consumes exactly
/// the tokens of the two prefixes, and therefore takes at least as many
/// steps as the longer prefix and at most as many as both together.
pub proof fn lemma_walk_counts(a: Seq<char>, b: Seq<char>, c: Costs, i: int, j: int)
    requires
        lens_ok(a, b),
        1 <= i <= a.len() + 1,
        1 <= j <= b.len() + 1,
    ensures
        count_a(walk(a, b, c, i, j)) == i - 1,
        count_b(walk(a, b, c, i, j)) == j - 1,
        walk(a, b, c, i, j).len() <= (i - 1) + (j - 1),
        walk(a, b, c, i, j).len() >= i - 1,
        walk(a, b, c, i, j).len() >= j - 1,
    decreases i + j,
{
    if i == 1 && j == 1 {
    } else {
        let left = cell(a, b, c, i, j - 1);
        let up = cell(a, b, c, i - 1, j);
        let diag = cell(a, b, c, i - 1, j - 1);
        if left <= up && left <= diag {
            assert(j >= 2) by {
                if j == 1 {
                    assert(left == SENTINEL as int);
                    assert(up == i - 2);
                }
            }
            lemma_walk_counts(a, b, c, i, j - 1);
            lemma_push_unroll(walk(a, b, c, i, j - 1), Action::Insert, c);
        } else if up <= diag {
            assert(i >= 2) by {
                if i == 1 {
                    assert(left == j - 2);
                    assert(up == SENTINEL as int);
                    assert(diag == SENTINEL as int);
                }
            }
            lemma_walk_counts(a, b, c, i - 1, j);
            lemma_push_unroll(walk(a, b, c, i - 1, j), Action::Delete, c);
        } else {
            assert(i >= 2) by {
                if i == 1 {
                    assert(left == j - 2);
                    assert(up == SENTINEL as int);
                    assert(diag == SENTINEL as int);
                }
            }
            assert(j >= 2) by {
                if j == 1 {
                    assert(up == i - 2);
                    assert(diag == SENTINEL as int);
                }
            }
            lemma_walk_counts(a, b, c, i - 1, j - 1);
            if diag == cell(a, b, c, i, j) {
                lemma_push_unroll(walk(a, b, c, i - 1, j - 1), Action::Keep, c);
            } else {
                lemma_push_unroll(walk(a, b, c, i - 1, j - 1), Action::Change, c);
            }
        }
    }
}

} // verus!
