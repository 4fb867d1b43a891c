use vstd::prelude::*;

use crate::model::{
    cell, costs_ok, count_a, count_b, dist_spec, fits, joined, left_row, lemma_cell_bound,
    lemma_cell_nonneg, lemma_count_bounds, lemma_count_take_le, lemma_push_unroll,
    lemma_walk_counts, lens_ok, ops_row, right_row, walk, Action, Costs, SENTINEL,
};
use crate::text::{chars_of, push_char};

verus! {

/// One pair of token sequences together with its distance matrix and cost
/// configuration. The matrix is owned by this pair alone and is filled by
/// `edit_distance`; `backtrace` then reads it.
pub struct StrPair {
    s1: Vec<char>,
    s2: Vec<char>,
    dist_mat: Vec<Vec<u32>>,
    costs: Costs,
}

impl StrPair {
    /// The first token sequence (without sentinels).
    pub closed spec fn seq1(self) -> Seq<char> {
        self.s1@
    }

    /// The second token sequence (without sentinels).
    pub closed spec fn seq2(self) -> Seq<char> {
        self.s2@
    }

    /// The cost configuration this pair was built with.
    pub closed spec fn cost_config(self) -> Costs {
        self.costs
    }

    /// Well-formedness: valid costs, sequences below the sentinel bound,
    /// and all matrix arithmetic within `u32` range.
    pub closed spec fn wf(self) -> bool {
        &&& lens_ok(self.s1@, self.s2@)
        &&& costs_ok(self.costs)
        &&& fits(self.s1@.len() as int, self.s2@.len() as int, self.costs)
    }

    /// The distance matrix has been filled: full dimensions, and every
    /// entry outside the unused corner holds the value of `cell`.
    pub closed spec fn computed(self) -> bool {
        &&& self.dist_mat@.len() == self.s1@.len() + 2
        &&& (forall|i: int|
            0 <= i < self.dist_mat@.len() ==> (#[trigger] self.dist_mat@[i])@.len()
                == self.s2@.len() + 2)
        &&& (forall|i: int, j: int|
            0 <= i < self.s1@.len() + 2 && 0 <= j < self.s2@.len() + 2 && !(i == 0 && j == 0)
                ==> #[trigger] self.dist_mat@[i]@[j] as int == cell(self.s1@, self.s2@, self.costs, i, j))
    }

    /// A pair with the default costs (insertion 1, deletion 1,
    /// substitution 2).
    pub fn new(s1: &str, s2: &str) -> (p: StrPair)
        requires
            s1@.len() < SENTINEL,
            s2@.len() < SENTINEL,
        ensures
            p.wf(),
            p.seq1() == s1@,
            p.seq2() == s2@,
            p.cost_config() == (Costs { insert_cost: 1u32, del_cost: 1u32, change_cost: 2u32 }),
    {
        let c = Costs::default();
        proof {
            assert(s1@.len() + s2@.len() * (c.del_cost + 1) + c.insert_cost + c.del_cost
                + c.change_cost < 0x1_0000_0000) by {
                assert(s2@.len() * 2 == s2@.len() + s2@.len());
            }
        }
        Self::with_costs(s1, s2, c)
    }

    /// A pair with an explicit cost configuration.
    pub fn with_costs(s1: &str, s2: &str, costs: Costs) -> (p: StrPair)
        requires
            s1@.len() < SENTINEL,
            s2@.len() < SENTINEL,
            costs_ok(costs),
            fits(s1@.len() as int, s2@.len() as int, costs),
        ensures
            p.wf(),
            p.seq1() == s1@,
            p.seq2() == s2@,
            p.cost_config() == costs,
    {
        let s1v = chars_of(s1);
        let s2v = chars_of(s2);
        StrPair { s1: s1v, s2: s2v, dist_mat: Vec::new(), costs }
    }

    /// Fills the distance matrix and returns the weighted edit distance of
    /// the two sequences.
    pub fn edit_distance(&mut self) -> (d: u32)
        requires
            old(self).wf(),
        ensures
            final(self).wf(),
            final(self).computed(),
            final(self).seq1() == old(self).seq1(),
            final(self).seq2() == old(self).seq2(),
            final(self).cost_config() == old(self).cost_config(),
            d as int == dist_spec(final(self).seq1(), final(self).seq2(), final(self).cost_config()),
    {
        let ghost ga = self.s1@;
        let ghost gb = self.s2@;
        let ghost gc = self.costs;
        let n1 = self.s1.len();
        let n2 = self.s2.len();
        let rows = n1 + 2;
        let cols = n2 + 2;
        let mut m: Vec<Vec<u32>> = Vec::new();

        // Row 0: arithmetic padding, all sentinel but for the unused corner.
        let mut row0: Vec<u32> = Vec::new();
        row0.push(0);
        while row0.len() < cols
            invariant
                1 <= row0@.len() <= cols,
                cols == gb.len() + 2,
                forall|t: int| 1 <= t < row0@.len() ==> row0@[t] == SENTINEL,
            decreases cols - row0.len(),
        {
            row0.push(SENTINEL);
        }
        m.push(row0);

        // Row 1: the empty prefix of the first sequence against each prefix
        // of the second, one unit per leading token.
        let mut row1: Vec<u32> = Vec::new();
        row1.push(SENTINEL);
        while row1.len() < cols
            invariant
                1 <= row1@.len() <= cols,
                cols == gb.len() + 2,
                gb.len() < SENTINEL,
                row1@[0] == SENTINEL,
                forall|t: int| 1 <= t < row1@.len() ==> row1@[t] == t - 1,
            decreases cols - row1.len(),
        {
            let l = row1.len();
            row1.push((l - 1) as u32);
        }
        m.push(row1);
        proof {
            assert(m@[0] == row0);
            assert(m@[1] == row1);
            assert forall|r: int, t: int|
                0 <= r < 2 && 0 <= t < cols && !(r == 0 && t == 0) implies #[trigger] m@[r]@[t]
                as int == cell(ga, gb, gc, r, t) by {
                if r == 0 {
                    assert(m@[0]@[t] == row0@[t]);
                } else {
                    assert(m@[1]@[t] == row1@[t]);
                }
            }
        }

        // Rows 2 and up: sentinel, boundary value, then the recurrence.
        let mut i: usize = 2;
        while i < rows
            invariant
                2 <= i <= rows,
                rows == ga.len() + 2,
                cols == gb.len() + 2,
                n1 == ga.len(),
                n2 == gb.len(),
                self.s1@ == ga,
                self.s2@ == gb,
                self.costs == gc,
                old(self).wf(),
                ga == old(self).s1@,
                gb == old(self).s2@,
                gc == old(self).costs,
                m@.len() == i,
                forall|r: int| 0 <= r < i ==> (#[trigger] m@[r])@.len() == cols,
                forall|r: int, t: int|
                    0 <= r < i && 0 <= t < cols && !(r == 0 && t == 0)
                        ==> #[trigger] m@[r]@[t] as int == cell(ga, gb, gc, r, t),
            decreases rows - i,
        {
            let mut row: Vec<u32> = Vec::new();
            row.push(SENTINEL);
            row.push((i - 1) as u32);
            assert(row@[0] as int == cell(ga, gb, gc, i as int, 0));
            assert(row@[1] as int == cell(ga, gb, gc, i as int, 1));
            let mut j: usize = 2;
            while j < cols
                invariant
                    2 <= j <= cols,
                    2 <= i < rows,
                    rows == ga.len() + 2,
                    cols == gb.len() + 2,
                    n1 == ga.len(),
                    n2 == gb.len(),
                    self.s1@ == ga,
                    self.s2@ == gb,
                    self.costs == gc,
                    old(self).wf(),
                    ga == old(self).s1@,
                    gb == old(self).s2@,
                    gc == old(self).costs,
                    m@.len() == i,
                    forall|r: int| 0 <= r < i ==> (#[trigger] m@[r])@.len() == cols,
                    forall|r: int, t: int|
                        0 <= r < i && 0 <= t < cols && !(r == 0 && t == 0)
                            ==> #[trigger] m@[r]@[t] as int == cell(ga, gb, gc, r, t),
                    row@.len() == j,
                    forall|t: int|
                        0 <= t < j ==> #[trigger] row@[t] as int == cell(ga, gb, gc, i as int, t),
                decreases cols - j,
            {
                let up = m[i - 1][j];
                let left = row[j - 1];
                let diag = m[i - 1][j - 1];
                proof {
                    lemma_cell_bound(ga, gb, gc, i as int - 1, j as int);
                    lemma_cell_bound(ga, gb, gc, i as int, j as int - 1);
                    lemma_cell_bound(ga, gb, gc, i as int - 1, j as int - 1);
                    lemma_cell_nonneg(ga, gb, gc, i as int - 1, j as int);
                    lemma_cell_nonneg(ga, gb, gc, i as int, j as int - 1);
                    lemma_cell_nonneg(ga, gb, gc, i as int - 1, j as int - 1);
                    assert((j - 1) * (gc.del_cost + 1) <= gb.len() * (gc.del_cost + 1))
                        by (nonlinear_arith)
                        requires j as int - 1 <= gb.len(), gc.del_cost >= 0;
                    assert((j - 2) * (gc.del_cost + 1) <= gb.len() * (gc.del_cost + 1))
                        by (nonlinear_arith)
                        requires j as int - 2 <= gb.len(), gc.del_cost >= 0, j >= 2;
                }
                let ins_cand = up + self.costs.insert_cost;
                let del_cand = left + self.costs.del_cost;
                let step = if self.s1[i - 2] == self.s2[j - 2] {
                    0
                } else {
                    self.costs.change_cost
                };
                let cha_cand = diag + step;
                let v = if ins_cand <= del_cand && ins_cand <= cha_cand {
                    ins_cand
                } else if del_cand <= cha_cand {
                    del_cand
                } else {
                    cha_cand
                };
                assert(v as int == cell(ga, gb, gc, i as int, j as int));
                row.push(v);
                j += 1;
            }
            m.push(row);
            i += 1;
        }
        self.dist_mat = m;
        let d = self.dist_mat[n1 + 1][n2 + 1];
        d
    }

    /// Walks the filled matrix backward from the final real-token cell to
    /// `(1, 1)` and replays the recorded steps forward into the three
    /// parallel rows of the alignment.
    pub fn backtrace(&self) -> (al: Alignment)
        requires
            self.wf(),
            self.computed(),
        ensures
            ({
                let acts = walk(
                    self.seq1(),
                    self.seq2(),
                    self.cost_config(),
                    self.seq1().len() + 1int,
                    self.seq2().len() + 1int,
                );
                &&& al.ops@ == ops_row(acts)
                &&& al.left@ == left_row(acts, self.seq1())
                &&& al.right@ == right_row(acts, self.seq2())
            }),
            al.ops@.len() == al.left@.len() && al.ops@.len() == al.right@.len(),
            al.ops@.len() >= self.seq1().len(),
            al.ops@.len() >= self.seq2().len(),
            al.ops@.len() <= self.seq1().len() + self.seq2().len(),
    {
        let ghost ga = self.s1@;
        let ghost gb = self.s2@;
        let ghost gc = self.costs;
        let n1 = self.s1.len();
        let n2 = self.s2.len();
        let ghost full = walk(ga, gb, gc, n1 as int + 1, n2 as int + 1);

        let mut i: usize = n1 + 1;
        let mut j: usize = n2 + 1;
        let mut rev: Vec<Action> = Vec::new();
        while i != 1 || j != 1
            invariant
                self.wf(),
                self.computed(),
                ga == self.s1@,
                gb == self.s2@,
                gc == self.costs,
                n1 == ga.len(),
                n2 == gb.len(),
                1 <= i <= n1 + 1,
                1 <= j <= n2 + 1,
                full == walk(ga, gb, gc, n1 as int + 1, n2 as int + 1),
                full == walk(ga, gb, gc, i as int, j as int) + rev@.reverse(),
            decreases i + j,
        {
            let left = self.dist_mat[i][j - 1];
            let up = self.dist_mat[i - 1][j];
            let diag = self.dist_mat[i - 1][j - 1];
            proof {
                assert(left as int == cell(ga, gb, gc, i as int, j as int - 1));
                assert(up as int == cell(ga, gb, gc, i as int - 1, j as int));
                assert(diag as int == cell(ga, gb, gc, i as int - 1, j as int - 1));
            }
            let ghost w_here = walk(ga, gb, gc, i as int, j as int);
            let act: Action;
            if left <= up && left <= diag {
                proof {
                    assert(j >= 2) by {
                        if j == 1 {
                            assert(cell(ga, gb, gc, i as int, 0) == SENTINEL as int);
                            assert(cell(ga, gb, gc, i as int - 1, j as int) == i - 2);
                        }
                    }
                }
                act = Action::Insert;
                j -= 1;
            } else if up <= diag {
                proof {
                    assert(i >= 2) by {
                        if i == 1 {
                            assert(cell(ga, gb, gc, i as int, j as int - 1) == j - 2);
                            assert(cell(ga, gb, gc, 0, j as int) == SENTINEL as int);
                            assert(cell(ga, gb, gc, 0, j as int - 1) == SENTINEL as int);
                        }
                    }
                }
                act = Action::Delete;
                i -= 1;
            } else {
                proof {
                    assert(i >= 2) by {
                        if i == 1 {
                            assert(cell(ga, gb, gc, i as int, j as int - 1) == j - 2);
                            assert(cell(ga, gb, gc, 0, j as int) == SENTINEL as int);
                            assert(cell(ga, gb, gc, 0, j as int - 1) == SENTINEL as int);
                        }
                    }
                    assert(j >= 2) by {
                        if j == 1 {
                            assert(cell(ga, gb, gc, i as int - 1, 1) == i - 2);
                            assert(cell(ga, gb, gc, i as int - 1, 0) == SENTINEL as int);
                        }
                    }
                }
                let cur = self.dist_mat[i][j];
                if diag == cur {
                    act = Action::Keep;
                } else {
                    act = Action::Change;
                }
                i -= 1;
                j -= 1;
            }
            proof {
                assert(w_here == walk(ga, gb, gc, i as int, j as int).push(act));
                assert(rev@.push(act).reverse() =~= seq![act] + rev@.reverse());
                assert(walk(ga, gb, gc, i as int, j as int).push(act) + rev@.reverse() =~= walk(
                    ga,
                    gb,
                    gc,
                    i as int,
                    j as int,
                ) + (seq![act] + rev@.reverse()));
            }
            rev.push(act);
        }

        let mut acts: Vec<Action> = Vec::new();
        proof {
            assert(full == rev@.reverse());
        }
        while rev.len() > 0
            invariant
                full == acts@ + rev@.reverse(),
            decreases rev@.len(),
        {
            let ghost old_rev = rev@;
            let x_opt = rev.pop();
            let x = x_opt.unwrap();
            proof {
                assert(old_rev.reverse() =~= seq![old_rev.last()] + old_rev.drop_last().reverse());
                assert(acts@.push(x) + rev@.reverse() =~= acts@ + (seq![x] + rev@.reverse()));
            }
            acts.push(x);
        }
        proof {
            assert(rev@.reverse() =~= Seq::<Action>::empty());
            assert(full =~= acts@);
            lemma_walk_counts(ga, gb, gc, n1 as int + 1, n2 as int + 1);
        }

        let mut ops: Vec<char> = Vec::new();
        let mut lrow: Vec<char> = Vec::new();
        let mut rrow: Vec<char> = Vec::new();
        let mut ai: usize = 0;
        let mut bi: usize = 0;
        let mut k: usize = 0;
        while k < acts.len()
            invariant
                self.wf(),
                ga == self.s1@,
                gb == self.s2@,
                n1 == ga.len(),
                n2 == gb.len(),
                acts@ == full,
                k <= full.len(),
                count_a(full) == n1 as int,
                count_b(full) == n2 as int,
                ai as int == count_a(full.take(k as int)),
                bi as int == count_b(full.take(k as int)),
                ai <= n1,
                bi <= n2,
                ops@ == ops_row(full.take(k as int)),
                lrow@ == left_row(full.take(k as int), ga),
                rrow@ == right_row(full.take(k as int), gb),
            decreases acts@.len() - k,
        {
            let act = acts[k];
            proof {
                assert(full.take(k as int + 1).drop_last() =~= full.take(k as int));
                assert(full.take(k as int + 1).last() == full[k as int]);
                lemma_push_unroll(full.take(k as int), full[k as int], gc);
                lemma_count_take_le(full, k as int + 1);
                lemma_count_bounds(full.take(k as int));
                assert forall|t: int| 0 <= t < k as int + 1 implies #[trigger] full.take(
                    k as int + 1,
                ).take(t) == full.take(t) by {
                    assert(full.take(k as int + 1).take(t) =~= full.take(t));
                }
                assert forall|t: int| 0 <= t < k as int implies #[trigger] full.take(k as int).take(
                    t,
                ) == full.take(t) by {
                    assert(full.take(k as int).take(t) =~= full.take(t));
                }
            }
            match act {
                Action::Insert => {
                    ops.push('+');
                    lrow.push(' ');
                    rrow.push(self.s2[bi]);
                    bi += 1;
                },
                Action::Delete => {
                    ops.push('-');
                    lrow.push(self.s1[ai]);
                    rrow.push(' ');
                    ai += 1;
                },
                Action::Change => {
                    ops.push('#');
                    lrow.push(self.s1[ai]);
                    rrow.push(self.s2[bi]);
                    ai += 1;
                    bi += 1;
                },
                Action::Keep => {
                    ops.push('=');
                    lrow.push(self.s1[ai]);
                    rrow.push(self.s2[bi]);
                    ai += 1;
                    bi += 1;
                },
            }
            proof {
                assert(ops@ =~= ops_row(full.take(k as int + 1)));
                assert(lrow@ =~= left_row(full.take(k as int + 1), ga));
                assert(rrow@ =~= right_row(full.take(k as int + 1), gb));
            }
            k += 1;
        }
        proof {
            assert(full.take(full.len() as int) =~= full);
        }
        Alignment { ops, left: lrow, right: rrow }
    }
}

/// The output artifact: three parallel rows of equal length, one symbol
/// and one token or blank placeholder from each side per alignment step.
pub struct Alignment {
    /// The operation symbols, one of `+`, `-`, `#`, `=`.
    pub ops: Vec<char>,
    /// Tokens of the first sequence, blank where a token was inserted.
    pub left: Vec<char>,
    /// Tokens of the second sequence, blank where a token was deleted.
    pub right: Vec<char>,
}

impl Alignment {
    /// The symbol line, fields joined by single spaces.
    pub fn ops_line(&self) -> (r: String)
        ensures
            r@ == joined(self.ops@),
    {
        join_row(&self.ops)
    }

    /// The first-sequence line, fields joined by single spaces.
    pub fn left_line(&self) -> (r: String)
        ensures
            r@ == joined(self.left@),
    {
        join_row(&self.left)
    }

    /// The second-sequence line, fields joined by single spaces.
    pub fn right_line(&self) -> (r: String)
        ensures
            r@ == joined(self.right@),
    {
        join_row(&self.right)
    }
}

/// Joins a row of fields with single spaces between them.
fn join_row(row: &Vec<char>) -> (r: String)
    ensures
        r@ == joined(row@),
{
    let mut out = String::new();
    let mut k: usize = 0;
    while k < row.len()
        invariant
            k <= row@.len(),
            out@.len() == if k == 0 { 0int } else { 2 * k - 1 },
            forall|t: int|
                0 <= t < out@.len() ==> #[trigger] out@[t] == (if t % 2 == 0 {
                    row@[t / 2]
                } else {
                    ' '
                }),
        decreases row@.len() - k,
    {
        if k > 0 {
            push_char(&mut out, ' ');
        }
        push_char(&mut out, row[k]);
        k += 1;
    }
    proof {
        assert(out@ =~= joined(row@));
    }
    out
}

} // verus!
