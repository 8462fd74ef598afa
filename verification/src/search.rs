//! The search engine: exhaustive depth-first enumeration of every
//! completion of a root grid, over an explicit worklist.  Each popped grid
//! is classified; an incomplete one branches on its first undetermined cell
//! in row-major order, and both children are propagated before they are
//! pushed.

use vstd::prelude::*;

use crate::checker::CheckResult;
use crate::checker::check;
use crate::checker::first_empty;
use crate::grid::Cell;
use crate::grid::clone_grid;
use crate::grid::empties;
use crate::grid::extends;
use crate::grid::gview;
use crate::grid::lemma_empties_extends_strict;
use crate::grid::lemma_extends_refl;
use crate::grid::lemma_extends_trans;
use crate::grid::set_cell;
use crate::grid::square;
use crate::grid::wf;
use crate::propagate::completion;
use crate::propagate::simple_solve;
use crate::rules::all_fixed;
use crate::rules::balanced_exact;
use crate::rules::colseq;
use crate::rules::lemma_invalid_persists;
use crate::rules::lemma_solved_shape;
use crate::rules::rules_ok;

verus! {

/// Picks the first undetermined cell in row-major order: the deterministic
/// tie-break rule of the search.  Calling it on a fully sealed grid is a
/// contract violation.
pub fn pick_cell(fd: &Vec<Vec<Cell>>) -> (r: (usize, usize))
    requires
        square(gview(*fd)),
        !all_fixed(gview(*fd)),
    ensures
        (r.0 as int) < gview(*fd).len(),
        (r.1 as int) < gview(*fd).len(),
        gview(*fd)[r.0 as int][r.1 as int] == Cell::Empty,
        forall|i: int, j: int|
            0 <= i < gview(*fd).len() && 0 <= j < gview(*fd).len() && (i < r.0 as int || (i == r.0
                as int && j < r.1 as int)) ==> #[trigger] gview(*fd)[i][j] != Cell::Empty,
{
    match first_empty(fd) {
        Some(p) => p,
        None => {
            // unreachable: a grid without an undetermined cell is all fixed,
            // which the precondition rules out
            proof {
                assert(false);
            }
            (0, 0)
        },
    }
}

/// Three to the power `k`: what one worklist entry with `k` undetermined
/// cells can at most cost the search.
spec fn pow3(k: nat) -> nat
    decreases k,
{
    if k == 0 {
        1
    } else {
        3 * pow3((k - 1) as nat)
    }
}

proof fn lemma_pow3_pos(k: nat)
    ensures
        pow3(k) >= 1,
    decreases k,
{
    if k > 0 {
        lemma_pow3_pos((k - 1) as nat);
    }
}

proof fn lemma_pow3_le(k1: nat, k2: nat)
    requires
        k1 <= k2,
    ensures
        pow3(k1) <= pow3(k2),
    decreases k2,
{
    if k1 < k2 {
        lemma_pow3_le(k1, (k2 - 1) as nat);
        lemma_pow3_pos((k2 - 1) as nat);
    }
}

/// The termination measure of the search: each stacked grid weighs three to
/// the power of one more than its number of undetermined cells.
spec fn stack_measure(st: Seq<Vec<Vec<Cell>>>) -> nat
    decreases st.len(),
{
    if st.len() == 0 {
        0
    } else {
        stack_measure(st.drop_last()) + pow3(empties(gview(st.last())) + 1)
    }
}

/// `s` solves the puzzle posed by `root`: a well-formed, fully sealed grid
/// that satisfies every rule and keeps every clue of `root`.
pub open spec fn solves(s: Seq<Seq<Cell>>, root: Seq<Seq<Cell>>) -> bool {
    &&& wf(s)
    &&& s.len() == root.len()
    &&& all_fixed(s)
    &&& rules_ok(s)
    &&& extends(s, root)
}

/// A refinement of a fully sealed grid is that grid itself.
proof fn lemma_extends_full_eq(base: Seq<Seq<Cell>>, s: Seq<Seq<Cell>>)
    requires
        extends(s, base),
        all_fixed(base),
    ensures
        s == base,
{
    assert forall|i: int| 0 <= i < base.len() implies s[i] == base[i] by {
        crate::rules::lemma_full_row_extends_eq(base, s, i);
    }
    assert(s =~= base);
}

/// The solution `s` is accounted for: already emitted, or still reachable
/// from some grid on the worklist.
spec fn covered(s: Seq<Seq<Cell>>, sols: Seq<Vec<Vec<Cell>>>, stack: Seq<Vec<Vec<Cell>>>) -> bool {
    ||| exists|k: int| 0 <= k < sols.len() && gview(#[trigger] sols[k]) == s
    ||| exists|t: int| 0 <= t < stack.len() && extends(s, gview(#[trigger] stack[t]))
}

/// Two grids that disagree on a cell both have sealed: no grid refines both,
/// so the subtrees they root share no completion.
spec fn incompatible(g1: Seq<Seq<Cell>>, g2: Seq<Seq<Cell>>) -> bool {
    exists|i: int, j: int|
        0 <= i < g1.len() && 0 <= j < g1[i].len() && #[trigger] g1[i][j] != Cell::Empty && (
        #[trigger] g2[i][j]) != Cell::Empty && g1[i][j] != g2[i][j]
}

proof fn lemma_incompatible_sym(g1: Seq<Seq<Cell>>, g2: Seq<Seq<Cell>>)
    requires
        incompatible(g1, g2),
        square(g1),
        square(g2),
        g1.len() == g2.len(),
    ensures
        incompatible(g2, g1),
{
    let (i, j) = choose|i: int, j: int|
        0 <= i < g1.len() && 0 <= j < g1[i].len() && #[trigger] g1[i][j] != Cell::Empty && (
        #[trigger] g2[i][j]) != Cell::Empty && g1[i][j] != g2[i][j];
    assert(0 <= i < g2.len() && 0 <= j < g2[i].len() && g2[i][j] != Cell::Empty && g1[i][j]
        != Cell::Empty && g2[i][j] != g1[i][j]);
}

/// Refining the second grid keeps the disagreement.
proof fn lemma_incompatible_extends(g1: Seq<Seq<Cell>>, g2: Seq<Seq<Cell>>, h: Seq<Seq<Cell>>)
    requires
        incompatible(g1, g2),
        square(g1),
        square(g2),
        g1.len() == g2.len(),
        extends(h, g2),
    ensures
        incompatible(g1, h),
{
    let (i, j) = choose|i: int, j: int|
        0 <= i < g1.len() && 0 <= j < g1[i].len() && #[trigger] g1[i][j] != Cell::Empty && (
        #[trigger] g2[i][j]) != Cell::Empty && g1[i][j] != g2[i][j];
    assert(h[i][j] == g2[i][j]);
}

/// What `solve` emits: a well-formed, fully sealed grid that satisfies every
/// puzzle rule — exact balance in each row and column, no triple run,
/// pairwise distinct rows and pairwise distinct columns — and that keeps
/// every clue of the root grid.
pub open spec fn is_solution(s: Seq<Seq<Cell>>, root: Seq<Seq<Cell>>) -> bool {
    &&& wf(s)
    &&& s.len() == root.len()
    &&& all_fixed(s)
    &&& rules_ok(s)
    &&& balanced_exact(s)
    &&& forall|i1: int, i2: int| 0 <= i1 < i2 < s.len() ==> s[i1] != s[i2]
    &&& forall|j1: int, j2: int| 0 <= j1 < j2 < s.len() ==> colseq(s, j1) != colseq(s, j2)
    &&& extends(s, root)
}

/// Enumerates the completions reachable from the root grid by branching on
/// undetermined cells, and returns every one that classifies as solved, in
/// emission order.  Each returned grid is a genuine solution extending the
/// root, every solution of the root is returned, and a root that already
/// breaks a rule yields nothing.  The cap of 62 on the side length comes
/// from the checker's canonical line encoding.
pub fn solve(fd: Vec<Vec<Cell>>) -> (sols: Vec<Vec<Vec<Cell>>>)
    requires
        wf(gview(fd)),
        gview(fd).len() <= 62,
    ensures
        forall|k: int| 0 <= k < sols@.len() ==> is_solution(gview(#[trigger] sols@[k]), gview(fd)),
        forall|s: Seq<Seq<Cell>>|
            #[trigger] solves(s, gview(fd)) ==> exists|k: int|
                0 <= k < sols@.len() && gview(#[trigger] sols@[k]) == s,
        forall|k1: int, k2: int|
            0 <= k1 < k2 < sols@.len() ==> gview(#[trigger] sols@[k1]) != gview(
                #[trigger] sols@[k2],
            ),
        !rules_ok(gview(fd)) ==> sols@.len() == 0,
{
    let ghost root = gview(fd);
    let ghost n = root.len();
    let mut sols: Vec<Vec<Vec<Cell>>> = Vec::new();
    let mut stack: Vec<Vec<Vec<Cell>>> = Vec::new();
    proof {
        lemma_extends_refl(root);
    }
    stack.push(fd);
    proof {
        assert forall|s: Seq<Seq<Cell>>| #[trigger] solves(s, root) implies covered(
            s,
            sols@,
            stack@,
        ) by {
            assert(gview(stack@[0]) == root);
            assert(extends(s, gview(stack@[0])));
        }
    }
    while stack.len() > 0
        invariant
            wf(root),
            n == root.len(),
            n <= 62,
            forall|t: int|
                0 <= t < stack@.len() ==> {
                    &&& wf(gview(#[trigger] stack@[t]))
                    &&& gview(stack@[t]).len() == n
                    &&& extends(gview(stack@[t]), root)
                },
            forall|k: int| 0 <= k < sols@.len() ==> is_solution(gview(#[trigger] sols@[k]), root),
            forall|s: Seq<Seq<Cell>>| #[trigger] solves(s, root) ==> covered(s, sols@, stack@),
            forall|t1: int, t2: int|
                0 <= t1 < t2 < stack@.len() ==> incompatible(
                    gview(#[trigger] stack@[t1]),
                    gview(#[trigger] stack@[t2]),
                ),
            forall|k: int, t: int|
                0 <= k < sols@.len() && 0 <= t < stack@.len() ==> incompatible(
                    gview(#[trigger] sols@[k]),
                    gview(#[trigger] stack@[t]),
                ),
            forall|k1: int, k2: int|
                0 <= k1 < k2 < sols@.len() ==> incompatible(
                    gview(#[trigger] sols@[k1]),
                    gview(#[trigger] sols@[k2]),
                ),
            !rules_ok(root) ==> sols@.len() == 0,
        decreases stack_measure(stack@),
    {
        let ghost st_pre = stack@;
        let cur = stack.pop().unwrap();
        let ghost ecur = empties(gview(cur));
        proof {
            assert(cur == st_pre[st_pre.len() - 1]);
            assert(stack@ =~= st_pre.drop_last());
            assert(stack_measure(st_pre) == stack_measure(stack@) + pow3(ecur + 1));
            lemma_pow3_pos(ecur + 1);
        }
        match check(&cur) {
            CheckResult::Invalid => {
                proof {
                    assert forall|s: Seq<Seq<Cell>>| #[trigger] solves(s, root) implies covered(
                        s,
                        sols@,
                        stack@,
                    ) by {
                        assert(covered(s, sols@, st_pre));
                        if !(exists|k: int|
                            0 <= k < sols@.len() && gview(#[trigger] sols@[k]) == s) {
                            let t = choose|t: int|
                                0 <= t < st_pre.len() && extends(s, gview(#[trigger] st_pre[t]));
                            if t < st_pre.len() - 1 {
                                assert(stack@[t] == st_pre[t]);
                                assert(extends(s, gview(stack@[t])));
                            } else {
                                lemma_invalid_persists(gview(cur), s);
                                assert(false);
                            }
                        }
                    }
                    assert forall|t1: int, t2: int|
                        0 <= t1 < t2 < stack@.len() implies incompatible(
                        gview(#[trigger] stack@[t1]),
                        gview(#[trigger] stack@[t2]),
                    ) by {
                        assert(stack@[t1] == st_pre[t1] && stack@[t2] == st_pre[t2]);
                    }
                    assert forall|k: int, t: int|
                        0 <= k < sols@.len() && 0 <= t < stack@.len() implies incompatible(
                        gview(#[trigger] sols@[k]),
                        gview(#[trigger] stack@[t]),
                    ) by {
                        assert(stack@[t] == st_pre[t]);
                    }
                }
            },
            CheckResult::Solved => {
                proof {
                    if !rules_ok(root) {
                        lemma_invalid_persists(root, gview(cur));
                        assert(false);
                    }
                    lemma_solved_shape(gview(cur));
                }
                let ghost sols_pre = sols@;
                sols.push(cur);
                proof {
                    assert forall|k: int|
                        0 <= k < sols@.len() implies is_solution(
                        gview(#[trigger] sols@[k]),
                        root,
                    ) by {
                        if k < sols@.len() - 1 {
                            assert(sols@[k] == sols_pre[k]);
                        }
                    }
                    assert forall|s: Seq<Seq<Cell>>| #[trigger] solves(s, root) implies covered(
                        s,
                        sols@,
                        stack@,
                    ) by {
                        assert(covered(s, sols_pre, st_pre));
                        if exists|k: int|
                            0 <= k < sols_pre.len() && gview(#[trigger] sols_pre[k]) == s {
                            let k = choose|k: int|
                                0 <= k < sols_pre.len() && gview(#[trigger] sols_pre[k]) == s;
                            assert(sols@[k] == sols_pre[k]);
                            assert(gview(sols@[k]) == s);
                        } else {
                            let t = choose|t: int|
                                0 <= t < st_pre.len() && extends(s, gview(#[trigger] st_pre[t]));
                            if t < st_pre.len() - 1 {
                                assert(stack@[t] == st_pre[t]);
                                assert(extends(s, gview(stack@[t])));
                            } else {
                                lemma_extends_full_eq(gview(cur), s);
                                assert(gview(sols@[sols@.len() - 1]) == s);
                            }
                        }
                    }
                    assert forall|t1: int, t2: int|
                        0 <= t1 < t2 < stack@.len() implies incompatible(
                        gview(#[trigger] stack@[t1]),
                        gview(#[trigger] stack@[t2]),
                    ) by {
                        assert(stack@[t1] == st_pre[t1] && stack@[t2] == st_pre[t2]);
                    }
                    assert forall|k: int, t: int|
                        0 <= k < sols@.len() && 0 <= t < stack@.len() implies incompatible(
                        gview(#[trigger] sols@[k]),
                        gview(#[trigger] stack@[t]),
                    ) by {
                        assert(stack@[t] == st_pre[t]);
                        if k < sols@.len() - 1 {
                            assert(sols@[k] == sols_pre[k]);
                        } else {
                            assert(sols@[k] == cur);
                            assert(incompatible(gview(st_pre[t]), gview(cur)));
                            lemma_incompatible_sym(gview(st_pre[t]), gview(cur));
                        }
                    }
                    assert forall|k1: int, k2: int|
                        0 <= k1 < k2 < sols@.len() implies incompatible(
                        gview(#[trigger] sols@[k1]),
                        gview(#[trigger] sols@[k2]),
                    ) by {
                        assert(sols@[k1] == sols_pre[k1]);
                        if k2 < sols@.len() - 1 {
                            assert(sols@[k2] == sols_pre[k2]);
                        } else {
                            assert(sols@[k2] == cur);
                            assert(incompatible(
                                gview(sols_pre[k1]),
                                gview(st_pre[st_pre.len() - 1]),
                            ));
                        }
                    }
                }
            },
            CheckResult::NotYet => {
                let p = pick_cell(&cur);
                let mut fd0 = clone_grid(&cur);
                set_cell(&mut fd0, p.0, p.1, 0);
                let ghost g0set = gview(fd0);
                proof {
                    lemma_empties_extends_strict(gview(cur), g0set, p.0 as int, p.1 as int);
                }
                simple_solve(&mut fd0);
                proof {
                    lemma_extends_trans(gview(cur), g0set, gview(fd0));
                    lemma_extends_trans(root, gview(cur), gview(fd0));
                    assert(empties(gview(fd0)) < ecur);
                }
                let mut fd1 = clone_grid(&cur);
                set_cell(&mut fd1, p.0, p.1, 1);
                let ghost g1set = gview(fd1);
                proof {
                    lemma_empties_extends_strict(gview(cur), g1set, p.0 as int, p.1 as int);
                }
                simple_solve(&mut fd1);
                proof {
                    lemma_extends_trans(gview(cur), g1set, gview(fd1));
                    lemma_extends_trans(root, gview(cur), gview(fd1));
                    assert(empties(gview(fd1)) < ecur);
                }
                let ghost st_mid = stack@;
                let ghost e0 = empties(gview(fd0));
                let ghost e1 = empties(gview(fd1));
                stack.push(fd0);
                let ghost st_one = stack@;
                stack.push(fd1);
                proof {
                    assert(st_one.drop_last() =~= st_mid);
                    assert(stack_measure(st_one) == stack_measure(st_mid) + pow3(e0 + 1));
                    assert(stack@.drop_last() =~= st_one);
                    assert(stack_measure(stack@) == stack_measure(st_one) + pow3(e1 + 1));
                    lemma_pow3_le(e0 + 1, ecur);
                    lemma_pow3_le(e1 + 1, ecur);
                    lemma_pow3_pos(ecur);
                    assert(pow3(ecur + 1) == 3 * pow3(ecur));
                    assert(stack_measure(stack@) < stack_measure(st_pre));
                    assert forall|t: int|
                        0 <= t < stack@.len() implies {
                        &&& wf(gview(#[trigger] stack@[t]))
                        &&& gview(stack@[t]).len() == n
                        &&& extends(gview(stack@[t]), root)
                    } by {
                        if t < st_mid.len() {
                            assert(stack@[t] == st_mid[t]);
                        } else if t == st_mid.len() {
                            assert(stack@[t] == fd0);
                        } else {
                            assert(stack@[t] == fd1);
                        }
                    }
                    assert forall|s: Seq<Seq<Cell>>| #[trigger] solves(s, root) implies covered(
                        s,
                        sols@,
                        stack@,
                    ) by {
                        assert(covered(s, sols@, st_pre));
                        if !(exists|k: int|
                            0 <= k < sols@.len() && gview(#[trigger] sols@[k]) == s) {
                            let t = choose|t: int|
                                0 <= t < st_pre.len() && extends(s, gview(#[trigger] st_pre[t]));
                            if t < st_pre.len() - 1 {
                                assert(stack@[t] == st_pre[t]);
                                assert(extends(s, gview(stack@[t])));
                            } else {
                                let gc = gview(cur);
                                let pi = p.0 as int;
                                let pj = p.1 as int;
                                assert(s[pi].len() == n && s.len() == n);
                                assert(s[pi][pj] != Cell::Empty);
                                assert(crate::grid::cell_ok(s[pi][pj]));
                                if s[pi][pj] == Cell::Seal(0) {
                                    assert forall|a: int, q: int|
                                        0 <= a < n && 0 <= q < g0set[a].len() && g0set[a][q]
                                            != Cell::Empty implies #[trigger] s[a][q]
                                        == g0set[a][q] by {
                                        if !(a == pi && q == pj) {
                                            assert(g0set[a][q] == gc[a][q]);
                                        }
                                    }
                                    assert(extends(s, g0set));
                                    assert(completion(s, g0set.len()));
                                    assert(extends(s, gview(fd0)));
                                    assert(stack@[st_mid.len() as int] == fd0);
                                } else {
                                    assert(s[pi][pj] == Cell::Seal(1));
                                    assert forall|a: int, q: int|
                                        0 <= a < n && 0 <= q < g1set[a].len() && g1set[a][q]
                                            != Cell::Empty implies #[trigger] s[a][q]
                                        == g1set[a][q] by {
                                        if !(a == pi && q == pj) {
                                            assert(g1set[a][q] == gc[a][q]);
                                        }
                                    }
                                    assert(extends(s, g1set));
                                    assert(completion(s, g1set.len()));
                                    assert(extends(s, gview(fd1)));
                                    assert(stack@[st_mid.len() as int + 1] == fd1);
                                }
                            }
                        }
                    }
                    assert(g0set[p.0 as int][p.1 as int] == Cell::Seal(0));
                    assert(g1set[p.0 as int][p.1 as int] == Cell::Seal(1));
                    assert(gview(fd0)[p.0 as int][p.1 as int] == Cell::Seal(0));
                    assert(gview(fd1)[p.0 as int][p.1 as int] == Cell::Seal(1));
                    assert(incompatible(gview(fd0), gview(fd1)));
                    assert forall|t1: int, t2: int|
                        0 <= t1 < t2 < stack@.len() implies incompatible(
                        gview(#[trigger] stack@[t1]),
                        gview(#[trigger] stack@[t2]),
                    ) by {
                        if t2 < st_mid.len() {
                            assert(stack@[t1] == st_pre[t1] && stack@[t2] == st_pre[t2]);
                        } else if t2 == st_mid.len() {
                            assert(stack@[t1] == st_pre[t1] && stack@[t2] == fd0);
                            assert(incompatible(gview(st_pre[t1]), gview(cur)));
                            lemma_incompatible_extends(gview(st_pre[t1]), gview(cur), gview(fd0));
                        } else {
                            if t1 < st_mid.len() {
                                assert(stack@[t1] == st_pre[t1] && stack@[t2] == fd1);
                                assert(incompatible(gview(st_pre[t1]), gview(cur)));
                                lemma_incompatible_extends(
                                    gview(st_pre[t1]),
                                    gview(cur),
                                    gview(fd1),
                                );
                            } else {
                                assert(stack@[t1] == fd0 && stack@[t2] == fd1);
                            }
                        }
                    }
                    assert forall|k: int, t: int|
                        0 <= k < sols@.len() && 0 <= t < stack@.len() implies incompatible(
                        gview(#[trigger] sols@[k]),
                        gview(#[trigger] stack@[t]),
                    ) by {
                        if t < st_mid.len() {
                            assert(stack@[t] == st_pre[t]);
                        } else {
                            assert(incompatible(
                                gview(sols@[k]),
                                gview(st_pre[st_pre.len() - 1]),
                            ));
                            if t == st_mid.len() {
                                assert(stack@[t] == fd0);
                                lemma_incompatible_extends(gview(sols@[k]), gview(cur), gview(fd0));
                            } else {
                                assert(stack@[t] == fd1);
                                lemma_incompatible_extends(gview(sols@[k]), gview(cur), gview(fd1));
                            }
                        }
                    }
                }
            },
        }
    }
    proof {
        assert forall|s: Seq<Seq<Cell>>| #[trigger] solves(s, root) implies exists|k: int|
            0 <= k < sols@.len() && gview(#[trigger] sols@[k]) == s by {
            assert(covered(s, sols@, stack@));
        }
        assert forall|k1: int, k2: int|
            0 <= k1 < k2 < sols@.len() implies gview(#[trigger] sols@[k1]) != gview(
            #[trigger] sols@[k2],
        ) by {
            assert(incompatible(gview(sols@[k1]), gview(sols@[k2])));
        }
    }
    sols
}

} // verus!
