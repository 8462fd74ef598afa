//! The forced-move propagator.  Two local deductions are applied across the
//! grid until a full pass seals nothing more:
//!
//! - a sealed pair extends neither forward nor backward: the cell past the
//!   pair and the cell before it must carry the other bit;
//! - two equal sealed cells two steps apart sandwich their middle: it must
//!   carry the other bit.

use vstd::prelude::*;

use crate::grid::Cell;
use crate::grid::cells_ok;
use crate::grid::empties;
use crate::grid::extends;
use crate::grid::gview;
use crate::grid::lemma_empties_extends;
use crate::grid::lemma_empties_extends_strict;
use crate::grid::lemma_extends_trans;
use crate::grid::set_cell;
use crate::grid::square;
use crate::grid::wf;
use crate::rules::all_fixed;
use crate::rules::colseq;
use crate::rules::lemma_extends_col;
use crate::rules::no_triple;
use crate::rules::no_triple_seq;
use crate::rules::triple_at;

verus! {

/// Position `t` of the line is forced to carry `1 - b`: sealing it with `b`
/// would close a run of three `b`s, because two `b`s stand directly before
/// it, directly after it, or on both sides of it.
pub open spec fn seq_forces(s: Seq<Cell>, t: int, b: usize) -> bool {
    ||| (t >= 2 && s[t - 2] == Cell::Seal(b) && s[t - 1] == Cell::Seal(b))
    ||| (t + 2 < s.len() && s[t + 1] == Cell::Seal(b) && s[t + 2] == Cell::Seal(b))
    ||| (t >= 1 && t + 1 < s.len() && s[t - 1] == Cell::Seal(b) && s[t + 1] == Cell::Seal(b))
}

/// Cell `(i, j)` is forced to carry `1 - b` by its row or by its column.
pub open spec fn forces_at(g: Seq<Seq<Cell>>, i: int, j: int, b: usize) -> bool {
    seq_forces(g[i], j, b) || seq_forces(colseq(g, j), i, b)
}

/// No undetermined cell of the grid is forced: a further pass of the
/// propagator would seal nothing.
pub open spec fn is_fixpoint(g: Seq<Seq<Cell>>) -> bool {
    forall|i: int, j: int, b: usize|
        0 <= i < g.len() && 0 <= j < g.len() && g[i][j] == Cell::Empty && b <= 1
            ==> !#[trigger] forces_at(g, i, j, b)
}

/// A fully sealed square grid of bits, of side `n`, free of triple runs:
/// what any solution must at least be.
pub open spec fn completion(s: Seq<Seq<Cell>>, n: nat) -> bool {
    &&& s.len() == n
    &&& square(s)
    &&& cells_ok(s)
    &&& all_fixed(s)
    &&& no_triple(s)
}

/// Every completion that refines `g1` also refines `g2`: going from `g1` to
/// `g2` loses no solution.
pub open spec fn keeps_completions(g1: Seq<Seq<Cell>>, g2: Seq<Seq<Cell>>) -> bool {
    forall|s: Seq<Seq<Cell>>|
        completion(s, g1.len()) && #[trigger] extends(s, g1) ==> extends(s, g2)
}

pub proof fn lemma_keeps_trans(a: Seq<Seq<Cell>>, b: Seq<Seq<Cell>>, c: Seq<Seq<Cell>>)
    requires
        a.len() == b.len(),
        keeps_completions(a, b),
        keeps_completions(b, c),
    ensures
        keeps_completions(a, c),
{
    assert forall|s: Seq<Seq<Cell>>|
        completion(s, a.len()) && #[trigger] extends(s, a) implies extends(s, c) by {
        assert(extends(s, b));
        assert(completion(s, b.len()));
    }
}

/// A forced cell is sealed the same way in every completion: whatever
/// refines `g` and is free of triple runs must carry `1 - b` at `(i, j)`.
pub proof fn lemma_force_sound(g: Seq<Seq<Cell>>, s: Seq<Seq<Cell>>, i: int, j: int, b: usize)
    requires
        square(g),
        completion(s, g.len()),
        extends(s, g),
        0 <= i < g.len(),
        0 <= j < g.len(),
        b <= 1,
        forces_at(g, i, j, b),
    ensures
        s[i][j] == Cell::Seal((1 - b) as usize),
{
    let n = g.len();
    assert(s[i].len() == n && g[i].len() == n);
    assert(s[i][j] != Cell::Empty && crate::grid::cell_ok(s[i][j]));
    if s[i][j] == Cell::Seal(b) {
        if seq_forces(g[i], j, b) {
            assert(no_triple_seq(s[i]));
            if j >= 2 && g[i][j - 2] == Cell::Seal(b) && g[i][j - 1] == Cell::Seal(b) {
                assert(s[i][j - 2] == Cell::Seal(b) && s[i][j - 1] == Cell::Seal(b));
                assert(triple_at(s[i], j - 2));
            } else if j + 2 < n && g[i][j + 1] == Cell::Seal(b) && g[i][j + 2] == Cell::Seal(b) {
                assert(s[i][j + 1] == Cell::Seal(b) && s[i][j + 2] == Cell::Seal(b));
                assert(triple_at(s[i], j));
            } else {
                assert(s[i][j - 1] == Cell::Seal(b) && s[i][j + 1] == Cell::Seal(b));
                assert(triple_at(s[i], j - 1));
            }
            assert(false);
        } else {
            let gc = colseq(g, j);
            let sc = colseq(s, j);
            lemma_extends_col(g, s, j);
            assert(no_triple_seq(sc));
            assert(sc[i] == s[i][j]);
            if i >= 2 && gc[i - 2] == Cell::Seal(b) && gc[i - 1] == Cell::Seal(b) {
                assert(sc[i - 2] == Cell::Seal(b) && sc[i - 1] == Cell::Seal(b));
                assert(triple_at(sc, i - 2));
            } else if i + 2 < n && gc[i + 1] == Cell::Seal(b) && gc[i + 2] == Cell::Seal(b) {
                assert(sc[i + 1] == Cell::Seal(b) && sc[i + 2] == Cell::Seal(b));
                assert(triple_at(sc, i));
            } else {
                assert(sc[i - 1] == Cell::Seal(b) && sc[i + 1] == Cell::Seal(b));
                assert(triple_at(sc, i - 1));
            }
            assert(false);
        }
    }
    assert(s[i][j] == Cell::Seal(0) || s[i][j] == Cell::Seal(1));
}

/// Whether the row of `(i, j)` forces that cell to `1 - b`.
fn forces_row(fd: &Vec<Vec<Cell>>, i: usize, j: usize, b: usize) -> (r: bool)
    requires
        square(gview(*fd)),
        i < gview(*fd).len(),
        j < gview(*fd).len(),
    ensures
        r <==> seq_forces(gview(*fd)[i as int], j as int, b),
{
    let n = fd.len();
    proof {
        assert(gview(*fd)[i as int].len() == n);
    }
    (j >= 2 && fd[i][j - 2] == Cell::Seal(b) && fd[i][j - 1] == Cell::Seal(b)) || (n > 2 && j < n
        - 2 && fd[i][j + 1] == Cell::Seal(b) && fd[i][j + 2] == Cell::Seal(b)) || (j >= 1 && j < n
        - 1 && fd[i][j - 1] == Cell::Seal(b) && fd[i][j + 1] == Cell::Seal(b))
}

/// Whether the column of `(i, j)` forces that cell to `1 - b`.
fn forces_col(fd: &Vec<Vec<Cell>>, i: usize, j: usize, b: usize) -> (r: bool)
    requires
        square(gview(*fd)),
        i < gview(*fd).len(),
        j < gview(*fd).len(),
    ensures
        r <==> seq_forces(colseq(gview(*fd), j as int), i as int, b),
{
    let n = fd.len();
    let ghost col = colseq(gview(*fd), j as int);
    proof {
        assert(col.len() == n);
        assert(forall|t: int| 0 <= t < n ==> #[trigger] col[t] == gview(*fd)[t][j as int]);
    }
    let mut r = false;
    if i >= 2 {
        proof {
            assert(gview(*fd)[i as int - 2].len() == n);
            assert(gview(*fd)[i as int - 1].len() == n);
        }
        if fd[i - 2][j] == Cell::Seal(b) && fd[i - 1][j] == Cell::Seal(b) {
            r = true;
        }
    }
    if !r && n > 2 && i < n - 2 {
        proof {
            assert(gview(*fd)[i as int + 1].len() == n);
            assert(gview(*fd)[i as int + 2].len() == n);
        }
        if fd[i + 1][j] == Cell::Seal(b) && fd[i + 2][j] == Cell::Seal(b) {
            r = true;
        }
    }
    if !r && i >= 1 && i < n - 1 {
        proof {
            assert(gview(*fd)[i as int - 1].len() == n);
            assert(gview(*fd)[i as int + 1].len() == n);
        }
        if fd[i - 1][j] == Cell::Seal(b) && fd[i + 1][j] == Cell::Seal(b) {
            r = true;
        }
    }
    r
}

/// The bit that cell `(i, j)` is forced to carry, if either deduction rule
/// applies to it; nothing when no rule does.
fn forced_value(fd: &Vec<Vec<Cell>>, i: usize, j: usize) -> (r: Option<usize>)
    requires
        square(gview(*fd)),
        i < gview(*fd).len(),
        j < gview(*fd).len(),
    ensures
        r matches Some(v) ==> v <= 1 && exists|b: usize|
            b <= 1 && #[trigger] forces_at(gview(*fd), i as int, j as int, b) && v == 1 - b,
        r is None ==> forall|b: usize|
            b <= 1 ==> !#[trigger] forces_at(gview(*fd), i as int, j as int, b),
{
    if forces_row(fd, i, j, 0) || forces_col(fd, i, j, 0) {
        proof {
            assert(forces_at(gview(*fd), i as int, j as int, 0usize));
        }
        Some(1)
    } else if forces_row(fd, i, j, 1) || forces_col(fd, i, j, 1) {
        proof {
            assert(forces_at(gview(*fd), i as int, j as int, 1usize));
        }
        Some(0)
    } else {
        proof {
            assert forall|b: usize| b <= 1 implies !#[trigger] forces_at(
                gview(*fd),
                i as int,
                j as int,
                b,
            ) by {
                assert(b == 0 || b == 1);
            }
        }
        None
    }
}

/// One pass of the propagator over the whole grid, sealing every cell that
/// a rule forces.  Reports whether anything was sealed.
fn propagate_pass(fd: &mut Vec<Vec<Cell>>) -> (changed: bool)
    requires
        wf(gview(*old(fd))),
    ensures
        wf(gview(*final(fd))),
        gview(*final(fd)).len() == gview(*old(fd)).len(),
        extends(gview(*final(fd)), gview(*old(fd))),
        empties(gview(*final(fd))) <= empties(gview(*old(fd))),
        keeps_completions(gview(*old(fd)), gview(*final(fd))),
        !changed ==> gview(*final(fd)) == gview(*old(fd)) && is_fixpoint(gview(*final(fd))),
        changed ==> empties(gview(*final(fd))) < empties(gview(*old(fd))),
        is_fixpoint(gview(*old(fd))) ==> !changed,
{
    let ghost g0 = gview(*fd);
    let n = fd.len();
    let mut changed = false;
    let mut i: usize = 0;
    while i < n
        invariant
            wf(g0),
            n == g0.len(),
            wf(gview(*fd)),
            gview(*fd).len() == n,
            i <= n,
            extends(gview(*fd), g0),
            empties(gview(*fd)) <= empties(g0),
            keeps_completions(g0, gview(*fd)),
            changed ==> empties(gview(*fd)) < empties(g0),
            !changed ==> gview(*fd) == g0,
            !changed ==> forall|i1: int, j1: int, b: usize|
                0 <= i1 < i && 0 <= j1 < n && g0[i1][j1] == Cell::Empty && b <= 1
                    ==> !#[trigger] forces_at(g0, i1, j1, b),
            is_fixpoint(g0) ==> !changed,
        decreases n - i,
    {
        let mut j: usize = 0;
        while j < n
            invariant
                wf(g0),
                n == g0.len(),
                wf(gview(*fd)),
                gview(*fd).len() == n,
                i < n,
                j <= n,
                extends(gview(*fd), g0),
                empties(gview(*fd)) <= empties(g0),
                keeps_completions(g0, gview(*fd)),
                changed ==> empties(gview(*fd)) < empties(g0),
                !changed ==> gview(*fd) == g0,
                !changed ==> forall|i1: int, j1: int, b: usize|
                    0 <= i1 < i && 0 <= j1 < n && g0[i1][j1] == Cell::Empty && b <= 1
                        ==> !#[trigger] forces_at(g0, i1, j1, b),
                !changed ==> forall|j1: int, b: usize|
                    0 <= j1 < j && g0[i as int][j1] == Cell::Empty && b <= 1
                        ==> !#[trigger] forces_at(g0, i as int, j1, b),
                is_fixpoint(g0) ==> !changed,
            decreases n - j,
        {
            proof {
                assert(gview(*fd)[i as int].len() == n);
            }
            let c = fd[i][j];
            if c == Cell::Empty {
                match forced_value(fd, i, j) {
                    Some(v) => {
                        let ghost gcur = gview(*fd);
                        let ghost b = choose|b: usize|
                            b <= 1 && #[trigger] forces_at(gcur, i as int, j as int, b) && v == 1
                                - b;
                        set_cell(fd, i, j, v);
                        proof {
                            let gnew = gview(*fd);
                            lemma_extends_trans(g0, gcur, gnew);
                            lemma_empties_extends_strict(gcur, gnew, i as int, j as int);
                            lemma_empties_extends(g0, gcur);
                            if !changed {
                                assert(gcur == g0);
                                assert(forces_at(g0, i as int, j as int, b));
                                assert(!is_fixpoint(g0));
                            }
                            assert forall|s: Seq<Seq<Cell>>|
                                completion(s, g0.len()) && #[trigger] extends(s, g0) implies extends(
                                s,
                                gnew,
                            ) by {
                                assert(extends(s, gcur));
                                lemma_force_sound(gcur, s, i as int, j as int, b);
                                assert(s[i as int][j as int] == Cell::Seal(v));
                                assert forall|p: int, q: int|
                                    0 <= p < gnew.len() && 0 <= q < gnew[p].len() && gnew[p][q]
                                        != Cell::Empty implies #[trigger] s[p][q] == gnew[p][q] by {
                                    if p == i as int && q == j as int {
                                        assert(gnew[p][q] == Cell::Seal(v));
                                    } else {
                                        assert(gnew[p][q] == gcur[p][q]);
                                    }
                                }
                            }
                        }
                        changed = true;
                    },
                    None => {},
                }
            }
            j += 1;
        }
        i += 1;
    }
    proof {
        if !changed {
            assert forall|i1: int, j1: int, b: usize|
                0 <= i1 < n && 0 <= j1 < n && gview(*fd)[i1][j1] == Cell::Empty && b
                    <= 1 implies !#[trigger] forces_at(gview(*fd), i1, j1, b) by {
                assert(!forces_at(g0, i1, j1, b));
            }
        }
    }
    changed
}

/// Runs propagation passes until a pass seals nothing: the result is a
/// fixpoint of the two deduction rules.  Every clue of the input is kept,
/// only undetermined cells are sealed, and no completion of the input is
/// lost.  On a grid that is already a fixpoint nothing changes at all.
pub fn simple_solve(fd: &mut Vec<Vec<Cell>>)
    requires
        wf(gview(*old(fd))),
    ensures
        wf(gview(*final(fd))),
        gview(*final(fd)).len() == gview(*old(fd)).len(),
        extends(gview(*final(fd)), gview(*old(fd))),
        empties(gview(*final(fd))) <= empties(gview(*old(fd))),
        is_fixpoint(gview(*final(fd))),
        is_fixpoint(gview(*old(fd))) ==> gview(*final(fd)) == gview(*old(fd)),
        keeps_completions(gview(*old(fd)), gview(*final(fd))),
{
    let ghost g0 = gview(*fd);
    let mut changed = propagate_pass(fd);
    while changed
        invariant
            wf(g0),
            wf(gview(*fd)),
            gview(*fd).len() == g0.len(),
            extends(gview(*fd), g0),
            empties(gview(*fd)) <= empties(g0),
            keeps_completions(g0, gview(*fd)),
            is_fixpoint(g0) ==> gview(*fd) == g0,
            !changed ==> is_fixpoint(gview(*fd)),
        decreases empties(gview(*fd)), (if changed {
            1int
        } else {
            0int
        }),
    {
        let ghost gpre = gview(*fd);
        changed = propagate_pass(fd);
        proof {
            lemma_extends_trans(g0, gpre, gview(*fd));
            lemma_keeps_trans(g0, gpre, gview(*fd));
        }
    }
}

} // verus!
