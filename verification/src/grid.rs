//! The board model: cells, the grid view, well-formedness, and the basic
//! operations on grids (building one from clue lines, deep copy, fixing a
//! single cell).

use vstd::prelude::*;

verus! {

/// One position of the board: either still undetermined, or sealed with a
/// bit (`0` or `1`).
#[derive(Clone, Copy, Debug, PartialEq, Eq, Structural)]
pub enum Cell {
    Empty,
    Seal(usize),
}

/// A sealed cell carries a bit, never anything larger.
pub open spec fn cell_ok(c: Cell) -> bool {
    c matches Cell::Seal(b) ==> b <= 1
}

/// The mathematical view of a grid: a sequence of rows, each a sequence of
/// cells.
pub open spec fn gview(g: Vec<Vec<Cell>>) -> Seq<Seq<Cell>> {
    Seq::new(g@.len(), |i: int| g@[i]@)
}

/// Every row is as long as the grid is high.
pub open spec fn square(g: Seq<Seq<Cell>>) -> bool {
    forall|i: int| 0 <= i < g.len() ==> (#[trigger] g[i]).len() == g.len()
}

/// Every sealed cell carries a bit.
pub open spec fn cells_ok(g: Seq<Seq<Cell>>) -> bool {
    forall|i: int, j: int|
        0 <= i < g.len() && 0 <= j < g[i].len() ==> cell_ok(#[trigger] g[i][j])
}

/// A well-formed board: square, of even side length, holding only bits.
pub open spec fn wf(g: Seq<Seq<Cell>>) -> bool {
    &&& g.len() % 2 == 0
    &&& square(g)
    &&& cells_ok(g)
}

/// `s` refines `g`: same shape, and every cell already sealed in `g` is
/// sealed with the same bit in `s`.
pub open spec fn extends(s: Seq<Seq<Cell>>, g: Seq<Seq<Cell>>) -> bool {
    &&& s.len() == g.len()
    &&& forall|i: int| 0 <= i < g.len() ==> (#[trigger] s[i]).len() == g[i].len()
    &&& forall|i: int, j: int|
        0 <= i < g.len() && 0 <= j < g[i].len() && g[i][j] != Cell::Empty
            ==> #[trigger] s[i][j] == g[i][j]
}

pub proof fn lemma_extends_refl(g: Seq<Seq<Cell>>)
    ensures
        extends(g, g),
{
}

pub proof fn lemma_extends_trans(a: Seq<Seq<Cell>>, b: Seq<Seq<Cell>>, c: Seq<Seq<Cell>>)
    requires
        extends(b, a),
        extends(c, b),
    ensures
        extends(c, a),
{
    assert forall|i: int, j: int|
        0 <= i < a.len() && 0 <= j < a[i].len() && a[i][j] != Cell::Empty
            implies #[trigger] c[i][j] == a[i][j] by {
        assert(b[i][j] == a[i][j]);
    }
}

/// How many cells of the line are still undetermined.
pub open spec fn count_empty(s: Seq<Cell>) -> nat
    decreases s.len(),
{
    if s.len() == 0 {
        0
    } else {
        count_empty(s.drop_last()) + if s.last() == Cell::Empty {
            1nat
        } else {
            0nat
        }
    }
}

/// How many cells of the grid are still undetermined.
pub open spec fn empties(g: Seq<Seq<Cell>>) -> nat
    decreases g.len(),
{
    if g.len() == 0 {
        0
    } else {
        empties(g.drop_last()) + count_empty(g.last())
    }
}

proof fn lemma_count_empty_mono(s1: Seq<Cell>, s2: Seq<Cell>)
    requires
        s1.len() == s2.len(),
        forall|t: int| 0 <= t < s1.len() && #[trigger] s2[t] == Cell::Empty ==> s1[t] == Cell::Empty,
    ensures
        count_empty(s2) <= count_empty(s1),
    decreases s1.len(),
{
    if s1.len() > 0 {
        lemma_count_empty_mono(s1.drop_last(), s2.drop_last());
    }
}

proof fn lemma_count_empty_strict(s1: Seq<Cell>, s2: Seq<Cell>, t0: int)
    requires
        s1.len() == s2.len(),
        forall|t: int| 0 <= t < s1.len() && #[trigger] s2[t] == Cell::Empty ==> s1[t] == Cell::Empty,
        0 <= t0 < s1.len(),
        s1[t0] == Cell::Empty,
        s2[t0] != Cell::Empty,
    ensures
        count_empty(s2) < count_empty(s1),
    decreases s1.len(),
{
    if t0 == s1.len() - 1 {
        lemma_count_empty_mono(s1.drop_last(), s2.drop_last());
    } else {
        lemma_count_empty_strict(s1.drop_last(), s2.drop_last(), t0);
    }
}

/// Sealing cells never raises the number of undetermined cells.
pub proof fn lemma_empties_extends(gold: Seq<Seq<Cell>>, gnew: Seq<Seq<Cell>>)
    requires
        extends(gnew, gold),
    ensures
        empties(gnew) <= empties(gold),
    decreases gold.len(),
{
    if gold.len() > 0 {
        assert(extends(gnew.drop_last(), gold.drop_last()));
        lemma_empties_extends(gold.drop_last(), gnew.drop_last());
        let l = gold.len() - 1;
        assert forall|t: int|
            0 <= t < gold[l].len() && #[trigger] gnew[l][t] == Cell::Empty implies gold[l][t]
            == Cell::Empty by {
            if gold[l][t] != Cell::Empty {
                assert(gnew[l][t] == gold[l][t]);
            }
        }
        lemma_count_empty_mono(gold.last(), gnew.last());
    }
}

/// Sealing at least one cell lowers it outright.
pub proof fn lemma_empties_extends_strict(
    gold: Seq<Seq<Cell>>,
    gnew: Seq<Seq<Cell>>,
    i0: int,
    j0: int,
)
    requires
        extends(gnew, gold),
        0 <= i0 < gold.len(),
        0 <= j0 < gold[i0].len(),
        gold[i0][j0] == Cell::Empty,
        gnew[i0][j0] != Cell::Empty,
    ensures
        empties(gnew) < empties(gold),
    decreases gold.len(),
{
    let l = gold.len() - 1;
    assert forall|t: int|
        0 <= t < gold[l].len() && #[trigger] gnew[l][t] == Cell::Empty implies gold[l][t]
        == Cell::Empty by {
        if gold[l][t] != Cell::Empty {
            assert(gnew[l][t] == gold[l][t]);
        }
    }
    if i0 == l {
        assert(extends(gnew.drop_last(), gold.drop_last()));
        lemma_empties_extends(gold.drop_last(), gnew.drop_last());
        lemma_count_empty_strict(gold.last(), gnew.last(), j0);
    } else {
        assert(extends(gnew.drop_last(), gold.drop_last()));
        lemma_empties_extends_strict(gold.drop_last(), gnew.drop_last(), i0, j0);
        lemma_count_empty_mono(gold.last(), gnew.last());
    }
}

/// How one character of an input line is read: `0` and `1` are clues, any
/// other character leaves the cell undetermined.
pub open spec fn parse_cell(c: char) -> Cell {
    if c == '0' {
        Cell::Seal(0)
    } else if c == '1' {
        Cell::Seal(1)
    } else {
        Cell::Empty
    }
}

/// The cell that position `j` of a clue line denotes; positions past the end
/// of a short line stay undetermined.
pub open spec fn parse_cell_at(line: Seq<char>, j: int) -> Cell {
    if 0 <= j < line.len() {
        parse_cell(line[j])
    } else {
        Cell::Empty
    }
}

/// The character that renders a cell: `0`, `1`, or `.`.
pub open spec fn render_cell(c: Cell) -> char {
    if c == Cell::Seal(0) {
        '0'
    } else if c == Cell::Seal(1) {
        '1'
    } else {
        '.'
    }
}

/// Builds the root board from `n` clue lines.  Line `i` seals row `i` cell
/// by cell; a line shorter than `n` leaves the rest of its row undetermined.
pub fn get_field(n: usize, lines: &Vec<Vec<char>>) -> (fd: Vec<Vec<Cell>>)
    requires
        n % 2 == 0,
        lines@.len() == n,
        forall|i: int| 0 <= i < n ==> (#[trigger] lines@[i])@.len() <= n,
    ensures
        gview(fd).len() == n,
        wf(gview(fd)),
        forall|i: int, j: int|
            0 <= i < n && 0 <= j < n ==> #[trigger] gview(fd)[i][j] == parse_cell_at(
                lines@[i]@,
                j,
            ),
{
    let mut fd: Vec<Vec<Cell>> = Vec::new();
    let mut i: usize = 0;
    while i < n
        invariant
            i <= n,
            lines@.len() == n,
            fd@.len() == i,
            forall|i2: int| 0 <= i2 < i ==> (#[trigger] gview(fd)[i2]).len() == n,
            forall|i2: int, j: int|
                0 <= i2 < i && 0 <= j < n ==> #[trigger] gview(fd)[i2][j] == parse_cell_at(
                    lines@[i2]@,
                    j,
                ),
        decreases n - i,
    {
        let line = &lines[i];
        let mut row: Vec<Cell> = Vec::new();
        let mut j: usize = 0;
        while j < n
            invariant
                j <= n,
                i < n,
                lines@.len() == n,
                line == lines@[i as int],
                row@.len() == j,
                forall|j2: int|
                    0 <= j2 < j ==> #[trigger] row@[j2] == parse_cell_at(lines@[i as int]@, j2),
            decreases n - j,
        {
            let c = if j < line.len() {
                let ch = line[j];
                if ch == '0' {
                    Cell::Seal(0)
                } else if ch == '1' {
                    Cell::Seal(1)
                } else {
                    Cell::Empty
                }
            } else {
                Cell::Empty
            };
            row.push(c);
            j += 1;
        }
        let ghost gpre = gview(fd);
        let ghost rowv = row@;
        fd.push(row);
        proof {
            assert(gview(fd) =~= gpre.push(rowv));
        }
        i += 1;
    }
    assert forall|i2: int, j: int|
        0 <= i2 < n && 0 <= j < gview(fd)[i2].len() implies cell_ok(#[trigger] gview(fd)[i2][j]) by {
        assert(gview(fd)[i2][j] == parse_cell_at(lines@[i2]@, j));
    }
    fd
}

/// Renders a grid as lines of characters, one character per cell.
pub fn render_grid(fd: &Vec<Vec<Cell>>) -> (out: Vec<Vec<char>>)
    ensures
        out@.len() == gview(*fd).len(),
        forall|i: int|
            0 <= i < gview(*fd).len() ==> (#[trigger] out@[i])@.len() == gview(*fd)[i].len(),
        forall|i: int, j: int|
            0 <= i < gview(*fd).len() && 0 <= j < gview(*fd)[i].len() ==> (
            #[trigger] out@[i]@[j]) == render_cell(gview(*fd)[i][j]),
{
    let mut out: Vec<Vec<char>> = Vec::new();
    let mut i: usize = 0;
    while i < fd.len()
        invariant
            i <= fd@.len(),
            out@.len() == i,
            forall|i2: int| 0 <= i2 < i ==> (#[trigger] out@[i2])@.len() == gview(*fd)[i2].len(),
            forall|i2: int, j: int|
                0 <= i2 < i && 0 <= j < gview(*fd)[i2].len() ==> (#[trigger] out@[i2]@[j])
                    == render_cell(gview(*fd)[i2][j]),
        decreases fd@.len() - i,
    {
        let row = &fd[i];
        let mut line: Vec<char> = Vec::new();
        let mut j: usize = 0;
        while j < row.len()
            invariant
                i < fd@.len(),
                row@ == gview(*fd)[i as int],
                j <= row@.len(),
                line@.len() == j,
                forall|j2: int|
                    0 <= j2 < j ==> #[trigger] line@[j2] == render_cell(gview(*fd)[i as int][j2]),
            decreases row@.len() - j,
        {
            let cl = row[j];
            let ch = if cl == Cell::Seal(0) {
                '0'
            } else if cl == Cell::Seal(1) {
                '1'
            } else {
                '.'
            };
            line.push(ch);
            j += 1;
        }
        out.push(line);
        i += 1;
    }
    out
}

/// An independent deep copy of a grid, used before branching so that each
/// branch owns its own board.
pub fn clone_grid(fd: &Vec<Vec<Cell>>) -> (r: Vec<Vec<Cell>>)
    ensures
        gview(r) == gview(*fd),
{
    let mut r: Vec<Vec<Cell>> = Vec::new();
    let mut i: usize = 0;
    while i < fd.len()
        invariant
            i <= fd@.len(),
            r@.len() == i,
            forall|i2: int| 0 <= i2 < i ==> #[trigger] gview(r)[i2] == gview(*fd)[i2],
        decreases fd@.len() - i,
    {
        let row = &fd[i];
        let mut copy: Vec<Cell> = Vec::new();
        let mut j: usize = 0;
        while j < row.len()
            invariant
                i < fd@.len(),
                row@ == gview(*fd)[i as int],
                j <= row@.len(),
                copy@.len() == j,
                forall|j2: int| 0 <= j2 < j ==> #[trigger] copy@[j2] == row@[j2],
            decreases row@.len() - j,
        {
            let c = row[j];
            copy.push(c);
            j += 1;
        }
        assert(copy@ =~= gview(*fd)[i as int]);
        let ghost rpre = gview(r);
        let ghost copyv = copy@;
        r.push(copy);
        proof {
            assert(gview(r) =~= rpre.push(copyv));
        }
        i += 1;
    }
    assert(gview(r) =~= gview(*fd));
    r
}

/// Reads the cell at `(i, j)`.
pub fn get_cell(fd: &Vec<Vec<Cell>>, i: usize, j: usize) -> (c: Cell)
    requires
        i < gview(*fd).len(),
        j < gview(*fd)[i as int].len(),
    ensures
        c == gview(*fd)[i as int][j as int],
{
    fd[i][j]
}

/// Seals one still-undetermined cell with the bit `v`.  Sealing an already
/// sealed cell is a contract violation, never a run-time event.
pub fn set_cell(fd: &mut Vec<Vec<Cell>>, i: usize, j: usize, v: usize)
    requires
        i < gview(*old(fd)).len(),
        j < gview(*old(fd))[i as int].len(),
        gview(*old(fd))[i as int][j as int] == Cell::Empty,
        v <= 1,
    ensures
        gview(*final(fd)) == gview(*old(fd)).update(
            i as int,
            gview(*old(fd))[i as int].update(j as int, Cell::Seal(v)),
        ),
        extends(gview(*final(fd)), gview(*old(fd))),
        wf(gview(*old(fd))) ==> wf(gview(*final(fd))),
{
    fd[i][j] = Cell::Seal(v);
    proof {
        assert(gview(*fd) =~= gview(*old(fd)).update(
            i as int,
            gview(*old(fd))[i as int].update(j as int, Cell::Seal(v)),
        ));
    }
}

} // verus!
