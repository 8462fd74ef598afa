//! The puzzle rules as mathematics: balance of the two symbols, absence of
//! triple runs, pairwise distinct rows and columns, and the canonical
//! integer encoding of a fully sealed line.

use vstd::prelude::*;
use vstd::arithmetic::power2::pow2;
use vstd::arithmetic::power2::lemma_pow2_unfold;
use vstd::arithmetic::power2::lemma2_to64;

use crate::grid::Cell;
use crate::grid::cell_ok;
use crate::grid::square;
use crate::grid::wf;

verus! {

/// How many cells of `s` are sealed with the bit `b`.
pub open spec fn count_seq(s: Seq<Cell>, b: usize) -> nat
    decreases s.len(),
{
    if s.len() == 0 {
        0
    } else {
        count_seq(s.drop_last(), b) + if s.last() == Cell::Seal(b) {
            1nat
        } else {
            0nat
        }
    }
}

/// Column `j` of the grid, read top to bottom.
pub open spec fn colseq(g: Seq<Seq<Cell>>, j: int) -> Seq<Cell> {
    Seq::new(g.len(), |i: int| g[i][j])
}

/// Every cell of the line is sealed.
pub open spec fn full_seq(s: Seq<Cell>) -> bool {
    forall|t: int| 0 <= t < s.len() ==> #[trigger] s[t] != Cell::Empty
}

/// Every cell of the grid is sealed.
pub open spec fn all_fixed(g: Seq<Seq<Cell>>) -> bool {
    forall|i: int| 0 <= i < g.len() ==> full_seq(#[trigger] g[i])
}

/// Every cell of the line carries a bit.
pub open spec fn seq_cells_ok(s: Seq<Cell>) -> bool {
    forall|t: int| 0 <= t < s.len() ==> cell_ok(#[trigger] s[t])
}

/// No row or column holds more than `n / 2` cells of either symbol; cells
/// still undetermined are not counted.
pub open spec fn balance_ok(g: Seq<Seq<Cell>>) -> bool {
    &&& forall|i: int|
        0 <= i < g.len() ==> count_seq(#[trigger] g[i], 0) <= g.len() / 2 && count_seq(
            g[i],
            1,
        ) <= g.len() / 2
    &&& forall|j: int|
        0 <= j < g.len() ==> count_seq(#[trigger] colseq(g, j), 0) <= g.len() / 2 && count_seq(
            colseq(g, j),
            1,
        ) <= g.len() / 2
}

/// Three equal sealed cells stand at positions `t`, `t + 1`, `t + 2`.
pub open spec fn triple_at(s: Seq<Cell>, t: int) -> bool {
    s[t] != Cell::Empty && s[t + 1] == s[t] && s[t + 2] == s[t]
}

/// The line holds no run of three equal sealed cells.
pub open spec fn no_triple_seq(s: Seq<Cell>) -> bool {
    forall|t: int| 0 <= t && t + 2 < s.len() ==> !#[trigger] triple_at(s, t)
}

/// No row and no column of the grid holds a run of three.
pub open spec fn no_triple(g: Seq<Seq<Cell>>) -> bool {
    &&& forall|i: int| 0 <= i < g.len() ==> no_triple_seq(#[trigger] g[i])
    &&& forall|j: int| 0 <= j < g.len() ==> no_triple_seq(#[trigger] colseq(g, j))
}

/// Fully sealed rows are pairwise distinct.
pub open spec fn rows_distinct(g: Seq<Seq<Cell>>) -> bool {
    forall|i1: int, i2: int|
        0 <= i1 < i2 < g.len() && full_seq(#[trigger] g[i1]) && full_seq(#[trigger] g[i2])
            ==> g[i1] != g[i2]
}

/// Fully sealed columns are pairwise distinct.
pub open spec fn cols_distinct(g: Seq<Seq<Cell>>) -> bool {
    forall|j1: int, j2: int|
        0 <= j1 < j2 < g.len() && full_seq(#[trigger] colseq(g, j1)) && full_seq(
            #[trigger] colseq(g, j2),
        ) ==> colseq(g, j1) != colseq(g, j2)
}

/// All the puzzle rules at once, on a possibly partial grid.
pub open spec fn rules_ok(g: Seq<Seq<Cell>>) -> bool {
    balance_ok(g) && no_triple(g) && rows_distinct(g) && cols_distinct(g)
}

/// Every row and every column holds exactly `n / 2` of each symbol.
pub open spec fn balanced_exact(g: Seq<Seq<Cell>>) -> bool {
    &&& forall|i: int|
        0 <= i < g.len() ==> count_seq(#[trigger] g[i], 0) == g.len() / 2 && count_seq(
            g[i],
            1,
        ) == g.len() / 2
    &&& forall|j: int|
        0 <= j < g.len() ==> count_seq(#[trigger] colseq(g, j), 0) == g.len() / 2 && count_seq(
            colseq(g, j),
            1,
        ) == g.len() / 2
}

/// The bit a sealed cell contributes to the canonical encoding.
pub open spec fn bit_of(c: Cell) -> nat {
    if c == Cell::Seal(1) {
        1
    } else {
        0
    }
}

/// The canonical integer encoding of a line: fold the bits left to right
/// with `x -> 2 * x + bit`, seeded at `1`.  The seed keeps lines with
/// leading zeros apart.
pub open spec fn encode(s: Seq<Cell>) -> nat
    decreases s.len(),
{
    if s.len() == 0 {
        1
    } else {
        2 * encode(s.drop_last()) + bit_of(s.last())
    }
}

pub proof fn lemma_count_le_len(s: Seq<Cell>, b: usize)
    ensures
        count_seq(s, b) <= s.len(),
    decreases s.len(),
{
    if s.len() > 0 {
        lemma_count_le_len(s.drop_last(), b);
    }
}

/// Counting one more cell of the line.
pub proof fn lemma_count_take_step(s: Seq<Cell>, b: usize, j: int)
    requires
        0 <= j < s.len(),
    ensures
        count_seq(s.take(j + 1), b) == count_seq(s.take(j), b) + if s[j] == Cell::Seal(b) {
            1nat
        } else {
            0nat
        },
{
    assert(s.take(j + 1).drop_last() =~= s.take(j));
    assert(s.take(j + 1).last() == s[j]);
}

/// On a fully sealed line of bits the two counts add up to the length.
pub proof fn lemma_count_full(s: Seq<Cell>)
    requires
        full_seq(s),
        seq_cells_ok(s),
    ensures
        count_seq(s, 0) + count_seq(s, 1) == s.len(),
    decreases s.len(),
{
    if s.len() > 0 {
        assert(full_seq(s.drop_last()));
        assert(seq_cells_ok(s.drop_last()));
        lemma_count_full(s.drop_last());
        assert(s.last() != Cell::Empty);
        assert(cell_ok(s.last()));
        assert(s.last() == Cell::Seal(0) || s.last() == Cell::Seal(1));
    }
}

/// A fully sealed line of even length `n` that exceeds `n / 2` in neither
/// symbol holds exactly `n / 2` of each.
pub proof fn lemma_full_balanced(s: Seq<Cell>, n: nat)
    requires
        full_seq(s),
        seq_cells_ok(s),
        s.len() == n,
        n % 2 == 0,
        count_seq(s, 0) <= n / 2,
        count_seq(s, 1) <= n / 2,
    ensures
        count_seq(s, 0) == n / 2,
        count_seq(s, 1) == n / 2,
{
    lemma_count_full(s);
}

/// Sealing more cells never lowers the count of either symbol.
pub proof fn lemma_count_mono(s1: Seq<Cell>, s2: Seq<Cell>, b: usize)
    requires
        s1.len() == s2.len(),
        forall|t: int| 0 <= t < s1.len() && s1[t] != Cell::Empty ==> #[trigger] s2[t] == s1[t],
    ensures
        count_seq(s2, b) >= count_seq(s1, b),
    decreases s1.len(),
{
    if s1.len() > 0 {
        lemma_count_mono(s1.drop_last(), s2.drop_last(), b);
        if s1.last() == Cell::Seal(b) {
            assert(s2.last() == s1.last());
        }
    }
}

pub proof fn lemma_encode_bound(s: Seq<Cell>)
    ensures
        encode(s) < pow2(s.len() + 1),
        encode(s) >= 1,
    decreases s.len(),
{
    if s.len() == 0 {
        lemma2_to64();
    } else {
        lemma_encode_bound(s.drop_last());
        lemma_pow2_unfold(s.len() + 1);
    }
}

/// The canonical encoding is injective on fully sealed lines of one length:
/// equal encodings mean equal lines.
pub proof fn lemma_encode_injective(s1: Seq<Cell>, s2: Seq<Cell>)
    requires
        s1.len() == s2.len(),
        full_seq(s1),
        full_seq(s2),
        seq_cells_ok(s1),
        seq_cells_ok(s2),
        encode(s1) == encode(s2),
    ensures
        s1 == s2,
    decreases s1.len(),
{
    if s1.len() == 0 {
        assert(s1 =~= s2);
    } else {
        assert(s1.last() != Cell::Empty && cell_ok(s1.last()));
        assert(s2.last() != Cell::Empty && cell_ok(s2.last()));
        assert(bit_of(s1.last()) <= 1 && bit_of(s2.last()) <= 1);
        assert(bit_of(s1.last()) == bit_of(s2.last()) && encode(s1.drop_last()) == encode(
            s2.drop_last(),
        )) by {
            assert(2 * encode(s1.drop_last()) + bit_of(s1.last()) == 2 * encode(s2.drop_last())
                + bit_of(s2.last()));
        }
        assert(s1.last() == s2.last()) by {
            assert(s1.last() == Cell::Seal(0) || s1.last() == Cell::Seal(1));
            assert(s2.last() == Cell::Seal(0) || s2.last() == Cell::Seal(1));
        }
        assert(full_seq(s1.drop_last()) && full_seq(s2.drop_last()));
        assert(seq_cells_ok(s1.drop_last()) && seq_cells_ok(s2.drop_last()));
        lemma_encode_injective(s1.drop_last(), s2.drop_last());
        assert forall|t: int| 0 <= t < s1.len() implies s1[t] == s2[t] by {
            if t < s1.len() - 1 {
                assert(s1.drop_last()[t] == s1[t]);
                assert(s2.drop_last()[t] == s2[t]);
            } else {
                assert(s1[t] == s1.last() && s2[t] == s2.last());
            }
        }
        assert(s1 =~= s2);
    }
}

/// A fully sealed row of the smaller grid is carried over unchanged by any
/// refinement.
pub proof fn lemma_full_row_extends_eq(gold: Seq<Seq<Cell>>, gnew: Seq<Seq<Cell>>, i: int)
    requires
        crate::grid::extends(gnew, gold),
        0 <= i < gold.len(),
        full_seq(gold[i]),
    ensures
        gnew[i] == gold[i],
{
    assert(gnew[i] =~= gold[i]);
}

/// Refinement carried to one column.
pub proof fn lemma_extends_col(gold: Seq<Seq<Cell>>, gnew: Seq<Seq<Cell>>, j: int)
    requires
        crate::grid::extends(gnew, gold),
        square(gold),
        0 <= j < gold.len(),
    ensures
        colseq(gnew, j).len() == colseq(gold, j).len(),
        forall|t: int|
            0 <= t < gold.len() && colseq(gold, j)[t] != Cell::Empty ==> #[trigger] colseq(
                gnew,
                j,
            )[t] == colseq(gold, j)[t],
{
}

/// A rule violation never heals: every refinement of a grid that breaks a
/// rule breaks one too.
pub proof fn lemma_invalid_persists(gold: Seq<Seq<Cell>>, gnew: Seq<Seq<Cell>>)
    requires
        crate::grid::extends(gnew, gold),
        square(gold),
        !rules_ok(gold),
    ensures
        !rules_ok(gnew),
{
    let n = gold.len();
    if !balance_ok(gold) {
        if exists|i: int|
            0 <= i < n && !(count_seq(#[trigger] gold[i], 0) <= n / 2 && count_seq(gold[i], 1) <= n
                / 2) {
            let i = choose|i: int|
                0 <= i < n && !(count_seq(#[trigger] gold[i], 0) <= n / 2 && count_seq(gold[i], 1)
                    <= n / 2);
            lemma_count_mono(gold[i], gnew[i], 0);
            lemma_count_mono(gold[i], gnew[i], 1);
            assert(!balance_ok(gnew));
        } else {
            let j = choose|j: int|
                0 <= j < n && !(count_seq(#[trigger] colseq(gold, j), 0) <= n / 2 && count_seq(
                    colseq(gold, j),
                    1,
                ) <= n / 2);
            lemma_extends_col(gold, gnew, j);
            lemma_count_mono(colseq(gold, j), colseq(gnew, j), 0);
            lemma_count_mono(colseq(gold, j), colseq(gnew, j), 1);
            assert(!balance_ok(gnew));
        }
    } else if !no_triple(gold) {
        if exists|i: int| 0 <= i < n && !no_triple_seq(#[trigger] gold[i]) {
            let i = choose|i: int| 0 <= i < n && !no_triple_seq(#[trigger] gold[i]);
            let t = choose|t: int| 0 <= t && t + 2 < gold[i].len() && #[trigger] triple_at(
                gold[i],
                t,
            );
            assert(gnew[i][t] == gold[i][t] && gnew[i][t + 1] == gold[i][t + 1] && gnew[i][t + 2]
                == gold[i][t + 2]);
            assert(triple_at(gnew[i], t));
            assert(!no_triple_seq(gnew[i]));
            assert(!no_triple(gnew));
        } else {
            let j = choose|j: int| 0 <= j < n && !no_triple_seq(#[trigger] colseq(gold, j));
            let t = choose|t: int| 0 <= t && t + 2 < colseq(gold, j).len() && #[trigger] triple_at(
                colseq(gold, j),
                t,
            );
            lemma_extends_col(gold, gnew, j);
            assert(triple_at(colseq(gnew, j), t));
            assert(!no_triple_seq(colseq(gnew, j)));
            assert(!no_triple(gnew));
        }
    } else if !rows_distinct(gold) {
        let (i1, i2) = choose|i1: int, i2: int|
            0 <= i1 < i2 < n && full_seq(#[trigger] gold[i1]) && full_seq(#[trigger] gold[i2])
                && gold[i1] == gold[i2];
        lemma_full_row_extends_eq(gold, gnew, i1);
        lemma_full_row_extends_eq(gold, gnew, i2);
        assert(!rows_distinct(gnew));
    } else {
        let (j1, j2) = choose|j1: int, j2: int|
            0 <= j1 < j2 < n && full_seq(#[trigger] colseq(gold, j1)) && full_seq(
                #[trigger] colseq(gold, j2),
            ) && colseq(gold, j1) == colseq(gold, j2);
        lemma_extends_col(gold, gnew, j1);
        lemma_extends_col(gold, gnew, j2);
        assert(colseq(gnew, j1) =~= colseq(gold, j1));
        assert(colseq(gnew, j2) =~= colseq(gold, j2));
        assert(!cols_distinct(gnew));
    }
}

/// A fully sealed grid that passes the balance caps is balanced exactly,
/// and its rows and columns are pairwise distinct outright.
pub proof fn lemma_solved_shape(g: Seq<Seq<Cell>>)
    requires
        wf(g),
        all_fixed(g),
        rules_ok(g),
    ensures
        balanced_exact(g),
        forall|i1: int, i2: int| 0 <= i1 < i2 < g.len() ==> g[i1] != g[i2],
        forall|j1: int, j2: int|
            0 <= j1 < j2 < g.len() ==> colseq(g, j1) != colseq(g, j2),
{
    let n = g.len();
    assert forall|i: int| 0 <= i < n implies count_seq(#[trigger] g[i], 0) == n / 2 && count_seq(
        g[i],
        1,
    ) == n / 2 by {
        assert(full_seq(g[i]));
        assert(seq_cells_ok(g[i]));
        lemma_full_balanced(g[i], n);
    }
    assert forall|j: int| 0 <= j < n implies count_seq(#[trigger] colseq(g, j), 0) == n / 2
        && count_seq(colseq(g, j), 1) == n / 2 by {
        assert(full_seq(colseq(g, j)));
        assert(seq_cells_ok(colseq(g, j)));
        lemma_full_balanced(colseq(g, j), n);
    }
    assert forall|j: int| 0 <= j < n implies full_seq(#[trigger] colseq(g, j)) by {}
}

} // verus!
