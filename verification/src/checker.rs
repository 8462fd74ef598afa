//! The feasibility checker: classifies a grid as solved, incomplete but
//! consistent, or in violation of a rule.

use vstd::prelude::*;
use vstd::arithmetic::power2::pow2;
use vstd::arithmetic::power2::lemma_pow2_strictly_increases;
use vstd::arithmetic::power2::lemma2_to64;
use vstd::arithmetic::power2::lemma2_to64_rest;

use crate::grid::Cell;
use crate::grid::gview;
use crate::grid::square;
use crate::grid::wf;
use crate::rules::all_fixed;
use crate::rules::balance_ok;
use crate::rules::bit_of;
use crate::rules::colseq;
use crate::rules::cols_distinct;
use crate::rules::count_seq;
use crate::rules::encode;
use crate::rules::full_seq;
use crate::rules::lemma_count_le_len;
use crate::rules::lemma_count_take_step;
use crate::rules::lemma_encode_bound;
use crate::rules::lemma_encode_injective;
use crate::rules::no_triple;
use crate::rules::no_triple_seq;
use crate::rules::rows_distinct;
use crate::rules::rules_ok;
use crate::rules::seq_cells_ok;
use crate::rules::triple_at;

verus! {

/// What the checker says of a grid.
#[derive(Clone, Copy, Debug, PartialEq, Eq, Structural)]
pub enum CheckResult {
    Solved,
    NotYet,
    Invalid,
}

/// Counts the cells of row `i` sealed with the bit `b`.
fn count_in_row(fd: &Vec<Vec<Cell>>, i: usize, b: usize) -> (c: usize)
    requires
        square(gview(*fd)),
        i < gview(*fd).len(),
    ensures
        c == count_seq(gview(*fd)[i as int], b),
{
    let ghost row = gview(*fd)[i as int];
    let n = fd.len();
    let mut c: usize = 0;
    let mut j: usize = 0;
    while j < n
        invariant
            square(gview(*fd)),
            n == gview(*fd).len(),
            i < n,
            j <= n,
            row == gview(*fd)[i as int],
            c == count_seq(row.take(j as int), b),
        decreases n - j,
    {
        proof {
            lemma_count_take_step(row, b, j as int);
            lemma_count_le_len(row.take(j as int), b);
        }
        if fd[i][j] == Cell::Seal(b) {
            c += 1;
        }
        j += 1;
    }
    proof {
        assert(row.take(n as int) =~= row);
    }
    c
}

/// Counts the cells of column `j` sealed with the bit `b`.
fn count_in_col(fd: &Vec<Vec<Cell>>, j: usize, b: usize) -> (c: usize)
    requires
        square(gview(*fd)),
        j < gview(*fd).len(),
    ensures
        c == count_seq(colseq(gview(*fd), j as int), b),
{
    let ghost col = colseq(gview(*fd), j as int);
    let n = fd.len();
    let mut c: usize = 0;
    let mut i: usize = 0;
    while i < n
        invariant
            square(gview(*fd)),
            n == gview(*fd).len(),
            j < n,
            i <= n,
            col == colseq(gview(*fd), j as int),
            col.len() == n,
            c == count_seq(col.take(i as int), b),
        decreases n - i,
    {
        proof {
            lemma_count_take_step(col, b, i as int);
            lemma_count_le_len(col.take(i as int), b);
            assert(col[i as int] == gview(*fd)[i as int][j as int]);
        }
        if fd[i][j] == Cell::Seal(b) {
            c += 1;
        }
        i += 1;
    }
    proof {
        assert(col.take(n as int) =~= col);
    }
    c
}

/// Whether some row or column exceeds the cap of `n / 2` for either symbol.
fn balance_violated(fd: &Vec<Vec<Cell>>) -> (r: bool)
    requires
        square(gview(*fd)),
    ensures
        r <==> !balance_ok(gview(*fd)),
{
    let ghost g = gview(*fd);
    let n = fd.len();
    let mut i: usize = 0;
    while i < n
        invariant
            square(g),
            g == gview(*fd),
            n == g.len(),
            i <= n,
            forall|i1: int|
                0 <= i1 < i ==> count_seq(#[trigger] g[i1], 0) <= n / 2 && count_seq(g[i1], 1) <= n
                    / 2,
        decreases n - i,
    {
        let c0 = count_in_row(fd, i, 0);
        let c1 = count_in_row(fd, i, 1);
        if c0 > n / 2 || c1 > n / 2 {
            return true;
        }
        i += 1;
    }
    let mut j: usize = 0;
    while j < n
        invariant
            square(g),
            g == gview(*fd),
            n == g.len(),
            j <= n,
            forall|i1: int|
                0 <= i1 < n ==> count_seq(#[trigger] g[i1], 0) <= n / 2 && count_seq(g[i1], 1) <= n
                    / 2,
            forall|j1: int|
                0 <= j1 < j ==> count_seq(#[trigger] colseq(g, j1), 0) <= n / 2 && count_seq(
                    colseq(g, j1),
                    1,
                ) <= n / 2,
        decreases n - j,
    {
        let c0 = count_in_col(fd, j, 0);
        let c1 = count_in_col(fd, j, 1);
        if c0 > n / 2 || c1 > n / 2 {
            return true;
        }
        j += 1;
    }
    false
}

/// Whether some row or column holds a run of three equal sealed cells.
fn triple_violated(fd: &Vec<Vec<Cell>>) -> (r: bool)
    requires
        square(gview(*fd)),
    ensures
        r <==> !no_triple(gview(*fd)),
{
    let ghost g = gview(*fd);
    let n = fd.len();
    let mut i: usize = 0;
    while i < n
        invariant
            square(g),
            g == gview(*fd),
            n == g.len(),
            i <= n,
            forall|i1: int, j1: int|
                #![trigger triple_at(g[i1], j1)]
                #![trigger triple_at(colseq(g, j1), i1)]
                0 <= i1 < i && 0 <= j1 < n ==> !(j1 + 2 < n && triple_at(g[i1], j1)) && !(
                i1 + 2 < n && triple_at(colseq(g, j1), i1)),
        decreases n - i,
    {
        let mut j: usize = 0;
        while j < n
            invariant
                square(g),
                g == gview(*fd),
                n == g.len(),
                i < n,
                j <= n,
                forall|i1: int, j1: int|
                    #![trigger triple_at(g[i1], j1)]
                    #![trigger triple_at(colseq(g, j1), i1)]
                    0 <= i1 < i && 0 <= j1 < n ==> !(j1 + 2 < n && triple_at(g[i1], j1))
                        && !(i1 + 2 < n && triple_at(colseq(g, j1), i1)),
                forall|j1: int|
                    #![trigger triple_at(g[i as int], j1)]
                    #![trigger triple_at(colseq(g, j1), i as int)]
                    0 <= j1 < j ==> !(j1 + 2 < n && triple_at(g[i as int], j1)) && !(
                    i + 2 < n && triple_at(colseq(g, j1), i as int)),
            decreases n - j,
        {
            proof {
                assert(g[i as int].len() == n);
                if i + 2 < n {
                    assert(g[i as int + 1].len() == n);
                    assert(g[i as int + 2].len() == n);
                }
            }
            let c = fd[i][j];
            if c != Cell::Empty {
                if n > 2 && j < n - 2 {
                    if fd[i][j + 1] == c && fd[i][j + 2] == c {
                        proof {
                            assert(triple_at(g[i as int], j as int));
                            assert(!no_triple_seq(g[i as int]));
                        }
                        return true;
                    }
                }
                if n > 2 && i < n - 2 {
                    if fd[i + 1][j] == c && fd[i + 2][j] == c {
                        proof {
                            let col = colseq(g, j as int);
                            assert(col[i as int] == c);
                            assert(col[i as int + 1] == g[i as int + 1][j as int]);
                            assert(col[i as int + 2] == g[i as int + 2][j as int]);
                            assert(triple_at(col, i as int));
                            assert(!no_triple_seq(col));
                        }
                        return true;
                    }
                }
            }
            proof {
                if j + 2 < n {
                    assert(!triple_at(g[i as int], j as int));
                }
                if i + 2 < n {
                    let col = colseq(g, j as int);
                    assert(col[i as int] == g[i as int][j as int]);
                    assert(col[i as int + 1] == g[i as int + 1][j as int]);
                    assert(col[i as int + 2] == g[i as int + 2][j as int]);
                    assert(!triple_at(col, i as int));
                }
            }
            j += 1;
        }
        i += 1;
    }
    proof {
        assert forall|i1: int| 0 <= i1 < n implies no_triple_seq(#[trigger] g[i1]) by {
            assert forall|t: int| 0 <= t && t + 2 < g[i1].len() implies !triple_at(g[i1], t) by {
                assert(!(t + 2 < n && triple_at(g[i1], t)));
            }
        }
        assert forall|j1: int| 0 <= j1 < n implies no_triple_seq(#[trigger] colseq(g, j1)) by {
            assert forall|t: int| 0 <= t && t + 2 < colseq(g, j1).len() implies !triple_at(
                colseq(g, j1),
                t,
            ) by {
                assert(!(t + 2 < n && triple_at(colseq(g, j1), t)));
            }
        }
    }
    false
}

/// The canonical encoding of row `i`, or nothing while the row still holds
/// an undetermined cell.
fn encode_row(fd: &Vec<Vec<Cell>>, i: usize) -> (r: Option<u64>)
    requires
        wf(gview(*fd)),
        gview(*fd).len() <= 62,
        i < gview(*fd).len(),
    ensures
        r matches Some(x) ==> full_seq(gview(*fd)[i as int]) && x as nat == encode(
            gview(*fd)[i as int],
        ),
        r is None ==> !full_seq(gview(*fd)[i as int]),
{
    let ghost row = gview(*fd)[i as int];
    let n = fd.len();
    let mut x: u64 = 1;
    let mut j: usize = 0;
    while j < n
        invariant
            wf(gview(*fd)),
            n == gview(*fd).len(),
            n <= 62,
            i < n,
            j <= n,
            row == gview(*fd)[i as int],
            row.len() == n,
            forall|t: int| 0 <= t < j ==> #[trigger] row[t] != Cell::Empty,
            x as nat == encode(row.take(j as int)),
        decreases n - j,
    {
        proof {
            lemma_encode_bound(row.take(j as int));
            if j + 1 < 62 {
                lemma_pow2_strictly_increases((j + 1) as nat, 62);
            }
            lemma2_to64();
            lemma2_to64_rest();
            assert(x < pow2(62));
            assert(row.take(j as int + 1).drop_last() =~= row.take(j as int));
            assert(row.take(j as int + 1).last() == row[j as int]);
        }
        match fd[i][j] {
            Cell::Empty => {
                return None;
            },
            Cell::Seal(b) => {
                proof {
                    assert(crate::grid::cell_ok(row[j as int]));
                    assert(bit_of(row[j as int]) == b);
                }
                x = 2 * x + (b as u64);
            },
        }
        j += 1;
    }
    proof {
        assert(row.take(n as int) =~= row);
    }
    Some(x)
}

/// The canonical encoding of column `j`, or nothing while the column still
/// holds an undetermined cell.
fn encode_col(fd: &Vec<Vec<Cell>>, j: usize) -> (r: Option<u64>)
    requires
        wf(gview(*fd)),
        gview(*fd).len() <= 62,
        j < gview(*fd).len(),
    ensures
        r matches Some(x) ==> full_seq(colseq(gview(*fd), j as int)) && x as nat == encode(
            colseq(gview(*fd), j as int),
        ),
        r is None ==> !full_seq(colseq(gview(*fd), j as int)),
{
    let ghost col = colseq(gview(*fd), j as int);
    let n = fd.len();
    let mut x: u64 = 1;
    let mut i: usize = 0;
    while i < n
        invariant
            wf(gview(*fd)),
            n == gview(*fd).len(),
            n <= 62,
            j < n,
            i <= n,
            col == colseq(gview(*fd), j as int),
            col.len() == n,
            forall|t: int| 0 <= t < i ==> #[trigger] col[t] != Cell::Empty,
            x as nat == encode(col.take(i as int)),
        decreases n - i,
    {
        proof {
            lemma_encode_bound(col.take(i as int));
            if i + 1 < 62 {
                lemma_pow2_strictly_increases((i + 1) as nat, 62);
            }
            lemma2_to64();
            lemma2_to64_rest();
            assert(x < pow2(62));
            assert(col.take(i as int + 1).drop_last() =~= col.take(i as int));
            assert(col.take(i as int + 1).last() == col[i as int]);
            assert(col[i as int] == gview(*fd)[i as int][j as int]);
        }
        match fd[i][j] {
            Cell::Empty => {
                return None;
            },
            Cell::Seal(b) => {
                proof {
                    assert(crate::grid::cell_ok(col[i as int]));
                    assert(bit_of(col[i as int]) == b);
                }
                x = 2 * x + (b as u64);
            },
        }
        i += 1;
    }
    proof {
        assert(col.take(n as int) =~= col);
    }
    Some(x)
}

/// Whether `v` holds the value `x`.
fn contains_val(v: &Vec<u64>, x: u64) -> (r: bool)
    ensures
        r <==> v@.contains(x),
{
    let mut k: usize = 0;
    while k < v.len()
        invariant
            k <= v@.len(),
            forall|k1: int| 0 <= k1 < k ==> #[trigger] v@[k1] != x,
        decreases v@.len() - k,
    {
        if v[k] == x {
            assert(v@.contains(x)) by {
                assert(v@[k as int] == x);
            }
            return true;
        }
        k += 1;
    }
    false
}

/// Whether two fully sealed rows carry the same canonical encoding, that is,
/// are identical.
fn rows_dup(fd: &Vec<Vec<Cell>>) -> (r: bool)
    requires
        wf(gview(*fd)),
        gview(*fd).len() <= 62,
    ensures
        r <==> !rows_distinct(gview(*fd)),
{
    let ghost g = gview(*fd);
    let n = fd.len();
    let mut memo: Vec<u64> = Vec::new();
    let ghost mut owners: Seq<int> = Seq::empty();
    let mut i: usize = 0;
    while i < n
        invariant
            wf(g),
            g == gview(*fd),
            n == g.len(),
            n <= 62,
            i <= n,
            owners.len() == memo@.len(),
            forall|k: int|
                0 <= k < memo@.len() ==> 0 <= #[trigger] owners[k] < i && full_seq(g[owners[k]])
                    && (memo@[k]) as nat == encode(g[owners[k]]),
            forall|i1: int|
                0 <= i1 < i && full_seq(#[trigger] g[i1]) ==> memo@.contains(
                    encode_word(g[i1]),
                ),
            forall|i1: int, i2: int|
                0 <= i1 < i2 < i && full_seq(#[trigger] g[i1]) && full_seq(#[trigger] g[i2])
                    ==> g[i1] != g[i2],
        decreases n - i,
    {
        match encode_row(fd, i) {
            Some(x) => {
                proof {
                    lemma_encode_fits(g[i as int]);
                    assert(encode_word(g[i as int]) == x);
                }
                if contains_val(&memo, x) {
                    proof {
                        let k = choose|k: int| 0 <= k < memo@.len() && memo@[k] == x;
                        let i1 = owners[k];
                        assert(seq_cells_ok(g[i1]) && seq_cells_ok(g[i as int])) by {
                            assert(forall|t: int|
                                0 <= t < n ==> crate::grid::cell_ok(#[trigger] g[i1][t])
                                    && crate::grid::cell_ok(#[trigger] g[i as int][t]));
                        }
                        lemma_encode_injective(g[i1], g[i as int]);
                        assert(!rows_distinct(g));
                    }
                    return true;
                }
                let ghost memo_old = memo@;
                memo.push(x);
                proof {
                    owners = owners.push(i as int);
                    assert forall|k: int|
                        0 <= k < memo@.len() implies 0 <= #[trigger] owners[k] < i + 1 && full_seq(
                        g[owners[k]],
                    ) && (memo@[k]) as nat == encode(g[owners[k]]) by {
                        if k < memo@.len() - 1 {
                            assert(memo@[k] == memo_old[k]);
                            assert(owners[k] == owners.drop_last()[k]);
                        } else {
                            assert(memo@[k] == x && owners[k] == i as int);
                        }
                    }
                    assert forall|i1: int|
                        0 <= i1 < i + 1 && full_seq(#[trigger] g[i1]) implies memo@.contains(
                        encode_word(g[i1]),
                    ) by {
                        if i1 < i {
                            assert(memo_old.contains(encode_word(g[i1])));
                            let k = choose|k: int|
                                0 <= k < memo_old.len() && memo_old[k] == encode_word(g[i1]);
                            assert(memo@[k] == encode_word(g[i1]));
                        } else {
                            assert(memo@[memo@.len() - 1] == encode_word(g[i1]));
                        }
                    }
                    assert forall|i1: int, i2: int|
                        0 <= i1 < i2 < i + 1 && full_seq(#[trigger] g[i1]) && full_seq(
                            #[trigger] g[i2],
                        ) implies g[i1] != g[i2] by {
                        if i2 == i as int && g[i1] == g[i2] {
                            assert(memo_old.contains(encode_word(g[i1])));
                            let k = choose|k: int|
                                0 <= k < memo_old.len() && memo_old[k] == encode_word(g[i1]);
                            assert(encode_word(g[i1]) == x);
                            assert(memo_old[k] == x);
                        }
                    }
                }
            },
            None => {},
        }
        i += 1;
    }
    false
}

/// The canonical encoding of a line, held in a machine word.
pub open spec fn encode_word(s: Seq<Cell>) -> u64 {
    encode(s) as u64
}

/// The canonical encoding of a line of at most 62 cells fits in a word.
proof fn lemma_encode_fits(s: Seq<Cell>)
    requires
        s.len() <= 62,
    ensures
        encode(s) < 0x10000000000000000,
        encode_word(s) as nat == encode(s),
{
    lemma_encode_bound(s);
    if s.len() + 1 < 63 {
        lemma_pow2_strictly_increases(s.len() + 1, 63);
    }
    lemma2_to64_rest();
}

/// Whether two fully sealed columns are identical, by the same encoding.
fn cols_dup(fd: &Vec<Vec<Cell>>) -> (r: bool)
    requires
        wf(gview(*fd)),
        gview(*fd).len() <= 62,
    ensures
        r <==> !cols_distinct(gview(*fd)),
{
    let ghost g = gview(*fd);
    let n = fd.len();
    let mut memo: Vec<u64> = Vec::new();
    let ghost mut owners: Seq<int> = Seq::empty();
    let mut j: usize = 0;
    while j < n
        invariant
            wf(g),
            g == gview(*fd),
            n == g.len(),
            n <= 62,
            j <= n,
            owners.len() == memo@.len(),
            forall|k: int|
                0 <= k < memo@.len() ==> 0 <= #[trigger] owners[k] < j && full_seq(
                    colseq(g, owners[k]),
                ) && (memo@[k]) as nat == encode(colseq(g, owners[k])),
            forall|j1: int|
                0 <= j1 < j && full_seq(#[trigger] colseq(g, j1)) ==> memo@.contains(
                    encode_word(colseq(g, j1)),
                ),
            forall|j1: int, j2: int|
                0 <= j1 < j2 < j && full_seq(#[trigger] colseq(g, j1)) && full_seq(
                    #[trigger] colseq(g, j2),
                ) ==> colseq(g, j1) != colseq(g, j2),
        decreases n - j,
    {
        match encode_col(fd, j) {
            Some(x) => {
                proof {
                    lemma_encode_fits(colseq(g, j as int));
                    assert(encode_word(colseq(g, j as int)) == x);
                }
                if contains_val(&memo, x) {
                    proof {
                        let k = choose|k: int| 0 <= k < memo@.len() && memo@[k] == x;
                        let j1 = owners[k];
                        assert(seq_cells_ok(colseq(g, j1)) && seq_cells_ok(colseq(g, j as int)))
                            by {
                            assert(forall|t: int|
                                0 <= t < n ==> crate::grid::cell_ok(#[trigger] colseq(g, j1)[t])
                                    && crate::grid::cell_ok(#[trigger] colseq(g, j as int)[t]));
                        }
                        lemma_encode_injective(colseq(g, j1), colseq(g, j as int));
                        assert(!cols_distinct(g));
                    }
                    return true;
                }
                let ghost memo_old = memo@;
                memo.push(x);
                proof {
                    owners = owners.push(j as int);
                    assert forall|k: int|
                        0 <= k < memo@.len() implies 0 <= #[trigger] owners[k] < j + 1 && full_seq(
                        colseq(g, owners[k]),
                    ) && (memo@[k]) as nat == encode(colseq(g, owners[k])) by {
                        if k < memo@.len() - 1 {
                            assert(memo@[k] == memo_old[k]);
                            assert(owners[k] == owners.drop_last()[k]);
                        } else {
                            assert(memo@[k] == x && owners[k] == j as int);
                        }
                    }
                    assert forall|j1: int|
                        0 <= j1 < j + 1 && full_seq(#[trigger] colseq(g, j1)) implies memo@.contains(
                        encode_word(colseq(g, j1)),
                    ) by {
                        if j1 < j {
                            assert(memo_old.contains(encode_word(colseq(g, j1))));
                            let k = choose|k: int|
                                0 <= k < memo_old.len() && memo_old[k] == encode_word(
                                    colseq(g, j1),
                                );
                            assert(memo@[k] == encode_word(colseq(g, j1)));
                        } else {
                            assert(memo@[memo@.len() - 1] == encode_word(colseq(g, j1)));
                        }
                    }
                    assert forall|j1: int, j2: int|
                        0 <= j1 < j2 < j + 1 && full_seq(#[trigger] colseq(g, j1)) && full_seq(
                            #[trigger] colseq(g, j2),
                        ) implies colseq(g, j1) != colseq(g, j2) by {
                        if j2 == j as int && colseq(g, j1) == colseq(g, j2) {
                            assert(memo_old.contains(encode_word(colseq(g, j1))));
                            let k = choose|k: int|
                                0 <= k < memo_old.len() && memo_old[k] == encode_word(
                                    colseq(g, j1),
                                );
                            assert(encode_word(colseq(g, j1)) == x);
                            assert(memo_old[k] == x);
                        }
                    }
                }
            },
            None => {},
        }
        j += 1;
    }
    false
}

/// The first still-undetermined cell in row-major order, if any.
pub fn first_empty(fd: &Vec<Vec<Cell>>) -> (r: Option<(usize, usize)>)
    requires
        square(gview(*fd)),
    ensures
        r matches Some(p) ==> {
            &&& (p.0 as int) < gview(*fd).len()
            &&& (p.1 as int) < gview(*fd).len()
            &&& gview(*fd)[p.0 as int][p.1 as int] == Cell::Empty
            &&& forall|i: int, j: int|
                0 <= i < gview(*fd).len() && 0 <= j < gview(*fd).len() && (i < p.0 as int || (i
                    == p.0 as int && j < p.1 as int)) ==> #[trigger] gview(*fd)[i][j]
                    != Cell::Empty
        },
        r is None <==> all_fixed(gview(*fd)),
{
    let ghost g = gview(*fd);
    let n = fd.len();
    let mut i: usize = 0;
    while i < n
        invariant
            square(g),
            g == gview(*fd),
            n == g.len(),
            i <= n,
            forall|i1: int, j1: int|
                0 <= i1 < i && 0 <= j1 < n ==> #[trigger] g[i1][j1] != Cell::Empty,
        decreases n - i,
    {
        let mut j: usize = 0;
        while j < n
            invariant
                square(g),
                g == gview(*fd),
                n == g.len(),
                i < n,
                j <= n,
                forall|i1: int, j1: int|
                    0 <= i1 < i && 0 <= j1 < n ==> #[trigger] g[i1][j1] != Cell::Empty,
                forall|j1: int| 0 <= j1 < j ==> #[trigger] g[i as int][j1] != Cell::Empty,
            decreases n - j,
        {
            if fd[i][j] == Cell::Empty {
                return Some((i, j));
            }
            j += 1;
        }
        i += 1;
    }
    proof {
        assert forall|i1: int| 0 <= i1 < n implies full_seq(#[trigger] g[i1]) by {
            assert(forall|j1: int| 0 <= j1 < n ==> #[trigger] g[i1][j1] != Cell::Empty);
        }
    }
    None
}

/// Classifies a grid.  The result is `Invalid` exactly when a rule is
/// already broken, `Solved` exactly when every cell is sealed and no rule is
/// broken, and `NotYet` otherwise.  The side length is capped at 62 so that
/// the canonical encoding of a full line fits in a 64-bit word.
pub fn check(fd: &Vec<Vec<Cell>>) -> (r: CheckResult)
    requires
        wf(gview(*fd)),
        gview(*fd).len() <= 62,
    ensures
        (r == CheckResult::Invalid) <==> !rules_ok(gview(*fd)),
        (r == CheckResult::Solved) <==> (rules_ok(gview(*fd)) && all_fixed(gview(*fd))),
        (r == CheckResult::NotYet) <==> (rules_ok(gview(*fd)) && !all_fixed(gview(*fd))),
{
    if balance_violated(fd) {
        return CheckResult::Invalid;
    }
    if triple_violated(fd) {
        return CheckResult::Invalid;
    }
    if rows_dup(fd) {
        return CheckResult::Invalid;
    }
    if cols_dup(fd) {
        return CheckResult::Invalid;
    }
    match first_empty(fd) {
        Some(_) => CheckResult::NotYet,
        None => CheckResult::Solved,
    }
}

} // verus!
