//! Moves of coefficients between the layouts of the translation: from the
//! surface of a box onto its convolution grid and back, between the order of
//! the siblings and the order of the frequencies, and into the columns that
//! one transfer vector works on.
//!
//! Nothing here computes with the coefficients, so every function takes them
//! as values of any type that can be copied.

use vstd::prelude::*;

verus! {

/// The place `row * cols + col` of a table of `rows` by `cols` cells lies in
/// the table.
pub proof fn lemma_cell_in_table(row: int, col: int, rows: int, cols: int)
    requires
        0 <= row < rows,
        0 <= col < cols,
    ensures
        0 <= row * cols + col < rows * cols,
        0 <= row * cols <= rows * cols - cols,
{
    assert(0 <= row * cols <= (rows - 1) * cols) by (nonlinear_arith)
        requires
            0 <= row < rows,
            0 <= cols,
    ;
    assert((rows - 1) * cols == rows * cols - cols) by (nonlinear_arith);
}

/// Row `row` of a table of `rows` rows of `cols` cells ends within the table.
pub proof fn lemma_row_in_table(row: int, rows: int, cols: int)
    requires
        0 <= row < rows,
        0 <= cols,
    ensures
        0 <= row * cols,
        row * cols + cols <= rows * cols,
{
    assert(0 <= row * cols <= (rows - 1) * cols) by (nonlinear_arith)
        requires
            0 <= row < rows,
            0 <= cols,
    ;
    assert((rows - 1) * cols == rows * cols - cols) by (nonlinear_arith);
}

/// What stands at place `cell` of a grid once `values` have been put at the
/// places that `map` names, in order, on a ground of `zero`: the value of the
/// last index that `map` sends to `cell`.
pub open spec fn placed<T>(values: Seq<T>, map: Seq<usize>, zero: T, cell: int) -> T
    decreases map.len(),
{
    if map.len() == 0 {
        zero
    } else if map.last() == cell {
        values[map.len() - 1]
    } else {
        placed(values, map.drop_last(), zero, cell)
    }
}

/// Where `map` sends no two indices to one cell, the value of each index
/// stands at the cell that `map` names for it.
proof fn lemma_placed_injective<T>(values: Seq<T>, map: Seq<usize>, zero: T, k: int)
    requires
        0 <= k < map.len(),
        forall|a: int, b: int| 0 <= a < b < map.len() ==> map[a] != map[b],
    ensures
        placed(values, map, zero, map[k] as int) == values[k],
    decreases map.len(),
{
    if k < map.len() - 1 {
        lemma_placed_injective(values, map.drop_last(), zero, k);
    }
}

/// A cell that `map` names for no index keeps the ground value.
proof fn lemma_placed_ground<T>(values: Seq<T>, map: Seq<usize>, zero: T, cell: int)
    requires
        forall|a: int| 0 <= a < map.len() ==> map[a] != cell,
    ensures
        placed(values, map, zero, cell) == zero,
    decreases map.len(),
{
    if map.len() > 0 {
        lemma_placed_ground(values, map.drop_last(), zero, cell);
    }
}

/// What was put on a grid is read off it again: where `map` sends no two
/// indices to one cell, the cell that `map` names for an index holds the
/// value of that index, and every other cell the ground value.
pub proof fn lemma_placed_then_read<T>(values: Seq<T>, map: Seq<usize>, zero: T)
    requires
        forall|a: int, b: int| 0 <= a < b < map.len() ==> map[a] != map[b],
    ensures
        forall|k: int| 0 <= k < map.len() ==> #[trigger] placed(values, map, zero, map[k] as int) == values[k],
        forall|cell: int|
            (forall|a: int| 0 <= a < map.len() ==> map[a] != cell) ==> #[trigger] placed(
                values,
                map,
                zero,
                cell,
            ) == zero,
{
    assert forall|k: int| 0 <= k < map.len() implies #[trigger] placed(
        values,
        map,
        zero,
        map[k] as int,
    ) == values[k] by {
        lemma_placed_injective(values, map, zero, k);
    }
    assert forall|cell: int| (forall|a: int| 0 <= a < map.len() ==> map[a] != cell) implies #[trigger] placed(
        values,
        map,
        zero,
        cell,
    ) == zero by {
        lemma_placed_ground(values, map, zero, cell);
    }
}

/// Puts the coefficients of each box onto a convolution grid of its own.
/// `coefficients` holds `map.len()` values for each box, one box after the
/// other; the result holds a grid of `size` cells for each box, in the same
/// order.
pub fn place_on_grids<T: Copy>(coefficients: &[T], map: &[usize], zero: T, size: usize) -> (grids:
    Vec<T>)
    requires
        map.len() > 0,
        coefficients.len() % map.len() == 0,
        forall|k: int| 0 <= k < map.len() ==> map[k] < size,
        (coefficients.len() / map.len()) * size <= usize::MAX,
    ensures
        grids.len() == (coefficients.len() / map.len()) * size,
        forall|b: int, cell: int|
            0 <= b < coefficients.len() / map.len() && 0 <= cell < size ==> #[trigger] grids[b
                * size + cell] == placed(
                coefficients@.subrange(b * map.len(), (b + 1) * map.len()),
                map@,
                zero,
                cell,
            ),
{
    let ncoeffs = map.len();
    let nboxes = coefficients.len() / ncoeffs;
    let mut grids: Vec<T> = Vec::new();
    let mut b: usize = 0;
    proof {
        vstd::arithmetic::div_mod::lemma_fundamental_div_mod(
            coefficients.len() as int,
            ncoeffs as int,
        );
        assert(ncoeffs * nboxes == nboxes * ncoeffs) by (nonlinear_arith);
    }
    while b < nboxes
        invariant
            b <= nboxes,
            ncoeffs == map.len(),
            ncoeffs > 0,
            nboxes * ncoeffs == coefficients.len(),
            nboxes * size <= usize::MAX,
            forall|k: int| 0 <= k < map.len() ==> map[k] < size,
            grids.len() == b * size,
            forall|c: int, cell: int|
                0 <= c < b && 0 <= cell < size ==> #[trigger] grids[c * size + cell] == placed(
                    coefficients@.subrange(c * ncoeffs, (c + 1) * ncoeffs),
                    map@,
                    zero,
                    cell,
                ),
        decreases nboxes - b,
    {
        let ghost done = grids@;
        let ghost values = coefficients@.subrange(b * ncoeffs, (b + 1) * ncoeffs);
        proof {
            lemma_row_in_table(b as int, nboxes as int, size as int);
            lemma_row_in_table(b as int, nboxes as int, ncoeffs as int);
            assert((b + 1) * size == b * size + size) by (nonlinear_arith);
            assert((b + 1) * ncoeffs == b * ncoeffs + ncoeffs) by (nonlinear_arith);
        }
        let base = b * size;
        let first = b * ncoeffs;
        let mut cell: usize = 0;
        while cell < size
            invariant
                cell <= size,
                base == b * size,
                base + size <= usize::MAX,
                grids.len() == base + cell,
                grids@.subrange(0, base as int) == done,
                forall|c: int| base <= c < base + cell ==> grids[c] == zero,
            decreases size - cell,
        {
            grids.push(zero);
            cell = cell + 1;
        }
        let mut k: usize = 0;
        while k < ncoeffs
            invariant
                k <= ncoeffs,
                ncoeffs == map.len(),
                base == b * size,
                first == b * ncoeffs,
                first + ncoeffs <= coefficients.len(),
                values == coefficients@.subrange(first as int, first + ncoeffs),
                forall|k: int| 0 <= k < map.len() ==> map[k] < size,
                grids.len() == base + size,
                grids@.subrange(0, base as int) == done,
                forall|c: int|
                    0 <= c < size ==> #[trigger] grids[base + c] == placed(
                        values,
                        map@.take(k as int),
                        zero,
                        c,
                    ),
            decreases ncoeffs - k,
        {
            let ghost before = grids@;
            let target = base + map[k];
            let value = coefficients[first + k];
            grids.set(target, value);
            proof {
                assert(map@.take(k + 1).drop_last() == map@.take(k as int));
                assert(grids@.subrange(0, base as int) =~= before.subrange(0, base as int));
                assert forall|c: int| 0 <= c < size implies #[trigger] grids[base + c] == placed(
                    values,
                    map@.take(k + 1),
                    zero,
                    c,
                ) by {
                    assert(before[base + c] == placed(values, map@.take(k as int), zero, c));
                }
            }
            k = k + 1;
        }
        proof {
            assert(map@.take(ncoeffs as int) == map@);
            assert forall|c: int, cell: int|
                0 <= c < b + 1 && 0 <= cell < size implies #[trigger] grids[c * size + cell]
                == placed(
                coefficients@.subrange(c * ncoeffs, (c + 1) * ncoeffs),
                map@,
                zero,
                cell,
            ) by {
                if c < b {
                    lemma_cell_in_table(c, cell, b as int, size as int);
                    assert(grids[c * size + cell] == done[c * size + cell]);
                } else {
                    assert(grids[base + cell] == placed(values, map@, zero, cell));
                }
            }
        }
        b = b + 1;
    }
    grids
}

/// Reads the potentials on the surface of each box off its convolution
/// grid. `grids` holds a grid of `size` cells for each box; the result holds
/// `map.len()` values for each box, the `k`-th being the cell that `map`
/// names for `k`.
pub fn read_off_grids<T: Copy>(grids: &[T], map: &[usize], size: usize) -> (surfaces: Vec<T>)
    requires
        size > 0,
        grids.len() % size == 0,
        forall|k: int| 0 <= k < map.len() ==> map[k] < size,
        (grids.len() / size) * map.len() <= usize::MAX,
    ensures
        surfaces.len() == (grids.len() / size) * map.len(),
        forall|b: int, k: int|
            0 <= b < grids.len() / size && 0 <= k < map.len() ==> #[trigger] surfaces[b
                * map.len() + k] == grids[b * size + map[k]],
{
    let ncoeffs = map.len();
    let nboxes = grids.len() / size;
    let mut surfaces: Vec<T> = Vec::new();
    let mut b: usize = 0;
    proof {
        vstd::arithmetic::div_mod::lemma_fundamental_div_mod(grids.len() as int, size as int);
        assert(size * nboxes == nboxes * size) by (nonlinear_arith);
    }
    while b < nboxes
        invariant
            b <= nboxes,
            ncoeffs == map.len(),
            nboxes * size == grids.len(),
            nboxes * ncoeffs <= usize::MAX,
            forall|k: int| 0 <= k < map.len() ==> map[k] < size,
            surfaces.len() == b * ncoeffs,
            forall|c: int, k: int|
                0 <= c < b && 0 <= k < ncoeffs ==> #[trigger] surfaces[c * ncoeffs + k] == grids[c
                    * size + map[k]],
        decreases nboxes - b,
    {
        let ghost done = surfaces@;
        proof {
            lemma_row_in_table(b as int, nboxes as int, size as int);
            assert((b + 1) * ncoeffs == b * ncoeffs + ncoeffs) by (nonlinear_arith);
            assert((b + 1) * ncoeffs <= nboxes * ncoeffs) by (nonlinear_arith)
                requires
                    b + 1 <= nboxes,
                    ncoeffs >= 0,
            ;
        }
        let base = b * size;
        let mut k: usize = 0;
        while k < ncoeffs
            invariant
                k <= ncoeffs,
                ncoeffs == map.len(),
                base == b * size,
                base + size <= grids.len(),
                forall|k: int| 0 <= k < map.len() ==> map[k] < size,
                surfaces.len() == b * ncoeffs + k,
                b * ncoeffs + ncoeffs <= usize::MAX,
                surfaces@.subrange(0, b * ncoeffs) == done,
                forall|j: int| 0 <= j < k ==> #[trigger] surfaces[b * ncoeffs + j] == grids[base + map[j]],
            decreases ncoeffs - k,
        {
            let ghost before = surfaces@;
            surfaces.push(grids[base + map[k]]);
            proof {
                assert(surfaces@.subrange(0, b * ncoeffs) =~= before.subrange(0, b * ncoeffs));
            }
            k = k + 1;
        }
        proof {
            assert forall|c: int, k: int| 0 <= c < b + 1 && 0 <= k < ncoeffs implies #[trigger] surfaces[c
                * ncoeffs + k] == grids[c * size + map[k]] by {
                if c < b {
                    lemma_cell_in_table(c, k, b as int, ncoeffs as int);
                    assert(surfaces[c * ncoeffs + k] == done[c * ncoeffs + k]);
                }
            }
        }
        b = b + 1;
    }
    surfaces
}

/// Turns a table of `rows` rows of `cols` cells, row after row, into the
/// table of its columns, column after column.
pub fn transpose<T: Copy>(table: &[T], rows: usize, cols: usize) -> (turned: Vec<T>)
    requires
        table.len() == rows * cols,
    ensures
        turned.len() == table.len(),
        forall|r: int, c: int|
            0 <= r < rows && 0 <= c < cols ==> #[trigger] turned[c * rows + r] == table[r * cols
                + c],
{
    let mut turned: Vec<T> = Vec::new();
    let mut c: usize = 0;
    while c < cols
        invariant
            c <= cols,
            table.len() == rows * cols,
            turned.len() == c * rows,
            forall|d: int, r: int|
                0 <= d < c && 0 <= r < rows ==> #[trigger] turned[d * rows + r] == table[r * cols
                    + d],
        decreases cols - c,
    {
        let ghost done = turned@;
        proof {
            assert((c + 1) * rows == c * rows + rows) by (nonlinear_arith);
            assert((c + 1) * rows <= cols * rows) by (nonlinear_arith)
                requires
                    c + 1 <= cols,
                    rows >= 0,
            ;
            assert(cols * rows == rows * cols) by (nonlinear_arith);
        }
        let mut r: usize = 0;
        while r < rows
            invariant
                r <= rows,
                c < cols,
                table.len() == rows * cols,
                turned.len() == c * rows + r,
                c * rows + rows <= table.len(),
                turned@.subrange(0, c * rows) == done,
                forall|q: int| 0 <= q < r ==> #[trigger] turned[c * rows + q] == table[q * cols + c],
            decreases rows - r,
        {
            let ghost before = turned@;
            proof {
                lemma_cell_in_table(r as int, c as int, rows as int, cols as int);
            }
            turned.push(table[r * cols + c]);
            proof {
                assert(turned@.subrange(0, c * rows) =~= before.subrange(0, c * rows));
            }
            r = r + 1;
        }
        proof {
            assert forall|d: int, q: int| 0 <= d < c + 1 && 0 <= q < rows implies #[trigger] turned[d
                * rows + q] == table[q * cols + d] by {
                if d < c {
                    lemma_cell_in_table(d, q, c as int, rows as int);
                    assert(turned[d * rows + q] == done[d * rows + q]);
                }
            }
        }
        c = c + 1;
    }
    proof {
        assert(cols * rows == rows * cols) by (nonlinear_arith);
    }
    turned
}

/// Where a chunk of values in frequency order goes in a buffer in frequency
/// order: the buffer holds `stride` values for each frequency, the chunk
/// `chunk` of them, from place `offset` of the frequency on. The places
/// come frequency after frequency.
pub fn frequency_places(nfreq: usize, chunk: usize, stride: usize, offset: usize) -> (places: Vec<
    usize,
>)
    requires
        offset + chunk <= stride,
        nfreq * stride <= usize::MAX,
    ensures
        places.len() == nfreq * chunk,
        forall|f: int, k: int|
            0 <= f < nfreq && 0 <= k < chunk ==> #[trigger] places[f * chunk + k] == f * stride
                + offset + k,
        forall|p: int| 0 <= p < places.len() ==> #[trigger] places[p] < nfreq * stride,
{
    let mut places: Vec<usize> = Vec::new();
    let mut f: usize = 0;
    while f < nfreq
        invariant
            f <= nfreq,
            offset + chunk <= stride,
            nfreq * stride <= usize::MAX,
            places.len() == f * chunk,
            forall|g: int, k: int|
                0 <= g < f && 0 <= k < chunk ==> #[trigger] places[g * chunk + k] == g * stride
                    + offset + k,
            forall|p: int| 0 <= p < places.len() ==> #[trigger] places[p] < nfreq * stride,
        decreases nfreq - f,
    {
        let ghost done = places@;
        proof {
            lemma_row_in_table(f as int, nfreq as int, stride as int);
            assert((f + 1) * chunk == f * chunk + chunk) by (nonlinear_arith);
        }
        let head = f * stride + offset;
        let mut k: usize = 0;
        while k < chunk
            invariant
                k <= chunk,
                f < nfreq,
                head == f * stride + offset,
                head + chunk <= nfreq * stride,
                nfreq * stride <= usize::MAX,
                places.len() == f * chunk + k,
                places@.subrange(0, f * chunk) == done,
                forall|q: int| 0 <= q < k ==> #[trigger] places[f * chunk + q] == head + q,
            decreases chunk - k,
        {
            let ghost before = places@;
            places.push(head + k);
            proof {
                assert(places@.subrange(0, f * chunk) =~= before.subrange(0, f * chunk));
            }
            k = k + 1;
        }
        proof {
            assert forall|g: int, q: int| 0 <= g < f + 1 && 0 <= q < chunk implies #[trigger] places[g
                * chunk + q] == g * stride + offset + q by {
                if g < f {
                    lemma_cell_in_table(g, q, f as int, chunk as int);
                    assert(places[g * chunk + q] == done[g * chunk + q]);
                }
            }
            assert forall|p: int| 0 <= p < places.len() implies #[trigger] places[p] < nfreq
                * stride by {
                if p < f * chunk {
                    assert(places[p] == done[p]);
                } else {
                    assert(places[f * chunk + (p - f * chunk)] == head + (p - f * chunk));
                }
            }
        }
        f = f + 1;
    }
    places
}

/// Copies the columns that `columns` names, in that order, out of a table
/// that holds `width` values for each column, column after column.
pub fn gather_columns<T: Copy>(table: &[T], columns: &[usize], width: usize) -> (subset: Vec<T>)
    requires
        forall|k: int| 0 <= k < columns.len() ==> (#[trigger] columns[k] + 1) * width <= table.len(),
        columns.len() * width <= usize::MAX,
    ensures
        subset.len() == columns.len() * width,
        forall|k: int, r: int|
            0 <= k < columns.len() && 0 <= r < width ==> #[trigger] subset[k * width + r]
                == table[columns[k] * width + r],
{
    let mut subset: Vec<T> = Vec::new();
    let mut k: usize = 0;
    while k < columns.len()
        invariant
            k <= columns.len(),
            forall|k: int|
                0 <= k < columns.len() ==> (#[trigger] columns[k] + 1) * width <= table.len(),
            columns.len() * width <= usize::MAX,
            subset.len() == k * width,
            forall|j: int, r: int|
                0 <= j < k && 0 <= r < width ==> #[trigger] subset[j * width + r] == table[columns[j]
                    * width + r],
        decreases columns.len() - k,
    {
        let ghost done = subset@;
        let column = columns[k];
        proof {
            assert((columns[k as int] + 1) * width <= table.len());
            assert((column + 1) * width == column * width + width) by (nonlinear_arith);
            assert((k + 1) * width == k * width + width) by (nonlinear_arith);
            assert((k + 1) * width <= columns.len() * width) by (nonlinear_arith)
                requires
                    k + 1 <= columns.len(),
                    width >= 0,
            ;
            assert(0 <= column * width) by (nonlinear_arith)
                requires
                    column >= 0,
                    width >= 0,
            ;
        }
        let base = column * width;
        let mut r: usize = 0;
        while r < width
            invariant
                r <= width,
                base == column * width,
                base + width <= table.len(),
                subset.len() == k * width + r,
                k * width + width <= usize::MAX,
                subset@.subrange(0, k * width) == done,
                forall|q: int| 0 <= q < r ==> #[trigger] subset[k * width + q] == table[base + q],
            decreases width - r,
        {
            let ghost before = subset@;
            subset.push(table[base + r]);
            proof {
                assert(subset@.subrange(0, k * width) =~= before.subrange(0, k * width));
            }
            r = r + 1;
        }
        proof {
            assert forall|j: int, q: int| 0 <= j < k + 1 && 0 <= q < width implies #[trigger] subset[j
                * width + q] == table[columns[j] * width + q] by {
                if j < k {
                    lemma_cell_in_table(j, q, k as int, width as int);
                    assert(subset[j * width + q] == done[j * width + q]);
                }
            }
        }
        k = k + 1;
    }
    subset
}

} // verus!
