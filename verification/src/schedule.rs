//! The order of work of one level of the translation: which blocks the
//! sibling-group kernel multiplies at every frequency, and which columns each
//! transfer vector of the low-rank kernel reads and writes.

use vstd::prelude::*;

verus! {

/// One product of the sibling-group kernel at a frequency: the kernel block
/// of a direction, applied to the eight signals that start at `source`, is
/// added to the eight check potentials that start at `target`.
#[derive(Clone, Copy, Debug, PartialEq, Eq, Structural)]
pub struct BlockProduct {
    /// Direction from the target parent to the source parent.
    pub direction: usize,
    /// Slot of the first of the eight signals.
    pub source: usize,
    /// Slot of the first of the eight check potentials.
    pub target: usize,
}

/// Number of parents in the chunk that starts at parent `start`.
pub open spec fn chunk_len(start: int, nparents: int, chunk_size: int) -> int {
    if start + chunk_size <= nparents {
        chunk_size
    } else {
        nparents - start
    }
}

/// Place, in the order of work, of the product for direction `i` and the
/// `j`-th parent of the chunk that starts at parent `start`: the chunks come
/// one after the other, within a chunk the directions, within a direction the
/// parents.
pub open spec fn product_position(
    start: int,
    i: int,
    j: int,
    nparents: int,
    chunk_size: int,
) -> int {
    26 * start + i * chunk_len(start, nparents, chunk_size) + j
}

/// The product for direction `i` and the `j`-th parent of chunk `c` stands
/// at its place in `products`.
pub open spec fn product_at(
    products: Seq<BlockProduct>,
    displacements: Seq<Vec<usize>>,
    c: int,
    i: int,
    j: int,
    nparents: int,
    chunk_size: int,
) -> bool {
    let start = c * chunk_size;
    let position = product_position(start, i, j, nparents, chunk_size);
    &&& 0 <= position < products.len()
    &&& products[position] == (BlockProduct {
        direction: i as usize,
        source: displacements[i][start + j],
        target: (8 * (start + j)) as usize,
    })
}

/// `products` is the order of work for the given table and chunk size.
pub open spec fn is_block_schedule(
    products: Seq<BlockProduct>,
    displacements: Seq<Vec<usize>>,
    nparents: int,
    chunk_size: int,
) -> bool {
    &&& products.len() == 26 * nparents
    &&& forall|c: int, i: int, j: int|
        0 <= c && c * chunk_size < nparents && 0 <= i < 26 && 0 <= j < chunk_len(
            c * chunk_size,
            nparents,
            chunk_size,
        ) ==> #[trigger] product_at(products, displacements, c, i, j, nparents, chunk_size)
}

/// The products of the sibling-group kernel at one frequency, in the order
/// in which they are made. Every frequency makes the same products, each on
/// its own signals and check potentials.
pub fn block_products(displacements: &Vec<Vec<usize>>, nparents: usize, chunk_size: usize) -> (products:
    Vec<BlockProduct>)
    requires
        displacements.len() == 26,
        forall|i: int| 0 <= i < 26 ==> (#[trigger] displacements[i]).len() == nparents,
        chunk_size >= 1,
        26 * nparents <= usize::MAX,
    ensures
        is_block_schedule(products@, displacements@, nparents as int, chunk_size as int),
{
    let mut products: Vec<BlockProduct> = Vec::new();
    let mut chunk_start: usize = 0;
    let ghost mut chunks: int = 0;
    while chunk_start < nparents
        invariant
            displacements.len() == 26,
            forall|i: int| 0 <= i < 26 ==> (#[trigger] displacements[i]).len() == nparents,
            chunk_size >= 1,
            26 * nparents <= usize::MAX,
            0 <= chunks,
            chunk_start == chunks * chunk_size || chunk_start == nparents,
            chunk_start <= nparents,
            chunks * chunk_size >= chunk_start,
            products.len() == 26 * chunk_start,
            forall|c: int, i: int, j: int|
                0 <= c < chunks && 0 <= i < 26 && 0 <= j < chunk_len(
                    c * chunk_size,
                    nparents as int,
                    chunk_size as int,
                ) ==> #[trigger] product_at(
                    products@,
                    displacements@,
                    c,
                    i,
                    j,
                    nparents as int,
                    chunk_size as int,
                ),
        decreases nparents - chunk_start,
    {
        let chunk_end = if nparents - chunk_start < chunk_size {
            nparents
        } else {
            chunk_start + chunk_size
        };
        let len = chunk_end - chunk_start;
        let ghost done = products@;
        proof {
            assert(len == chunk_len(chunk_start as int, nparents as int, chunk_size as int));
            assert(chunk_start == chunks * chunk_size);
        }
        let mut i: usize = 0;
        while i < 26
            invariant
                i <= 26,
                displacements.len() == 26,
                forall|i: int| 0 <= i < 26 ==> (#[trigger] displacements[i]).len() == nparents,
                26 * nparents <= usize::MAX,
                chunk_start < chunk_end <= nparents,
                len == chunk_end - chunk_start,
                products.len() == 26 * chunk_start + i * len,
                products@.subrange(0, 26 * chunk_start) == done,
                forall|d: int, j: int|
                    0 <= d < i && 0 <= j < len ==> #[trigger] products[26 * chunk_start + d * len
                        + j] == (BlockProduct {
                        direction: d as usize,
                        source: displacements[d][chunk_start + j],
                        target: (8 * (chunk_start + j)) as usize,
                    }),
            decreases 26 - i,
        {
            let ghost rows = products@;
            proof {
                assert((i + 1) * len == i * len + len) by (nonlinear_arith);
                assert((i + 1) * len <= 26 * len) by (nonlinear_arith)
                    requires
                        i + 1 <= 26,
                        len >= 0,
                ;
            }
            let mut j: usize = 0;
            while j < len
                invariant
                    j <= len,
                    i < 26,
                    displacements.len() == 26,
                    forall|i: int| 0 <= i < 26 ==> (#[trigger] displacements[i]).len() == nparents,
                    26 * nparents <= usize::MAX,
                    chunk_start < chunk_end <= nparents,
                    len == chunk_end - chunk_start,
                    i * len + len <= 26 * len,
                    products.len() == 26 * chunk_start + i * len + j,
                    products@.subrange(0, 26 * chunk_start + i * len) == rows,
                    forall|q: int|
                        0 <= q < j ==> #[trigger] products[26 * chunk_start + i * len + q]
                            == (BlockProduct {
                            direction: i,
                            source: displacements[i as int][chunk_start + q],
                            target: (8 * (chunk_start + q)) as usize,
                        }),
                decreases len - j,
            {
                let ghost before = products@;
                let parent = chunk_start + j;
                products.push(
                    BlockProduct {
                        direction: i,
                        source: displacements[i][parent],
                        target: 8 * parent,
                    },
                );
                proof {
                    assert(products@.subrange(0, 26 * chunk_start + i * len) =~= before.subrange(
                        0,
                        26 * chunk_start + i * len,
                    ));
                }
                j = j + 1;
            }
            proof {
                assert(products@.subrange(0, 26 * chunk_start) =~= rows.subrange(
                    0,
                    26 * chunk_start,
                ));
                assert forall|d: int, q: int| 0 <= d < i + 1 && 0 <= q < len implies #[trigger] products[26
                    * chunk_start + d * len + q] == (BlockProduct {
                    direction: d as usize,
                    source: displacements[d][chunk_start + q],
                    target: (8 * (chunk_start + q)) as usize,
                }) by {
                    if d < i {
                        crate::layout::lemma_cell_in_table(d, q, i as int, len as int);
                        assert(products[26 * chunk_start + d * len + q] == rows[26 * chunk_start + d
                            * len + q]);
                    }
                }
            }
            i = i + 1;
        }
        proof {
            let cs = chunk_size as int;
            let np = nparents as int;
            assert((chunks + 1) * cs == chunks * cs + cs) by (nonlinear_arith);
            assert forall|c: int, d: int, q: int|
                0 <= c < chunks + 1 && 0 <= d < 26 && 0 <= q < chunk_len(
                    c * cs,
                    np,
                    cs,
                ) implies #[trigger] product_at(products@, displacements@, c, d, q, np, cs) by {
                let start = c * cs;
                let position = product_position(start, d, q, np, cs);
                if c < chunks {
                    assert(product_at(done, displacements@, c, d, q, np, cs));
                    assert(products[position] == done[position]);
                } else {
                    crate::layout::lemma_cell_in_table(d, q, 26, len as int);
                    assert(products[26 * chunk_start + d * len + q] == (BlockProduct {
                        direction: d as usize,
                        source: displacements[d][chunk_start + q],
                        target: (8 * (chunk_start + q)) as usize,
                    }));
                }
            }
        }
        chunk_start = chunk_end;
        proof {
            chunks = chunks + 1;
            assert(chunks * chunk_size >= chunk_start) by (nonlinear_arith)
                requires
                    (chunks - 1) * chunk_size + chunk_size >= chunk_start,
            ;
        }
    }
    proof {
        let cs = chunk_size as int;
        let np = nparents as int;
        assert forall|c: int, i: int, j: int|
            0 <= c && c * cs < np && 0 <= i < 26 && 0 <= j < chunk_len(
                c * cs,
                np,
                cs,
            ) implies #[trigger] product_at(products@, displacements@, c, i, j, np, cs) by {
            if c >= chunks {
                assert(c * cs >= chunks * cs) by (nonlinear_arith)
                    requires
                        c >= chunks,
                        cs >= 1,
                ;
            }
        }
    }
    products
}

/// The index `j` stands in the list.
pub open spec fn lists(list: Seq<usize>, j: int) -> bool {
    exists|k: int| 0 <= k < list.len() && list[k] == j
}

/// `sources` lists, in rising order, the places of `row` that hold a slot,
/// and `targets` the slots that they hold.
pub open spec fn is_scatter_list(sources: Seq<usize>, targets: Seq<usize>, row: Seq<i64>) -> bool {
    &&& sources.len() == targets.len()
    &&& forall|a: int, b: int| 0 <= a < b < sources.len() ==> sources[a] < sources[b]
    &&& forall|k: int|
        0 <= k < sources.len() ==> (#[trigger] sources[k]) < row.len() && row[sources[k] as int]
            != -1 && targets[k] == row[sources[k] as int]
    &&& forall|j: int| 0 <= j < row.len() && row[j] != -1 ==> #[trigger] lists(sources, j)
}

/// For one row of the low-rank table, the sources that have a target at the
/// row's offset, in rising order, and the slots of those targets.
pub fn scatter_lists(row: &[i64]) -> (pair: (Vec<usize>, Vec<usize>))
    requires
        forall|j: int| 0 <= j < row.len() ==> -1 <= #[trigger] row[j] <= usize::MAX,
    ensures
        is_scatter_list(pair.0@, pair.1@, row@),
{
    let mut sources: Vec<usize> = Vec::new();
    let mut targets: Vec<usize> = Vec::new();
    let mut j: usize = 0;
    while j < row.len()
        invariant
            j <= row.len(),
            forall|j: int| 0 <= j < row.len() ==> -1 <= #[trigger] row[j] <= usize::MAX,
            sources.len() == targets.len(),
            forall|a: int, b: int| 0 <= a < b < sources.len() ==> sources[a] < sources[b],
            forall|k: int|
                0 <= k < sources.len() ==> (#[trigger] sources[k]) < j && row[sources[k] as int]
                    != -1 && targets[k] == row[sources[k] as int],
            forall|q: int| 0 <= q < j && row[q] != -1 ==> #[trigger] lists(sources@, q),
        decreases row.len() - j,
    {
        let ghost before = sources@;
        if row[j] != -1 {
            sources.push(j);
            targets.push(row[j] as usize);
        }
        proof {
            assert forall|q: int| 0 <= q < j + 1 && row[q] != -1 implies #[trigger] lists(
                sources@,
                q,
            ) by {
                if q < j {
                    assert(lists(before, q));
                    let k = choose|k: int| 0 <= k < before.len() && before[k] == q;
                    assert(sources@[k] == q);
                } else {
                    assert(sources@[sources.len() - 1] == q);
                }
            }
        }
        j = j + 1;
    }
    (sources, targets)
}

} // verus!
