use bempp::chunk::{find_chunk_size, max_chunk_size, ncoeffs, ConvolutionGrid};
use bempp::layout::{frequency_places, gather_columns, place_on_grids, read_off_grids, transpose};
use bempp::schedule::{block_products, scatter_lists, BlockProduct};

#[test]
fn test_ncoeffs() {
    assert_eq!(ncoeffs(1), Some(2));
    assert_eq!(ncoeffs(2), Some(8));
    assert_eq!(ncoeffs(3), Some(26));
    assert_eq!(ncoeffs(6), Some(152));
    assert_eq!(ncoeffs(10), Some(488));
    assert_eq!(ncoeffs(usize::MAX), None);
}

#[test]
fn test_convolution_grid() {
    let grid = ConvolutionGrid::new(6).unwrap();
    assert_eq!(grid.n, 11);
    assert_eq!(grid.npad, 12);
    assert_eq!(grid.size, 1728);
    assert_eq!(grid.size_real, 12 * 12 * 7);
    let grid = ConvolutionGrid::new(1).unwrap();
    assert_eq!((grid.n, grid.npad, grid.size, grid.size_real), (1, 2, 8, 8));
    assert!(ConvolutionGrid::new(usize::MAX / 2 + 1).is_none());
    assert!(ConvolutionGrid::new(1 << 30).is_none());
}

#[test]
fn test_max_chunk_size() {
    assert_eq!(max_chunk_size(2), 8);
    assert_eq!(max_chunk_size(3), 64);
    assert_eq!(max_chunk_size(4), 128);
    assert_eq!(max_chunk_size(9), 128);
}

#[test]
fn test_find_chunk_size() {
    assert_eq!(find_chunk_size(8, 8), 8);
    assert_eq!(find_chunk_size(64, 8), 8);
    assert_eq!(find_chunk_size(512, 128), 128);
    assert_eq!(find_chunk_size(30, 8), 6);
    assert_eq!(find_chunk_size(7, 4), 1);
    assert_eq!(find_chunk_size(7, 128), 7);
    assert_eq!(find_chunk_size(0, 8), 8);
    assert_eq!(find_chunk_size(12, 0), 1);
}

#[test]
fn test_place_on_grids() {
    let coefficients = [1.5, 2.5, 3.5, 4.5, 5.5, 6.5];
    let map = [4usize, 0, 2];
    let grids = place_on_grids(&coefficients, &map, 0.0, 5);
    assert_eq!(grids, vec![2.5, 0.0, 3.5, 0.0, 1.5, 5.5, 0.0, 6.5, 0.0, 4.5]);
}

#[test]
fn test_place_on_grids_last_wins() {
    let grids = place_on_grids(&[1u8, 2, 3], &[1usize, 1, 0], 9, 3);
    assert_eq!(grids, vec![3, 2, 9]);
}

#[test]
fn test_read_off_grids() {
    let grids = [10, 11, 12, 13, 14, 20, 21, 22, 23, 24];
    let surfaces = read_off_grids(&grids, &[4usize, 0, 2], 5);
    assert_eq!(surfaces, vec![14, 10, 12, 24, 20, 22]);
    // reading off what was placed gives the coefficients back
    let coefficients = [1.5, 2.5, 3.5, 4.5, 5.5, 6.5];
    let map = [4usize, 0, 2];
    let placed = place_on_grids(&coefficients, &map, 0.0, 5);
    assert_eq!(read_off_grids(&placed, &map, 5), coefficients.to_vec());
}

#[test]
fn test_transpose() {
    // two rows of three
    let table = [1, 2, 3, 4, 5, 6];
    assert_eq!(transpose(&table, 2, 3), vec![1, 4, 2, 5, 3, 6]);
    assert_eq!(transpose(&transpose(&table, 2, 3), 3, 2), table.to_vec());
    let empty: [u8; 0] = [];
    assert_eq!(transpose(&empty, 0, 5), Vec::<u8>::new());
}

#[test]
fn test_gather_columns() {
    let table = [0.0, 0.5, 1.0, 1.5, 2.0, 2.5, 3.0, 3.5];
    assert_eq!(gather_columns(&table, &[3, 0, 3], 2), vec![3.0, 3.5, 0.0, 0.5, 3.0, 3.5]);
    assert_eq!(gather_columns(&table, &[1], 4), vec![2.0, 2.5, 3.0, 3.5]);
    assert_eq!(gather_columns(&table, &[], 2), Vec::<f64>::new());
}

#[test]
fn test_scatter_lists() {
    let (sources, targets) = scatter_lists(&[-1, 4, -1, -1, 0, 7]);
    assert_eq!(sources, vec![1, 4, 5]);
    assert_eq!(targets, vec![4, 0, 7]);
    let (sources, targets) = scatter_lists(&[-1, -1]);
    assert!(sources.is_empty() && targets.is_empty());
}

fn table(nparents: usize) -> Vec<Vec<usize>> {
    (0..26)
        .map(|i| (0..nparents).map(|p| 1000 * i + p).collect())
        .collect()
}

#[test]
fn test_block_products_order() {
    let products = block_products(&table(4), 4, 2);
    assert_eq!(products.len(), 26 * 4);
    // first chunk: parents 0 and 1, direction by direction
    assert_eq!(products[0], BlockProduct { direction: 0, source: 0, target: 0 });
    assert_eq!(products[1], BlockProduct { direction: 0, source: 1, target: 8 });
    assert_eq!(products[2], BlockProduct { direction: 1, source: 1000, target: 0 });
    assert_eq!(products[51], BlockProduct { direction: 25, source: 25001, target: 8 });
    // second chunk: parents 2 and 3
    assert_eq!(products[52], BlockProduct { direction: 0, source: 2, target: 16 });
    assert_eq!(products[103], BlockProduct { direction: 25, source: 25003, target: 24 });
}

#[test]
fn test_block_products_short_last_chunk() {
    let products = block_products(&table(5), 5, 3);
    assert_eq!(products.len(), 26 * 5);
    assert_eq!(products[3], BlockProduct { direction: 1, source: 1000, target: 0 });
    // the last chunk holds parents 3 and 4 only
    assert_eq!(products[78], BlockProduct { direction: 0, source: 3, target: 24 });
    assert_eq!(products[80], BlockProduct { direction: 1, source: 1003, target: 24 });
    assert_eq!(products[129], BlockProduct { direction: 25, source: 25004, target: 32 });
}

#[test]
fn test_block_products_grow_with_the_parents() {
    for nparents in [1usize, 8, 16, 64] {
        let once = block_products(&table(nparents), nparents, 8).len();
        let twice = block_products(&table(2 * nparents), 2 * nparents, 8).len();
        assert_eq!(once, 26 * nparents);
        assert_eq!(twice, 2 * once);
    }
    assert!(block_products(&table(0), 0, 8).is_empty());
}

#[test]
fn test_frequency_places() {
    // three frequencies; a buffer of ten values for each, a chunk of four from place two on
    let places = frequency_places(3, 4, 10, 2);
    assert_eq!(places, vec![2, 3, 4, 5, 12, 13, 14, 15, 22, 23, 24, 25]);
    assert!(frequency_places(0, 4, 10, 2).is_empty());
    assert!(frequency_places(3, 0, 10, 10).is_empty());
    // the chunk may fill the frequency
    assert_eq!(frequency_places(2, 3, 3, 0), vec![0, 1, 2, 3, 4, 5]);
}
