use hexworld::hexgrid;
use hexworld::hexgrid::matrix;
use hexworld::hexgrid::{
    chunk_from_example, distance, get_connected, is_chunk_corner, neighbors, pos_iter_to_cells,
    to_chunk_keys, touch_all_chunks, unsafe_get, v_mul_reduce, view_port, wide_distance, within,
    xy_to_cube, CellGen, Chunk, EmptyContext, Pos, XYCont, CHUNK_SIZE,
};

#[derive(Debug, Clone, Copy, PartialEq)]
struct Mark(i32);

impl CellGen<EmptyContext> for Mark {
    fn generated(_c: EmptyContext, _p: Pos) -> Self {
        unreachable!()
    }

    fn new_chunk(_p: Pos, _c: &mut EmptyContext) -> Chunk<Self> {
        chunk_from_example(Mark(7))
    }
}

/// A generator whose cells depend on the position and on a seed, and which
/// counts the chunks it has made.
#[derive(Debug, Clone, Copy, PartialEq)]
struct Seeded(i64);

struct Seed {
    seed: i64,
    made: u32,
}

impl CellGen<Seed> for Seeded {
    fn generated(_c: Seed, _p: Pos) -> Self {
        unreachable!()
    }

    fn new_chunk(p: Pos, c: &mut Seed) -> Chunk<Self> {
        let (key, _) = to_chunk_keys(p);
        let mut rows = Vec::new();
        for i in 0..CHUNK_SIZE {
            let mut row = Vec::new();
            for j in 0..CHUNK_SIZE {
                let x = key.x as i64 + i as i64;
                let y = key.y as i64 + j as i64;
                row.push(Seeded(c.seed * 1_000_003 + x * 7919 + y));
            }
            rows.push(row);
        }
        c.made += 1;
        Chunk::from_matrix(matrix::new(CHUNK_SIZE, CHUNK_SIZE, rows)).unwrap()
    }
}

fn at(x: i32, y: i32) -> Pos {
    XYCont { x, y }
}

fn positions<T>(cells: &Vec<(Pos, T)>) -> Vec<Pos> {
    cells.iter().map(|e| e.0).collect()
}

#[test]
fn chunk_keys_split_a_position() {
    let (key, index) = to_chunk_keys(at(257, -1));
    assert_eq!(key, at(256, -256));
    assert_eq!(index, XYCont { x: 1usize, y: 255usize });
    let (key, index) = to_chunk_keys(at(0, 0));
    assert_eq!(key, at(0, 0));
    assert_eq!(index, XYCont { x: 0usize, y: 0usize });
    let (key, index) = to_chunk_keys(at(i32::MIN, i32::MAX));
    assert_eq!(key, at(i32::MIN, i32::MAX - 255));
    assert_eq!(index, XYCont { x: 0usize, y: 255usize });
}

#[test]
fn chunk_corners_are_the_four_ends() {
    assert!(is_chunk_corner(at(0, 0)));
    assert!(is_chunk_corner(at(255, 0)));
    assert!(is_chunk_corner(at(-1, -256)));
    assert!(is_chunk_corner(at(511, 255)));
    assert!(!is_chunk_corner(at(1, 0)));
    assert!(!is_chunk_corner(at(0, 254)));
}

#[test]
fn distance_between_cells() {
    assert_eq!(distance(at(0, 0), at(2, 1)), 2);
    assert_eq!(distance(at(0, 0), at(1, -1)), 2);
    assert_eq!(distance(at(1, 0), at(2, -1)), 1);
    assert_eq!(distance(at(-3, 4), at(-3, 4)), 0);
    assert_eq!(distance(at(0, 0), at(0, 9)), 9);
    assert_eq!(distance(at(0, 0), at(10, 0)), 10);
    assert_eq!(distance(at(-5, -5), at(5, 5)), 15);
}

#[test]
fn wide_distance_spans_the_whole_grid() {
    assert_eq!(wide_distance(at(i32::MIN, 0), at(i32::MAX, 0)), 4294967295);
    assert_eq!(wide_distance(at(0, i32::MIN), at(0, i32::MAX)), 4294967295);
    assert_eq!(wide_distance(at(3, 3), at(3, 3)), 0);
}

#[test]
fn cube_coordinates_sum_to_zero() {
    for p in [at(0, 0), at(1, 0), at(-1, 0), at(7, -3), at(-8, 5), at(i32::MAX, i32::MIN)] {
        let c = xy_to_cube(p);
        assert_eq!(c.x + c.y + c.z, 0);
        assert_eq!(c.x, p.x as i64);
    }
    let c = xy_to_cube(at(3, 5));
    assert_eq!((c.x, c.y, c.z), (3, 3, -6));
    let c = xy_to_cube(at(-3, 5));
    assert_eq!((c.x, c.y, c.z), (-3, 6, -3));
}

#[test]
fn vectors_are_scaled_and_summed() {
    let units = vec![at(1, 0), at(0, 1)];
    assert_eq!(v_mul_reduce(&vec![3, -4], &units), at(3, -4));
    assert_eq!(v_mul_reduce(&vec![], &units), at(0, 0));
    assert_eq!(v_mul_reduce(&vec![2, 5], &vec![at(1, 1), at(-1, 2), at(9, 9)]), at(-3, 12));
    assert_eq!(at(2, 3) * at(4, 5), at(8, 15));
    assert_eq!(at(2, 3) * 4, at(8, 12));
    assert_eq!(4 * at(2, 3), at(8, 12));
    assert_eq!(at(2, 3) + at(-4, 5), at(-2, 8));
}

#[test]
fn a_read_generates_and_a_peek_does_not() {
    let mut grid = hexgrid::new(EmptyContext::Nothing, Mark(-1));
    let p = at(5, 5);
    assert_eq!(unsafe_get(p, &grid), Mark(-1));
    assert_eq!(hexgrid::get(p, &mut grid), Mark(7));
    assert_eq!(unsafe_get(p, &grid), Mark(7));
    hexgrid::set(p, Mark(9), &mut grid);
    assert_eq!(hexgrid::get(p, &mut grid), Mark(9));
    assert_eq!(hexgrid::get(at(6, 5), &mut grid), Mark(7));
    assert_eq!(unsafe_get(at(255, 255), &grid), Mark(7));
    assert_eq!(unsafe_get(at(256, 255), &grid), Mark(-1));
    assert_eq!(unsafe_get(at(-1, 5), &grid), Mark(-1));
}

#[test]
fn a_write_generates_the_chunk_around_it() {
    let mut grid = hexgrid::new(EmptyContext::Nothing, Mark(-1));
    hexgrid::set(at(-300, 700), Mark(1), &mut grid);
    assert_eq!(unsafe_get(at(-300, 700), &grid), Mark(1));
    assert_eq!(unsafe_get(at(-301, 700), &grid), Mark(7));
    assert_eq!(unsafe_get(at(-512, 512), &grid), Mark(7));
    assert_eq!(unsafe_get(at(-513, 512), &grid), Mark(-1));
}

#[test]
fn fresh_grids_of_one_seed_hold_the_same_cells() {
    let mut a = hexgrid::new(Seed { seed: 42, made: 0 }, Seeded(0));
    let mut b = hexgrid::new(Seed { seed: 42, made: 0 }, Seeded(0));
    let mut c = hexgrid::new(Seed { seed: 43, made: 0 }, Seeded(0));
    hexgrid::get(at(1000, 1000), &mut b);
    for p in [at(0, 0), at(-1, -1), at(300, -700), at(12345, 54321)] {
        let first = hexgrid::get(p, &mut a);
        assert_eq!(first, hexgrid::get(p, &mut b));
        assert_eq!(first, hexgrid::get(p, &mut a));
        assert_ne!(first, hexgrid::get(p, &mut c));
    }
    assert_eq!(hexgrid::get(at(300, -700), &mut a), Seeded(42 * 1_000_003 + 300 * 7919 - 700));
}

#[test]
fn the_disc_is_listed_column_by_column() {
    let mut grid = hexgrid::new(EmptyContext::Nothing, Mark(-1));
    let around_even = within(at(0, 0), &mut grid, 1);
    assert_eq!(
        positions(&around_even),
        vec![at(-1, 0), at(-1, 1), at(0, -1), at(0, 0), at(0, 1), at(1, 0), at(1, 1)]
    );
    let around_odd = within(at(1, 0), &mut grid, 1);
    assert_eq!(
        positions(&around_odd),
        vec![at(0, -1), at(0, 0), at(1, -1), at(1, 0), at(1, 1), at(2, -1), at(2, 0)]
    );
    assert_eq!(within(at(4, 4), &mut grid, 0).len(), 1);
    assert_eq!(within(at(4, 4), &mut grid, -1).len(), 0);
    assert_eq!(within(at(4, 4), &mut grid, 2).len(), 19);
    assert_eq!(within(at(-7, 3), &mut grid, 3).len(), 37);
    for (q, cell) in within(at(-7, 3), &mut grid, 3) {
        assert!(distance(at(-7, 3), q) <= 3);
        assert_eq!(cell, Mark(7));
    }
}

#[test]
fn neighbours_are_the_six_cells_around() {
    let mut grid = hexgrid::new(EmptyContext::Nothing, Mark(-1));
    let ring = neighbors(at(0, 0), &mut grid);
    assert_eq!(
        positions(&ring),
        vec![at(-1, 0), at(-1, 1), at(0, -1), at(0, 1), at(1, 0), at(1, 1)]
    );
    let ring = neighbors(at(-3, 7), &mut grid);
    assert_eq!(
        positions(&ring),
        vec![at(-4, 6), at(-4, 7), at(-3, 6), at(-3, 8), at(-2, 6), at(-2, 7)]
    );
}

#[test]
fn neighbours_at_the_rim_of_the_grid_are_fewer() {
    let mut grid = hexgrid::new(EmptyContext::Nothing, Mark(-1));
    let corner = at(i32::MAX, i32::MAX);
    let ring = neighbors(corner, &mut grid);
    assert_eq!(
        positions(&ring),
        vec![at(i32::MAX - 1, i32::MAX - 1), at(i32::MAX - 1, i32::MAX), at(i32::MAX, i32::MAX - 1)]
    );
    let ring = neighbors(at(i32::MIN, i32::MIN), &mut grid);
    assert_eq!(
        positions(&ring),
        vec![at(i32::MIN, i32::MIN + 1), at(i32::MIN + 1, i32::MIN), at(i32::MIN + 1, i32::MIN + 1)]
    );
}

#[test]
fn being_neighbours_is_mutual() {
    let mut grid = hexgrid::new(EmptyContext::Nothing, Mark(-1));
    for p in [at(0, 0), at(1, 0), at(-1, -1), at(6, -9), at(-255, 256)] {
        for (q, _) in neighbors(p, &mut grid) {
            let back = neighbors(q, &mut grid);
            assert!(positions(&back).contains(&p));
            assert_eq!(distance(p, q), 1);
            assert_eq!(distance(q, p), 1);
        }
    }
}

#[test]
fn cells_are_read_in_the_order_asked() {
    let mut grid = hexgrid::new(EmptyContext::Nothing, Mark(-1));
    hexgrid::set(at(2, 2), Mark(22), &mut grid);
    let asked = vec![at(2, 2), at(600, 600), at(2, 2)];
    let cells = pos_iter_to_cells(&asked, &mut grid);
    assert_eq!(cells, vec![(at(2, 2), Mark(22)), (at(600, 600), Mark(7)), (at(2, 2), Mark(22))]);
    assert_eq!(unsafe_get(at(600, 600), &grid), Mark(7));
}

#[test]
fn the_view_port_shows_what_is_there() {
    let mut grid = hexgrid::new(EmptyContext::Nothing, Mark(-1));
    hexgrid::set(at(255, 0), Mark(3), &mut grid);
    let shown = view_port(&grid, at(254, -1), 2, 1);
    assert_eq!(
        shown,
        vec![vec![Mark(-1), Mark(7)], vec![Mark(-1), Mark(3)], vec![Mark(-1), Mark(-1)]]
    );
    assert_eq!(view_port(&grid, at(0, 0), -1, 5).len(), 0);
    assert_eq!(view_port(&grid, at(0, 0), 1, -1), vec![Vec::<Mark>::new(), Vec::<Mark>::new()]);
    assert_eq!(view_port(&grid, at(i32::MAX, i32::MAX), 0, 0), vec![vec![Mark(-1)]]);
}

#[test]
fn touching_a_block_generates_its_chunks() {
    let mut grid = hexgrid::new(Seed { seed: 1, made: 0 }, Seeded(0));
    let cells = touch_all_chunks(&mut grid, at(254, 254), 3, 2);
    assert_eq!(cells.len(), 4);
    assert_eq!(cells[0].len(), 3);
    assert_eq!(cells[3][2], Seeded(1_000_003 + 257 * 7919 + 256));
    assert_ne!(unsafe_get(at(0, 0), &grid), Seeded(0));
    assert_ne!(unsafe_get(at(256, 0), &grid), Seeded(0));
    assert_ne!(unsafe_get(at(0, 256), &grid), Seeded(0));
    assert_ne!(unsafe_get(at(256, 256), &grid), Seeded(0));
    assert_eq!(unsafe_get(at(512, 0), &grid), Seeded(0));
}

fn is_marked(c: Mark) -> bool {
    c.0 == 1
}

#[test]
fn the_search_finds_the_whole_patch_and_nothing_else() {
    let mut grid = hexgrid::new(EmptyContext::Nothing, Mark(-1));
    let patch = [at(1, 0), at(2, 0), at(3, 0), at(3, 1), at(255, 255), at(256, 255)];
    for p in patch {
        hexgrid::set(p, Mark(1), &mut grid);
    }
    let found = get_connected(at(0, 0), is_marked, &mut grid);
    assert_eq!(positions(&found), vec![at(1, 0), at(2, 0), at(3, 0), at(3, 1)]);
    for (q, cell) in &found {
        assert_eq!(*cell, Mark(1));
        for (n, c) in neighbors(*q, &mut grid) {
            if is_marked(c) {
                assert!(positions(&found).contains(&n));
            }
        }
    }
    let across = get_connected(at(255, 254), is_marked, &mut grid);
    assert_eq!(positions(&across), vec![at(255, 255), at(256, 255)]);
    assert_eq!(get_connected(at(100, 100), is_marked, &mut grid).len(), 0);
}

#[test]
fn the_search_comes_back_to_its_start_only_over_a_neighbour() {
    let mut grid = hexgrid::new(EmptyContext::Nothing, Mark(-1));
    hexgrid::set(at(0, 0), Mark(1), &mut grid);
    assert_eq!(get_connected(at(0, 0), is_marked, &mut grid).len(), 0);
    hexgrid::set(at(0, 1), Mark(1), &mut grid);
    let found = get_connected(at(0, 0), is_marked, &mut grid);
    assert_eq!(positions(&found), vec![at(0, 1), at(0, 0)]);
}

#[test]
fn a_table_is_stored_row_after_row() {
    let rows = vec![vec![1, 2, 3], vec![4, 5, 6]];
    let mut m = matrix::new(2, 3, rows);
    assert_eq!(matrix::get(&m, XYCont { x: 1, y: 2 }), Some(&6));
    assert_eq!(matrix::get(&m, XYCont { x: 0, y: 3 }), Some(&4));
    assert_eq!(matrix::get(&m, XYCont { x: 2, y: 0 }), None);
    assert_eq!(matrix::get(&m, XYCont { x: usize::MAX, y: usize::MAX }), None);
    matrix::set(&mut m, 9, XYCont { x: 1, y: 0 });
    assert_eq!(matrix::get(&m, XYCont { x: 1, y: 0 }), Some(&9));
    assert_eq!(m.row_len(), 3);
    assert_eq!(m.cell_count(), 6);
}

#[test]
fn only_a_table_of_the_right_measures_is_a_chunk() {
    assert!(Chunk::from_matrix(matrix::new(2, 3, vec![vec![1, 2, 3], vec![4, 5, 6]])).is_none());
    let rows = vec![vec![0u8; CHUNK_SIZE]; CHUNK_SIZE];
    assert!(Chunk::from_matrix(matrix::new(CHUNK_SIZE, CHUNK_SIZE, rows)).is_some());
    let rows = vec![vec![0u8; 1]; CHUNK_SIZE * CHUNK_SIZE];
    assert!(Chunk::from_matrix(matrix::new(CHUNK_SIZE * CHUNK_SIZE, 1, rows)).is_none());
}
