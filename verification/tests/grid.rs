use bitgrid::cells;
use bitgrid::cells::{Coord, Tile};
use bitgrid::error::ParseError;
use bitgrid::packed;

const SAMPLE: &str = "..##.......\n\
#...#...#..\n\
.#....#..#.\n\
..#.#...#.#\n\
.#...##..#.\n\
..#.##.....\n\
.#.#.#....#\n\
.#........#\n\
#.##...#...\n\
#...##....#\n\
.#..#...#.#";

fn packed_hits(text: &str, from: usize, left: usize, down: usize) -> usize {
    let grid = packed::Grid::from_str(text).unwrap();
    let each = grid.each(from, left, down);
    packed::count_hits(&grid, each)
}

fn cells_hits(text: &str, left: usize, down: usize) -> usize {
    let grid = cells::Grid::from_str(text).unwrap();
    cells::count_hits(&grid, left, down)
}

#[test]
fn sample_grid_dimensions() {
    let grid = packed::Grid::from_str(SAMPLE).unwrap();
    assert_eq!(grid.stride(), 11);
    assert_eq!(grid.rows(), 11);
}

#[test]
fn sample_grid_main_slope() {
    assert_eq!(packed_hits(SAMPLE, 0, 3, 1), 7);
}

#[test]
fn sample_grid_five_slopes_product() {
    let slopes = [(1usize, 1usize), (3, 1), (5, 1), (7, 1), (1, 2)];
    let expected = [2usize, 7, 3, 4, 2];
    let mut product = 1usize;
    for (i, (left, down)) in slopes.iter().enumerate() {
        let hits = cells_hits(SAMPLE, *left, *down);
        assert_eq!(hits, expected[i]);
        product *= hits;
    }
    assert_eq!(product, 336);
}

#[test]
fn packed_and_baseline_agree_on_sample() {
    for (left, down) in [(1usize, 1usize), (3, 1), (5, 1), (7, 1), (1, 2)] {
        assert_eq!(packed_hits(SAMPLE, 0, left, down), cells_hits(SAMPLE, left, down));
    }
}

#[test]
fn packed_and_baseline_agree_on_small_grids() {
    let grids = ["#", ".", "#.\n.#", "###\n###\n###", "..#..\n.#.#.\n#...#"];
    for text in grids {
        for (left, down) in [(1usize, 1usize), (2, 1), (1, 2), (0, 1), (5, 3)] {
            assert_eq!(packed_hits(text, 0, left, down), cells_hits(text, left, down));
        }
    }
}

#[test]
fn empty_input_yields_empty_grid() {
    let grid = packed::Grid::from_str("").unwrap();
    assert_eq!(grid.stride(), 0);
    assert_eq!(grid.rows(), 0);
    assert_eq!(grid.len(), 1);
    let each = grid.each(0, 3, 1);
    assert_eq!(packed::count_hits(&grid, each), 0);
    assert_eq!(cells_hits("", 3, 1), 0);
}

#[test]
fn irregular_line_is_rejected() {
    let err = packed::Grid::from_str("..#\n.#").unwrap_err();
    assert_eq!(err, ParseError::IrregularInputError { length: 2, stride: 3 });
    let err = cells::Grid::from_str("..#\n.#.#").unwrap_err();
    assert_eq!(err, ParseError::IrregularInputError { length: 4, stride: 3 });
}

#[test]
fn invalid_character_is_rejected() {
    let err = packed::Grid::from_str("..x").unwrap_err();
    assert_eq!(err, ParseError::InvalidCharacterError { character: 'x' });
    let err = cells::Grid::from_str(".#\n.T").unwrap_err();
    assert_eq!(err, ParseError::InvalidCharacterError { character: 'T' });
}

#[test]
fn render_round_trips() {
    let grid = packed::Grid::from_str(SAMPLE).unwrap();
    let text = grid.render();
    assert_eq!(text, SAMPLE);
    let again = packed::Grid::from_str(&text).unwrap();
    assert_eq!(again.stride(), grid.stride());
    assert_eq!(again.rows(), grid.rows());
    for i in 0..(64 * 4 * grid.len()) {
        assert_eq!(grid.get_bit(i), again.get_bit(i));
    }
}

#[test]
fn generators_are_deterministic() {
    let grid = packed::Grid::from_str(SAMPLE).unwrap();
    let mut a = grid.each(0, 3, 1);
    let mut b = grid.each(0, 3, 1);
    for _ in 0..10 {
        assert_eq!(a.next(), b.next());
    }
    let mut c = grid.each(2, 5, 2);
    let mut d = grid.each(2, 5, 2);
    for _ in 0..10 {
        assert_eq!(c.next(), d.next());
    }
}

#[test]
fn path_lane_marks_row_major_positions() {
    // stride 8, slope (1,1): point k sits at offset 8 * k + (k mod 8), so a
    // position j is on the path exactly when its column equals its row mod 8.
    let grid = packed::Grid::from_str("........\n........").unwrap();
    let mut each = grid.each(0, 1, 1);
    let lane = each.next();
    for j in 0..256usize {
        let expected = (j / 8) % 8 == j % 8;
        let word = lane[j / 64];
        assert_eq!((word >> (j % 64)) & 1 == 1, expected, "bit {}", j);
    }
}

#[test]
fn grid_row_bit_set_marks_cells() {
    let mut grid = packed::Grid::new(4);
    let row = grid.next_row();
    assert_eq!(row.stride(), 4);
    row.bit_set(&mut grid, 0);
    row.bit_set(&mut grid, 3);
    let row2 = grid.next_row();
    row2.bit_set(&mut grid, 1);
    assert_eq!(grid.render(), "#..#\n.#..");
}

#[test]
fn popcount_counts_set_bits() {
    assert_eq!(bitgrid::bits::popcount(0), 0);
    assert_eq!(bitgrid::bits::popcount(u64::MAX), 64);
    assert_eq!(bitgrid::bits::popcount(0b1011), 3);
    assert_eq!(bitgrid::bits::popcount(1u64 << 63), 1);
}

#[test]
fn tile_try_from_recognizes_symbols() {
    assert_eq!(Tile::try_from('.').unwrap(), Tile::Open);
    assert_eq!(Tile::try_from('#').unwrap(), Tile::Tree);
    assert_eq!(
        Tile::try_from('q').unwrap_err(),
        ParseError::InvalidCharacterError { character: 'q' }
    );
}

#[test]
fn cells_get_wraps_horizontally() {
    let mut grid = cells::Grid::new(Coord { x: 3, y: 2 });
    grid.set(Coord { x: 2, y: 1 }, Tile::Tree);
    assert_eq!(grid.get(Coord { x: 2, y: 1 }), Tile::Tree);
    assert_eq!(grid.get(Coord { x: 5, y: 1 }), Tile::Tree);
    assert_eq!(grid.get(Coord { x: 8, y: 1 }), Tile::Tree);
    assert_eq!(grid.get(Coord { x: 1, y: 1 }), Tile::Open);
}

#[test]
fn route_steps_until_bottom() {
    let grid = cells::Grid::new(Coord { x: 4, y: 3 });
    let mut route = grid.route(Coord { x: 3, y: 1 });
    assert_eq!(route.next(), Some(Coord { x: 0, y: 0 }));
    assert_eq!(route.next(), Some(Coord { x: 3, y: 1 }));
    assert_eq!(route.next(), Some(Coord { x: 6, y: 2 }));
    assert_eq!(route.next(), None);
    assert_eq!(route.next(), None);
}

#[test]
fn coord_from_pair() {
    let c = Coord::from((4usize, 9usize));
    assert_eq!(c, Coord { x: 4, y: 9 });
}

#[test]
fn route_new_starts_at_origin() {
    let route = cells::Route::new(Coord { x: 7, y: 7 }, Coord { x: 1, y: 2 });
    assert_eq!(route.coord, Coord { x: 0, y: 0 });
    assert_eq!(route.step, Coord { x: 1, y: 2 });
}

#[test]
fn trailing_newline_matches_line_semantics() {
    let a = packed::Grid::from_str("#.\n.#\n").unwrap();
    let b = packed::Grid::from_str("#.\n.#").unwrap();
    assert_eq!(a.rows(), 2);
    assert_eq!(b.rows(), 2);
    assert_eq!(a.render(), b.render());
}

#[test]
fn blank_line_has_zero_length() {
    let err = packed::Grid::from_str("##\n\n##").unwrap_err();
    assert_eq!(err, ParseError::IrregularInputError { length: 0, stride: 2 });
}
