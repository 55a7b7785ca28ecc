use boids::geometry::{floor_div, Point};
use boids::grid::{update_grid_dimensions_on_window_resize, Grid, GridError};
use boids::grid_info::{cells_for_extent, CellCoord, GridInfo};
use boids::query::{GridQuery, SquareQuery};

fn p(x: i32, y: i32) -> Point {
    Point::new(x, y)
}

fn square(x: i32, y: i32, radius: u32) -> SquareQuery {
    SquareQuery::new(p(x, y), radius)
}

fn sorted_agents(hits: &[(u64, Point)]) -> Vec<u64> {
    let mut v: Vec<u64> = hits.iter().map(|h| h.0).collect();
    v.sort();
    v
}

fn grid_10x10() -> Grid {
    Grid::new(300, 300, 30).unwrap()
}

#[test]
fn floor_div_rounds_down() {
    assert_eq!(floor_div(95, 30), 3);
    assert_eq!(floor_div(0, 30), 0);
    assert_eq!(floor_div(-1, 30), -1);
    assert_eq!(floor_div(-30, 30), -1);
    assert_eq!(floor_div(-31, 30), -2);
    assert_eq!(floor_div(i64::MIN, 1), i64::MIN);
}

#[test]
fn cells_for_extent_rounds_up() {
    assert_eq!(cells_for_extent(300, 30), 10);
    assert_eq!(cells_for_extent(301, 30), 11);
    assert_eq!(cells_for_extent(1, 30), 1);
    assert_eq!(cells_for_extent(1280, 30), 43);
    assert_eq!(cells_for_extent(u32::MAX, 1), u32::MAX);
}

#[test]
fn cell_ids_are_row_major() {
    let info = GridInfo::new(30, 10, 10);
    assert_eq!(info.get_grid_id(p(5, 5)), 0);
    assert_eq!(info.get_grid_id(p(95, 5)), 3);
    assert_eq!(info.get_grid_id(p(5, 35)), 10);
    assert_eq!(info.get_grid_id(p(299, 299)), 99);
    assert_eq!(info.get_grid_id(p(-1, -1)), -11);
    let big = GridInfo::new(1, u32::MAX, 1);
    assert_eq!(big.get_grid_id(p(i32::MIN, i32::MIN)), i32::MIN as i128 * (u32::MAX as i128 + 1));
}

#[test]
fn grid_new_validates_configuration() {
    assert_eq!(Grid::new(300, 300, 0).err(), Some(GridError::ZeroCellSize));
    assert_eq!(Grid::new(0, 300, 0).err(), Some(GridError::ZeroCellSize));
    assert_eq!(Grid::new(0, 300, 30).err(), Some(GridError::EmptyWorld));
    assert_eq!(Grid::new(300, 0, 30).err(), Some(GridError::EmptyWorld));
    let g = Grid::new(1280, 720, 30).unwrap();
    assert_eq!(g.grid_info(), GridInfo::new(30, 43, 24));
    assert_eq!(g.len(), 0);
}

#[test]
fn in_range_is_half_open() {
    let q = square(50, 50, 10);
    assert!(q.in_range(p(40, 40)));
    assert!(q.in_range(p(59, 59)));
    assert!(!q.in_range(p(60, 50)));
    assert!(!q.in_range(p(50, 60)));
    assert!(!q.in_range(p(39, 50)));
    assert!(!square(50, 50, 0).in_range(p(50, 50)));
}

#[test]
fn cell_walk_is_row_major_over_the_box() {
    let info = GridInfo::new(30, 10, 10);
    let q = square(45, 45, 20);
    let mut cells = Vec::new();
    let mut cur = q.first_cell(info);
    while let Some(c) = cur {
        cells.push((c.col, c.row));
        cur = q.next_cell(c, info);
    }
    assert_eq!(cells, vec![(0, 0), (1, 0), (2, 0), (0, 1), (1, 1), (2, 1), (0, 2), (1, 2), (2, 2)]);
    assert_eq!(square(45, 45, 0).first_cell(info), None);
    assert_eq!(q.next_cell(CellCoord { col: 2, row: 2 }, info), None);
}

#[test]
fn concrete_insert_query_update_scenario() {
    let mut g = grid_10x10();
    let a = 1u64;
    let b = 2u64;
    g.insert(a, p(5, 5));
    assert_eq!(g.bucket_agents(0), vec![a]);
    g.insert(b, p(95, 5));
    assert_eq!(g.bucket_agents(3), vec![b]);
    let hits = g.query_all(square(5, 5, 10));
    assert_eq!(hits, vec![(a, p(5, 5))]);
    g.update(a, p(5, 5), p(95, 5));
    let hits = g.query_all(square(95, 5, 10));
    assert_eq!(hits.len(), 2);
    assert_eq!(sorted_agents(&hits), vec![a, b]);
    assert!(hits.iter().all(|h| h.1 == p(95, 5)));
}

#[test]
fn resize_readdresses_agents() {
    let mut g = grid_10x10();
    g.insert(1, p(5, 35));
    assert_eq!(g.bucket_agents(10), vec![1]);
    assert_eq!(g.update_grid_dimensions(600, 600), Ok(()));
    assert_eq!(g.grid_info(), GridInfo::new(30, 20, 20));
    assert_eq!(g.bucket_agents(10), Vec::<u64>::new());
    assert_eq!(g.bucket_agents(20), vec![1]);
    g.insert(2, p(35, 35));
    assert_eq!(g.bucket_agents(21), vec![2]);
    let hits = g.query_all(square(20, 35, 20));
    assert_eq!(sorted_agents(&hits), vec![1, 2]);
}

#[test]
fn resize_to_empty_world_is_refused() {
    let mut g = grid_10x10();
    g.insert(1, p(5, 5));
    assert_eq!(g.update_grid_dimensions(0, 600), Err(GridError::EmptyWorld));
    assert_eq!(g.grid_info(), GridInfo::new(30, 10, 10));
    assert_eq!(g.query_all(square(5, 5, 1)), vec![(1, p(5, 5))]);
}

#[test]
fn window_resize_events_apply_in_order() {
    let mut g = grid_10x10();
    g.insert(7, p(100, 100));
    update_grid_dimensions_on_window_resize(&mut g, &vec![(600, 600), (0, 0), (90, 120)]);
    assert_eq!(g.grid_info(), GridInfo::new(30, 3, 4));
    assert_eq!(g.bucket_agents(3 + 3 * 3), vec![7]);
    // The 90 x 120 world ends at x = 90, so the agent now lies outside it.
    assert_eq!(g.query_all(square(100, 100, 5)), vec![]);
    assert_eq!(g.query_all(square(80, 100, 5)), vec![]);
    g.update(7, p(100, 100), p(80, 100));
    assert_eq!(g.query_all(square(80, 100, 5)), vec![(7, p(80, 100))]);
}

#[test]
fn update_without_move_keeps_buckets() {
    let mut g = grid_10x10();
    g.insert(1, p(40, 40));
    g.insert(2, p(45, 41));
    g.update(1, p(40, 40), p(40, 40));
    assert_eq!(g.bucket_agents(11), vec![1, 2]);
    assert_eq!(g.position_of(1), Some(p(40, 40)));
    assert_eq!(g.len(), 2);
}

#[test]
fn update_within_cell_overwrites_position() {
    let mut g = grid_10x10();
    g.insert(1, p(40, 40));
    g.update(1, p(40, 40), p(50, 50));
    assert_eq!(g.bucket_agents(11), vec![1]);
    assert_eq!(g.position_of(1), Some(p(50, 50)));
    assert_eq!(g.query_all(square(40, 40, 5)), vec![]);
    assert_eq!(g.query_all(square(50, 50, 5)), vec![(1, p(50, 50))]);
}

#[test]
fn update_migrates_between_buckets() {
    let mut g = grid_10x10();
    g.insert(1, p(40, 40));
    g.update(1, p(40, 40), p(200, 100));
    assert_eq!(g.bucket_agents(11), Vec::<u64>::new());
    assert_eq!(g.bucket_agents(6 + 3 * 10), vec![1]);
    assert_eq!(g.position_of(1), Some(p(200, 100)));
}

#[test]
fn update_places_an_unknown_agent() {
    let mut g = grid_10x10();
    g.update(9, p(0, 0), p(70, 10));
    assert_eq!(g.bucket_agents(2), vec![9]);
    assert_eq!(g.len(), 1);
}

#[test]
fn insert_twice_moves_the_agent() {
    let mut g = grid_10x10();
    g.insert(1, p(5, 5));
    g.insert(1, p(95, 5));
    assert_eq!(g.bucket_agents(0), Vec::<u64>::new());
    assert_eq!(g.bucket_agents(3), vec![1]);
    assert_eq!(g.len(), 1);
}

#[test]
fn removed_agent_is_never_reported() {
    let mut g = grid_10x10();
    g.insert(1, p(5, 5));
    g.insert(2, p(6, 6));
    g.insert(3, p(250, 250));
    g.remove(3);
    g.remove(1);
    g.remove(42);
    assert_eq!(g.query_all(square(0, 0, 1000)), vec![(2, p(6, 6))]);
    assert_eq!(g.position_of(1), None);
    assert_eq!(g.len(), 1);
}

#[test]
fn clear_empties_the_grid() {
    let mut g = grid_10x10();
    g.insert(1, p(5, 5));
    g.insert(2, p(250, 5));
    g.clear();
    assert_eq!(g.len(), 0);
    assert_eq!(g.query_all(square(150, 150, 200)), vec![]);
    assert_eq!(g.bucket_agents(0), Vec::<u64>::new());
}

#[test]
fn boundary_and_corner_agents_are_found() {
    let mut g = grid_10x10();
    // Box of center (60, 60), radius 15: x and y in [45, 75).
    let q = square(60, 60, 15);
    let inside = [(1, p(45, 45)), (2, p(74, 74)), (3, p(45, 74)), (4, p(74, 45)), (5, p(60, 60)), (6, p(59, 60))];
    let outside = [(11, p(44, 45)), (12, p(75, 60)), (13, p(60, 75)), (14, p(60, 44)), (15, p(90, 90))];
    for (a, pos) in inside.iter().chain(outside.iter()) {
        g.insert(*a, *pos);
    }
    let hits = g.query_all(q);
    assert_eq!(sorted_agents(&hits), vec![1, 2, 3, 4, 5, 6]);
    for (a, pos) in hits.iter() {
        assert_eq!(g.position_of(*a), Some(*pos));
    }
}

#[test]
fn query_with_zero_radius_is_empty() {
    let mut g = grid_10x10();
    g.insert(1, p(5, 5));
    assert_eq!(g.query_all(square(5, 5, 0)), vec![]);
}

#[test]
fn many_agents_match_brute_force() {
    let mut g = Grid::new(1280, 720, 30).unwrap();
    let mut all = Vec::new();
    let mut s: u64 = 12345;
    for a in 0..300u64 {
        s = s.wrapping_mul(6364136223846793005).wrapping_add(1442695040888963407);
        let x = ((s >> 33) % 1400) as i32 - 60;
        let y = ((s >> 13) % 800) as i32 - 40;
        g.insert(a, p(x, y));
        all.push((a, p(x, y)));
    }
    for (cx, cy, r) in [(0, 0, 100), (640, 360, 100), (1279, 719, 45), (300, 500, 31), (-50, 700, 200)] {
        let q = square(cx, cy, r);
        let hits = g.query_all(q);
        let info = g.grid_info();
        let mut expected: Vec<u64> =
            all.iter().filter(|e| q.in_range(e.1) && info.contains(e.1)).map(|e| e.0).collect();
        expected.sort();
        assert_eq!(sorted_agents(&hits), expected);
        assert_eq!(hits.len(), expected.len());
    }
}

#[test]
fn lazy_query_yields_each_hit_once_then_stops() {
    let mut g = grid_10x10();
    g.insert(1, p(5, 5));
    g.insert(2, p(40, 5));
    g.insert(3, p(200, 200));
    g.insert(4, p(10, 40));
    let mut it = g.query(square(20, 20, 25));
    let mut seen = Vec::new();
    while let Some((a, pos)) = it.next() {
        assert_eq!(g.position_of(a), Some(pos));
        seen.push(a);
    }
    assert_eq!(it.next(), None);
    seen.sort();
    assert_eq!(seen, vec![1, 2, 4]);
}

#[test]
fn lazy_query_can_stop_early() {
    let mut g = grid_10x10();
    g.insert(1, p(5, 5));
    g.insert(2, p(6, 6));
    let mut it = g.query(square(5, 5, 10));
    let first = it.next();
    assert!(first == Some((1, p(5, 5))) || first == Some((2, p(6, 6))));
}

#[test]
fn lazy_query_visits_cells_in_walk_order() {
    let mut g = grid_10x10();
    g.insert(1, p(65, 65));
    g.insert(2, p(5, 65));
    g.insert(3, p(65, 5));
    g.insert(4, p(5, 5));
    let mut it = g.query(square(45, 45, 45));
    let mut order = Vec::new();
    while let Some((a, _)) = it.next() {
        order.push(a);
    }
    assert_eq!(order, vec![4, 3, 2, 1]);
}

#[test]
fn agents_outside_the_world_are_not_reported() {
    let mut g = grid_10x10();
    g.insert(1, p(-5, -5));
    g.insert(2, p(1000, 2000));
    g.insert(3, p(5, 5));
    assert_eq!(g.query_all(square(0, 0, 10)), vec![(3, p(5, 5))]);
    assert_eq!(g.query_all(square(1000, 2000, 1)), vec![]);
    assert_eq!(g.position_of(1), Some(p(-5, -5)));
    assert_eq!(g.position_of(2), Some(p(1000, 2000)));
}

#[test]
fn world_membership() {
    let info = GridInfo::new(30, 10, 10);
    assert!(info.contains(p(0, 0)));
    assert!(info.contains(p(299, 299)));
    assert!(!info.contains(p(300, 5)));
    assert!(!info.contains(p(5, 300)));
    assert!(!info.contains(p(-1, 5)));
}

#[test]
fn aliased_cells_report_each_agent_once() {
    let mut g = grid_10x10();
    // Column 10 of row 0 (outside the world) and column 0 of row 1 share identifier 10.
    g.insert(1, p(305, 5));
    g.insert(2, p(5, 35));
    let mut bucket = g.bucket_agents(10);
    bucket.sort();
    assert_eq!(bucket, vec![1, 2]);
    assert_eq!(g.query_all(square(5, 35, 10)), vec![(2, p(5, 35))]);
    assert_eq!(g.query_all(square(305, 5, 10)), vec![]);
    assert_eq!(g.query_all(square(150, 20, 200)), vec![(2, p(5, 35))]);
}

#[test]
fn extreme_coordinates_and_dimensions() {
    let mut g = Grid::new(u32::MAX, u32::MAX, 1).unwrap();
    assert_eq!(g.grid_info(), GridInfo::new(1, u32::MAX, u32::MAX));
    g.insert(1, p(i32::MAX, i32::MAX));
    g.insert(2, p(0, 0));
    g.insert(3, p(i32::MIN, 0));
    assert_eq!(g.query_all(square(i32::MAX, i32::MAX, 1)), vec![(1, p(i32::MAX, i32::MAX))]);
    assert_eq!(g.query_all(square(0, 0, 2)), vec![(2, p(0, 0))]);
    assert_eq!(g.query_all(square(i32::MIN, 0, 2)), vec![]);
    g.update(1, p(i32::MAX, i32::MAX), p(1, 1));
    assert_eq!(sorted_agents(&g.query_all(square(0, 0, 2))), vec![1, 2]);
}

fn walk(q: &SquareQuery, info: GridInfo) -> Vec<i128> {
    let mut ids = Vec::new();
    let mut cur = q.first_cell(info);
    while let Some(c) = cur {
        ids.push(info.id_of_coord(c));
        cur = q.next_cell(c, info);
    }
    ids
}

#[test]
fn cell_walk_stops_at_the_grid_edge() {
    let info = GridInfo::new(30, 10, 10);
    // The box reaches column 10 and row 10, past the grid.
    assert_eq!(walk(&square(295, 295, 20), info), vec![99]);
    assert_eq!(walk(&square(285, 285, 20), info), vec![88, 89, 98, 99]);
    assert_eq!(walk(&square(-100, -100, 20), info), Vec::<i128>::new());
    assert_eq!(walk(&square(5, 5, 10), info), vec![0]);
}

#[test]
fn cell_walk_identifiers_rise_on_narrow_grids() {
    let tall = GridInfo::new(30, 1, 10);
    assert_eq!(walk(&square(45, 45, 20), tall), vec![0, 1, 2]);
    let single = GridInfo::new(30, 1, 1);
    assert_eq!(walk(&square(45, 45, 20), single), vec![0]);
    let wide = walk(&square(150, 150, 1000), GridInfo::new(30, 10, 10));
    assert_eq!(wide, (0..100).collect::<Vec<i128>>());
}
