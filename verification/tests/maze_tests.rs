use mazegen::{build_level, generate, Cell, ConfigError, Direction, Grid, RandomSource};

fn open_pair_count(g: &Grid) -> usize {
    let mut n = 0;
    for r in 0..g.height {
        for c in 0..g.width {
            let cell = g.cell(r, c);
            if r + 1 < g.height && !cell.south {
                n += 1;
            }
            if c + 1 < g.width && !cell.east {
                n += 1;
            }
        }
    }
    n
}

fn check_symmetric(g: &Grid) {
    for r in 0..g.height {
        for c in 0..g.width {
            let cell = g.cell(r, c);
            if r + 1 < g.height {
                assert_eq!(cell.south, g.cell(r + 1, c).north);
            }
            if c + 1 < g.width {
                assert_eq!(cell.east, g.cell(r, c + 1).west);
            }
        }
    }
}

fn check_boundary_closed(g: &Grid) {
    for r in 0..g.height {
        for c in 0..g.width {
            let cell = g.cell(r, c);
            if r == 0 {
                assert!(cell.north);
            }
            if r == g.height - 1 {
                assert!(cell.south);
            }
            if c == 0 {
                assert!(cell.west);
            }
            if c == g.width - 1 {
                assert!(cell.east);
            }
        }
    }
}

fn flood_count(g: &Grid) -> usize {
    let mut seen = vec![false; g.width * g.height];
    let mut queue = vec![(0usize, 0usize)];
    seen[0] = true;
    let mut count = 1;
    while let Some((r, c)) = queue.pop() {
        let cell = g.cell(r, c);
        let mut nexts: Vec<(usize, usize)> = Vec::new();
        if r >= 1 && !cell.north {
            nexts.push((r - 1, c));
        }
        if r + 1 < g.height && !cell.south {
            nexts.push((r + 1, c));
        }
        if c >= 1 && !cell.west {
            nexts.push((r, c - 1));
        }
        if c + 1 < g.width && !cell.east {
            nexts.push((r, c + 1));
        }
        for (r2, c2) in nexts {
            let i = r2 * g.width + c2;
            if !seen[i] {
                seen[i] = true;
                count += 1;
                queue.push((r2, c2));
            }
        }
    }
    count
}

fn canonical_wall_total(g: &Grid) -> usize {
    let mut n = 0;
    for r in 0..g.height {
        for c in 0..g.width {
            let cell = g.cell(r, c);
            if r == 0 && cell.north {
                n += 1;
            }
            if cell.south {
                n += 1;
            }
            if c == 0 && cell.west {
                n += 1;
            }
            if cell.east {
                n += 1;
            }
        }
    }
    n
}

#[test]
fn direction_opposites_pair_up() {
    assert_eq!(Direction::North.opposite(), Direction::South);
    assert_eq!(Direction::South.opposite(), Direction::North);
    assert_eq!(Direction::West.opposite(), Direction::East);
    assert_eq!(Direction::East.opposite(), Direction::West);
}

#[test]
fn fresh_cell_has_all_walls() {
    let cell = Cell::new();
    assert!(!cell.visited);
    assert!(cell.wall(Direction::North));
    assert!(cell.wall(Direction::South));
    assert!(cell.wall(Direction::West));
    assert!(cell.wall(Direction::East));
}

#[test]
fn fresh_grid_neighbors_in_order() {
    let g = Grid::new(2, 2);
    let nbs = g.check_neighbors(0, 0);
    assert_eq!(nbs.len(), 2);
    assert_eq!((nbs[0].row, nbs[0].col, nbs[0].dir), (1, 0, Direction::South));
    assert_eq!((nbs[1].row, nbs[1].col, nbs[1].dir), (0, 1, Direction::East));
    let nbs = g.check_neighbors(1, 1);
    assert_eq!(nbs.len(), 2);
    assert_eq!((nbs[0].row, nbs[0].col, nbs[0].dir), (0, 1, Direction::North));
    assert_eq!((nbs[1].row, nbs[1].col, nbs[1].dir), (1, 0, Direction::West));
}

#[test]
fn scripted_source_replays_values() {
    let mut s = RandomSource::scripted(vec![5, 10, 3]);
    assert_eq!(s.next_index(4), 1);
    assert_eq!(s.next_index(4), 2);
    assert_eq!(s.next_index(2), 1);
    assert_eq!(s.next_index(7), 0);
    assert_eq!(s.next_index(7), 0);
}

#[test]
fn zero_dimension_is_rejected() {
    let mut s = RandomSource::scripted(vec![]);
    assert_eq!(generate(0, 5, &mut s), Err(ConfigError::ZeroDimension));
    assert_eq!(generate(5, 0, &mut s), Err(ConfigError::ZeroDimension));
    assert_eq!(generate(0, 0, &mut s), Err(ConfigError::ZeroDimension));
}

#[test]
fn one_by_one_grid_keeps_all_walls() {
    let mut s = RandomSource::scripted(vec![]);
    let g = generate(1, 1, &mut s).unwrap();
    assert_eq!((g.width, g.height), (1, 1));
    let cell = g.cell(0, 0);
    assert!(cell.visited);
    assert!(cell.north && cell.south && cell.west && cell.east);
    assert_eq!(open_pair_count(&g), 0);
}

#[test]
fn one_by_one_level_geometry() {
    let mut s = RandomSource::scripted(vec![]);
    let g = generate(1, 1, &mut s).unwrap();
    let boxes = build_level(&g, 2000, 100, 1500);
    // four walls, one floor, one goal sensor
    assert_eq!(boxes.len(), 6);
    let floor = boxes[0];
    assert!(floor.solid);
    assert_eq!(
        (floor.half_extents.x, floor.half_extents.y, floor.half_extents.z),
        (2200, 100, 2200)
    );
    assert_eq!((floor.center.x, floor.center.y, floor.center.z), (2000, -100, 2000));
    let goal = boxes[1];
    assert!(!goal.solid);
    assert_eq!((goal.half_extents.x, goal.half_extents.y, goal.half_extents.z), (2000, 1500, 2000));
    // the sensor sits over the single cell's footprint center
    assert_eq!((goal.center.x, goal.center.y, goal.center.z), (2000, 1500, 2000));
    // walls in North, South, West, East order around that cell
    let north = boxes[2];
    assert_eq!((north.center.x, north.center.y, north.center.z), (2000, 1500, -100));
    assert_eq!((north.half_extents.x, north.half_extents.y, north.half_extents.z), (2200, 1500, 100));
    let south = boxes[3];
    assert_eq!((south.center.x, south.center.y, south.center.z), (2000, 1500, 4100));
    let west = boxes[4];
    assert_eq!((west.center.x, west.center.y, west.center.z), (-100, 1500, 2000));
    assert_eq!((west.half_extents.x, west.half_extents.y, west.half_extents.z), (100, 1500, 2200));
    let east = boxes[5];
    assert_eq!((east.center.x, east.center.y, east.center.z), (4100, 1500, 2000));
    for b in &boxes[2..] {
        assert!(b.solid);
    }
}

#[test]
fn two_by_one_grid_opens_the_only_pair() {
    let mut s = RandomSource::scripted(vec![7]);
    let g = generate(2, 1, &mut s).unwrap();
    let left = g.cell(0, 0);
    let right = g.cell(0, 1);
    // the single possible passage is open from both sides
    assert!(!left.east);
    assert!(!right.west);
    // the other six wall flags are untouched
    assert!(left.north && left.south && left.west);
    assert!(right.north && right.south && right.east);
    assert_eq!(open_pair_count(&g), 1);
    assert!(left.visited && right.visited);
}

#[test]
fn fixed_seed_four_by_four_is_reproducible() {
    let values: Vec<u64> = vec![
        3, 1, 4, 1, 5, 9, 2, 6, 5, 3, 5, 8, 9, 7, 9, 3, 2, 3, 8, 4, 6, 2, 6, 4, 3, 3, 8, 3, 2, 7,
        9, 5,
    ];
    let mut s1 = RandomSource::scripted(values.clone());
    let mut s2 = RandomSource::scripted(values);
    let g1 = generate(4, 4, &mut s1).unwrap();
    let g2 = generate(4, 4, &mut s2).unwrap();
    // bit-identical walls from the same random sequence
    assert_eq!(g1, g2);
    // a spanning tree of the 16 cells: 15 open passages, all connected
    assert_eq!(open_pair_count(&g1), 15);
    assert_eq!(flood_count(&g1), 16);
    check_symmetric(&g1);
    check_boundary_closed(&g1);
}

#[test]
fn different_seeds_generally_differ() {
    let mut s1 = RandomSource::scripted(vec![0; 40]);
    let mut s2 = RandomSource::scripted(vec![1; 40]);
    let g1 = generate(3, 3, &mut s1).unwrap();
    let g2 = generate(3, 3, &mut s2).unwrap();
    // both are spanning trees either way
    assert_eq!(open_pair_count(&g1), 8);
    assert_eq!(open_pair_count(&g2), 8);
    assert_ne!(g1, g2);
}

#[test]
fn external_source_builds_a_perfect_maze() {
    let mut s = RandomSource::external();
    let g = generate(8, 8, &mut s).unwrap();
    assert_eq!((g.width, g.height), (8, 8));
    for r in 0..8 {
        for c in 0..8 {
            assert!(g.cell(r, c).visited);
        }
    }
    check_symmetric(&g);
    check_boundary_closed(&g);
    assert_eq!(open_pair_count(&g), 63);
    assert_eq!(flood_count(&g), 64);
}

#[test]
fn corridor_grid_opens_a_single_file_of_passages() {
    let mut s = RandomSource::scripted(vec![2, 7, 1, 8, 2, 8]);
    let g = generate(1, 5, &mut s).unwrap();
    // a 1-wide corridor has only vertical passages: all four must open
    assert_eq!(open_pair_count(&g), 4);
    for r in 0..5 {
        let cell = g.cell(r, 0);
        assert!(cell.west && cell.east);
        assert_eq!(cell.north, r == 0);
        assert_eq!(cell.south, r == 4);
    }
    check_boundary_closed(&g);
}

#[test]
fn largest_observed_grid_is_a_spanning_tree() {
    let mut s = RandomSource::external();
    let g = generate(32, 32, &mut s).unwrap();
    check_symmetric(&g);
    check_boundary_closed(&g);
    assert_eq!(open_pair_count(&g), 1023);
    assert_eq!(flood_count(&g), 1024);
}

#[test]
fn geometry_count_matches_remaining_walls() {
    let mut s = RandomSource::scripted(vec![
        3, 1, 4, 1, 5, 9, 2, 6, 5, 3, 5, 8, 9, 7, 9, 3, 2, 3, 8, 4, 6, 2, 6, 4, 3, 3, 8, 3, 2, 7,
        9, 5,
    ]);
    let g = generate(4, 4, &mut s).unwrap();
    let boxes = build_level(&g, 2000, 100, 1500);
    assert_eq!(boxes.len(), 2 + canonical_wall_total(&g));
    // exactly one non-solid box: the goal sensor, right after the floor
    let sensors = boxes.iter().filter(|b| !b.solid).count();
    assert_eq!(sensors, 1);
    assert!(!boxes[1].solid);
    // the floor spans the whole 4x4 footprint
    let floor = boxes[0];
    assert_eq!(
        (floor.half_extents.x, floor.half_extents.y, floor.half_extents.z),
        (8500, 100, 8500)
    );
    assert_eq!((floor.center.x, floor.center.y, floor.center.z), (8300, -100, 8300));
    // the goal sensor sits over the far corner cell (3, 3)
    let goal = boxes[1];
    assert_eq!((goal.center.x, goal.center.y, goal.center.z), (14600, 1500, 14600));
}

#[test]
fn geometry_of_two_by_one_grid() {
    let mut s = RandomSource::scripted(vec![0]);
    let g = generate(2, 1, &mut s).unwrap();
    let boxes = build_level(&g, 2000, 100, 1500);
    // six remaining walls, one floor, one goal
    assert_eq!(boxes.len(), 8);
    // no box is emitted for the opened pair between the two cells
    for b in &boxes[2..] {
        assert!(b.solid);
        assert_ne!((b.center.x, b.center.z), (4100, 2000));
    }
}
