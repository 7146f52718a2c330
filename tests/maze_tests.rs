use maze_carver::generator::{breadth_first_search, depth_first_search, kruskal};
use maze_carver::maze::{walled_maze, Change, Maze, Wall};
use maze_carver::solver::{a_star, depth_first_search as dfs_solver, SolveError};
use maze_carver::text::ParsingError;
use rand::rngs::StdRng;
use rand::SeedableRng;

fn text(s: &str) -> Vec<char> {
    s.chars().collect()
}

fn generate_with(kind: usize, rows: u16, columns: u16, seed: u64) -> Maze {
    let mut rng = StdRng::seed_from_u64(seed);
    match kind {
        0 => depth_first_search::generate_instant(rows, columns, &mut rng),
        1 => breadth_first_search::generate_instant(rows, columns, &mut rng),
        _ => kruskal::generate_instant(rows, columns, &mut rng),
    }
}

/// Counts the open units between cells, read from the frame.
fn open_separators(m: &Maze) -> usize {
    let mut n = 0;
    for fy in 1..=m.rows() {
        for fx in 1..2 * m.columns() {
            let vertical = fx % 2 == 0;
            if !vertical && fy == m.rows() {
                continue;
            }
            match (vertical, m.get_wall(fx, fy)) {
                (true, Wall::Vertical) => {}
                (true, _) => n += 1,
                (false, Wall::Open(_)) => n += 1,
                (false, _) => {}
            }
        }
    }
    n
}

/// Counts the cells reachable from the entrance.
fn reachable(m: &Maze) -> usize {
    let (rows, columns) = (m.rows() as usize, m.columns() as usize);
    let mut seen = vec![vec![false; columns]; rows];
    let mut todo = vec![(0u16, 0u16)];
    seen[0][0] = true;
    let mut n = 0;
    while let Some(c) = todo.pop() {
        n += 1;
        for d in 0..4u8 {
            if let Some(nb) = m.neighbor(c, d) {
                if m.is_passable(c, nb) && !seen[nb.1 as usize][nb.0 as usize] {
                    seen[nb.1 as usize][nb.0 as usize] = true;
                    todo.push(nb);
                }
            }
        }
    }
    n
}

fn frame_text(m: &Maze) -> String {
    m.to_text().into_iter().collect()
}

#[test]
fn generated_mazes_are_spanning_trees() {
    for kind in 0..3 {
        for &(rows, columns) in &[(1u16, 1u16), (1, 7), (6, 1), (2, 2), (7, 9), (16, 48)] {
            let m = generate_with(kind, rows, columns, 11);
            let cells = rows as usize * columns as usize;
            assert_eq!(open_separators(&m), cells - 1, "kind {kind}, {rows}x{columns}");
            assert_eq!(reachable(&m), cells, "kind {kind}, {rows}x{columns}");
        }
    }
}

#[test]
fn generation_keeps_entrance_and_exit() {
    for kind in 0..3 {
        let m = generate_with(kind, 5, 6, 3);
        assert_eq!(m.get_wall(1, 0), Wall::Open(' '));
        assert_eq!(m.get_wall(11, 5), Wall::Open(' '));
        assert_eq!(m.get_wall(0, 3), Wall::Vertical);
        assert_eq!(m.get_wall(12, 3), Wall::Vertical);
        assert_eq!(m.get_wall(4, 0), Wall::Horizontal(' '));
    }
}

#[test]
fn same_seed_gives_same_maze() {
    for kind in 0..3 {
        let a = generate_with(kind, 12, 20, 42);
        let b = generate_with(kind, 12, 20, 42);
        assert_eq!(frame_text(&a), frame_text(&b));
    }
}

#[test]
fn different_seeds_give_different_mazes() {
    for kind in 0..3 {
        let a = generate_with(kind, 10, 10, 1);
        let b = generate_with(kind, 10, 10, 2);
        assert_ne!(frame_text(&a), frame_text(&b), "kind {kind}");
    }
}

#[test]
fn recorded_and_instant_generation_agree() {
    let mut rng = StdRng::seed_from_u64(5);
    let (m, log) = depth_first_search::generate(8, 9, &mut rng);
    let mut rng = StdRng::seed_from_u64(5);
    let plain = depth_first_search::generate_instant(8, 9, &mut rng);
    assert_eq!(frame_text(&m), frame_text(&plain));
    let opened = log.iter().filter(|c| matches!(c, Change::WallOpened(_, _))).count();
    assert_eq!(opened, 8 * 9 - 1);

    let mut rng = StdRng::seed_from_u64(6);
    let (m, log) = breadth_first_search::generate(8, 9, &mut rng);
    let mut rng = StdRng::seed_from_u64(6);
    let plain = breadth_first_search::generate_instant(8, 9, &mut rng);
    assert_eq!(frame_text(&m), frame_text(&plain));
    let opened = log.iter().filter(|c| matches!(c, Change::WallOpened(_, _))).count();
    assert_eq!(opened, 8 * 9 - 1);

    let mut rng = StdRng::seed_from_u64(7);
    let (m, log) = kruskal::generate(8, 9, &mut rng);
    let mut rng = StdRng::seed_from_u64(7);
    let plain = kruskal::generate_instant(8, 9, &mut rng);
    assert_eq!(frame_text(&m), frame_text(&plain));
    assert_eq!(log.len(), 8 * 9 - 1);
}

#[test]
fn depth_first_log_marks_and_clears_cells() {
    let mut rng = StdRng::seed_from_u64(9);
    let (_, log) = depth_first_search::generate(1, 2, &mut rng);
    assert_eq!(
        log,
        vec![
            Change::WallOpened(2, 1),
            Change::OverlaySet(1, 1, '\u{2192}'),
            Change::OverlayCleared(3, 1),
            Change::OverlayCleared(1, 1),
        ]
    );
}

#[test]
fn both_solvers_find_paths_of_equal_length() {
    for kind in 0..3 {
        for seed in 0..4 {
            let m = generate_with(kind, 9, 13, seed);
            let (p, _) = dfs_solver::solve(&m, false).unwrap();
            let (q, _) = a_star::solve(&m, false).unwrap();
            assert_eq!(p.len(), q.len());
            assert_eq!(p, q);
            assert_eq!(p[0], (0, 0));
            assert_eq!(*p.last().unwrap(), (12, 8));
            for w in p.windows(2) {
                assert!(m.is_passable(w[0], w[1]));
            }
        }
    }
}

#[test]
fn one_by_one_maze() {
    let m = Maze::new_walled(1, 1);
    assert!(kruskal::all_separators(1, 1).is_empty());
    assert_eq!(open_separators(&m), 0);
    assert_eq!(m.get_start(), (0, 0));
    assert_eq!(m.get_end(), (0, 0));
    for kind in 0..3 {
        let g = generate_with(kind, 1, 1, 0);
        assert_eq!(open_separators(&g), 0);
        let (p, _) = dfs_solver::solve(&g, false).unwrap();
        assert_eq!(p, vec![(0, 0)]);
        let (q, _) = a_star::solve(&g, false).unwrap();
        assert_eq!(q, vec![(0, 0)]);
    }
}

#[test]
fn two_by_two_has_three_openings() {
    for kind in 0..3 {
        for seed in 0..5 {
            assert_eq!(open_separators(&generate_with(kind, 2, 2, seed)), 3);
        }
    }
}

#[test]
fn kruskal_skips_the_edge_that_closes_the_cycle() {
    // The separators of a 2x2 maze: top (between the upper cells), left,
    // right and bottom. They are taken from the end of the list.
    let order = vec![(2u16, 1u16), (1, 1), (3, 1), (2, 2)];
    let (m, log) = kruskal::generate_from_order(2, 2, &order, true);
    assert_eq!(
        log,
        vec![Change::WallOpened(2, 2), Change::WallOpened(3, 1), Change::WallOpened(1, 1)]
    );
    assert_eq!(m.get_wall(2, 1), Wall::Vertical);
    assert_eq!(open_separators(&m), 3);
    assert_eq!(reachable(&m), 4);
}

#[test]
fn all_separators_of_a_small_maze() {
    let mut s = kruskal::all_separators(2, 3);
    s.sort();
    assert_eq!(s, vec![(1, 1), (2, 1), (2, 2), (3, 1), (4, 1), (4, 2), (5, 1)]);
}

#[test]
fn walled_frame_of_three_by_three() {
    let h = Wall::Horizontal(' ');
    let v = Wall::Vertical;
    let n = Wall::Open(' ');
    let expected = vec![
        vec![h, n, h, h, h, h, h],
        vec![v, h, v, h, v, h, v],
        vec![v, h, v, h, v, h, v],
        vec![v, h, v, h, v, n, v],
    ];
    assert_eq!(walled_maze(3, 3), expected);
    let m = Maze::new_walled(3, 3);
    for (fy, row) in expected.iter().enumerate() {
        for (fx, w) in row.iter().enumerate() {
            assert_eq!(m.get_wall(fx as u16, fy as u16), *w);
        }
    }
    assert_eq!(frame_text(&m), "_ _____\n|_|_|_|\n|_|_|_|\n|_|_| |\n");
}

#[test]
fn set_wall_and_open() {
    let mut m = Maze::new_walled(2, 2);
    assert!(!m.is_passable((0, 0), (1, 0)));
    m.open((0, 0), (1, 0));
    assert_eq!(m.get_wall(2, 1), Wall::Horizontal(' '));
    assert!(m.is_passable((1, 0), (0, 0)));
    m.open((1, 0), (1, 1));
    assert_eq!(m.get_wall(3, 1), Wall::Open(' '));
    assert_eq!(m.wall_between((1, 1), (1, 0)), (3, 1));
    m.set_wall(3, 1, Wall::Open('x'));
    assert_eq!(m.get_wall(3, 1), Wall::Open('x'));
    assert_eq!(Wall::Horizontal(' ').with_char('*'), Wall::Horizontal('*'));
    assert_eq!(Wall::Vertical.with_char('*'), Wall::Vertical);
}

#[test]
fn neighbors_stay_in_bounds() {
    let m = Maze::new_walled(2, 3);
    assert_eq!(m.neighbor((0, 0), 0), None);
    assert_eq!(m.neighbor((0, 0), 1), Some((1, 0)));
    assert_eq!(m.neighbor((0, 0), 2), None);
    assert_eq!(m.neighbor((0, 0), 3), Some((0, 1)));
    assert_eq!(m.neighbor((2, 1), 1), None);
    assert_eq!(m.neighbor((2, 1), 3), None);
    assert_eq!(m.neighbor((2, 1), 0), Some((1, 1)));
}

#[test]
fn neighbor_lists() {
    let m = Maze::new_walled(3, 3);
    assert_eq!(m.neighbors((0, 0)), vec![(1, 0), (0, 1)]);
    assert_eq!(m.neighbors((1, 1)), vec![(0, 1), (2, 1), (1, 0), (1, 2)]);
    assert_eq!(m.neighbors((2, 2)), vec![(1, 2), (2, 1)]);
    assert!(Maze::new_walled(1, 1).neighbors((0, 0)).is_empty());
}

#[test]
fn text_round_trip() {
    for kind in 0..3 {
        let m = generate_with(kind, 6, 8, 21);
        let t = m.to_text();
        let back = Maze::parse(&t).unwrap();
        assert_eq!(back.rows(), 6);
        assert_eq!(back.columns(), 8);
        assert_eq!(frame_text(&back), frame_text(&m));
        for fy in 0..7u16 {
            for fx in 0..17u16 {
                assert_eq!(back.get_wall(fx, fy), m.get_wall(fx, fy));
            }
        }
    }
}

#[test]
fn parse_reads_lines_like_str_lines() {
    let m = Maze::parse(&text("_ ___\r\n|_  |\r\n|___ |\n")).unwrap_err();
    assert_eq!(m, ParsingError::VaryingRowLengths(3));
    let m = Maze::parse(&text("_ ___\r\n|_  |\r\n|__ |")).unwrap();
    assert_eq!(m.rows(), 2);
    assert_eq!(m.columns(), 2);
    assert_eq!(m.get_wall(3, 1), Wall::Open(' '));
    assert_eq!(m.get_wall(1, 2), Wall::Horizontal(' '));
    let (p, _) = dfs_solver::solve(&m, false).unwrap();
    assert_eq!(p, vec![(0, 0), (1, 0), (1, 1)]);
}

#[test]
fn parse_errors() {
    assert_eq!(Maze::parse(&text("")).unwrap_err(), ParsingError::NotEnoughRows);
    assert_eq!(Maze::parse(&text("_ _\n")).unwrap_err(), ParsingError::NotEnoughRows);
    assert_eq!(Maze::parse(&text("_ \n| \n")).unwrap_err(), ParsingError::NotEnoughColumns);
    assert_eq!(Maze::parse(&text("_ __\n|  |\n")).unwrap_err(), ParsingError::EvenNumberOfColumns);
    assert_eq!(
        Maze::parse(&text("_ _\n|_|\n| \n")).unwrap_err(),
        ParsingError::VaryingRowLengths(3)
    );
    assert_eq!(
        Maze::parse(&text("_ _\n|x|\n|_|\n")).unwrap_err(),
        ParsingError::BadCharacter(2, 2, 'x')
    );
    let long: Vec<char> = std::iter::repeat('_').take(65537).collect();
    let mut t = long.clone();
    t.push('\n');
    t.extend(long);
    assert_eq!(Maze::parse(&t).unwrap_err(), ParsingError::TooManyColumns);
    let mut many = Vec::new();
    for _ in 0..65536 {
        many.extend("_ _\n".chars());
    }
    assert_eq!(Maze::parse(&many).unwrap_err(), ParsingError::TooManyRows);
}

#[test]
fn solvers_report_a_maze_without_path() {
    let m = Maze::parse(&text("_ ___\n|_|_|\n|_|_ \n")).unwrap();
    assert_eq!(dfs_solver::solve(&m, false).unwrap_err(), SolveError::NoPath);
    assert_eq!(a_star::solve(&m, false).unwrap_err(), SolveError::NoPath);
}

#[test]
fn solver_traces() {
    let m = Maze::parse(&text("_ ___\n|_  |\n|__ |\n")).unwrap();
    let (p, log) = dfs_solver::solve(&m, true).unwrap();
    assert_eq!(p, vec![(0, 0), (1, 0), (1, 1)]);
    assert_eq!(
        log,
        vec![
            Change::OverlaySet(1, 1, '\u{b7}'),
            Change::OverlaySet(3, 1, '\u{b7}'),
            Change::OverlaySet(3, 2, '\u{b7}'),
            Change::OverlaySet(1, 1, '\u{2192}'),
            Change::OverlaySet(3, 1, '\u{2193}'),
            Change::OverlaySet(3, 2, '\u{2193}'),
        ]
    );
    let (q, log) = a_star::solve(&m, true).unwrap();
    assert_eq!(q, p);
    assert_eq!(log.len(), 5);
}

#[test]
fn a_star_prefers_the_cell_closer_to_the_exit() {
    // An open 2x3 field: from (0, 0) both (1, 0) and (0, 1) are three steps
    // from the exit; ties go to the lower column, so the path turns down.
    let m = Maze::parse(&text("_ _____\n|     |\n|_____ \n")).unwrap();
    let (q, _) = a_star::solve(&m, false).unwrap();
    assert_eq!(q.len(), 4);
    assert_eq!(q, vec![(0, 0), (0, 1), (1, 1), (2, 1)]);
}

#[test]
fn manhattan_distance() {
    assert_eq!(a_star::distance((0, 0), (0, 0)), 0);
    assert_eq!(a_star::distance((3, 1), (0, 5)), 7);
    assert_eq!(a_star::distance((32766, 0), (0, 65534)), 98300);
}

#[test]
fn arrows_point_to_the_next_cell() {
    assert_eq!(dfs_solver::arrow((1, 1), (2, 1)), '\u{2192}');
    assert_eq!(dfs_solver::arrow((1, 1), (0, 1)), '\u{2190}');
    assert_eq!(dfs_solver::arrow((1, 1), (1, 2)), '\u{2193}');
    assert_eq!(dfs_solver::arrow((1, 1), (1, 0)), '\u{2191}');
}
