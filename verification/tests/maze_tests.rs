use maze::builder::{clean_up_maze_after_algorith, initial_maze_grid_maker};
use maze::cell::{Cell, Character, KeyInput, MoveResult, NodeState, UserOptions, WallState};
use maze::checks::{is_framed, move_stays_inside};
use maze::game::generate_maze;
use maze::generator::{carve_in_orders, count_empty_nodes, maze_generator};
use maze::menu::{menu_step, MenuAction};
use maze::picker::{nth_empty_cell, random_cell_picker};
use maze::player::move_player;
use maze::render::{render_maze, Glyph};
use maze::scan::{first_position_of, last_position_of};
use maze::setup::{place_start_and_end, set_up_maze_for_solve};
use maze::solve::{solve_maze, Frame};
use maze::solver::{amount_of_walls_next_to_any_given_cell, calculate_heuristic_score_for_position};

const C: Cell = Cell::Wall(WallState::Closed);
const O: Cell = Cell::Wall(WallState::Open);
const P: Cell = Cell::Wall(WallState::Passed);
const E: Cell = Cell::Node(NodeState::Empty);
const V: Cell = Cell::Node(NodeState::Visited);
const S: Cell = Cell::Node(NodeState::StartPoint);
const END: Cell = Cell::Node(NodeState::EndPoint);
const PL: Cell = Cell::Character(Character::Player);
const CO: Cell = Cell::Character(Character::Computer);

fn count(maze: &Vec<Vec<Cell>>, c: Cell) -> usize {
    maze.iter().map(|r| r.iter().filter(|x| **x == c).count()).sum()
}

/// Cells reachable from `start` through open walls, by breadth-first search.
fn reachable(maze: &Vec<Vec<Cell>>, start: (usize, usize)) -> Vec<Vec<bool>> {
    let h = maze.len();
    let w = maze[0].len();
    let mut seen = vec![vec![false; w]; h];
    let mut queue = vec![start];
    seen[start.0][start.1] = true;
    while let Some((y, x)) = queue.pop() {
        let steps: [(isize, isize); 4] = [(-2, 0), (2, 0), (0, -2), (0, 2)];
        for (dy, dx) in steps {
            let ny = y as isize + dy;
            let nx = x as isize + dx;
            if ny < 0 || nx < 0 || ny as usize >= h || nx as usize >= w {
                continue;
            }
            let (ny, nx) = (ny as usize, nx as usize);
            let my = (y + ny) / 2;
            let mx = (x + nx) / 2;
            if maze[my][mx] == O && !seen[ny][nx] {
                seen[ny][nx] = true;
                queue.push((ny, nx));
            }
        }
    }
    seen
}

fn grid_a() -> Vec<Vec<Cell>> {
    vec![
        vec![C, C, C, C, C],
        vec![C, E, O, E, C],
        vec![C, O, C, O, C],
        vec![C, E, O, E, END],
        vec![C, C, C, C, C],
    ]
}

fn replay(start: &Vec<Vec<Cell>>, frames: &[Frame]) -> Vec<Vec<Cell>> {
    let mut m = start.clone();
    for f in frames {
        m[f.y][f.x] = f.cell;
    }
    m
}

#[test]
fn fresh_grid_has_walls_on_even_rows_and_columns() {
    let maze = initial_maze_grid_maker(2, 1);
    assert_eq!(
        maze,
        vec![
            vec![C, C, C, C, C],
            vec![C, E, C, E, C],
            vec![C, C, C, C, C],
        ]
    );
    assert!(is_framed(&maze));
}

#[test]
fn clean_up_turns_visited_nodes_into_empty_ones() {
    let maze = vec![vec![C, C, C], vec![C, V, P], vec![C, C, C]];
    let cleaned = clean_up_maze_after_algorith(maze);
    assert_eq!(cleaned, vec![vec![C, C, C], vec![C, E, P], vec![C, C, C]]);
}

#[test]
fn nth_empty_cell_counts_in_row_major_order() {
    let maze = initial_maze_grid_maker(2, 2);
    assert_eq!(nth_empty_cell(&maze, 1), (1, 1));
    assert_eq!(nth_empty_cell(&maze, 2), (1, 3));
    assert_eq!(nth_empty_cell(&maze, 3), (3, 1));
    assert_eq!(nth_empty_cell(&maze, 4), (3, 3));
    assert_eq!(nth_empty_cell(&maze, 5), (0, 0));
    assert_eq!(nth_empty_cell(&maze, 0), (0, 0));
}

#[test]
fn random_cell_picker_picks_a_node_of_a_square_grid() {
    let maze = initial_maze_grid_maker(4, 4);
    for _ in 0..50 {
        let (y, x) = random_cell_picker(&maze, 4);
        assert_eq!(maze[y][x], E);
        assert!(y % 2 == 1 && x % 2 == 1);
    }
}

#[test]
fn carving_a_fresh_grid_visits_every_node() {
    for _ in 0..20 {
        let mut maze = initial_maze_grid_maker(6, 4);
        maze_generator(3, 5, &mut maze);
        for y in 0..maze.len() {
            for x in 0..maze[0].len() {
                if y % 2 == 1 && x % 2 == 1 {
                    assert_eq!(maze[y][x], V);
                } else if y % 2 == 0 && x % 2 == 0 {
                    assert_eq!(maze[y][x], C);
                } else {
                    assert!(maze[y][x] == C || maze[y][x] == O);
                }
            }
        }
        // A tree on 24 nodes opens 23 walls.
        assert_eq!(count(&maze, O), 23);
    }
}

#[test]
fn generated_maze_joins_every_two_nodes() {
    for _ in 0..20 {
        let maze = generate_maze(7);
        assert_eq!(maze.len(), 15);
        assert!(maze.iter().all(|r| r.len() == 15));
        assert!(is_framed(&maze));
        let seen = reachable(&maze, (1, 1));
        for y in 0..15 {
            for x in 0..15 {
                if y % 2 == 1 && x % 2 == 1 {
                    assert_eq!(maze[y][x], E);
                    assert!(seen[y][x]);
                } else if y % 2 == 0 && x % 2 == 0 {
                    assert_eq!(maze[y][x], C);
                }
            }
        }
    }
}

#[test]
fn generated_maze_opens_one_wall_fewer_than_it_has_nodes() {
    for size in 1..8 {
        let maze = generate_maze(size);
        assert_eq!(count(&maze, O), size * size - 1);
        let fresh = initial_maze_grid_maker(size, size);
        let differ: usize = (0..maze.len())
            .map(|y| (0..maze[y].len()).filter(|&x| maze[y][x] != fresh[y][x]).count())
            .sum();
        assert_eq!(differ, size * size - 1);
        let last = 2 * size;
        for y in 0..=last {
            assert_eq!(maze[y][0], C);
            assert_eq!(maze[y][last], C);
            assert_eq!(maze[0][y], C);
            assert_eq!(maze[last][y], C);
        }
    }
}

fn root(parent: &mut Vec<usize>, mut i: usize) -> usize {
    while parent[i] != i {
        i = parent[i];
    }
    i
}

#[test]
fn carve_in_orders_follows_the_given_orders() {
    let mut maze = initial_maze_grid_maker(2, 2);
    let orders = vec![vec![3, 1, 0, 2]; 4];
    let mut next = 0;
    carve_in_orders(1, 1, &mut maze, &orders, &mut next);
    assert_eq!(next, 4);
    assert_eq!(
        maze,
        vec![
            vec![C, C, C, C, C],
            vec![C, V, O, V, C],
            vec![C, C, C, O, C],
            vec![C, V, O, V, C],
            vec![C, C, C, C, C],
        ]
    );
    let mut maze = initial_maze_grid_maker(2, 2);
    let orders = vec![vec![1, 3, 0, 2]; 4];
    let mut next = 0;
    carve_in_orders(1, 1, &mut maze, &orders, &mut next);
    assert_eq!(next, 4);
    assert_eq!(
        maze,
        vec![
            vec![C, C, C, C, C],
            vec![C, V, C, V, C],
            vec![C, O, C, O, C],
            vec![C, V, O, V, C],
            vec![C, C, C, C, C],
        ]
    );
}

#[test]
fn count_empty_nodes_counts_the_nodes_of_a_fresh_grid() {
    assert_eq!(count_empty_nodes(&initial_maze_grid_maker(3, 2)), 6);
    assert_eq!(count_empty_nodes(&grid_a()), 4);
}

#[test]
fn generated_maze_has_no_cycle() {
    for size in 1..9 {
        let maze = generate_maze(size);
        let n = 2 * size + 1;
        let mut parent: Vec<usize> = (0..n * n).collect();
        for y in 0..n {
            for x in 0..n {
                if maze[y][x] != O {
                    continue;
                }
                let (a, b) = if y % 2 == 1 { ((y, x - 1), (y, x + 1)) } else { ((y - 1, x), (y + 1, x)) };
                let ra = root(&mut parent, a.0 * n + a.1);
                let rb = root(&mut parent, b.0 * n + b.1);
                assert_ne!(ra, rb, "an open wall closes a cycle");
                parent[ra] = rb;
            }
        }
    }
}

#[test]
fn place_start_and_end_uses_the_odd_rows_of_the_borders() {
    let maze = initial_maze_grid_maker(2, 2);
    let placed = place_start_and_end(maze, 1, 2, Character::Player);
    assert_eq!(
        placed,
        vec![
            vec![C, C, C, C, C],
            vec![S, PL, C, E, C],
            vec![C, C, C, C, C],
            vec![C, E, C, E, END],
            vec![C, C, C, C, C],
        ]
    );
}

#[test]
fn place_start_and_end_skips_rows_that_do_not_exist() {
    let maze = initial_maze_grid_maker(1, 1);
    let placed = place_start_and_end(maze.clone(), 2, 3, Character::Computer);
    assert_eq!(placed, maze);
}

#[test]
fn set_up_maze_for_solve_places_one_start_and_one_end() {
    for _ in 0..50 {
        let maze = generate_maze(5);
        let maze = set_up_maze_for_solve(maze, 5, Character::Computer);
        assert_eq!(count(&maze, S), 1);
        assert_eq!(count(&maze, END), 1);
        assert_eq!(count(&maze, CO), 1);
        let (sy, sx) = first_position_of(&maze, S).unwrap();
        let (ey, ex) = first_position_of(&maze, END).unwrap();
        assert_eq!(sx, 0);
        assert_eq!(ex, 10);
        assert!(sy % 2 == 1 && ey % 2 == 1 && sy != ey);
        assert_eq!(maze[sy][1], CO);
    }
}

#[test]
fn amount_of_walls_counts_closed_neighbours() {
    let maze = initial_maze_grid_maker(2, 2);
    assert_eq!(amount_of_walls_next_to_any_given_cell(1, 1, &maze), 4);
    let maze = grid_a();
    assert_eq!(amount_of_walls_next_to_any_given_cell(1, 1, &maze), 2);
    assert_eq!(amount_of_walls_next_to_any_given_cell(3, 3, &maze), 1);
}

#[test]
fn heuristic_keeps_the_order_up_down_left_right_on_equal_scores() {
    let maze = grid_a();
    // Both neighbours lie three steps from the end point at row 3, column 4.
    assert_eq!(calculate_heuristic_score_for_position(1, 1, &maze), vec![(1, 3), (3, 1)]);
}

#[test]
fn heuristic_puts_the_neighbour_closer_to_the_end_first() {
    let mut maze = grid_a();
    maze[3][4] = C;
    maze[1][4] = END;
    assert_eq!(calculate_heuristic_score_for_position(1, 1, &maze), vec![(3, 1), (1, 3)]);
}

#[test]
fn heuristic_skips_dead_ends_and_closed_walls() {
    let mut maze = grid_a();
    maze[3][2] = C;
    // (row 3, column 1) now has three closed walls around it; the way right is open.
    assert_eq!(calculate_heuristic_score_for_position(1, 1, &maze), vec![(3, 1)]);
    maze[1][2] = C;
    assert_eq!(calculate_heuristic_score_for_position(1, 1, &maze), Vec::<(usize, usize)>::new());
}

#[test]
fn last_position_of_finds_the_last_match() {
    let maze = grid_a();
    assert_eq!(last_position_of(&maze, E), (3, 3));
    assert_eq!(last_position_of(&maze, END), (3, 4));
    assert_eq!(last_position_of(&maze, PL), (0, 0));
    assert_eq!(first_position_of(&maze, E), Some((1, 1)));
    assert_eq!(first_position_of(&maze, PL), None);
}

#[test]
fn solve_maze_marks_the_way_to_the_end() {
    let mut maze = grid_a();
    maze[1][1] = CO;
    let before = maze.clone();
    let mut frames = Vec::new();
    assert!(solve_maze(1, 1, &mut maze, &mut frames));
    assert_eq!(
        maze,
        vec![
            vec![C, C, C, C, C],
            vec![C, V, O, E, C],
            vec![C, P, C, O, C],
            vec![C, V, P, CO, END],
            vec![C, C, C, C, C],
        ]
    );
    assert_eq!(frames.len(), 6);
    assert_eq!(frames[2], Frame { y: 3, x: 1, cell: CO, pause_ms: 25 });
    assert_eq!(replay(&before, &frames), maze);
}

#[test]
fn solve_maze_stops_at_once_next_to_the_end() {
    let mut maze = grid_a();
    maze[3][3] = CO;
    let before = maze.clone();
    let mut frames = Vec::new();
    assert!(solve_maze(3, 3, &mut maze, &mut frames));
    assert_eq!(maze, before);
    assert!(frames.is_empty());
}

#[test]
fn solve_maze_next_to_the_end_ignores_the_rest_of_the_maze() {
    let mut maze = vec![vec![E, CO, END], vec![E]];
    let before = maze.clone();
    let mut frames = Vec::new();
    assert!(solve_maze(1, 0, &mut maze, &mut frames));
    assert_eq!(maze, before);
    assert!(frames.is_empty());
}

/// The frames come in threes: a try (12, 12, 25 ms) or an undo (12 ms each).
fn paced(frames: &[Frame]) -> bool {
    frames.len() % 3 == 0
        && frames.chunks(3).all(|t| {
            let try_ = t[0].cell == V
                && t[0].pause_ms == 12
                && t[1].cell == P
                && t[1].pause_ms == 12
                && t[2].cell == CO
                && t[2].pause_ms == 25;
            let undo = t[0].pause_ms == 12 && t[1].pause_ms == 12 && t[2].pause_ms == 12 && t[2].cell == E;
            let between = t[1].y == (t[0].y + t[2].y) / 2 && t[1].x == (t[0].x + t[2].x) / 2;
            (try_ || undo) && between
        })
}

#[test]
fn solve_maze_frames_come_in_tries_and_undos() {
    let mut maze = grid_a();
    maze[1][1] = CO;
    let mut frames = Vec::new();
    assert!(solve_maze(1, 1, &mut maze, &mut frames));
    assert!(paced(&frames));
    let mut maze = grid_a();
    maze[3][4] = C;
    maze[1][1] = CO;
    let mut frames = Vec::new();
    assert!(!solve_maze(1, 1, &mut maze, &mut frames));
    assert!(paced(&frames));
    assert_eq!(frames.len() % 6, 0);
}

#[test]
fn failed_solve_leaves_the_maze_as_it_was() {
    let mut maze = grid_a();
    maze[3][4] = C;
    maze[1][1] = CO;
    let before = maze.clone();
    let mut frames = Vec::new();
    assert!(!solve_maze(1, 1, &mut maze, &mut frames));
    assert_eq!(maze, before);
    assert!(!frames.is_empty());
    assert_eq!(replay(&before, &frames), before);
}

#[test]
fn solve_maze_solves_generated_mazes() {
    for _ in 0..20 {
        let maze = generate_maze(8);
        let mut maze = set_up_maze_for_solve(maze, 8, Character::Computer);
        let (y, x) = last_position_of(&maze, CO);
        assert!(is_framed(&maze));
        let before = maze.clone();
        let mut frames = Vec::new();
        assert!(solve_maze(x, y, &mut maze, &mut frames));
        assert_eq!(replay(&before, &frames), maze);
        assert!(paced(&frames));
        let (cy, cx) = last_position_of(&maze, CO);
        assert_eq!(maze[cy][cx + 1], END);
    }
}

fn player_grid() -> Vec<Vec<Cell>> {
    vec![
        vec![C, C, C, C, C],
        vec![S, PL, O, E, C],
        vec![C, C, C, C, C],
        vec![C, E, O, E, END],
        vec![C, C, C, C, C],
    ]
}

#[test]
fn move_player_steps_through_open_walls() {
    let (maze, result) = move_player(KeyInput::Right, player_grid());
    assert_eq!(result, MoveResult::Move);
    assert_eq!(maze[1][1], E);
    assert_eq!(maze[1][3], PL);
    let (maze2, result) = move_player(KeyInput::Char('a'), maze);
    assert_eq!(result, MoveResult::Move);
    assert_eq!(maze2, player_grid());
}

#[test]
fn moves_keep_one_player() {
    let mut maze = player_grid();
    for key in [KeyInput::Right, KeyInput::Down, KeyInput::Left, KeyInput::Up, KeyInput::Char('a'), KeyInput::Esc, KeyInput::Right] {
        let (next, result) = move_player(key, maze);
        assert_ne!(result, MoveResult::Restart);
        assert_eq!(count(&next, PL), 1);
        maze = next;
    }
}

#[test]
fn move_player_refuses_closed_walls_and_borders() {
    for key in [KeyInput::Down, KeyInput::Char('s'), KeyInput::Up, KeyInput::Char('w'), KeyInput::Left, KeyInput::Enter, KeyInput::Char('x'), KeyInput::Other] {
        let (maze, result) = move_player(key, player_grid());
        assert_eq!(result, MoveResult::Invalid);
        assert_eq!(maze, player_grid());
    }
}

#[test]
fn move_player_up_needs_to_stay_below_row_one() {
    let mut grid = player_grid();
    grid[1][1] = E;
    grid[2][1] = O;
    grid[3][1] = PL;
    let (maze, result) = move_player(KeyInput::Up, grid.clone());
    assert_eq!(result, MoveResult::Move);
    assert_eq!(maze[1][1], PL);
    assert_eq!(maze[3][1], E);
    let (back, result) = move_player(KeyInput::Down, maze);
    assert_eq!(result, MoveResult::Move);
    assert_eq!(back, grid);
}

#[test]
fn move_player_finishes_next_to_the_end() {
    let mut grid = player_grid();
    grid[1][1] = E;
    grid[3][3] = PL;
    let (maze, result) = move_player(KeyInput::Char('d'), grid.clone());
    assert_eq!(result, MoveResult::Finished);
    assert_eq!(maze, grid);
}

#[test]
fn move_player_restart_puts_the_player_beside_the_start() {
    let mut grid = player_grid();
    grid[1][1] = E;
    grid[3][3] = PL;
    assert!(move_stays_inside(&grid, KeyInput::Char('r')));
    let (maze, result) = move_player(KeyInput::Char('r'), grid);
    assert_eq!(result, MoveResult::Restart);
    assert_eq!(maze, player_grid());
}

#[test]
fn move_player_esc_quits_and_no_player_is_invalid() {
    let (maze, result) = move_player(KeyInput::Esc, player_grid());
    assert_eq!(result, MoveResult::Kill);
    assert_eq!(maze, player_grid());
    let (maze, result) = move_player(KeyInput::Right, grid_a());
    assert_eq!(result, MoveResult::Invalid);
    assert_eq!(maze, grid_a());
}

#[test]
fn move_stays_inside_flags_moves_off_the_grid() {
    let grid = vec![vec![C, C, C], vec![C, E, PL], vec![C, C, C]];
    assert!(!move_stays_inside(&grid, KeyInput::Right));
    assert!(move_stays_inside(&grid, KeyInput::Left));
    let grid = vec![vec![C, C, C], vec![PL, E, S], vec![C, C, C]];
    assert!(!move_stays_inside(&grid, KeyInput::Char('r')));
    assert!(move_stays_inside(&player_grid(), KeyInput::Char('r')));
}

#[test]
fn is_framed_rejects_empty_nodes_on_the_border() {
    assert!(!is_framed(&vec![vec![E, C], vec![C, C]]));
    assert!(!is_framed(&Vec::new()));
    assert!(!is_framed(&vec![vec![C, C, C], vec![C]]));
    assert!(is_framed(&grid_a()));
}

#[test]
fn render_maze_draws_corners_walls_and_nodes() {
    let maze = initial_maze_grid_maker(1, 1);
    assert_eq!(
        render_maze(&maze),
        vec![
            vec![Glyph::Plus, Glyph::Dashes, Glyph::Plus],
            vec![Glyph::Pipe, Glyph::Blank3, Glyph::Pipe],
            vec![Glyph::Plus, Glyph::Dashes, Glyph::Plus],
        ]
    );
    let picture = render_maze(&vec![
        vec![C, C, C, O, C],
        vec![S, CO, P, V, END],
        vec![C, P, C, C, C],
    ]);
    assert_eq!(picture[0], vec![Glyph::Plus, Glyph::Dashes, Glyph::Plus, Glyph::Blank3, Glyph::Plus]);
    assert_eq!(picture[1], vec![Glyph::StartBlock, Glyph::Walker3, Glyph::Trail1, Glyph::Trail3, Glyph::EndBlock]);
    assert_eq!(picture[2], vec![Glyph::Plus, Glyph::Trail3, Glyph::Plus, Glyph::Dashes, Glyph::Plus]);
}

#[test]
fn menu_moves_round_and_confirms() {
    assert_eq!(menu_step(UserOptions::Play, KeyInput::Up), MenuAction::Select(UserOptions::Solve));
    assert_eq!(menu_step(UserOptions::Solve, KeyInput::Up), MenuAction::Select(UserOptions::Quit));
    assert_eq!(menu_step(UserOptions::Play, KeyInput::Down), MenuAction::Select(UserOptions::Quit));
    assert_eq!(menu_step(UserOptions::Quit, KeyInput::Down), MenuAction::Select(UserOptions::Solve));
    assert_eq!(menu_step(UserOptions::Quit, KeyInput::Enter), MenuAction::Confirm(UserOptions::Quit));
    assert_eq!(menu_step(UserOptions::Play, KeyInput::Esc), MenuAction::Exit);
    assert_eq!(menu_step(UserOptions::Play, KeyInput::Char('q')), MenuAction::Ignore);
    let mut o = UserOptions::Solve;
    for _ in 0..3 {
        o = match menu_step(o, KeyInput::Up) {
            MenuAction::Select(n) => n,
            _ => panic!(),
        };
    }
    assert_eq!(o, UserOptions::Solve);
}
