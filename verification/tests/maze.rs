use console_game_engine::Color;
use console_game_engine::ConsoleGameEngine;
use console_game_engine::EngineState;
use console_game_engine::Maze;
use console_game_engine::MazeCell;
use console_game_engine::MazeRules;

fn passage_count(c: MazeCell) -> usize {
    (c.north as usize) + (c.south as usize) + (c.west as usize) + (c.east as usize)
}

struct Lcg(u64);

impl Lcg {
    fn next(&mut self) -> usize {
        self.0 = self
            .0
            .wrapping_mul(6364136223846793005)
            .wrapping_add(1442695040888963407);
        (self.0 >> 33) as usize
    }
}

fn carve_to_completion(maze: &mut Maze, seed: u64) {
    let mut rng = Lcg(seed);
    let mut steps = 0usize;
    while !maze.done() {
        maze.step(rng.next());
        steps += 1;
        assert!(steps < 100_000, "carving did not finish");
    }
}

#[test]
fn single_cell_maze_is_trivially_complete() {
    let mut maze = Maze::new(1, 1);
    assert_eq!(maze.visited_cells(), 1);
    assert!(!maze.done());
    // the start has no unvisited neighbors, so the first step backtracks
    let done = maze.step(0);
    assert!(done);
    assert_eq!(maze.visited_cells(), 1);
    assert_eq!(passage_count(maze.cell(0, 0)), 0);
}

#[test]
fn finished_maze_is_a_spanning_tree() {
    let width = 5usize;
    let height = 4usize;
    let mut maze = Maze::new(width, height);
    carve_to_completion(&mut maze, 0xfeed);

    // every cell was reached
    assert_eq!(maze.visited_cells(), width * height);

    // no cell is isolated, and the doubled edge count is cells - 1 twice
    let mut half_total = 0usize;
    for y in 0..height {
        for x in 0..width {
            let c = maze.cell(x, y);
            assert!(c.visited);
            assert!(passage_count(c) >= 1, "isolated cell at ({x}, {y})");
            half_total += passage_count(c);
        }
    }
    assert_eq!(half_total, 2 * (width * height - 1));

    // passages are symmetric and never lead out of the maze
    for y in 0..height {
        for x in 0..width {
            let c = maze.cell(x, y);
            assert_eq!(c.east, x + 1 < width && maze.cell(x + 1, y).west);
            assert_eq!(c.south, y + 1 < height && maze.cell(x, y + 1).north);
            assert_eq!(c.west, x >= 1 && maze.cell(x - 1, y).east);
            assert_eq!(c.north, y >= 1 && maze.cell(x, y - 1).south);
        }
    }
}

#[test]
fn different_seeds_still_give_spanning_trees() {
    for seed in [1u64, 7, 42, 123456789] {
        let mut maze = Maze::new(3, 6);
        carve_to_completion(&mut maze, seed);
        assert_eq!(maze.visited_cells(), 18);
        let mut half_total = 0usize;
        for y in 0..6 {
            for x in 0..3 {
                half_total += passage_count(maze.cell(x, y));
            }
        }
        assert_eq!(half_total, 2 * 17);
    }
}

#[test]
fn visited_count_grows_one_cell_at_a_time() {
    let mut maze = Maze::new(4, 4);
    let mut rng = Lcg(99);
    let mut previous = maze.visited_cells();
    while !maze.done() {
        maze.step(rng.next());
        let now = maze.visited_cells();
        assert!(now == previous || now == previous + 1);
        previous = now;
    }
    assert_eq!(previous, 16);
}

#[test]
fn maze_rules_drive_the_engine() {
    // a 3x3 maze draws itself on a 7x7 cell display
    let mut driver = ConsoleGameEngine::new(7, 7).into_driver().unwrap();
    let mut rules = MazeRules::new(3, 3, 0xabcd);
    assert!(driver.create(&mut rules, 0));

    // the first frame commits the full initial picture
    let out = driver.step(&mut rules, 16, vec![]);
    assert!(out.keep_running);
    assert_eq!(out.writes.len(), 49);

    // later frames only commit the cells the carver changed
    let mut steps = 0usize;
    let mut now = 16u64;
    while !rules.done() {
        now += 16;
        let out = driver.step(&mut rules, now, vec![]);
        assert!(out.writes.len() <= 3);
        steps += 1;
        assert!(steps < 10_000, "carving did not finish");
    }
    assert_eq!(rules.visited_cells(), 9);
    assert_eq!(driver.state, EngineState::Running);
}
