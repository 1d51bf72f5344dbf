use console_game_engine::Cell;
use console_game_engine::Color;
use console_game_engine::ConsoleGameEngine;
use console_game_engine::EngineError;
use console_game_engine::EngineState;
use console_game_engine::Rules;
use console_game_engine::Utils;
use console_game_engine::WriteOp;

fn writes_at(writes: &[WriteOp], x: usize, y: usize) -> usize {
    writes.iter().filter(|w| w.x == x && w.y == y).count()
}

#[test]
fn draw_then_flush_single_write() {
    // on a 4x3 grid, one draw commits exactly one write
    let mut utils = Utils::new(3, 4);
    utils.draw(1, 1, 'X', Color::Red);
    let writes = utils.flush();
    assert_eq!(writes.len(), 1);
    assert_eq!(writes[0].x, 1);
    assert_eq!(writes[0].y, 1);
    assert_eq!(writes[0].glyph, 'X');
    assert_eq!(writes[0].color, Color::Red);
}

#[test]
fn fill_then_flush_twelve_writes_then_none() {
    let mut utils = Utils::new(3, 4);
    utils.fill(0, 0, 4, 3, ' ', Color::Black);
    let writes = utils.flush();
    assert_eq!(writes.len(), 12);
    let again = utils.flush();
    assert_eq!(again.len(), 0);
}

#[test]
fn last_draw_wins_and_flushes_once() {
    let mut utils = Utils::new(3, 4);
    utils.draw(2, 1, 'A', Color::Red);
    utils.draw(2, 1, 'B', Color::Green);
    utils.draw(2, 1, 'C', Color::Blue);
    assert_eq!(
        utils.cell_at(2, 1),
        Some(Cell { glyph: 'C', color: Color::Blue })
    );
    let writes = utils.flush();
    assert_eq!(writes.len(), 1);
    assert_eq!(writes_at(&writes, 2, 1), 1);
    assert_eq!(writes[0].glyph, 'C');
    assert_eq!(writes[0].color, Color::Blue);
}

#[test]
fn identical_draw_marks_dirty_only_once() {
    let mut utils = Utils::new(3, 4);
    utils.draw(0, 0, 'Q', Color::White);
    assert_eq!(utils.dirty_len(), 1);
    utils.draw(0, 0, 'Q', Color::White);
    assert_eq!(utils.dirty_len(), 1);
    utils.flush();
    // the value is committed now, so repeating it changes nothing
    utils.draw(0, 0, 'Q', Color::White);
    assert_eq!(utils.dirty_len(), 0);
    assert_eq!(utils.flush().len(), 0);
}

#[test]
fn fill_fully_in_bounds_touches_product() {
    let mut utils = Utils::new(3, 4);
    utils.fill(0, 0, 4, 3, '#', Color::Green);
    assert_eq!(utils.flush().len(), 12);
}

#[test]
fn fill_clipped_touches_strict_subset() {
    let mut utils = Utils::new(3, 4);
    // the rectangle is 8x9 cells but only (2..4) x (1..3) is in bounds
    utils.fill(2, 1, 10, 10, '#', Color::Green);
    let writes = utils.flush();
    assert_eq!(writes.len(), 4);
    for w in &writes {
        assert!(w.x >= 2 && w.x < 4 && w.y >= 1 && w.y < 3);
    }
}

#[test]
fn fill_fully_out_of_bounds_touches_nothing() {
    let mut utils = Utils::new(3, 4);
    utils.fill(5, 5, 8, 8, '#', Color::Green);
    assert_eq!(utils.dirty_len(), 0);
    assert_eq!(utils.flush().len(), 0);
}

#[test]
fn draw_out_of_bounds_is_ignored() {
    let mut utils = Utils::new(3, 4);
    utils.draw(4, 0, 'X', Color::Red);
    utils.draw(0, 3, 'X', Color::Red);
    utils.draw(usize::MAX, usize::MAX, 'X', Color::Red);
    assert_eq!(utils.dirty_len(), 0);
    assert_eq!(utils.cell_at(4, 0), None);
    assert_eq!(utils.cell_at(0, 3), None);
}

#[test]
fn draw_string_writes_left_to_right() {
    let mut utils = Utils::new(3, 4);
    utils.draw_string(0, 0, "AB C", Color::White, false);
    assert_eq!(utils.cell_at(0, 0).unwrap().glyph, 'A');
    assert_eq!(utils.cell_at(1, 0).unwrap().glyph, 'B');
    assert_eq!(utils.cell_at(2, 0).unwrap().glyph, ' ');
    assert_eq!(utils.cell_at(3, 0).unwrap().glyph, 'C');
    assert_eq!(utils.dirty_len(), 4);
}

#[test]
fn draw_string_transparent_skips_spaces() {
    let mut utils = Utils::new(3, 4);
    utils.draw_string(0, 1, "A C", Color::Red, true);
    assert_eq!(utils.cell_at(0, 1).unwrap().glyph, 'A');
    // the space was skipped entirely: no write, no dirty mark
    assert_eq!(utils.cell_at(1, 1).unwrap().glyph, '\0');
    assert_eq!(utils.cell_at(2, 1).unwrap().glyph, 'C');
    assert_eq!(utils.dirty_len(), 2);
}

#[test]
fn draw_string_clips_at_the_edge() {
    let mut utils = Utils::new(3, 4);
    utils.draw_string(2, 0, "abcdef", Color::White, false);
    assert_eq!(utils.dirty_len(), 2);
    assert_eq!(utils.cell_at(2, 0).unwrap().glyph, 'a');
    assert_eq!(utils.cell_at(3, 0).unwrap().glyph, 'b');
}

#[test]
fn zero_sized_buffer_ignores_everything() {
    let mut utils = Utils::new(0, 0);
    utils.draw(0, 0, 'X', Color::Red);
    utils.fill(0, 0, 3, 3, '#', Color::Green);
    assert_eq!(utils.dirty_len(), 0);
    assert_eq!(utils.cell_at(0, 0), None);
    assert_eq!(utils.flush().len(), 0);
}

#[test]
fn is_dirty_tracks_effective_changes() {
    let mut utils = Utils::new(3, 4);
    assert!(!utils.is_dirty(1, 1));
    utils.draw(1, 1, 'X', Color::Red);
    assert!(utils.is_dirty(1, 1));
    assert!(!utils.is_dirty(0, 1));
    utils.flush();
    assert!(!utils.is_dirty(1, 1));
}

#[test]
fn keys_snapshot_round_trip() {
    let mut utils = Utils::new(3, 4);
    assert!(utils.keys().is_empty());
    utils.set_keys(vec![37, 39]);
    assert_eq!(utils.keys().as_slice(), &[37, 39]);
}

#[test]
fn dimensions_are_reported() {
    let utils = Utils::new(3, 4);
    assert_eq!(utils.width(), 4);
    assert_eq!(utils.height(), 3);
}

struct ProbeRule {
    keep_running: bool,
    last_elapsed: Option<u64>,
    saw_up_key: bool,
    updates: usize,
}

impl ProbeRule {
    fn new() -> ProbeRule {
        ProbeRule { keep_running: true, last_elapsed: None, saw_up_key: false, updates: 0 }
    }
}

impl Rules for ProbeRule {
    fn on_user_create(&mut self, utils: &mut Utils) -> bool {
        let w = utils.width();
        let h = utils.height();
        utils.fill(0, 0, w, h, ' ', Color::Black);
        self.keep_running
    }

    fn on_user_update(&mut self, utils: &mut Utils, elapsed_nanos: u64) -> bool {
        self.last_elapsed = Some(elapsed_nanos);
        self.saw_up_key = utils.keys().contains(&38);
        self.updates += 1;
        utils.draw(0, 0, 'R', Color::Red);
        self.keep_running
    }
}

#[test]
fn configuration_error_on_zero_dimension() {
    assert!(matches!(
        ConsoleGameEngine::new(0, 5).into_driver(),
        Err(EngineError::ConfigurationError)
    ));
    assert!(matches!(
        ConsoleGameEngine::new(5, 0).into_driver(),
        Err(EngineError::ConfigurationError)
    ));
    assert!(matches!(
        ConsoleGameEngine::new(usize::MAX, usize::MAX).into_driver(),
        Err(EngineError::ConfigurationError)
    ));
    assert!(ConsoleGameEngine::new(3, 4).into_driver().is_ok());
}

#[test]
fn driver_runs_the_iteration_protocol() {
    let mut driver = ConsoleGameEngine::new(3, 4).into_driver().unwrap();
    assert_eq!(driver.state, EngineState::Uninitialized);

    let mut rule = ProbeRule::new();
    assert!(driver.create(&mut rule, 40));
    assert_eq!(driver.state, EngineState::Created);

    // the first frame commits the rule's initial fill, with its one
    // overdrawn cell holding the final value
    let out = driver.step(&mut rule, 100, vec![38]);
    assert!(out.keep_running);
    assert_eq!(driver.state, EngineState::Running);
    assert_eq!(rule.last_elapsed, Some(60));
    assert!(rule.saw_up_key);
    assert_eq!(out.writes.len(), 12);
    let origin: Vec<_> = out.writes.iter().filter(|w| w.x == 0 && w.y == 0).collect();
    assert_eq!(origin.len(), 1);
    assert_eq!(origin[0].glyph, 'R');
    assert_eq!(origin[0].color, Color::Red);

    // the second frame redraws the same cell with the same value, which
    // commits nothing
    let out = driver.step(&mut rule, 250, vec![]);
    assert_eq!(rule.last_elapsed, Some(150));
    assert!(!rule.saw_up_key);
    assert_eq!(out.writes.len(), 0);

    // a clock that jumps backwards is clamped to zero elapsed time
    let _ = driver.step(&mut rule, 10, vec![]);
    assert_eq!(rule.last_elapsed, Some(0));

    // the rule's stop signal terminates the loop, and termination is final
    rule.keep_running = false;
    let out = driver.step(&mut rule, 300, vec![]);
    assert!(!out.keep_running);
    assert_eq!(driver.state, EngineState::Terminated);
}

#[test]
fn rule_can_stop_at_creation() {
    let mut driver = ConsoleGameEngine::new(3, 4).into_driver().unwrap();
    let mut rule = ProbeRule::new();
    rule.keep_running = false;
    assert!(!driver.create(&mut rule, 0));
    assert_eq!(driver.state, EngineState::Terminated);
}

#[test]
fn close_event_terminates() {
    let mut driver = ConsoleGameEngine::new(3, 4).into_driver().unwrap();
    let mut rule = ProbeRule::new();
    driver.create(&mut rule, 0);
    driver.terminate();
    assert_eq!(driver.state, EngineState::Terminated);
    assert_eq!(rule.updates, 0);
}
