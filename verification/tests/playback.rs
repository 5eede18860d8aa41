use game_of_life::board::{BoardPosition, BoardSize};
use game_of_life::game::Game;
use game_of_life::playback::{GamePlaying, Interval, Playback};
use game_of_life::rules::GameRules;

fn at(x: i32, y: i32) -> BoardPosition {
    BoardPosition { x, y }
}

fn alive(game: &Game) -> Vec<(i32, i32)> {
    let mut cells: Vec<(i32, i32)> =
        game.life().alive_coordinates().iter().map(|pos| (pos.x, pos.y)).collect();
    cells.sort();
    cells
}

#[test]
fn the_interval_runs_out_once_a_period() {
    let mut timer = Interval::new(20);
    assert!(!timer.tick(19));
    assert!(timer.tick(1));
    assert!(!timer.tick(10));
    assert!(!timer.tick(9));
    assert!(timer.tick(5));
}

#[test]
fn the_interval_drops_what_goes_beyond_the_period() {
    let mut timer = Interval::new(20);
    assert!(timer.tick(59));
    assert!(!timer.tick(19));
    assert!(timer.tick(1));
}

#[test]
fn the_interval_takes_the_longest_times() {
    let mut timer = Interval::new(u64::MAX);
    assert!(!timer.tick(u64::MAX - 1));
    assert!(timer.tick(u64::MAX));
    let mut always = Interval::new(0);
    assert!(always.tick(0));
    assert!(always.tick(7));
}

#[test]
fn playback_starts_paused_and_toggles() {
    let mut playback = Playback::new(20, 200);
    assert_eq!(playback.state(), GamePlaying::Paused);
    assert!(!playback.update(100, false));
    assert_eq!(playback.state(), GamePlaying::Paused);
    assert!(playback.update(25, true));
    assert_eq!(playback.state(), GamePlaying::Playing);
}

#[test]
fn a_toggle_is_not_taken_twice_within_the_debounce_time() {
    let mut playback = Playback::new(1000, 200);
    playback.update(10, true);
    assert_eq!(playback.state(), GamePlaying::Playing);
    playback.update(100, true);
    assert_eq!(playback.state(), GamePlaying::Playing);
    playback.update(99, true);
    assert_eq!(playback.state(), GamePlaying::Playing);
    playback.update(1, true);
    assert_eq!(playback.state(), GamePlaying::Playing);
    playback.update(1, true);
    assert_eq!(playback.state(), GamePlaying::Paused);
}

#[test]
fn playing_makes_one_generation_due_per_period() {
    let mut playback = Playback::new(20, 0);
    assert!(!playback.update(10, true));
    assert!(playback.update(10, false));
    assert!(!playback.update(19, false));
    assert!(playback.update(100, false));
    assert!(!playback.update(19, false));
}

#[test]
fn the_cadence_gathers_no_time_while_paused() {
    let mut playback = Playback::new(20, 0);
    playback.update(15, true);
    playback.update(0, false);
    playback.update(0, true);
    assert_eq!(playback.state(), GamePlaying::Paused);
    assert!(!playback.update(1000, false));
    playback.update(0, false);
    assert!(!playback.update(4, true));
    assert!(playback.update(1, false));
}

#[test]
fn a_paused_game_does_not_change_however_often_it_is_updated() {
    let mut game = Game::new(BoardSize { x: 0, y: 0 }, GameRules::Conway, 20, 200);
    for pos in [at(-1, 0), at(0, 0), at(1, 0)] {
        assert!(game.toggle_cell(pos));
    }
    let before = alive(&game);
    let handles: Vec<Option<u64>> =
        [at(-1, 0), at(0, 0), at(1, 0), at(0, 1)].iter().map(|p| game.life().lookup(*p)).collect();
    let bounds = game.life().board().bounds();
    for delta in [0u64, 1, 19, 20, 21, 1000, u64::MAX] {
        assert!(!game.update(delta, false));
        assert_eq!(game.state(), GamePlaying::Paused);
        assert_eq!(alive(&game), before);
        let now: Vec<Option<u64>> = [at(-1, 0), at(0, 0), at(1, 0), at(0, 1)]
            .iter()
            .map(|p| game.life().lookup(*p))
            .collect();
        assert_eq!(now, handles);
        assert_eq!(game.life().board().bounds(), bounds);
    }
}

#[test]
fn a_playing_game_runs_a_generation_when_one_is_due() {
    let mut game = Game::new(BoardSize { x: 0, y: 0 }, GameRules::Conway, 20, 200);
    for pos in [at(-1, 0), at(0, 0), at(1, 0)] {
        game.toggle_cell(pos);
    }
    assert!(!game.update(19, true));
    assert_eq!(alive(&game), vec![(-1, 0), (0, 0), (1, 0)]);
    assert!(game.update(1, false));
    assert_eq!(alive(&game), vec![(0, -1), (0, 0), (0, 1)]);
    assert!(game.update(500, false));
    assert_eq!(alive(&game), vec![(-1, 0), (0, 0), (1, 0)]);
    assert!(!game.update(19, false));
    assert_eq!(alive(&game), vec![(-1, 0), (0, 0), (1, 0)]);
}

#[test]
fn cells_are_toggled_by_hand_only_while_paused() {
    let mut game = Game::new(BoardSize { x: 0, y: 0 }, GameRules::Conway, 20, 200);
    assert!(game.toggle_cell(at(2, 2)));
    assert_eq!(alive(&game), vec![(2, 2)]);
    assert!(game.toggle_cell(at(2, 2)));
    assert_eq!(alive(&game), vec![]);
    game.toggle_cell(at(0, 0));
    game.toggle_cell(at(0, 1));
    game.toggle_cell(at(1, 0));
    game.toggle_cell(at(1, 1));
    game.update(0, true);
    assert_eq!(game.state(), GamePlaying::Playing);
    assert!(!game.toggle_cell(at(5, 5)));
    assert_eq!(alive(&game), vec![(0, 0), (0, 1), (1, 0), (1, 1)]);
}

#[test]
fn toggled_is_the_other_state() {
    assert_eq!(GamePlaying::Paused.toggled(), GamePlaying::Playing);
    assert_eq!(GamePlaying::Playing.toggled(), GamePlaying::Paused);
}

#[test]
fn advance_moves_the_controller_and_leaves_the_colony() {
    let mut game = Game::new(BoardSize { x: 0, y: 0 }, GameRules::Conway, 20, 200);
    for pos in [at(-1, 0), at(0, 0), at(1, 0)] {
        game.toggle_cell(pos);
    }
    assert!(!game.advance(100, false));
    assert!(game.advance(20, true));
    assert_eq!(game.state(), GamePlaying::Playing);
    assert_eq!(alive(&game), vec![(-1, 0), (0, 0), (1, 0)]);
    let outcomes = game.life().classify();
    assert!(game.commit(&outcomes));
    assert_eq!(alive(&game), vec![(0, -1), (0, 0), (0, 1)]);
}

#[test]
fn commit_is_taken_only_while_playing() {
    let mut game = Game::new(BoardSize { x: 0, y: 0 }, GameRules::Conway, 20, 200);
    game.toggle_cell(at(0, 0));
    let outcomes = game.life().classify();
    assert!(!game.commit(&outcomes));
    assert_eq!(alive(&game), vec![(0, 0)]);
    game.advance(0, true);
    assert!(game.commit(&outcomes));
    assert_eq!(alive(&game), vec![]);
}
