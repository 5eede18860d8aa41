use game_of_life::board::{BoardPosition, BoardSize};
use game_of_life::life::Life;
use game_of_life::pattern::{centered_offset, BoardAsset};
use game_of_life::rules::GameRules;

fn at(x: i32, y: i32) -> BoardPosition {
    BoardPosition { x, y }
}

fn alive(life: &Life) -> Vec<(i32, i32)> {
    let mut cells: Vec<(i32, i32)> =
        life.alive_coordinates().iter().map(|pos| (pos.x, pos.y)).collect();
    cells.sort();
    cells
}

fn glider() -> BoardAsset {
    BoardAsset {
        data: vec![
            vec![false, true, false],
            vec![false, false, true],
            vec![true, true, true],
        ],
        size: (3, 3),
    }
}

#[test]
fn centered_offset_halves_the_difference_towards_zero() {
    assert_eq!(centered_offset(BoardSize { x: 200, y: 150 }, (3, 3)), at(98, 73));
    assert_eq!(centered_offset(BoardSize { x: 0, y: 0 }, (3, 4)), at(-1, -2));
    assert_eq!(centered_offset(BoardSize { x: 10, y: 7 }, (10, 8)), at(0, 0));
    assert_eq!(
        centered_offset(BoardSize { x: u32::MAX, y: 0 }, (0, u32::MAX)),
        at(i32::MAX, -i32::MAX)
    );
}

#[test]
fn seed_lays_the_first_row_uppermost() {
    let mut life = Life::new(BoardSize { x: 0, y: 0 }, GameRules::Conway);
    life.seed(&glider(), at(10, 20));
    assert_eq!(alive(&life), vec![(10, 21), (11, 21), (11, 23), (12, 21), (12, 22)]);
    assert_eq!(life.lookup(at(10, 23)), None);
}

#[test]
fn seed_adds_to_what_is_alive() {
    let mut life = Life::new(BoardSize { x: 0, y: 0 }, GameRules::Conway);
    life.set_alive(at(0, 0), true);
    life.set_alive(at(1, 3), true);
    let kept = life.lookup(at(1, 3));
    life.seed(&glider(), at(0, 0));
    assert_eq!(alive(&life), vec![(0, 0), (0, 1), (1, 1), (1, 3), (2, 1), (2, 2)]);
    assert_eq!(life.lookup(at(1, 3)), kept);
}

#[test]
fn seed_leaves_out_what_falls_off_the_lattice() {
    let mut life = Life::new(BoardSize { x: 0, y: 0 }, GameRules::Conway);
    life.seed(&glider(), at(i32::MAX - 1, i32::MAX - 2));
    assert_eq!(alive(&life), vec![(i32::MAX - 1, i32::MAX - 1), (i32::MAX, i32::MAX - 1)]);
}

#[test]
fn from_rows_fills_short_rows_up_with_dead_cells() {
    let asset =
        BoardAsset::from_rows(vec![vec![true], vec![], vec![false, false, true]]).unwrap();
    assert_eq!(
        asset.data,
        vec![
            vec![true, false, false],
            vec![false, false, false],
            vec![false, false, true]
        ]
    );
    assert_eq!(asset.size, (3, 3));
    assert!(asset.rectangular());
    let mut life = Life::new(BoardSize { x: 0, y: 0 }, GameRules::Conway);
    life.seed(&asset, at(0, 0));
    assert_eq!(alive(&life), vec![(0, 3), (2, 1)]);
}

#[test]
fn from_rows_takes_no_rows_and_empty_rows() {
    let none = BoardAsset::from_rows(vec![]).unwrap();
    assert_eq!((none.data.len(), none.size), (0, (0, 0)));
    let empty = BoardAsset::from_rows(vec![vec![], vec![]]).unwrap();
    assert_eq!((empty.data, empty.size), (vec![vec![], vec![]], (0, 2)));
    let whole = BoardAsset::from_rows(vec![vec![true, false], vec![false, true]]).unwrap();
    assert_eq!((whole.data, whole.size), (vec![vec![true, false], vec![false, true]], (2, 2)));
}

#[test]
fn a_ragged_pattern_is_not_rectangular() {
    let ragged =
        BoardAsset { data: vec![vec![true], vec![], vec![false, false, true]], size: (3, 3) };
    assert!(!ragged.rectangular());
}

#[test]
fn rectangular_checks_rows_and_sizes() {
    assert!(glider().rectangular());
    assert!(BoardAsset { data: vec![], size: (0, 0) }.rectangular());
    assert!(BoardAsset { data: vec![], size: (5, 0) }.rectangular());
    assert!(!BoardAsset { data: vec![vec![true, false]], size: (2, 2) }.rectangular());
    assert!(!BoardAsset { data: vec![vec![true, false], vec![true]], size: (2, 2) }.rectangular());
    assert!(!BoardAsset { data: vec![vec![true, false]], size: (3, 1) }.rectangular());
}

#[test]
fn a_seeded_glider_runs() {
    let mut life = Life::new(BoardSize { x: 0, y: 0 }, GameRules::Conway);
    life.seed(&glider(), at(0, 0));
    for _ in 0..4 {
        life.tick();
    }
    assert_eq!(alive(&life), vec![(1, 0), (2, 0), (2, 2), (3, 0), (3, 1)]);
}
