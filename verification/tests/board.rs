use game_of_life::board::{Board, BoardPosition, BoardSize};

fn at(x: i32, y: i32) -> BoardPosition {
    BoardPosition { x, y }
}

fn empty() -> Board {
    Board::new(BoardSize { x: 0, y: 0 })
}

#[test]
fn new_board_is_empty_and_starts_at_zero() {
    let board = Board::new(BoardSize { x: 4, y: 7 });
    assert_eq!(board.get(at(0, 0)), None);
    assert_eq!(board.position(0), None);
    assert_eq!(board.size(), BoardSize { x: 4, y: 7 });
    assert_eq!(board.bounds(), (at(0, 0), BoardSize { x: 4, y: 7 }));
    assert_eq!(board.dimensions(), (at(0, 0), at(4, 7)));
}

#[test]
fn insert_then_get_finds_the_handle() {
    let mut board = empty();
    assert_eq!(board.insert(at(2, 3), 11), None);
    assert_eq!(board.get(at(2, 3)), Some(11));
    assert_eq!(board.position(11), Some(at(2, 3)));
    assert_eq!(board.get(at(3, 2)), None);
    assert_eq!(board.position(12), None);
}

#[test]
fn both_directions_agree_after_mixed_operations() {
    let mut board = empty();
    let cells = [(at(0, 0), 1u64), (at(-3, 4), 2), (at(9, -9), 3), (at(5, 5), 4)];
    for (pos, handle) in cells {
        board.insert(pos, handle);
    }
    board.remove(at(9, -9));
    board.insert(at(7, 7), 2);
    board.remove_entity(4);
    for (pos, handle) in [(at(0, 0), 1u64), (at(7, 7), 2)] {
        assert_eq!(board.get(pos), Some(handle));
        assert_eq!(board.position(handle), Some(pos));
    }
    for pos in [at(-3, 4), at(9, -9), at(5, 5)] {
        assert_eq!(board.get(pos), None);
    }
    for handle in [3u64, 4] {
        assert_eq!(board.position(handle), None);
    }
}

#[test]
fn insert_moves_a_cell_and_returns_its_handle() {
    let mut board = empty();
    board.insert(at(1, 1), 5);
    assert_eq!(board.insert(at(4, 4), 5), Some(5));
    assert_eq!(board.get(at(1, 1)), None);
    assert_eq!(board.get(at(4, 4)), Some(5));
    assert_eq!(board.position(5), Some(at(4, 4)));
}

#[test]
fn insert_at_the_same_place_changes_nothing() {
    let mut board = empty();
    board.insert(at(1, 1), 5);
    assert_eq!(board.insert(at(1, 1), 5), None);
    assert_eq!(board.get(at(1, 1)), Some(5));
    assert_eq!(board.position(5), Some(at(1, 1)));
}

#[test]
fn insert_over_another_cell_takes_that_cell_off() {
    let mut board = empty();
    board.insert(at(1, 1), 5);
    assert_eq!(board.insert(at(1, 1), 6), None);
    assert_eq!(board.get(at(1, 1)), Some(6));
    assert_eq!(board.position(6), Some(at(1, 1)));
    assert_eq!(board.position(5), None);
}

#[test]
fn remove_returns_the_handle_once() {
    let mut board = empty();
    board.insert(at(2, 2), 8);
    assert_eq!(board.remove(at(2, 2)), Some(8));
    assert_eq!(board.remove(at(2, 2)), None);
    assert_eq!(board.get(at(2, 2)), None);
    assert_eq!(board.position(8), None);
}

#[test]
fn remove_entity_returns_the_coordinate_once() {
    let mut board = empty();
    board.insert(at(2, -2), 8);
    assert_eq!(board.remove_entity(8), Some(at(2, -2)));
    assert_eq!(board.remove_entity(8), None);
    assert_eq!(board.get(at(2, -2)), None);
}

#[test]
fn remove_of_an_absent_cell_is_no_error() {
    let mut board = empty();
    assert_eq!(board.remove(at(0, 0)), None);
    assert_eq!(board.remove_entity(0), None);
}

#[test]
fn insert_left_of_the_origin_grows_by_the_distance() {
    let mut board = Board::new(BoardSize { x: 10, y: 10 });
    board.insert(at(3, 4), 1);
    board.insert(at(10, 0), 2);
    let (origin, extent) = board.bounds();
    board.insert(at(origin.x - 5, origin.y), 3);
    let (grown_origin, grown_extent) = board.bounds();
    assert_eq!(grown_origin, at(origin.x - 5, origin.y));
    assert_eq!(grown_extent, BoardSize { x: extent.x + 5, y: extent.y });
    assert_eq!(board.get(at(3, 4)), Some(1));
    assert_eq!(board.get(at(10, 0)), Some(2));
    assert_eq!(board.get(at(-5, 0)), Some(3));
}

#[test]
fn insert_beyond_the_far_corner_grows_by_the_distance() {
    let mut board = Board::new(BoardSize { x: 2, y: 2 });
    board.insert(at(6, 1), 1);
    assert_eq!(board.bounds(), (at(0, 0), BoardSize { x: 6, y: 2 }));
    board.insert(at(1, 9), 2);
    assert_eq!(board.bounds(), (at(0, 0), BoardSize { x: 6, y: 9 }));
    assert_eq!(board.dimensions(), (at(0, 0), at(6, 9)));
}

#[test]
fn insert_inside_the_rectangle_leaves_it() {
    let mut board = Board::new(BoardSize { x: 5, y: 5 });
    board.insert(at(0, 0), 1);
    board.insert(at(5, 5), 2);
    board.insert(at(2, 3), 3);
    assert_eq!(board.bounds(), (at(0, 0), BoardSize { x: 5, y: 5 }));
}

#[test]
fn each_axis_grows_by_itself() {
    let mut board = empty();
    board.insert(at(-2, 3), 1);
    assert_eq!(board.bounds(), (at(-2, 0), BoardSize { x: 2, y: 3 }));
    assert_eq!(board.size(), BoardSize { x: 2, y: 3 });
}

#[test]
fn bounds_hold_every_inserted_coordinate_and_never_shrink() {
    let mut board = empty();
    let inserted = [at(4, -1), at(-7, 2), at(0, 0), at(3, 12), at(-7, -8)];
    let mut last = board.dimensions();
    for (handle, pos) in inserted.iter().enumerate() {
        board.insert(*pos, handle as u64);
        let now = board.dimensions();
        assert!(now.0.x <= last.0.x && now.0.y <= last.0.y);
        assert!(now.1.x >= last.1.x && now.1.y >= last.1.y);
        last = now;
    }
    board.remove(at(-7, -8));
    board.remove_entity(3);
    assert_eq!(board.dimensions(), last);
    for pos in inserted {
        assert!(last.0.x <= pos.x && pos.x <= last.1.x);
        assert!(last.0.y <= pos.y && pos.y <= last.1.y);
    }
    assert_eq!(last, (at(-7, -8), at(4, 12)));
}

#[test]
fn bounds_reach_the_rim_of_the_lattice() {
    let mut board = empty();
    board.insert(at(i32::MIN, i32::MAX), 1);
    board.insert(at(i32::MAX, i32::MIN), 2);
    assert_eq!(board.dimensions(), (at(i32::MIN, i32::MIN), at(i32::MAX, i32::MAX)));
    assert_eq!(board.size(), BoardSize { x: u32::MAX, y: u32::MAX });
}
