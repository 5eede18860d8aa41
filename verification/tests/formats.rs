use game_of_life::board::{BoardPosition, BoardSize};
use game_of_life::cells::parse_cells;
use game_of_life::life::Life;
use game_of_life::pattern::{BoardAsset, PatternError};
use game_of_life::rle::parse;
use game_of_life::rules::GameRules;
use game_of_life::text::{characters, decode};

const T: bool = true;
const F: bool = false;

fn read(parsed: Result<BoardAsset, PatternError>) -> (Vec<Vec<bool>>, (u32, u32)) {
    let asset = parsed.unwrap();
    assert!(asset.rectangular());
    assert_eq!(asset.data.len(), asset.size.1 as usize);
    for row in &asset.data {
        assert_eq!(row.len(), asset.size.0 as usize);
    }
    (asset.data, asset.size)
}

#[test]
fn decode_gives_the_characters() {
    assert_eq!(decode("a\u{25A0}z".as_bytes()), Some(vec!['a', '\u{25A0}', 'z']));
    assert_eq!(decode(&[0x61, 0xE2, 0x96, 0xA0]), Some(vec!['a', '\u{25A0}']));
    assert_eq!(decode(&[]), Some(vec![]));
    assert_eq!(decode(&[0x61, 0xFF]), None);
    assert_eq!(decode(&[0xE2, 0x96]), None);
    assert_eq!(characters("O.\n"), vec!['O', '.', '\n']);
}

#[test]
fn cells_reads_a_glider() {
    let text = "!Name: Glider\n.O.\n..O\nOOO\n";
    assert_eq!(
        read(parse_cells(text.as_bytes())),
        (vec![vec![F, T, F], vec![F, F, T], vec![T, T, T]], (3, 3))
    );
}

#[test]
fn cells_takes_the_black_square_for_a_live_cell() {
    assert_eq!(read(parse_cells(".\u{25A0}o\n".as_bytes())), (vec![vec![F, T, F]], (3, 1)));
}

#[test]
fn cells_strips_a_carriage_return_before_a_line_feed() {
    assert_eq!(
        read(parse_cells(b"O.\r\n.O\r\n")),
        (vec![vec![T, F], vec![F, T]], (2, 2))
    );
    assert_eq!(read(parse_cells(b"O\r")), (vec![vec![T, F]], (2, 1)));
    assert_eq!(read(parse_cells(b"\r\nO")), (vec![vec![F], vec![T]], (1, 2)));
}

#[test]
fn cells_counts_empty_lines_and_the_last_line() {
    assert_eq!(read(parse_cells(b"")), (vec![], (0, 0)));
    assert_eq!(read(parse_cells(b"\n\n")), (vec![vec![], vec![]], (0, 2)));
    assert_eq!(read(parse_cells(b"OO\nO")), (vec![vec![T, T], vec![T, F]], (2, 2)));
    assert_eq!(
        read(parse_cells(b"O\n\nOOO\n")),
        (vec![vec![T, F, F], vec![F, F, F], vec![T, T, T]], (3, 3))
    );
}

#[test]
fn cells_leaves_comments_out_of_rows_and_size() {
    assert_eq!(read(parse_cells(b"!\n!abc\n")), (vec![], (0, 0)));
    assert_eq!(read(parse_cells(b"O!\n!O\n")), (vec![vec![T, F]], (2, 1)));
    assert_eq!(
        read(parse_cells(b"!a long line of comment\nO\n!\n.O\n")),
        (vec![vec![T, F], vec![F, T]], (2, 2))
    );
}

#[test]
fn cells_fills_short_lines_up_with_dead_cells() {
    assert_eq!(
        read(parse_cells(b"O\nOO\n")),
        (vec![vec![T, F], vec![T, T]], (2, 2))
    );
    assert_eq!(
        read(parse_cells(b"...O\n\nO\n")),
        (vec![vec![F, F, F, T], vec![F, F, F, F], vec![T, F, F, F]], (4, 3))
    );
}

#[test]
fn cells_refuses_bytes_that_are_no_text() {
    assert_eq!(parse_cells(&[0x4F, 0xC3, 0x28]).err(), Some(PatternError::Encoding));
}

#[test]
fn rle_reads_a_glider() {
    let text = "#C Glider\nx = 3, y = 3\nbob$2bo$3o!\n";
    assert_eq!(
        read(parse(text.as_bytes())),
        (vec![vec![F, T, F], vec![F, F, T], vec![T, T, T]], (3, 3))
    );
}

#[test]
fn rle_adds_dead_cells_for_a_number_before_the_end_of_a_row() {
    assert_eq!(
        read(parse(b"x\n3o2$bo!")),
        (vec![vec![T, T, T, F, F], vec![F, T, F, F, F]], (5, 2))
    );
    assert_eq!(read(parse(b"x\no0!")), (vec![vec![T]], (1, 1)));
}

#[test]
fn rle_takes_white_space_around_runs() {
    assert_eq!(
        read(parse(b"x\nb o\n$ 3o !")),
        (vec![vec![F, T, F], vec![T, T, T]], (3, 2))
    );
    assert_eq!(
        read(parse(b"x\r\nbo$\r\n\t o!")),
        (vec![vec![F, T], vec![T, F]], (2, 2))
    );
}

#[test]
fn rle_reads_counts_with_leading_zeros_and_of_nought() {
    assert_eq!(read(parse(b"x\n002o0b1o!")), (vec![vec![T, T, T]], (3, 1)));
    assert_eq!(read(parse(b"x\n0o$b!")), (vec![vec![F], vec![F]], (1, 2)));
    assert_eq!(read(parse(b"x\n0o$0b!")), (vec![vec![], vec![]], (0, 2)));
}

#[test]
fn rle_passes_over_comments_around_the_header() {
    assert_eq!(read(parse(b"#C a\n#C b\nhead\n#C c\n#d\no!")), (vec![vec![T]], (1, 1)));
    assert_eq!(read(parse(b"#\nbo!")), (vec![vec![F, T]], (2, 1)));
    assert_eq!(read(parse(b"#a\n#\nb!")), (vec![vec![F]], (1, 1)));
}

#[test]
fn rle_takes_one_line_feed_after_the_last_row() {
    assert_eq!(read(parse(b"x\nbo!\n")), (vec![vec![F, T]], (2, 1)));
    assert_eq!(parse(b"x\nbo!\n\n").err(), Some(PatternError::Syntax));
    assert_eq!(parse(b"x\nbo!\r\n").err(), Some(PatternError::Syntax));
    assert_eq!(parse(b"x\nbo! ").err(), Some(PatternError::Syntax));
}

#[test]
fn rle_refuses_what_is_not_in_the_format() {
    for text in [
        &b""[..],
        b"bo$!",
        b"x\n",
        b"\nbo!",
        b"x\nbo",
        b"x\nbo$$bo!",
        b"x\n$",
        b"x\n3!",
        b"x\n2 o!",
        b"x\nboz!",
        b"x\nbo!bo",
        b"#a\nbo!",
        b"x\n\rbo!",
        b"x\n99999999999999999999999999o!",
        b"x\no99999999999999999999999999!",
    ] {
        assert_eq!(parse(text).err(), Some(PatternError::Syntax));
    }
}

#[test]
fn rle_fills_short_rows_up_with_dead_cells() {
    assert_eq!(
        read(parse(b"x = 4, y = 3\no$4o$2bo!")),
        (vec![vec![T, F, F, F], vec![T, T, T, T], vec![F, F, T, F]], (4, 3))
    );
}

#[test]
fn rle_refuses_a_row_too_long_for_a_pattern() {
    assert_eq!(parse(b"x\n4294967296o!").err(), Some(PatternError::TooLarge));
    assert_eq!(parse(b"x\no4294967295!").err(), Some(PatternError::TooLarge));
    assert_eq!(parse(b"x\nbo$3b4294967295o2b$o!\n").err(), Some(PatternError::TooLarge));
    assert_eq!(parse(b"x\n4294967296o$o").err(), Some(PatternError::Syntax));
}

#[test]
fn rle_refuses_bytes_that_are_no_text() {
    assert_eq!(parse(&[0x78, 0x0A, 0x6F, 0x80, 0x21]).err(), Some(PatternError::Encoding));
    assert_eq!(parse(&[0xFF]).err(), Some(PatternError::Encoding));
}

#[test]
fn a_parsed_pattern_can_be_seeded() {
    let asset = parse(b"x = 3, y = 3\nbob$2bo$3o!").unwrap();
    assert!(asset.rectangular());
    let mut life = Life::new(BoardSize { x: 0, y: 0 }, GameRules::Conway);
    life.seed(&asset, BoardPosition { x: 0, y: 0 });
    let mut cells: Vec<(i32, i32)> =
        life.alive_coordinates().iter().map(|pos| (pos.x, pos.y)).collect();
    cells.sort();
    assert_eq!(cells, vec![(0, 1), (1, 1), (1, 3), (2, 1), (2, 2)]);
}
