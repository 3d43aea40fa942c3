use tsumego_solver::bit_board::{BitBoard, BoardPosition};

#[test]
fn flood_fill() {
    let mask = BitBoard::from_uint(0b0000000000000000_0101011000000000_0000000100100000_0001011001101000_0000100000100000_0001000001110000_0000000000000000_0000000000000000);

    assert_eq!(
        mask.render(),
        "0000000000000000\n\
         0101011000000000\n\
         0000000100100000\n\
         0001011001101000\n\
         0000100000100000\n\
         0001000001110000\n\
         0000000000000000\n\
         0000000000000000\n"
    );

    let filled = BitBoard::singleton(BoardPosition::new(11, 5)).flood_fill(mask);

    assert_eq!(
        filled.render(),
        "0000000000000000\n\
         0000000000000000\n\
         0000000000100000\n\
         0000000001100000\n\
         0000000000100000\n\
         0000000001110000\n\
         0000000000000000\n\
         0000000000000000\n"
    );
}

#[test]
fn from_uint() {
    let board = BitBoard::from_uint(0b0000000000000000_0000000000000000_0010000000000000_0000000000000000_0000000000000000_0000000100000000_0000000000000000_0000000000000000u128);

    assert_eq!(
        board.render(),
        "0000000000000000\n\
         0000000000000000\n\
         0010000000000000\n\
         0000000000000000\n\
         0000000000000000\n\
         0000000100000000\n\
         0000000000000000\n\
         0000000000000000\n"
    );
}

#[test]
fn shifts() {
    let board = BitBoard::from_uint(0b1100011111000001_1000001110000001_0000000000000011_0000000000000111_1110000000000011_1110000000000000_1110000111110000_1110000111110000);

    assert_eq!(
        board.render(),
        "1100011111000001\n\
         1000001110000001\n\
         0000000000000011\n\
         0000000000000111\n\
         1110000000000011\n\
         1110000000000000\n\
         1110000111110000\n\
         1110000111110000\n"
    );

    assert_eq!(
        board.shift_right().render(),
        "0110001111100000\n\
         0100000111000000\n\
         0000000000000001\n\
         0000000000000011\n\
         0111000000000001\n\
         0111000000000000\n\
         0111000011111000\n\
         0111000011111000\n"
    );

    assert_eq!(
        board.shift_left().render(),
        "1000111110000010\n\
         0000011100000010\n\
         0000000000000110\n\
         0000000000001110\n\
         1100000000000110\n\
         1100000000000000\n\
         1100001111100000\n\
         1100001111100000\n"
    );

    assert_eq!(
        board.shift_up().render(),
        "1000001110000001\n\
         0000000000000011\n\
         0000000000000111\n\
         1110000000000011\n\
         1110000000000000\n\
         1110000111110000\n\
         1110000111110000\n\
         0000000000000000\n"
    );

    assert_eq!(
        board.shift_down().render(),
        "0000000000000000\n\
         1100011111000001\n\
         1000001110000001\n\
         0000000000000011\n\
         0000000000000111\n\
         1110000000000011\n\
         1110000000000000\n\
         1110000111110000\n"
    );
}

#[test]
fn shift_right_on_edge() {
    let board = BitBoard::from_uint(0b0000000000000000_0000000000000000_0000000000000001_0000000000000000_0000000000000000_0000000000000000_0000000000000000_0000000000000000);

    assert!(board.shift_right().is_empty());
}

#[test]
fn iterate_groups() {
    let board = BitBoard::from_uint(0b0000000000000000_0100011000000000_0000000000000000_0000111001100000_0000100000100000_0000000001110000_0000000000000000_0000000000000000);

    assert_eq!(
        board.render(),
        "0000000000000000\n\
         0100011000000000\n\
         0000000000000000\n\
         0000111001100000\n\
         0000100000100000\n\
         0000000001110000\n\
         0000000000000000\n\
         0000000000000000\n"
    );

    let groups = board.groups();

    assert_eq!(
        groups[0].render(),
        "0000000000000000\n\
         0100000000000000\n\
         0000000000000000\n\
         0000000000000000\n\
         0000000000000000\n\
         0000000000000000\n\
         0000000000000000\n\
         0000000000000000\n"
    );

    assert_eq!(
        groups[1].render(),
        "0000000000000000\n\
         0000011000000000\n\
         0000000000000000\n\
         0000000000000000\n\
         0000000000000000\n\
         0000000000000000\n\
         0000000000000000\n\
         0000000000000000\n"
    );

    assert_eq!(
        groups[2].render(),
        "0000000000000000\n\
         0000000000000000\n\
         0000000000000000\n\
         0000111000000000\n\
         0000100000000000\n\
         0000000000000000\n\
         0000000000000000\n\
         0000000000000000\n"
    );

    assert_eq!(
        groups[3].render(),
        "0000000000000000\n\
         0000000000000000\n\
         0000000000000000\n\
         0000000001100000\n\
         0000000000100000\n\
         0000000001110000\n\
         0000000000000000\n\
         0000000000000000\n"
    );

    assert_eq!(groups.len(), 4);
}

#[test]
fn iterate_groups2() {
    let board = BitBoard::from_uint(2596148429267413814265248164610048u128);

    assert_eq!(
        board.render(),
        "0000000000000000\n\
         1000000000000000\n\
         0000000000000000\n\
         0000000000000000\n\
         0000000000000000\n\
         0000000000000000\n\
         0000000000000000\n\
         0000000000000000\n"
    );

    let groups = board.groups();

    assert_eq!(
        groups[0].render(),
        "0000000000000000\n\
         1000000000000000\n\
         0000000000000000\n\
         0000000000000000\n\
         0000000000000000\n\
         0000000000000000\n\
         0000000000000000\n\
         0000000000000000\n"
    );

    assert_eq!(groups.len(), 1);
}

#[test]
fn edges_are_in_interior() {
    let board = BitBoard::from_uint(0b1100011111000001_1000001110000001_0000000000000011_0000000000000111_1110000000000011_1110000000000000_1110000111110000_1110000111110000);

    assert_eq!(
        board.render(),
        "1100011111000001\n\
         1000001110000001\n\
         0000000000000011\n\
         0000000000000111\n\
         1110000000000011\n\
         1110000000000000\n\
         1110000111110000\n\
         1110000111110000\n"
    );

    assert_eq!(
        board.interior().render(),
        "1000001110000000\n\
         0000000000000000\n\
         0000000000000001\n\
         0000000000000011\n\
         0000000000000000\n\
         1100000000000000\n\
         1100000000000000\n\
         1100000011100000\n"
    );
}

#[test]
fn iterate_positions() {
    let board = BitBoard::from_uint(0b0000000000000000_0110000000000000_0000000000000000_0000000001000000_0000000000000000_0000000000000000_0000000000000000_0000000000000000);

    assert_eq!(
        board.render(),
        "0000000000000000\n\
         0110000000000000\n\
         0000000000000000\n\
         0000000001000000\n\
         0000000000000000\n\
         0000000000000000\n\
         0000000000000000\n\
         0000000000000000\n"
    );

    let positions = board.positions();

    assert_eq!(
        BitBoard::singleton(positions[0]).render(),
        "0000000000000000\n\
         0100000000000000\n\
         0000000000000000\n\
         0000000000000000\n\
         0000000000000000\n\
         0000000000000000\n\
         0000000000000000\n\
         0000000000000000\n"
    );

    assert_eq!(
        BitBoard::singleton(positions[1]).render(),
        "0000000000000000\n\
         0010000000000000\n\
         0000000000000000\n\
         0000000000000000\n\
         0000000000000000\n\
         0000000000000000\n\
         0000000000000000\n\
         0000000000000000\n"
    );

    assert_eq!(
        BitBoard::singleton(positions[2]).render(),
        "0000000000000000\n\
         0000000000000000\n\
         0000000000000000\n\
         0000000001000000\n\
         0000000000000000\n\
         0000000000000000\n\
         0000000000000000\n\
         0000000000000000\n"
    );

    assert_eq!(positions.len(), 3);
}

#[test]
fn singletons() {
    let board = BitBoard::from_uint(0b1000000000000000_0110000000000000_0000000000010000_0000000000000000_0000000000000000_0000000000000000_1000000000000000_1100000000000000);

    assert_eq!(
        board.render(),
        "1000000000000000\n\
         0110000000000000\n\
         0000000000010000\n\
         0000000000000000\n\
         0000000000000000\n\
         0000000000000000\n\
         1000000000000000\n\
         1100000000000000\n"
    );

    assert_eq!(
        board.singletons().render(),
        "1000000000000000\n\
         0000000000000000\n\
         0000000000010000\n\
         0000000000000000\n\
         0000000000000000\n\
         0000000000000000\n\
         0000000000000000\n\
         0000000000000000\n"
    );
}

#[test]
fn some_cell() {
    let board = BitBoard::from_uint(0b0000000000000000_0110000000000000_0000000000010000_0000000000000000_0000000000000000_0000000000000000_1000000000000000_1100000000000000);

    assert_eq!(board.some_cell(), BoardPosition::new(1, 1));

    let board = BitBoard::from_uint(0b0000000000000000_0000000000000000_0000000000000000_0000000000000000_0000000010000000_0000000000000000_1000000000000000_0000000000000000);

    assert_eq!(board.some_cell(), BoardPosition::new(8, 4));

    let board = BitBoard::from_uint(0b0000000000000000_0000000000000000_0000000000000000_0000000000000000_0000000000000000_0000000000000000_0000001000000000_0000010000000000);

    assert_eq!(board.some_cell(), BoardPosition::new(6, 6));
}

#[test]
fn singleton() {
    assert_eq!(
        BitBoard::singleton(BoardPosition::new(8, 0)).render(),
        "0000000010000000\n\
         0000000000000000\n\
         0000000000000000\n\
         0000000000000000\n\
         0000000000000000\n\
         0000000000000000\n\
         0000000000000000\n\
         0000000000000000\n"
    );

    assert_eq!(
        BitBoard::singleton(BoardPosition::new(4, 6)).render(),
        "0000000000000000\n\
         0000000000000000\n\
         0000000000000000\n\
         0000000000000000\n\
         0000000000000000\n\
         0000000000000000\n\
         0000100000000000\n\
         0000000000000000\n"
    );
}

#[test]
fn set() {
    assert_eq!(
        BitBoard::empty().set(BoardPosition::new(1, 1)).render(),
        "0000000000000000\n\
         0100000000000000\n\
         0000000000000000\n\
         0000000000000000\n\
         0000000000000000\n\
         0000000000000000\n\
         0000000000000000\n\
         0000000000000000\n"
    );
}
