use std::convert::TryFrom;
use sudoku_solver::graph::{Graph, Vertex};
use sudoku_solver::sudoku::format::ErrorKind;
use sudoku_solver::sudoku::number::{Number, TooLarge};
use sudoku_solver::sudoku::parser::SudokuParser;
use sudoku_solver::sudoku::NumParseError;
use sudoku_solver::Sudoku;

const SAMPLE: &str = "\
+---+---+---+
| 4 |52 |7  |
|1  | 3 | 8 |
|  9|   |   |
+---+---+---+
| 5 | 7 |  9|
|2 7|1  |   |
|  6| 8 |4  |
+---+---+---+
|8  |  9| 5 |
|  2|   | 1 |
|7  |4  |9  |
+---+---+---+";

const SAMPLE_NUMS: [u8; 81] = [
    0, 4, 0, 5, 2, 0, 7, 0, 0, 1, 0, 0, 0, 3, 0, 0, 8, 0, 0, 0, 9, 0, 0, 0, 0, 0, 0, 0, 5, 0, 0,
    7, 0, 0, 0, 9, 2, 0, 7, 1, 0, 0, 0, 0, 0, 0, 0, 6, 0, 8, 0, 4, 0, 0, 8, 0, 0, 0, 0, 9, 0, 5, 0,
    0, 0, 2, 0, 0, 0, 0, 1, 0, 7, 0, 0, 4, 0, 0, 9, 0, 0,
];

#[test]
fn test_parse() {
    let my_string = "\
+---+---+---+
| 4 |52 |7  |
|1  | 3 | 8 |
|  9|   |   |
+---+---+---+
| 5 | 7 |  9|
|2 7|1  |   |
|  6| 8 |4  |
+---+---+---+
|8  |  9| 5 |
|  2|   | 1 |
|7  |4  |9  |
+---+---+---+";
    let my_nums = [
        0, 4, 0, 5, 2, 0, 7, 0, 0, 1, 0, 0, 0, 3, 0, 0, 8, 0, 0, 0, 9, 0, 0, 0, 0, 0, 0, 0, 5,
        0, 0, 7, 0, 0, 0, 9, 2, 0, 7, 1, 0, 0, 0, 0, 0, 0, 0, 6, 0, 8, 0, 4, 0, 0, 8, 0, 0, 0,
        0, 9, 0, 5, 0, 0, 0, 2, 0, 0, 0, 0, 1, 0, 7, 0, 0, 4, 0, 0, 9, 0, 0,
    ];

    let puzzle1 = Sudoku::from_string(my_string).expect("Parse failure!");
    let puzzle2 = Sudoku::from_numbers(&my_nums).expect("Parse failure!");

    assert_eq!(puzzle1.is_solved(), false);
    assert_eq!(puzzle2.is_solved(), false);
    assert_eq!(puzzle1, puzzle2);
}

#[test]
fn cells_are_read_in_row_major_order() {
    let puzzle = Sudoku::from_string(SAMPLE).expect("a puzzle");
    for cell in 0..81 {
        assert_eq!(u8::from(puzzle.index(cell / 9, cell % 9)), SAMPLE_NUMS[cell]);
    }
    assert_eq!(puzzle.index(0, 1), Number::Four);
    assert_eq!(puzzle.index(8, 6), Number::Nine);
    assert_eq!(puzzle.index(0, 0), Number::Empty);
}

#[test]
fn pretty_print_writes_thirteen_lines() {
    let puzzle = Sudoku::from_numbers(&SAMPLE_NUMS).expect("81 numbers");
    let mut expected = String::from(SAMPLE);
    expected.push('\n');
    assert_eq!(puzzle.pretty_print(), expected);
    assert_eq!(puzzle.pretty_print().len(), 182);
}

#[test]
fn writing_then_reading_gives_the_same_puzzle() {
    let puzzle = Sudoku::from_numbers(&SAMPLE_NUMS).expect("81 numbers");
    let again = Sudoku::from_string(&puzzle.pretty_print()).expect("own text");
    assert_eq!(again, puzzle);
    assert_eq!(again.is_solved(), puzzle.is_solved());
    assert_eq!(again.pretty_print(), puzzle.pretty_print());

    let full: Vec<u8> =
        "534678912672195348198342567859761423426853791713924856961537284287419635345286179"
            .bytes()
            .map(|b| b - b'0')
            .collect();
    let puzzle = Sudoku::from_numbers(&full).expect("81 numbers");
    let again = Sudoku::from_string(&puzzle.pretty_print()).expect("own text");
    assert_eq!(again, puzzle);
    assert!(again.is_solved());
}

#[test]
fn all_blank_bytes_are_empty_cells() {
    let text = SAMPLE.replace("|  9|   |   |", "|0x9|X_ |000|");
    let puzzle = Sudoku::from_string(&text).expect("a puzzle");
    assert_eq!(puzzle, Sudoku::from_numbers(&SAMPLE_NUMS).expect("81 numbers"));
    assert!(!puzzle.is_solved());
}

#[test]
fn line_breaks_of_all_three_kinds() {
    let expected = Sudoku::from_numbers(&SAMPLE_NUMS).expect("81 numbers");
    let crlf = SAMPLE.replace('\n', "\r\n");
    assert_eq!(Sudoku::from_string(&crlf).expect("a puzzle"), expected);
    let cr = SAMPLE.replace('\n', "\r");
    assert_eq!(Sudoku::from_string(&cr).expect("a puzzle"), expected);
    let mixed = SAMPLE.replacen('\n', "\r\n", 3);
    assert_eq!(Sudoku::from_string(&mixed).expect("a puzzle"), expected);
}

#[test]
fn text_behind_the_last_border_is_not_read() {
    let expected = Sudoku::from_numbers(&SAMPLE_NUMS).expect("81 numbers");
    let text = format!("{}\nand more", SAMPLE);
    assert_eq!(Sudoku::from_string(&text).expect("a puzzle"), expected);
    let text = format!("{}??", SAMPLE);
    assert_eq!(Sudoku::from_string(&text).expect("a puzzle"), expected);
}

#[test]
fn wrong_frame_byte_is_reported() {
    let text = SAMPLE.replacen("+---+---+---+", "+---+-*-+---+", 1);
    let e = Sudoku::from_string(&text).unwrap_err();
    assert_eq!(e.line_no(), 1);
    assert_eq!(e.column(), 6);
    assert_eq!(e.pos(), 6);
    assert_eq!(e.kind(), ErrorKind::Expected { found: b'*', needed: b'-' });

    let text = SAMPLE.replacen("|1  | 3 | 8 |", "|1  # 3 | 8 |", 1);
    let e = Sudoku::from_string(&text).unwrap_err();
    assert_eq!(e.line_no(), 3);
    assert_eq!(e.column(), 4);
    assert_eq!(e.pos(), 32);
    assert_eq!(e.kind(), ErrorKind::Expected { found: b'#', needed: b'|' });

    let e = Sudoku::from_string("x").unwrap_err();
    assert_eq!(e.line_no(), 1);
    assert_eq!(e.column(), 0);
    assert_eq!(e.pos(), 0);
    assert_eq!(e.kind(), ErrorKind::Expected { found: b'x', needed: b'+' });
}

#[test]
fn wrong_cell_byte_is_reported() {
    let text = SAMPLE.replacen("|2 7|1  |   |", "|2 7|1 a|   |", 1);
    let e = Sudoku::from_string(&text).unwrap_err();
    assert_eq!(e.line_no(), 7);
    assert_eq!(e.column(), 7);
    assert_eq!(e.pos(), 6 * 14 + 7);
    assert_eq!(e.kind(), ErrorKind::NotADigit);

    // bytes below '0' and above '9' alike
    for bad in ["!", ":", "/", "-", "+", "|"] {
        let text = SAMPLE.replacen(" 4 ", &format!(" 4{}", bad), 1);
        let e = Sudoku::from_string(&text).unwrap_err();
        assert_eq!(e.kind(), ErrorKind::NotADigit);
        assert_eq!(e.line_no(), 2);
        assert_eq!(e.column(), 3);
        assert_eq!(e.pos(), 17);
    }
}

#[test]
fn missing_line_break_is_reported() {
    let text = SAMPLE.replacen("+---+---+---+\n", "+---+---+---+ ", 1);
    let e = Sudoku::from_string(&text).unwrap_err();
    assert_eq!(e.line_no(), 1);
    assert_eq!(e.column(), 13);
    assert_eq!(e.pos(), 13);
    assert_eq!(e.kind(), ErrorKind::MissingNewline);

    // the text ends where a line break is due
    let e = Sudoku::from_string("+---+---+---+").unwrap_err();
    assert_eq!(e.line_no(), 1);
    assert_eq!(e.column(), 13);
    assert_eq!(e.kind(), ErrorKind::MissingNewline);
}

#[test]
fn early_end_is_reported() {
    let e = Sudoku::from_string("").unwrap_err();
    assert_eq!(e.line_no(), 1);
    assert_eq!(e.column(), 0);
    assert_eq!(e.pos(), 0);
    assert_eq!(e.kind(), ErrorKind::UnexpectedEnd);

    let e = Sudoku::from_string("+---+---+---+\r\n| 4").unwrap_err();
    assert_eq!(e.line_no(), 2);
    assert_eq!(e.column(), 3);
    assert_eq!(e.pos(), 18);
    assert_eq!(e.kind(), ErrorKind::UnexpectedEnd);

    let cut = &SAMPLE[..SAMPLE.len() - 1];
    let e = Sudoku::from_string(cut).unwrap_err();
    assert_eq!(e.line_no(), 13);
    assert_eq!(e.column(), 12);
    assert_eq!(e.pos(), 180);
    assert_eq!(e.kind(), ErrorKind::UnexpectedEnd);
}

#[test]
fn parser_can_be_used_directly() {
    let puzzle = SudokuParser::new(SAMPLE).parse().expect("a puzzle");
    assert_eq!(puzzle, Sudoku::from_numbers(&SAMPLE_NUMS).expect("81 numbers"));
    assert!(SudokuParser::new("+--").parse().is_err());
}

#[test]
fn try_from_is_what_the_constructors_call() {
    let a = Sudoku::try_from(SAMPLE).expect("a puzzle");
    let b = Sudoku::try_from(&SAMPLE_NUMS[..]).expect("81 numbers");
    assert_eq!(a, b);
}

#[test]
fn numbers_of_the_wrong_length_are_refused() {
    assert_eq!(Sudoku::from_numbers(&[]).unwrap_err(), NumParseError::NotEnoughNumbers);
    assert_eq!(Sudoku::from_numbers(&[1u8; 80]).unwrap_err(), NumParseError::NotEnoughNumbers);
    assert_eq!(Sudoku::from_numbers(&[1u8; 82]).unwrap_err(), NumParseError::NotEnoughNumbers);
    // the length is looked at before the numbers
    assert_eq!(Sudoku::from_numbers(&[200u8; 3]).unwrap_err(), NumParseError::NotEnoughNumbers);
}

#[test]
fn numbers_above_nine_are_refused() {
    let mut nums = [0u8; 81];
    nums[80] = 10;
    assert_eq!(Sudoku::from_numbers(&nums).unwrap_err(), NumParseError::NumberTooLarge);
    nums[80] = 9;
    assert!(Sudoku::from_numbers(&nums).is_ok());
    nums[0] = 255;
    assert_eq!(Sudoku::from_numbers(&nums).unwrap_err(), NumParseError::NumberTooLarge);
}

#[test]
fn solved_flag_follows_the_cells() {
    assert!(Sudoku::from_numbers(&[1u8; 81]).expect("81 numbers").is_solved());
    let mut nums = [1u8; 81];
    nums[80] = 0;
    assert!(!Sudoku::from_numbers(&nums).expect("81 numbers").is_solved());
}

#[test]
fn equality_looks_at_the_cells() {
    let a = Sudoku::from_numbers(&SAMPLE_NUMS).expect("81 numbers");
    let mut nums = SAMPLE_NUMS;
    nums[80] = 3;
    let b = Sudoku::from_numbers(&nums).expect("81 numbers");
    assert_ne!(a, b);
    assert_eq!(a, Sudoku::from_numbers(&SAMPLE_NUMS).expect("81 numbers"));
}

#[test]
fn number_counts_up_to_nine() {
    let all = [
        Number::Empty,
        Number::One,
        Number::Two,
        Number::Three,
        Number::Four,
        Number::Five,
        Number::Six,
        Number::Seven,
        Number::Eight,
        Number::Nine,
    ];
    for i in 0..9 {
        assert_eq!(all[i].inc(), all[i + 1]);
    }
    for (i, n) in all.iter().enumerate() {
        assert_eq!(u8::from(*n), i as u8);
        assert_eq!(Number::try_from(i as u8), Ok(*n));
    }
    assert_eq!(Number::try_from(10u8), Err(TooLarge));
    assert_eq!(Number::try_from(255u8), Err(TooLarge));
}

#[test]
fn vertex_holds_what_it_is_given() {
    let mut v = Vertex::new(3, 5, false, Number::Empty);
    assert_eq!(v.coords(), (3, 5));
    assert!(!v.is_fixed());
    assert_eq!(v.value(), Number::Empty);
    v.inc();
    assert_eq!(v.value(), Number::One);
    v.set_value(Number::Eight);
    v.inc();
    assert_eq!(v.value(), Number::Nine);
    assert_eq!(v.coords(), (3, 5));
    assert!(!v.is_fixed());
}

#[test]
fn graph_marks_the_givens() {
    let puzzle = Sudoku::from_numbers(&SAMPLE_NUMS).expect("81 numbers");
    let mut graph = Graph::new(&puzzle);
    for cell in 0..81 {
        let v = graph.index(cell / 9, cell % 9);
        assert_eq!(v.coords(), (cell / 9, cell % 9));
        assert_eq!(u8::from(v.value()), SAMPLE_NUMS[cell]);
        assert_eq!(v.is_fixed(), SAMPLE_NUMS[cell] != 0);
    }
    graph.inc(0, 0);
    assert_eq!(graph.index(0, 0).value(), Number::One);
    graph.set_value(0, 0, Number::Seven);
    assert_eq!(graph.index(0, 0).value(), Number::Seven);
    assert_eq!(graph.index(0, 1).value(), Number::Four);
    let back = Sudoku::from(graph);
    assert_eq!(back.index(0, 0), Number::Seven);
    assert!(!back.is_solved());
}
