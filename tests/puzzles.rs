use sudoku_solver::sudoku::{Cell, Puzzle};

fn solution_str(puzzle: &Puzzle) -> String {
    String::from_utf8(
        puzzle
            .cells
            .iter()
            .map(|cell| match cell {
                Cell::Solved(c) => *c + b'0',
                Cell::Unsolved(_) => b'.',
            })
            .collect::<Vec<_>>(),
    )
    .unwrap()
}

fn test_puzzle_with_solution(cases: &[(&str, &str)]) {
    let mut solved = 0;

    for (problem, solution) in cases {
        let mut puzzle = Puzzle::new_from_string(problem.as_bytes());

        if puzzle.solve() {
            let sol = solution_str(&puzzle);
            if &sol == solution {
                solved += 1;
            } else {
                panic!("got: {sol}\nexpected: {solution}")
            }
        }
    }

    let n = cases.len();
    assert_eq!(solved, n, "solved {solved}/{n}",);
}

const EASY: [(&str, &str); 2] = [
    (
        "003020600900305001001806400008102900700000008006708200002609500800203009005010300",
        "483921657967345821251876493548132976729564138136798245372689514814253769695417382",
    ),
    (
        "200080300060070084030500209000105408000000000402706000301007040720040060004010003",
        "245981376169273584837564219976125438513498627482736951391657842728349165654812793",
    ),
];

const MEDIUM: [(&str, &str); 2] = [
    (
        "000000907000420180000705026100904000050000040000507009920108000034059000507000000",
        "462831957795426183381795426173984265659312748248567319926178534834259671517643892",
    ),
    (
        "030050040008010500460000012070502080000603000040109030250000098001020600080060020",
        "137256849928314567465897312673542981819673254542189736256731498391428675784965123",
    ),
];

const HARD: [(&str, &str); 2] = [
    (
        "4.....8.5.3..........7......2.....6.....8.4......1.......6.3.7.5..2.....1.4......",
        "417369825632158947958724316825437169791586432346912758289643571573291684164875293",
    ),
    (
        "52...6.........7.13...........4..8..6......5...........418.........3..2...87.....",
        "527316489896542731314987562172453896689271354453698217941825673765134928238769145",
    ),
];

const EXPERT: [(&str, &str); 2] = [
    (
        "..53.....8......2..7..1.5..4....53...1..7...6..32...8..6.5....9..4....3......97..",
        "145327698839654127672918543496185372218473956753296481367542819984761235521839764",
    ),
    (
        "1....7.9..3..2...8..96..5....53..9...1..8...26....4...3......1..4......7..7...3..",
        "162857493534129678789643521475312986913586742628794135356478219241935867897261354",
    ),
];

const EVIL: [(&str, &str); 2] = [
    (
        "000000010400000000020000000000050407008000300001090000300400200050100000000806000",
        "693784512487512936125963874932651487568247391741398625319475268856129743274836159",
    ),
    (
        "85...24..72......9..4.........1.7..23.5...9...4...........8..7..17..........36.4.",
        "859612437723854169164379528986147352375268914241593786432981675617425893598736241",
    ),
];

#[test]
fn test_easy() {
    test_puzzle_with_solution(&EASY);
}

#[test]
fn test_medium() {
    test_puzzle_with_solution(&MEDIUM);
}

#[test]
fn test_hard() {
    test_puzzle_with_solution(&HARD);
}

#[test]
fn test_expert() {
    test_puzzle_with_solution(&EXPERT);
}

#[test]
fn test_evil() {
    test_puzzle_with_solution(&EVIL);
}

#[test]
fn test_combined() {
    let mut all = Vec::new();
    for set in [EASY, MEDIUM, HARD, EXPERT, EVIL] {
        all.extend_from_slice(&set);
    }
    test_puzzle_with_solution(&all);
}

const SOLVED_GRID: &str =
    "483921657967345821251876493548132976729564138136798245372689514814253769695417382";

#[test]
fn completed_grid_is_valid_and_stays_unchanged() {
    let mut puzzle = Puzzle::new_from_string(SOLVED_GRID.as_bytes());
    assert!(puzzle.is_valid());
    assert!(puzzle.solve());
    assert_eq!(solution_str(&puzzle), SOLVED_GRID);
}

#[test]
fn duplicate_in_row_is_invalid() {
    let mut text = String::from("55");
    text.push_str(&".".repeat(79));
    let puzzle = Puzzle::new_from_string(text.as_bytes());
    assert!(!puzzle.is_valid());
}

#[test]
fn duplicate_in_column_and_box_is_invalid() {
    let mut col = vec![b'.'; 81];
    col[4] = b'7';
    col[76] = b'7';
    assert!(!Puzzle::new_from_string(&col).is_valid());
    let mut bx = vec![b'0'; 81];
    bx[0] = b'3';
    bx[20] = b'3';
    assert!(!Puzzle::new_from_string(&bx).is_valid());
}

#[test]
fn validation_gives_the_same_answer_twice() {
    let puzzle = Puzzle::new_from_string(EVIL[0].0.as_bytes());
    let first = puzzle.is_valid();
    let second = puzzle.is_valid();
    assert!(first);
    assert_eq!(first, second);
    let mut bad = String::from("1.1");
    bad.push_str(&".".repeat(78));
    let bad = Puzzle::new_from_string(bad.as_bytes());
    assert_eq!(bad.is_valid(), bad.is_valid());
    assert!(!bad.is_valid());
}

#[test]
fn seventeen_clue_puzzle_has_its_unique_solution() {
    let mut puzzle = Puzzle::new_from_string(EVIL[0].0.as_bytes());
    assert!(puzzle.is_valid());
    assert!(puzzle.solve());
    assert_eq!(solution_str(&puzzle), EVIL[0].1);
}

#[test]
fn forced_contradiction_fails_and_restores_grid() {
    // Row 0 holds 1..8, so its last cell must be 9, but column 8 already has a 9 below it.
    let mut text = String::from("12345678.");
    text.push_str("........9");
    text.push_str(&".".repeat(63));
    let mut puzzle = Puzzle::new_from_string(text.as_bytes());
    assert!(puzzle.is_valid());
    let before = solution_str(&puzzle);
    let before_empty = puzzle.empty_cells.len();
    assert!(!puzzle.solve());
    assert_eq!(solution_str(&puzzle), before);
    assert_eq!(puzzle.empty_cells.len(), before_empty);
    match puzzle.cells[8] {
        Cell::Unsolved(set) => assert_eq!(set.to_vec(), vec![1, 2, 3, 4, 5, 6, 7, 8, 9]),
        Cell::Solved(_) => panic!("cell 8 should be unsolved"),
    }
}

#[test]
fn solving_keeps_the_givens() {
    let problem = HARD[0].0;
    let mut puzzle = Puzzle::new_from_string(problem.as_bytes());
    assert!(puzzle.solve());
    let sol = solution_str(&puzzle);
    for (given, got) in problem.bytes().zip(sol.bytes()) {
        if given.is_ascii_digit() && given != b'0' {
            assert_eq!(given, got);
        }
    }
    assert_eq!(puzzle.empty_cells.len(), 0);
}

#[test]
fn construction_marks_placeholders_unsolved() {
    let mut text = String::from("0.x5");
    text.push_str(&"9".repeat(77));
    let puzzle = Puzzle::new_from_string(text.as_bytes());
    assert_eq!(puzzle.empty_cells.to_vec(), vec![0, 1, 2]);
    for i in 0..3 {
        match puzzle.cells[i] {
            Cell::Unsolved(set) => assert_eq!(set.to_vec(), vec![1, 2, 3, 4, 5, 6, 7, 8, 9]),
            Cell::Solved(_) => panic!("cell {i} should be unsolved"),
        }
    }
    assert_eq!(puzzle.cells[3].value(), 5);
    assert_eq!(puzzle.cells[80].value(), 9);
    assert_eq!(puzzle.cells[0].value(), 0);
    assert_eq!(puzzle.cells[3].markup().len(), 0);
}

#[test]
fn solved_grid_has_each_digit_once_per_group() {
    let mut puzzle = Puzzle::new_from_string(EXPERT[1].0.as_bytes());
    assert!(puzzle.solve());
    let digits: Vec<u8> = puzzle.cells.iter().map(|c| c.value()).collect();
    for g in 0..27 {
        let members = sudoku_solver::utils::range(g).to_vec();
        assert_eq!(members.len(), 9);
        let mut seen: Vec<u8> = members.iter().map(|&i| digits[i]).collect();
        seen.sort();
        assert_eq!(seen, vec![1, 2, 3, 4, 5, 6, 7, 8, 9]);
    }
}
