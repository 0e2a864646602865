use letterfront::models::array2d::{Array2D, Int2, ShapeError};
use letterfront::models::corpus::Corpus;
use letterfront::models::letterfield::{
    ids_are_distinct, Direction, Letterfield, WordMatch, WordMatchKind,
};

fn field(text: &str) -> Letterfield {
    Letterfield::try_from(text.to_string()).unwrap()
}

fn letters(field: &Letterfield) -> Vec<(Int2, char)> {
    field.iter().into_iter().map(|(pos, (_, c))| (pos, c)).collect()
}

fn ids(field: &Letterfield) -> Vec<u32> {
    field.iter().into_iter().map(|(_, (id, _))| id).collect()
}

fn word(m: &WordMatch) -> String {
    match &m.kind {
        WordMatchKind::Word(w) => w.clone(),
        WordMatchKind::SameLetterRow(c) => format!("run of {c}"),
    }
}

fn cells(m: &WordMatch) -> Vec<(usize, usize)> {
    m.tiles.iter().map(|(_, _, pos)| (pos.x, pos.y)).collect()
}

/// A dictionary of twelve letters, each as frequent as the others, with
/// enough words that a large random field has matches, and few enough that
/// it settles after some passes.
fn sparse_corpus() -> Corpus {
    Corpus::from_words(&[
        "abc", "def", "ghi", "jkl", "bcd", "efg", "hij", "kla", "cde", "fgh", "ijk", "lab", "adg",
        "beh", "cfi", "jad", "kbe", "lcf", "gda", "heb", "ifc", "daj", "ebk", "fcl",
    ])
}

#[test]
fn letterfield_to_and_from_str() {
    let corpus = Corpus::from_words(&["Cat", "Tomb", "Atom", "at", "Tom"]);
    let letterfield = Letterfield::random(4, 5, &corpus);
    assert!(letterfield.reads_back());
    let letterfield2: Letterfield = Letterfield::try_from(letterfield.to_string()).unwrap();
    // The text holds the letters and not the ids: the letters come back cell
    // by cell, the ids are given anew.
    assert_eq!(letters(&letterfield), letters(&letterfield2));
    assert_eq!(letterfield.to_string(), letterfield2.to_string());
    assert_eq!(letterfield.dimensions(), letterfield2.dimensions());
}

#[test]
fn letterfield_matches() {
    let corpus = sparse_corpus();
    let letterfield = Letterfield::random(20, 20, &corpus);
    // probabilistic test but should be fine:
    assert!(!letterfield.find_word_matches(&corpus).is_empty());
    let (letterfield, _) = Letterfield::random_with_no_matches(20, 20, &corpus).unwrap();
    assert!(letterfield.find_word_matches(&corpus).is_empty());
}

#[test]
fn try_from_reads_rows_and_numbers_the_tiles() {
    let f = field("c a t\nO x X\n");
    assert_eq!(f.dimensions(), (3, 2));
    assert_eq!(f.width(), 3);
    assert_eq!(f.height(), 2);
    assert_eq!(
        f.iter(),
        vec![
            (Int2 { x: 0, y: 0 }, (1, 'C')),
            (Int2 { x: 0, y: 1 }, (4, 'O')),
            (Int2 { x: 1, y: 0 }, (2, 'A')),
            (Int2 { x: 1, y: 1 }, (5, 'X')),
            (Int2 { x: 2, y: 0 }, (3, 'T')),
            (Int2 { x: 2, y: 1 }, (6, 'X')),
        ]
    );
    assert_eq!(f.to_string(), "C A T\nO X X");
    assert_eq!(f.to_detail_string(), "(1, C) (2, A) (3, T)\n(4, O) (5, X) (6, X)");
}

#[test]
fn try_from_ignores_spaces_and_trims() {
    let f = field("  CAT \t\r\n T O M\n");
    assert_eq!(f.to_string(), "C A T\nT O M");
}

#[test]
fn try_from_jagged_text_fails() {
    assert_eq!(
        Letterfield::try_from("CAT\nTO".to_string()).err(),
        Some(ShapeError)
    );
    assert_eq!(
        Letterfield::try_from("CAT\n\nTOM".to_string()).err(),
        Some(ShapeError)
    );
}

#[test]
fn try_from_empty_text_gives_an_empty_field() {
    let f = field("");
    assert_eq!(f.dimensions(), (0, 0));
    assert!(f.iter().is_empty());
    assert_eq!(f.to_string(), "");
}

#[test]
fn from_rows_numbers_row_after_row() {
    let f = Letterfield::from_rows(vec![vec!['a', 'b'], vec!['c', 'd'], vec!['e', 'f']]).unwrap();
    assert_eq!(f.dimensions(), (2, 3));
    assert_eq!(f.to_detail_string(), "(1, a) (2, b)\n(3, c) (4, d)\n(5, e) (6, f)");
    assert!(Letterfield::from_rows(vec![vec!['a'], vec![]]).is_err());
}

#[test]
fn to_detail_string_writes_ids_in_decimal() {
    let cols = vec![vec![(0, 'A'), (10, 'B')], vec![(4294967295, 'C'), (120, 'D')]];
    let f = Letterfield::new(Array2D::try_from(cols).unwrap());
    assert_eq!(
        f.to_detail_string(),
        "(0, A) (4294967295, C)\n(10, B) (120, D)"
    );
    assert_eq!(f.to_string(), "A C\nB D");
}

#[test]
fn new_keeps_the_tiles() {
    let cols = vec![vec![(7, 'A'), (3, 'B')], vec![(5, 'C'), (9, 'D')]];
    let f = Letterfield::new(Array2D::try_from(cols.clone()).unwrap());
    assert_eq!(f.dimensions(), (2, 2));
    assert_eq!(ids(&f), vec![7, 3, 5, 9]);
    assert_eq!(f.grid().cols, cols);
    // The next id lies above all of them.
    let mut f = f;
    let corpus = Corpus::from_words(&["ABC"]);
    let r = f.find_word_matches_and_fill_spaces(&corpus, &vec![]);
    assert!(r.is_empty());
    assert!(f.can_refill());
}

#[test]
fn random_numbers_the_tiles_column_after_column() {
    let corpus = Corpus::from_words(&["Cat", "Tomb"]);
    let f = Letterfield::random(3, 4, &corpus);
    assert_eq!(f.dimensions(), (3, 4));
    assert_eq!(ids(&f), (0..12).collect::<Vec<u32>>());
    for (_, c) in letters(&f) {
        assert!("CATOMB".contains(c));
    }
    let cells: Vec<Int2> = f.iter().into_iter().map(|(pos, _)| pos).collect();
    assert_eq!(cells[0], Int2 { x: 0, y: 0 });
    assert_eq!(cells[1], Int2 { x: 0, y: 1 });
    assert_eq!(cells[4], Int2 { x: 1, y: 0 });
    assert_eq!(cells[11], Int2 { x: 2, y: 3 });
}

#[test]
fn random_of_no_cells_is_empty() {
    let corpus = Corpus::from_words(&["Cat"]);
    assert!(Letterfield::random(0, 5, &corpus).iter().is_empty());
    assert!(Letterfield::random(5, 0, &corpus).iter().is_empty());
    assert_eq!(Letterfield::random(0, 5, &corpus).dimensions(), (0, 5));
}

#[test]
fn random_with_no_matches_on_a_small_field() {
    let corpus = Corpus::from_words(&["aaa"]);
    let (f, tries) = Letterfield::random_with_no_matches(2, 2, &corpus).unwrap();
    assert_eq!(tries, 1);
    assert_eq!(f.to_string(), "A A\nA A");
    assert!(f.find_word_matches(&corpus).is_empty());
}

#[test]
fn finds_a_word_in_a_row() {
    let corpus = Corpus::from_words(&["cat"]);
    let f = field("X C A T\nQ R S U\nV W Y Z");
    let found = f.find_word_matches(&corpus);
    assert_eq!(found.len(), 1);
    assert_eq!(word(&found[0]), "CAT");
    assert_eq!(found[0].direction, Direction::Row);
    assert_eq!(
        found[0].tiles,
        vec![
            (2, 'C', Int2 { x: 1, y: 0 }),
            (3, 'A', Int2 { x: 2, y: 0 }),
            (4, 'T', Int2 { x: 3, y: 0 }),
        ]
    );
}

#[test]
fn finds_a_word_in_a_column() {
    let corpus = Corpus::from_words(&["cat"]);
    let f = field("X C\nQ A\nV T");
    let found = f.find_word_matches(&corpus);
    assert_eq!(found.len(), 1);
    assert_eq!(word(&found[0]), "CAT");
    assert_eq!(found[0].direction, Direction::Column);
    assert_eq!(
        found[0].tiles,
        vec![
            (2, 'C', Int2 { x: 1, y: 0 }),
            (4, 'A', Int2 { x: 1, y: 1 }),
            (6, 'T', Int2 { x: 1, y: 2 }),
        ]
    );
}

#[test]
fn finds_a_word_on_a_diagonal() {
    let corpus = Corpus::from_words(&["cat"]);
    let f = field("X C Y Z\nY Z A X\nZ Q X T");
    let found = f.find_word_matches(&corpus);
    assert_eq!(found.len(), 1);
    assert_eq!(word(&found[0]), "CAT");
    assert_eq!(found[0].direction, Direction::Diagonal);
    assert_eq!(cells(&found[0]), vec![(1, 0), (2, 1), (3, 2)]);
}

#[test]
fn does_not_read_the_rising_diagonal_or_backwards() {
    let corpus = Corpus::from_words(&["cat"]);
    assert!(field("X Y T\nY A Z\nC Z X").find_word_matches(&corpus).is_empty());
    assert!(field("T A C\nX Q Y\nQ Y Z").find_word_matches(&corpus).is_empty());
}

#[test]
fn finds_a_row_of_one_letter() {
    let corpus = Corpus::from_words(&["cat"]);
    let f = field("O O O O\nX Y Z W\nQ R S U");
    let found = f.find_word_matches(&corpus);
    assert_eq!(found.len(), 1);
    assert_eq!(found[0].direction, Direction::Row);
    assert!(matches!(found[0].kind, WordMatchKind::SameLetterRow('O')));
    assert_eq!(cells(&found[0]), vec![(0, 0), (1, 0), (2, 0), (3, 0)]);
}

#[test]
fn a_line_of_two_equal_letters_is_no_run() {
    let corpus = Corpus::from_words(&["cat"]);
    assert!(field("O O\nX Y").find_word_matches(&corpus).is_empty());
    assert!(field("O\nO").find_word_matches(&corpus).is_empty());
    assert!(field("O").find_word_matches(&corpus).is_empty());
}

#[test]
fn a_run_of_one_letter_is_not_searched_for_words() {
    let corpus = Corpus::from_words(&["ooo"]);
    let f = field("O O O O\nX Y Z W\nQ R S U");
    let found = f.find_word_matches(&corpus);
    assert_eq!(found.len(), 1);
    assert!(matches!(found[0].kind, WordMatchKind::SameLetterRow('O')));
}

#[test]
fn reports_columns_then_rows_then_diagonals() {
    let corpus = Corpus::from_words(&["cat", "cow", "cab"]);
    // C A T
    // O A X
    // W X B
    let f = field("C A T\nO A X\nW X B");
    let found = f.find_word_matches(&corpus);
    let got: Vec<(String, Direction)> = found.iter().map(|m| (word(m), m.direction)).collect();
    assert_eq!(
        got,
        vec![
            ("COW".to_string(), Direction::Column),
            ("CAT".to_string(), Direction::Row),
            ("CAB".to_string(), Direction::Diagonal),
        ]
    );
    // The tile in the corner lies in all three.
    for m in &found {
        assert_eq!(m.tiles[0], (1, 'C', Int2 { x: 0, y: 0 }));
    }
}

#[test]
fn matches_in_one_line_follow_the_greedy_search() {
    let corpus = Corpus::from_words(&["Cat", "Tomb", "Atom", "at", "Tom"]);
    let f = field("C A T O M B\nX Y Z X Y Z\nY Z X Y Z X");
    let found = f.find_word_matches(&corpus);
    let got: Vec<(String, Vec<(usize, usize)>)> =
        found.iter().map(|m| (word(m), cells(m))).collect();
    assert_eq!(
        got,
        vec![
            ("CAT".to_string(), vec![(0, 0), (1, 0), (2, 0)]),
            ("ATOM".to_string(), vec![(1, 0), (2, 0), (3, 0), (4, 0)]),
            ("TOMB".to_string(), vec![(2, 0), (3, 0), (4, 0), (5, 0)]),
        ]
    );
}

#[test]
fn move_letter_to_the_same_cell_changes_nothing() {
    let mut f = field("A B C\nD E F\nG H I");
    let before = f.clone();
    f.move_letter(Int2 { x: 1, y: 1 }, Int2 { x: 1, y: 1 });
    assert_eq!(f, before);
    f.move_letter(Int2 { x: 2, y: 0 }, Int2 { x: 2, y: 0 });
    assert_eq!(f, before);
}

#[test]
fn move_letter_along_a_row() {
    let mut f = field("A B C D\nE F G H");
    f.move_letter(Int2 { x: 0, y: 0 }, Int2 { x: 2, y: 0 });
    assert_eq!(f.to_detail_string(), "(2, B) (3, C) (1, A) (4, D)\n(5, E) (6, F) (7, G) (8, H)");
    f.move_letter(Int2 { x: 3, y: 0 }, Int2 { x: 0, y: 0 });
    assert_eq!(f.to_string(), "D B C A\nE F G H");
    f.move_letter(Int2 { x: 1, y: 1 }, Int2 { x: 2, y: 1 });
    assert_eq!(f.to_string(), "D B C A\nE G F H");
}

#[test]
fn move_letter_along_a_column() {
    let mut f = field("A B\nC D\nE F\nG H");
    f.move_letter(Int2 { x: 1, y: 2 }, Int2 { x: 1, y: 0 });
    assert_eq!(f.to_string(), "A F\nC B\nE D\nG H");
    f.move_letter(Int2 { x: 0, y: 0 }, Int2 { x: 0, y: 3 });
    assert_eq!(f.to_string(), "C F\nE B\nG D\nA H");
    assert_eq!(f.dimensions(), (2, 4));
}

#[test]
fn move_letter_keeps_the_ids_with_the_letters() {
    let mut f = field("A B C\nD E F");
    let tiles = |f: &Letterfield| {
        let mut tiles: Vec<(u32, char)> = f.iter().into_iter().map(|(_, tile)| tile).collect();
        tiles.sort();
        tiles
    };
    let before = tiles(&f);
    f.move_letter(Int2 { x: 2, y: 1 }, Int2 { x: 0, y: 1 });
    assert_eq!(tiles(&f), before);
    assert_eq!(f.to_detail_string(), "(1, A) (2, B) (3, C)\n(6, F) (4, D) (5, E)");
}

#[test]
fn iter_lists_the_field_as_it_is_now() {
    let mut f = field("A B\nC D");
    let first = f.iter();
    assert_eq!(first, f.iter());
    f.move_letter(Int2 { x: 0, y: 0 }, Int2 { x: 1, y: 0 });
    assert_eq!(
        f.iter(),
        vec![
            (Int2 { x: 0, y: 0 }, (2, 'B')),
            (Int2 { x: 0, y: 1 }, (3, 'C')),
            (Int2 { x: 1, y: 0 }, (1, 'A')),
            (Int2 { x: 1, y: 1 }, (4, 'D')),
        ]
    );
}

#[test]
fn reads_back_tells_whether_the_text_holds_the_letters() {
    let upper = Letterfield::from_rows(vec![vec!['A', 'B'], vec!['C', 'D']]).unwrap();
    assert!(upper.reads_back());
    assert_eq!(
        letters(&Letterfield::try_from(upper.to_string()).unwrap()),
        letters(&upper)
    );

    // Lower case is read as upper case.
    let lower = Letterfield::from_rows(vec![vec!['a', 'B'], vec!['C', 'D']]).unwrap();
    assert!(!lower.reads_back());
    assert_eq!(
        Letterfield::try_from(lower.to_string()).unwrap().to_string(),
        "A B\nC D"
    );

    // A space is taken for the gap between two letters.
    let spaced = Letterfield::from_rows(vec![vec!['A', ' ', 'B'], vec!['C', 'D', 'E']]).unwrap();
    assert!(!spaced.reads_back());
    assert!(Letterfield::try_from(spaced.to_string()).is_err());

    // A line feed is taken for the end of a row.
    let fed = Letterfield::from_rows(vec![vec!['A', '\n'], vec!['C', 'D']]).unwrap();
    assert!(!fed.reads_back());

    // White space at the end of a row is cut off.
    let tabbed = Letterfield::from_rows(vec![vec!['A', '\t'], vec!['C', 'D']]).unwrap();
    assert!(!tabbed.reads_back());
    assert!(Letterfield::try_from(tabbed.to_string()).is_err());

    // A field without cells has no text to read rows from.
    let corpus = Corpus::from_words(&["cat"]);
    assert!(!Letterfield::random(0, 3, &corpus).reads_back());
    assert!(!Letterfield::random(3, 0, &corpus).reads_back());
}

#[test]
fn try_new_takes_a_grid_of_tiles_with_ids_of_their_own() {
    let cols = vec![vec![(7, 'A'), (3, 'B')], vec![(5, 'C'), (9, 'D')]];
    let grid = Array2D::try_from(cols).unwrap();
    assert!(grid.is_rectangular());
    assert!(ids_are_distinct(&grid));
    let f = Letterfield::try_new(grid).unwrap();
    assert_eq!(f.to_detail_string(), "(7, A) (5, C)\n(3, B) (9, D)");
    let empty: Array2D<(u32, char)> = Array2D::try_from(vec![]).unwrap();
    assert!(Letterfield::try_new(empty).is_some());
}

#[test]
fn try_new_refuses_an_id_given_twice() {
    let cols = vec![vec![(7, 'A'), (3, 'B')], vec![(5, 'C'), (7, 'D')]];
    let grid = Array2D::try_from(cols).unwrap();
    assert!(!ids_are_distinct(&grid));
    assert!(Letterfield::try_new(grid).is_none());
    let cols = vec![vec![(1, 'A'), (1, 'A')]];
    assert!(Letterfield::try_new(Array2D::try_from(cols).unwrap()).is_none());
}

#[test]
fn try_new_refuses_a_grid_that_is_not_rectangular() {
    let grid = Array2D {
        width: 2,
        height: 2,
        cols: vec![vec![(1, 'A'), (2, 'B')], vec![(3, 'C')]],
    };
    assert!(!grid.is_rectangular());
    assert!(Letterfield::try_new(grid).is_none());
    let grid = Array2D {
        width: 3,
        height: 1,
        cols: vec![vec![(1, 'A')], vec![(2, 'B')]],
    };
    assert!(!grid.is_rectangular());
    assert!(Letterfield::try_new(grid).is_none());
}

#[test]
fn random_with_no_matches_on_a_field_without_cells() {
    let corpus = Corpus::from_words(&["aaa"]);
    let (f, tries) = Letterfield::random_with_no_matches(5, 0, &corpus).unwrap();
    assert_eq!(tries, 1);
    assert_eq!(f.dimensions(), (5, 0));
    let (f, tries) = Letterfield::random_with_no_matches(0, 5, &corpus).unwrap();
    assert_eq!(tries, 1);
    assert_eq!(f.dimensions(), (0, 5));
}

#[test]
fn random_with_no_matches_needs_ids_to_replace_every_tile() {
    let corpus = Corpus::from_words(&["cat"]);
    // More cells than half the ids: no field is made.
    assert!(Letterfield::random_with_no_matches(1 << 16, 1 << 15, &corpus).is_none());
    assert!(Letterfield::random_with_no_matches(1 << 20, 1 << 20, &corpus).is_none());
    assert!(Letterfield::random_with_no_matches(usize::MAX, usize::MAX, &corpus).is_none());
}

#[test]
fn a_field_of_one_letter_never_settles() {
    // Every line of three of the one letter is a run: no pass finds the
    // field without a match.
    let corpus = Corpus::from_words(&["aaa"]);
    let mut f = Letterfield::random(3, 1, &corpus);
    for _ in 0..5 {
        let r = f.find_word_matches_and_fill_spaces_randomly(&corpus);
        assert_eq!(r.matches.len(), 1);
        assert_eq!(f.to_string(), "A A A");
    }
}
