use letterfront::models::array2d::{Array2D, Int2};
use letterfront::models::corpus::Corpus;
use letterfront::models::letterfield::{Letterfield, LetterfieldResolve};
use letterfront::models::tile_maps::{MovedTiles, PlacedTiles};
use letterfront::resources::WordMatchesResource;

fn field(text: &str) -> Letterfield {
    Letterfield::try_from(text.to_string()).unwrap()
}

fn pos(x: usize, y: usize) -> Int2 {
    Int2 { x, y }
}

/// The entries of a map under the ids up to `top`.
fn placed(map: &PlacedTiles, top: u32) -> Vec<(u32, (Int2, char))> {
    (0..=top).filter_map(|id| map.get(id).map(|e| (id, e))).collect()
}

/// The entries of a map under the ids up to `top`.
fn moved(map: &MovedTiles, top: u32) -> Vec<(u32, (Int2, Int2, char))> {
    (0..=top).filter_map(|id| map.get(id).map(|e| (id, e))).collect()
}

#[test]
fn a_pass_without_a_match_changes_nothing() {
    let corpus = Corpus::from_words(&["cat"]);
    let mut f = field("X Y Z\nQ R S\nU V W");
    let before = f.clone();
    let r = f.find_word_matches_and_fill_spaces(&corpus, &vec!['A', 'B', 'C']);
    assert!(r.is_empty());
    assert!(r.matches.is_empty());
    assert!(r.new_letters.is_empty());
    assert!(r.old_letters.is_empty());
    assert!(r.moving_letters.is_empty());
    assert_eq!(f, before);

    let r = f.find_word_matches_and_fill_spaces_randomly(&corpus);
    assert!(r.is_empty());
    assert_eq!(f, before);
}

#[test]
fn a_match_at_the_low_end_is_replaced_in_place() {
    let corpus = Corpus::from_words(&["cat"]);
    let mut f = field("C A T\nX Y Z\nQ R S");
    let r = f.find_word_matches_and_fill_spaces(&corpus, &vec!['L', 'M', 'N']);
    assert!(!r.is_empty());
    assert_eq!(r.matches.len(), 1);
    assert_eq!(
        f.to_detail_string(),
        "(10, L) (11, M) (12, N)\n(4, X) (5, Y) (6, Z)\n(7, Q) (8, R) (9, S)"
    );
    assert_eq!(
        placed(&r.new_letters, 20),
        vec![
            (10, (pos(0, 0), 'L')),
            (11, (pos(1, 0), 'M')),
            (12, (pos(2, 0), 'N')),
        ]
    );
    assert_eq!(
        placed(&r.old_letters, 20),
        vec![
            (1, (pos(0, 0), 'C')),
            (2, (pos(1, 0), 'A')),
            (3, (pos(2, 0), 'T')),
        ]
    );
    // No tile had a cleared cell behind it: none moved, though there was a
    // match.
    assert!(r.moving_letters.is_empty());
    assert!(!r.new_letters.is_empty());
    assert!(!r.old_letters.is_empty());
}

#[test]
fn tiles_slide_over_a_match_at_the_high_end() {
    let corpus = Corpus::from_words(&["cat"]);
    let mut f = field("X Y Z\nQ R S\nC A T");
    let r = f.find_word_matches_and_fill_spaces(&corpus, &vec!['L', 'M', 'N', 'O']);
    assert_eq!(
        f.to_detail_string(),
        "(10, L) (11, M) (12, N)\n(1, X) (2, Y) (3, Z)\n(4, Q) (5, R) (6, S)"
    );
    assert_eq!(
        moved(&r.moving_letters, 20),
        vec![
            (1, (pos(0, 0), pos(0, 1), 'X')),
            (2, (pos(1, 0), pos(1, 1), 'Y')),
            (3, (pos(2, 0), pos(2, 1), 'Z')),
            (4, (pos(0, 1), pos(0, 2), 'Q')),
            (5, (pos(1, 1), pos(1, 2), 'R')),
            (6, (pos(2, 1), pos(2, 2), 'S')),
        ]
    );
    assert_eq!(
        placed(&r.old_letters, 20),
        vec![
            (7, (pos(0, 2), 'C')),
            (8, (pos(1, 2), 'A')),
            (9, (pos(2, 2), 'T')),
        ]
    );
    assert_eq!(
        placed(&r.new_letters, 20),
        vec![
            (10, (pos(0, 0), 'L')),
            (11, (pos(1, 0), 'M')),
            (12, (pos(2, 0), 'N')),
        ]
    );
    assert!(r.moving_letters.contains_key(4));
    assert!(!r.moving_letters.contains_key(7));
    assert!(r.new_letters.contains_key(10));
    assert!(!r.new_letters.contains_key(1));
}

#[test]
fn new_tiles_of_a_column_are_numbered_from_the_tiles_that_stayed_outwards() {
    let corpus = Corpus::from_words(&["cat"]);
    // The word fills the middle of the second column.
    let mut f = field("X Q\nX C\nY A\nY T\nZ R");
    let r = f.find_word_matches_and_fill_spaces(&corpus, &vec!['L', 'M', 'N']);
    assert_eq!(
        f.to_detail_string(),
        "(1, X) (13, N)\n(3, X) (12, M)\n(5, Y) (11, L)\n(7, Y) (2, Q)\n(9, Z) (10, R)"
    );
    assert_eq!(
        moved(&r.moving_letters, 20),
        vec![(2, (pos(1, 0), pos(1, 3), 'Q'))]
    );
    assert_eq!(
        placed(&r.new_letters, 20),
        vec![
            (11, (pos(1, 2), 'L')),
            (12, (pos(1, 1), 'M')),
            (13, (pos(1, 0), 'N')),
        ]
    );
}

#[test]
fn a_cell_in_two_matches_is_cleared_once() {
    let corpus = Corpus::from_words(&["cat", "cow"]);
    // C A T
    // O X X
    // W Y Y
    let mut f = field("C A T\nO X X\nW Y Y");
    let r = f.find_word_matches_and_fill_spaces(
        &corpus,
        &vec!['1', '2', '3', '4', '5', '6', '7', '8', '9'],
    );
    assert_eq!(r.matches.len(), 2);
    // Five cells were cleared, and five letters were used: first those of
    // the first column.
    assert_eq!(
        f.to_detail_string(),
        "(12, 3) (13, 4) (14, 5)\n(11, 2) (5, X) (6, X)\n(10, 1) (8, Y) (9, Y)"
    );
    assert_eq!(placed(&r.old_letters, 20).len(), 5);
    assert_eq!(placed(&r.new_letters, 20).len(), 5);
    assert!(r.moving_letters.is_empty());
}

#[test]
fn every_tile_is_accounted_for() {
    let corpus = Corpus::from_words(&["cat", "dog"]);
    let mut f = field("X D X X\nC A T Y\nZ O Z Z\nY G Y X");
    let before = f.iter();
    let r = f.find_word_matches_and_fill_spaces(
        &corpus,
        &vec!['a', 'b', 'c', 'd', 'e', 'f', 'g', 'h', 'i', 'j', 'k', 'l', 'm', 'n', 'o', 'p'],
    );
    let after = f.iter();
    assert!(!r.matches.is_empty());
    for (pos_before, (id, letter)) in &before {
        let now = after.iter().find(|(_, (other, _))| other == id);
        let is_old = r.old_letters.get(*id);
        let is_moving = r.moving_letters.get(*id);
        match now {
            None => {
                assert_eq!(is_old, Some((*pos_before, *letter)));
                assert_eq!(is_moving, None);
            }
            Some((pos_after, (_, letter_after))) => {
                assert_eq!(letter, letter_after);
                assert_eq!(is_old, None);
                if pos_after == pos_before {
                    assert_eq!(is_moving, None);
                } else {
                    assert_eq!(is_moving, Some((*pos_before, *pos_after, *letter)));
                    // A tile stays in its column and slides to the high end.
                    assert_eq!(pos_after.x, pos_before.x);
                    assert!(pos_after.y > pos_before.y);
                }
            }
        }
        assert!(!r.new_letters.contains_key(*id));
    }
    for (pos_after, (id, letter)) in &after {
        let was = before.iter().any(|(_, (other, _))| other == id);
        if was {
            assert_eq!(r.new_letters.get(*id), None);
        } else {
            assert_eq!(r.new_letters.get(*id), Some((*pos_after, *letter)));
            assert!(*id > 16);
        }
    }
    // No id is on the field twice.
    let mut ids: Vec<u32> = after.iter().map(|(_, (id, _))| *id).collect();
    ids.sort();
    ids.dedup();
    assert_eq!(ids.len(), 16);
}

#[test]
fn a_random_pass_fills_the_gaps_from_the_corpus() {
    let corpus = Corpus::from_words(&["cat"]);
    let mut f = field("X Y Z\nQ R S\nC A T");
    let r: LetterfieldResolve = f.find_word_matches_and_fill_spaces_randomly(&corpus);
    assert_eq!(r.matches.len(), 1);
    let rows: Vec<String> = f.to_string().lines().map(|l| l.to_string()).collect();
    assert_eq!(rows[1], "X Y Z");
    assert_eq!(rows[2], "Q R S");
    for (id, (p, c)) in placed(&r.new_letters, 20) {
        assert!(id >= 10 && id <= 12);
        assert_eq!(p.y, 0);
        assert!("CAT".contains(c));
    }
    assert_eq!(placed(&r.new_letters, 20).len(), 3);
    assert_eq!(moved(&r.moving_letters, 20).len(), 6);
}

#[test]
fn repeated_passes_settle() {
    let corpus = Corpus::from_words(&["cat"]);
    let mut f = field("C A T\nC A T\nC A T");
    let letters = vec!['X'; 9];
    let r = f.find_word_matches_and_fill_spaces(&corpus, &letters);
    // Three columns of one letter, the word in three rows and once on the
    // diagonal.
    assert_eq!(r.matches.len(), 7);
    assert_eq!(f.to_string(), "X X X\nX X X\nX X X");
    // Now every row and column is a run of one letter.
    let r = f.find_word_matches_and_fill_spaces(&corpus, &vec!['A', 'B', 'C', 'D', 'E', 'F', 'G', 'H', 'I']);
    assert_eq!(r.matches.len(), 6);
    assert_eq!(f.to_string(), "C F I\nB E H\nA D G");
    let r = f.find_word_matches_and_fill_spaces(&corpus, &letters);
    assert!(r.is_empty());
    assert!(f.can_refill());
}

#[test]
fn placed_and_moved_tiles_hold_what_was_put_in() {
    let mut tiles = PlacedTiles::new();
    assert!(tiles.is_empty());
    assert_eq!(tiles.get(3), None);
    tiles.insert(3, pos(1, 2), 'A');
    tiles.insert(4, pos(0, 0), 'B');
    tiles.insert(3, pos(2, 2), 'C');
    assert!(!tiles.is_empty());
    assert_eq!(tiles.get(3), Some((pos(2, 2), 'C')));
    assert_eq!(tiles.get(4), Some((pos(0, 0), 'B')));
    assert!(tiles.contains_key(4));
    assert!(!tiles.contains_key(5));

    let mut tiles = MovedTiles::new();
    assert!(tiles.is_empty());
    tiles.insert(9, pos(1, 2), pos(1, 3), 'A');
    assert!(!tiles.is_empty());
    assert_eq!(tiles.get(9), Some((pos(1, 2), pos(1, 3), 'A')));
    assert_eq!(tiles.get(8), None);
    assert!(tiles.contains_key(9));
}

#[test]
fn set_matches_counts_the_matches_of_a_tile() {
    let corpus = Corpus::from_words(&["cat", "cow", "cab"]);
    let f = field("C A T\nO A X\nW X B");
    let mut resource = WordMatchesResource::default();
    assert_eq!(resource.count_of(1), 0);
    resource.set_matches(f.find_word_matches(&corpus));
    assert_eq!(resource.matches.len(), 3);
    // C lies in all three, the A of the first row in one, the A of the
    // second row in another, X in none.
    assert_eq!(resource.count_of(1), 3);
    assert_eq!(resource.count_of(2), 1);
    assert_eq!(resource.count_of(5), 1);
    assert_eq!(resource.count_of(6), 0);
    assert_eq!(resource.id_counts.get(1), Some(3));
    assert_eq!(resource.id_counts.get(6), None);
    resource.clear();
    assert!(resource.matches.is_empty());
    assert_eq!(resource.count_of(1), 0);
    assert_eq!(resource.id_counts.get(1), None);
}

#[test]
fn settle_with_runs_passes_until_none_finds_a_match() {
    let corpus = Corpus::from_words(&["cat"]);
    // The first pass clears the word; the letters that come make no match.
    let (settled, tries) = field("X Y Z\nQ R S\nC A T")
        .settle_with(&corpus, &vec!['L', 'M', 'N', 'O'])
        .unwrap();
    assert_eq!(tries, 2);
    assert_eq!(
        settled.to_detail_string(),
        "(10, L) (11, M) (12, N)\n(1, X) (2, Y) (3, Z)\n(4, Q) (5, R) (6, S)"
    );

    // The letters that come make the word again, those after them do not.
    let (settled, tries) = field("X Y Z\nQ R S\nC A T")
        .settle_with(&corpus, &vec!['C', 'A', 'T', 'L', 'M', 'N'])
        .unwrap();
    assert_eq!(tries, 3);
    assert_eq!(
        settled.to_detail_string(),
        "(13, L) (14, M) (15, N)\n(1, X) (2, Y) (3, Z)\n(4, Q) (5, R) (6, S)"
    );
}

#[test]
fn settle_with_on_a_field_without_a_match_takes_one_pass() {
    let corpus = Corpus::from_words(&["cat"]);
    let start = field("X Y Z\nQ R S\nU V W");
    let (settled, tries) = start.clone().settle_with(&corpus, &vec![]).unwrap();
    assert_eq!(tries, 1);
    assert_eq!(settled, start);
}

#[test]
fn settle_with_fails_where_the_letters_run_out() {
    let corpus = Corpus::from_words(&["cat"]);
    assert!(field("X Y Z\nQ R S\nC A T")
        .settle_with(&corpus, &vec!['L', 'M'])
        .is_none());
    assert!(field("X Y Z\nQ R S\nC A T")
        .settle_with(&corpus, &vec!['C', 'A', 'T', 'L'])
        .is_none());
}

#[test]
fn settle_with_fails_where_the_ids_run_out() {
    let corpus = Corpus::from_words(&["cat"]);
    let cols = vec![vec![(4294967290, 'X'), (1, 'Y')], vec![(2, 'Z'), (3, 'Q')]];
    let start = Letterfield::try_new(Array2D::try_from(cols).unwrap()).unwrap();
    // Four more ids are left, and the field has four tiles: one pass can run,
    // and it finds no match.
    assert!(start.can_refill());
    assert!(start.clone().settle_with(&corpus, &vec![]).is_some());
    let cols = vec![vec![(4294967293, 'X'), (1, 'Y')], vec![(2, 'Z'), (3, 'Q')]];
    let start = Letterfield::try_new(Array2D::try_from(cols).unwrap()).unwrap();
    assert!(!start.can_refill());
    assert!(start.settle_with(&corpus, &vec![]).is_none());
}
