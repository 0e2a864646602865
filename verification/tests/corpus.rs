use letterfront::models::corpus::{Corpus, EmptyCorpusError};

fn words_of(corpus: &Corpus) -> Vec<&str> {
    corpus.words.iter().map(|w| w.as_str()).collect()
}

fn count_of(corpus: &Corpus, letter: char) -> Option<u128> {
    corpus
        .char_counts
        .iter()
        .find(|(c, _)| *c == letter)
        .map(|(_, n)| *n)
}

#[test]
fn corpus_line_search() {
    let corpus = Corpus::from_words(&["Cat", "Tomb", "Atom", "at", "Tom"]);
    // notice: at is not a part here because it is fully covered by atom:
    assert_eq!(
        corpus.line_search(&"CATOMB".chars().collect::<Vec<_>>()),
        vec![("CAT", 0, 3,), ("ATOM", 1, 5,), ("TOMB", 2, 6,),]
            .into_iter()
            .map(|(ss, s, e)| (ss.to_string(), s as usize, e as usize))
            .collect::<Vec<_>>()
    )
}

#[test]
fn from_words_makes_upper_case_and_filters() {
    let corpus = Corpus::from_words(&["Cat", "it's", "at", "well-known", "dog", "cat", "CAT"]);
    assert_eq!(words_of(&corpus), vec!["CAT", "DOG"]);
}

#[test]
fn from_words_counts_letters_in_order_of_first_occurrence() {
    let corpus = Corpus::from_words(&["abba", "cab"]);
    assert_eq!(
        corpus.char_counts,
        vec![('A', 3u128), ('B', 3u128), ('C', 1u128)]
    );
    assert_eq!(corpus.total_count, 7);
    assert!(corpus.has_letters());
}

#[test]
fn from_words_counts_a_word_given_twice_once() {
    let corpus = Corpus::from_words(&["tot", "TOT", "Tot"]);
    assert_eq!(words_of(&corpus), vec!["TOT"]);
    assert_eq!(count_of(&corpus, 'T'), Some(2));
    assert_eq!(count_of(&corpus, 'O'), Some(1));
    assert_eq!(corpus.total_count, 3);
}

#[test]
fn from_words_of_nothing_is_empty() {
    let corpus = Corpus::from_words(&[]);
    assert!(corpus.words.is_empty());
    assert!(corpus.char_counts.is_empty());
    assert_eq!(corpus.total_count, 0);
    assert!(!corpus.has_letters());
    assert!(corpus.line_search(&['C', 'A', 'T']).is_empty());
}

#[test]
fn from_upper_words_takes_the_words_as_they_are() {
    let corpus = Corpus::from_upper_words(vec![
        "cat".to_string(),
        "CAT".to_string(),
        "ab".to_string(),
        "cat".to_string(),
    ]);
    assert_eq!(words_of(&corpus), vec!["cat", "CAT"]);
    assert!(corpus.contains(&"cat".to_string()));
    assert!(corpus.contains(&"CAT".to_string()));
    assert!(!corpus.contains(&"Cat".to_string()));
}

#[test]
fn from_text_trims_lines_and_skips_blank_ones() {
    let corpus = Corpus::from_text(&["  cat ", "", "   ", "\ttomb\r", "at"]).unwrap();
    assert_eq!(words_of(&corpus), vec!["CAT", "TOMB"]);
}

#[test]
fn from_text_without_a_word_fails() {
    assert_eq!(
        Corpus::from_text(&["", "  ", "at", "it's"]).err(),
        Some(EmptyCorpusError)
    );
    assert_eq!(Corpus::from_text(&[]).err(), Some(EmptyCorpusError));
}

#[test]
fn letter_at_walks_the_counts() {
    // A: 3, B: 3, C: 1
    let corpus = Corpus::from_words(&["abba", "cab"]);
    let picked: Vec<char> = (0..7u128).map(|v| corpus.letter_at(v)).collect();
    assert_eq!(picked, vec!['A', 'A', 'A', 'B', 'B', 'B', 'C']);
}

#[test]
fn random_char_is_a_letter_of_the_corpus() {
    let corpus = Corpus::from_words(&["abba", "cab"]);
    for _ in 0..200 {
        let c = corpus.random_char();
        assert!(c == 'A' || c == 'B' || c == 'C');
    }
    let single = Corpus::from_words(&["zzz"]);
    for _ in 0..20 {
        assert_eq!(single.random_char(), 'Z');
    }
}

#[test]
fn line_search_takes_the_longest_word_at_a_start() {
    let corpus = Corpus::from_words(&["tom", "tomb", "tombs"]);
    assert_eq!(
        corpus.line_search(&"TOMBS".chars().collect::<Vec<_>>()),
        vec![("TOMBS".to_string(), 0, 5)]
    );
    assert_eq!(
        corpus.line_search(&"XTOMBX".chars().collect::<Vec<_>>()),
        vec![("TOMB".to_string(), 1, 5)]
    );
}

#[test]
fn line_search_leaves_out_words_inside_an_earlier_match() {
    let corpus = Corpus::from_words(&["youtube", "you", "tube", "out"]);
    assert_eq!(
        corpus.line_search(&"YOUTUBE".chars().collect::<Vec<_>>()),
        vec![("YOUTUBE".to_string(), 0, 7)]
    );
    // A word that ends where the earlier match ends is left out as well.
    let corpus = Corpus::from_words(&["atom", "tom"]);
    assert_eq!(
        corpus.line_search(&"ATOM".chars().collect::<Vec<_>>()),
        vec![("ATOM".to_string(), 0, 4)]
    );
}

#[test]
fn line_search_reports_words_side_by_side() {
    let corpus = Corpus::from_words(&["cat", "dog"]);
    assert_eq!(
        corpus.line_search(&"CATDOG".chars().collect::<Vec<_>>()),
        vec![("CAT".to_string(), 0, 3), ("DOG".to_string(), 3, 6)]
    );
}

#[test]
fn line_search_on_short_lines_finds_nothing() {
    let corpus = Corpus::from_words(&["cat"]);
    assert!(corpus.line_search(&[]).is_empty());
    assert!(corpus.line_search(&['C']).is_empty());
    assert!(corpus.line_search(&['C', 'A']).is_empty());
    assert_eq!(
        corpus.line_search(&['C', 'A', 'T']),
        vec![("CAT".to_string(), 0, 3)]
    );
}

#[test]
fn line_search_does_not_start_in_the_last_two_cells() {
    // The search starts no word in the last two cells of a line, so that a
    // word of the dictionary is found at the end of a line only from a start
    // that leaves room for three letters.
    let corpus = Corpus::from_words(&["cat"]);
    assert_eq!(
        corpus.line_search(&"XXCAT".chars().collect::<Vec<_>>()),
        vec![("CAT".to_string(), 2, 5)]
    );
    assert!(corpus
        .line_search(&"CAXCA".chars().collect::<Vec<_>>())
        .is_empty());
}
