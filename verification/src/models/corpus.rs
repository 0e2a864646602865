//! The dictionary: the set of valid words, how often each letter occurs in
//! them, and the search for words along a line of letters.

use vstd::prelude::*;
use vstd::slice::slice_subrange;
use crate::models::rng::draw_below;
use crate::models::text::{chars_of, string_from_chars, to_uppercase, trim, trimmed, uppercase};

verus! {

/// A word found in a line: its letters and the half-open range of the line
/// that it covers.
pub type Found = (Seq<char>, int, int);

/// The end below which no match that starts at `s` may end: a match covers at
/// least two letters, and ends behind every match reported before it.
pub open spec fn end_floor(s: int, min_end: int) -> int {
    if s + 1 >= min_end {
        s + 1
    } else {
        min_end
    }
}

/// The end of the longest word of `words` that starts at `s` in `line` and
/// ends in `(floor, hi]`, if there is one.
pub open spec fn longest_end(
    words: Set<Seq<char>>,
    line: Seq<char>,
    s: int,
    floor: int,
    hi: int,
) -> Option<int>
    decreases hi - floor,
{
    if hi <= floor {
        None
    } else if words.contains(line.subrange(s, hi)) {
        Some(hi)
    } else {
        longest_end(words, line, s, floor, hi - 1)
    }
}

/// The matches that the search reports from start `s` on, when the matches
/// reported before end at `min_end`.
pub open spec fn search_from(
    words: Set<Seq<char>>,
    line: Seq<char>,
    s: int,
    min_end: int,
) -> Seq<Found>
    decreases line.len() - s,
{
    if s < 0 || s + 2 >= line.len() {
        Seq::empty()
    } else {
        match longest_end(words, line, s, end_floor(s, min_end), line.len() as int) {
            Some(e) => seq![(line.subrange(s, e), s, e)] + search_from(words, line, s + 1, e),
            None => search_from(words, line, s + 1, min_end),
        }
    }
}

/// The matches of the greedy search over the whole of `line`: start by start
/// from the left the longest word that begins there, as long as it ends
/// behind the end of every match reported before.
pub open spec fn line_matches(words: Set<Seq<char>>, line: Seq<char>) -> Seq<Found> {
    search_from(words, line, 0, 0)
}

/// A list of reported matches as mathematical values.
pub open spec fn found_view(found: Seq<(String, usize, usize)>) -> Seq<Found> {
    Seq::new(found.len(), |i: int| (found[i].0@, found[i].1 as int, found[i].2 as int))
}

/// The words of a list as sequences of characters.
pub open spec fn words_view(words: Seq<String>) -> Seq<Seq<char>> {
    Seq::new(words.len(), |i: int| words[i]@)
}

/// The fewest letters a word of the dictionary has.
pub const MIN_WORD_LEN: usize = 3;

/// The most letters that one word can add to the tally of letters.
pub const WORD_LEN_LIMIT: u128 = 0xffff_ffff_ffff_ffff;

/// The text can stand in the dictionary: it has at least `MIN_WORD_LEN`
/// characters and neither an apostrophe nor a hyphen among them.
pub open spec fn is_word(text: Seq<char>) -> bool {
    &&& text.len() >= MIN_WORD_LEN
    &&& !text.contains('\'')
    &&& !text.contains('-')
}

/// The elements of `s`, each once, in the order in which they first occur.
pub open spec fn distinct<T>(s: Seq<T>) -> Seq<T>
    decreases s.len(),
{
    if s.len() == 0 {
        Seq::empty()
    } else if distinct(s.drop_last()).contains(s.last()) {
        distinct(s.drop_last())
    } else {
        distinct(s.drop_last()).push(s.last())
    }
}

/// The candidates that can stand in the dictionary, each once, in the order
/// in which they first occur.
pub open spec fn kept_words(candidates: Seq<Seq<char>>) -> Seq<Seq<char>>
    decreases candidates.len(),
{
    if candidates.len() == 0 {
        Seq::empty()
    } else if is_word(candidates.last()) && !kept_words(candidates.drop_last()).contains(
        candidates.last(),
    ) {
        kept_words(candidates.drop_last()).push(candidates.last())
    } else {
        kept_words(candidates.drop_last())
    }
}

/// The letters of all the words, word after word.
pub open spec fn all_letters(words: Seq<Seq<char>>) -> Seq<char>
    decreases words.len(),
{
    if words.len() == 0 {
        Seq::empty()
    } else {
        all_letters(words.drop_last()) + words.last()
    }
}

/// How often `letter` occurs in `text`.
pub open spec fn count_of(text: Seq<char>, letter: char) -> int
    decreases text.len(),
{
    if text.len() == 0 {
        0
    } else if text.last() == letter {
        count_of(text.drop_last(), letter) + 1
    } else {
        count_of(text.drop_last(), letter)
    }
}

/// The letters of `text`, each once in the order of first occurrence, each
/// with the number of its occurrences.
pub open spec fn tally(text: Seq<char>) -> Seq<(char, int)> {
    Seq::new(distinct(text).len(), |i: int| (distinct(text)[i], count_of(text, distinct(text)[i])))
}

/// A list of letters and counts as mathematical values.
pub open spec fn counts_view(counts: Seq<(char, u128)>) -> Seq<(char, int)> {
    Seq::new(counts.len(), |i: int| (counts[i].0, counts[i].1 as int))
}

/// The sum of the first `n` counts.
pub open spec fn weight_before(counts: Seq<(char, int)>, n: int) -> int
    decreases n,
{
    if n <= 0 {
        0
    } else {
        weight_before(counts, n - 1) + counts[n - 1].1
    }
}

/// `i` is the entry that the number `v` falls to when the entries lie side by
/// side, each as wide as its count: the counts before it sum to `v` or less,
/// and with its own to more.
pub open spec fn falls_to(counts: Seq<(char, int)>, v: int, i: int) -> bool {
    &&& 0 <= i < counts.len()
    &&& weight_before(counts, i) <= v < weight_before(counts, i + 1)
}

/// No word at all could be made from the lines given.
#[derive(Debug, Clone, Copy, PartialEq, Eq, Structural)]
pub struct EmptyCorpusError;

/// A dictionary with the letter statistics of its words.
#[derive(Debug, Clone)]
pub struct Corpus {
    /// The valid words, each once.
    pub words: Vec<String>,
    /// Every letter of the words with the number of its occurrences in them.
    pub char_counts: Vec<(char, u128)>,
    /// The number of letters in all the words together.
    pub total_count: u128,
}

impl Corpus {
    /// The words as a set.
    pub open spec fn word_set(&self) -> Set<Seq<char>> {
        words_view(self.words@).to_set()
    }

    /// The letter statistics as mathematical values.
    pub open spec fn counts(&self) -> Seq<(char, int)> {
        counts_view(self.char_counts@)
    }

    /// No word occurs twice, every word can stand in a dictionary, and the
    /// statistics are those of the words: every letter of theirs once, with
    /// the number of its occurrences, and the total of these numbers.
    pub open spec fn wf(&self) -> bool {
        &&& words_view(self.words@).no_duplicates()
        &&& forall|i: int| 0 <= i < self.words@.len() ==> is_word(#[trigger] self.words@[i]@)
        &&& self.counts() == tally(all_letters(words_view(self.words@)))
        &&& self.total_count == all_letters(words_view(self.words@)).len()
        &&& self.total_count == weight_before(self.counts(), self.counts().len() as int)
        &&& self.total_count <= self.words@.len() * WORD_LEN_LIMIT
    }

    /// `letter` occurs in a word of the dictionary.
    pub open spec fn has_letter(&self, letter: char) -> bool {
        exists|i: int| 0 <= i < self.char_counts@.len() && (#[trigger] self.char_counts@[i]).0 == letter
    }

    /// The dictionary has letters to draw from.
    pub open spec fn spec_has_letters(&self) -> bool {
        self.total_count > 0
    }

    /// Whether the dictionary has letters to draw from, which it has as soon
    /// as it has a word.
    #[verifier::when_used_as_spec(spec_has_letters)]
    pub fn has_letters(&self) -> (r: bool)
        ensures
            r == self.spec_has_letters(),
    {
        self.total_count > 0
    }

    /// Whether `candidate` is a word of the dictionary.
    pub fn contains(&self, candidate: &String) -> (r: bool)
        ensures
            r == self.word_set().contains(candidate@),
    {
        let mut i: usize = 0;
        while i < self.words.len()
            invariant
                i <= self.words@.len(),
                forall|j: int| 0 <= j < i ==> (#[trigger] self.words@[j])@ != candidate@,
            decreases self.words@.len() - i,
        {
            if self.words[i] == *candidate {
                assert(words_view(self.words@)[i as int] == candidate@);
                return true;
            }
            i += 1;
        }
        assert(!words_view(self.words@).contains(candidate@)) by {}
        false
    }

    /// Searches `line` for words of the dictionary, greedily: for each start
    /// from the left, the longest word that begins there and ends behind
    /// every match reported so far. Each match comes with the half-open
    /// range that it covers, in the order of the starts.
    pub fn line_search(&self, line: &[char]) -> (matches: Vec<(String, usize, usize)>)
        ensures
            found_view(matches@) == line_matches(self.word_set(), line@),
    {
        let len = line.len();
        let ghost words = self.word_set();
        let mut matches: Vec<(String, usize, usize)> = Vec::new();
        let mut s: usize = 0;
        let mut minend: usize = 0;
        while len >= 2 && s < len - 2
            invariant
                len == line@.len(),
                words == self.word_set(),
                s <= len,
                minend <= len,
                found_view(matches@) + search_from(words, line@, s as int, minend as int)
                    == line_matches(words, line@),
            decreases len - s,
        {
            let floor = if s + 1 >= minend {
                s + 1
            } else {
                minend
            };
            let ghost before = found_view(matches@);
            let ghost old_minend = minend;
            let mut e: usize = len;
            let mut hit = false;
            while e > floor && !hit
                invariant
                    len == line@.len(),
                    words == self.word_set(),
                    s + 2 < len,
                    s < floor,
                    floor == end_floor(s as int, old_minend as int),
                    e <= len,
                    minend <= len,
                    !hit ==> {
                        &&& minend == old_minend
                        &&& found_view(matches@) == before
                        &&& longest_end(words, line@, s as int, floor as int, len as int)
                            == longest_end(words, line@, s as int, floor as int, e as int)
                    },
                    hit ==> {
                        &&& longest_end(words, line@, s as int, floor as int, len as int) == Some(
                            minend as int,
                        )
                        &&& found_view(matches@) == before.push(
                            (line@.subrange(s as int, minend as int), s as int, minend as int),
                        )
                    },
                decreases e + (if hit { 0int } else { 1int }),
            {
                let candidate = string_from_chars(slice_subrange(line, s, e));
                if self.contains(&candidate) {
                    matches.push((candidate, s, e));
                    minend = e;
                    hit = true;
                    assert(found_view(matches@) =~= before.push(
                        (line@.subrange(s as int, e as int), s as int, e as int),
                    ));
                } else {
                    e -= 1;
                }
            }
            proof {
                let rest = search_from(words, line@, s + 1, minend as int);
                if hit {
                    assert(search_from(words, line@, s as int, old_minend as int) == seq![
                        (line@.subrange(s as int, minend as int), s as int, minend as int),
                    ] + rest);
                    assert(found_view(matches@) + rest =~= before + search_from(
                        words,
                        line@,
                        s as int,
                        old_minend as int,
                    ));
                }
            }
            s += 1;
        }
        matches
    }
}


/// What `longest_end` finds is a word of the dictionary, no longer word
/// starts at `s` and ends at or before `hi`, and where it finds none there
/// is none that ends in `(floor, hi]`.
pub proof fn lemma_longest_end(
    words: Set<Seq<char>>,
    line: Seq<char>,
    s: int,
    floor: int,
    hi: int,
)
    ensures
        match longest_end(words, line, s, floor, hi) {
            Some(e) => {
                &&& floor < e <= hi
                &&& words.contains(line.subrange(s, e))
                &&& forall|e2: int| e < e2 <= hi ==> !words.contains(#[trigger] line.subrange(s, e2))
            },
            None => forall|e2: int|
                floor < e2 <= hi ==> !words.contains(#[trigger] line.subrange(s, e2)),
        },
    decreases hi - floor,
{
    if hi > floor && !words.contains(line.subrange(s, hi)) {
        lemma_longest_end(words, line, s, floor, hi - 1);
    }
}

/// Every match that the search reports from start `s` on lies in the line,
/// starts at `s` or later, covers at least two letters, ends behind
/// `min_end`, and is the word of the dictionary that the line holds there.
pub proof fn lemma_search_from_bounds(
    words: Set<Seq<char>>,
    line: Seq<char>,
    s: int,
    min_end: int,
)
    requires
        0 <= s,
    ensures
        forall|i: int|
            0 <= i < search_from(words, line, s, min_end).len() ==> {
                let f = #[trigger] search_from(words, line, s, min_end)[i];
                &&& s <= f.1
                &&& f.1 + 2 <= f.2 <= line.len()
                &&& min_end < f.2
                &&& f.0 == line.subrange(f.1, f.2)
                &&& words.contains(f.0)
            },
    decreases line.len() - s,
{
    let all = search_from(words, line, s, min_end);
    if s + 2 < line.len() {
        let floor = end_floor(s, min_end);
        lemma_longest_end(words, line, s, floor, line.len() as int);
        match longest_end(words, line, s, floor, line.len() as int) {
            Some(e) => {
                lemma_search_from_bounds(words, line, s + 1, e);
                let tail = search_from(words, line, s + 1, e);
                assert(all == seq![(line.subrange(s, e), s, e)] + tail);
                assert forall|i: int| 0 <= i < all.len() implies {
                    let f = #[trigger] all[i];
                    &&& s <= f.1
                    &&& f.1 + 2 <= f.2 <= line.len()
                    &&& min_end < f.2
                    &&& f.0 == line.subrange(f.1, f.2)
                    &&& words.contains(f.0)
                } by {}
            },
            None => {
                lemma_search_from_bounds(words, line, s + 1, min_end);
                let tail = search_from(words, line, s + 1, min_end);
                assert(all == tail);
                assert forall|i: int| 0 <= i < all.len() implies {
                    let f = #[trigger] all[i];
                    &&& s <= f.1
                    &&& f.1 + 2 <= f.2 <= line.len()
                    &&& min_end < f.2
                    &&& f.0 == line.subrange(f.1, f.2)
                    &&& words.contains(f.0)
                } by {}
            },
        }
    }
}

/// The matches of a line come in the order of their starts, no two from one
/// start, and each ends behind the one before it: a word that lies within
/// the letters of an earlier match is not reported.
pub proof fn lemma_search_from_ordered(
    words: Set<Seq<char>>,
    line: Seq<char>,
    s: int,
    min_end: int,
)
    requires
        0 <= s,
    ensures
        forall|i: int, j: int|
            0 <= i < j < search_from(words, line, s, min_end).len() ==> {
                let a = #[trigger] search_from(words, line, s, min_end)[i];
                let b = #[trigger] search_from(words, line, s, min_end)[j];
                a.1 < b.1 && a.2 < b.2
            },
    decreases line.len() - s,
{
    let all = search_from(words, line, s, min_end);
    if s + 2 < line.len() {
        let floor = end_floor(s, min_end);
        lemma_longest_end(words, line, s, floor, line.len() as int);
        match longest_end(words, line, s, floor, line.len() as int) {
            Some(e) => {
                lemma_search_from_ordered(words, line, s + 1, e);
                lemma_search_from_bounds(words, line, s + 1, e);
                let tail = search_from(words, line, s + 1, e);
                assert(all == seq![(line.subrange(s, e), s, e)] + tail);
                assert forall|i: int, j: int| 0 <= i < j < all.len() implies {
                    let a = #[trigger] all[i];
                    let b = #[trigger] all[j];
                    a.1 < b.1 && a.2 < b.2
                } by {}
            },
            None => {
                lemma_search_from_ordered(words, line, s + 1, min_end);
                let tail = search_from(words, line, s + 1, min_end);
                assert(all == tail);
                assert forall|i: int, j: int| 0 <= i < j < all.len() implies {
                    let a = #[trigger] all[i];
                    let b = #[trigger] all[j];
                    a.1 < b.1 && a.2 < b.2
                } by {}
            },
        }
    }
}

/// A letter that the list of distinct letters of a text lacks does not occur
/// in the text, and one that it has occurs.
pub proof fn lemma_distinct_letters(text: Seq<char>, letter: char)
    ensures
        distinct(text).contains(letter) <==> count_of(text, letter) > 0,
        count_of(text, letter) >= 0,
        distinct(text).no_duplicates(),
    decreases text.len(),
{
    if text.len() > 0 {
        let before = distinct(text.drop_last());
        lemma_distinct_letters(text.drop_last(), letter);
        lemma_distinct_letters(text.drop_last(), text.last());
        if !(before.contains(text.last())) {
            let now = before.push(text.last());
            assert(now.last() == text.last());
            if before.contains(letter) {
                let i = choose|i: int| 0 <= i < before.len() && before[i] == letter;
                assert(now[i] == letter);
            }
            assert forall|i: int, j: int| 0 <= i < now.len() && 0 <= j < now.len() && i != j implies now[i]
                != now[j] by {}
        }
    }
}

/// The tally of a text with one more letter: the count of that letter is one
/// higher, or it comes new to the end of the list with the count 1.
pub proof fn lemma_tally_push(text: Seq<char>, letter: char)
    ensures
        forall|i: int|
            0 <= i < tally(text).len() && (#[trigger] tally(text)[i]).0 == letter ==> tally(
                text.push(letter),
            ) == tally(text).update(i, (letter, tally(text)[i].1 + 1)),
        (forall|i: int| 0 <= i < tally(text).len() ==> (#[trigger] tally(text)[i]).0 != letter)
            ==> tally(text.push(letter)) == tally(text).push((letter, 1)),
        forall|i: int| 0 <= i < tally(text).len() ==> (#[trigger] tally(text)[i]).1 >= 1,
{
    let longer = text.push(letter);
    assert(longer.drop_last() =~= text);
    lemma_distinct_letters(text, letter);
    assert forall|other: char| count_of(longer, other) == count_of(text, other) + if other == letter {
        1int
    } else {
        0int
    } by {}
    assert forall|i: int| 0 <= i < tally(text).len() implies (#[trigger] tally(text)[i]).1 >= 1 by {
        let c = distinct(text)[i];
        lemma_distinct_letters(text, c);
    }
    assert forall|i: int|
        0 <= i < tally(text).len() && (#[trigger] tally(text)[i]).0 == letter implies tally(longer)
        == tally(text).update(i, (letter, tally(text)[i].1 + 1)) by {
        assert forall|j: int| 0 <= j < distinct(text).len() && j != i implies distinct(text)[j]
            != letter by {}
    }
    if forall|i: int| 0 <= i < tally(text).len() ==> (#[trigger] tally(text)[i]).0 != letter {
        if distinct(text).contains(letter) {
            let j = choose|j: int| 0 <= j < distinct(text).len() && distinct(text)[j] == letter;
            assert(tally(text)[j].0 == letter);
        }
    }
}

/// One more entry at the end leaves the sums before it as they were.
pub proof fn lemma_weight_push(counts: Seq<(char, int)>, entry: (char, int), n: int)
    requires
        0 <= n <= counts.len(),
    ensures
        weight_before(counts.push(entry), n) == weight_before(counts, n),
    decreases n,
{
    if n > 0 {
        lemma_weight_push(counts, entry, n - 1);
    }
}

/// Raising one count by one raises by one every sum that reaches over it.
pub proof fn lemma_weight_update(counts: Seq<(char, int)>, i: int, n: int)
    requires
        0 <= i < counts.len(),
        0 <= n <= counts.len(),
    ensures
        weight_before(counts.update(i, (counts[i].0, counts[i].1 + 1)), n) == weight_before(
            counts,
            n,
        ) + if i < n {
            1int
        } else {
            0int
        },
    decreases n,
{
    if n > 0 {
        lemma_weight_update(counts, i, n - 1);
    }
}

/// The sums of the counts grow with the number of entries summed, where no
/// count is negative.
pub proof fn lemma_weight_grows(counts: Seq<(char, int)>, n1: int, n2: int)
    requires
        0 <= n1 <= n2 <= counts.len(),
        forall|i: int| 0 <= i < counts.len() ==> (#[trigger] counts[i]).1 >= 0,
    ensures
        0 <= weight_before(counts, n1) <= weight_before(counts, n2),
    decreases n2,
{
    if n2 > 0 {
        if n1 < n2 {
            lemma_weight_grows(counts, n1, n2 - 1);
        } else {
            lemma_weight_grows(counts, n1 - 1, n2 - 1);
        }
    }
}

/// Counts one more occurrence of `letter`.
fn count_letter(counts: &mut Vec<(char, u128)>, letter: char, Ghost(text): Ghost<Seq<char>>)
    requires
        counts_view(old(counts)@) == tally(text),
        weight_before(counts_view(old(counts)@), old(counts)@.len() as int) < u128::MAX,
    ensures
        counts_view(final(counts)@) == tally(text.push(letter)),
        weight_before(counts_view(final(counts)@), final(counts)@.len() as int) == weight_before(
            counts_view(old(counts)@),
            old(counts)@.len() as int,
        ) + 1,
{
    let ghost before = counts_view(counts@);
    proof {
        lemma_tally_push(text, letter);
        assert forall|j: int| 0 <= j < before.len() implies (#[trigger] before[j]).1 >= 0 by {}
    }
    let mut i: usize = 0;
    while i < counts.len()
        invariant
            i <= counts@.len(),
            *counts == *old(counts),
            before == counts_view(counts@),
            before == tally(text),
            weight_before(before, before.len() as int) < u128::MAX,
            forall|i: int|
                0 <= i < tally(text).len() && (#[trigger] tally(text)[i]).0 == letter ==> tally(
                    text.push(letter),
                ) == tally(text).update(i, (letter, tally(text)[i].1 + 1)),
            (forall|i: int| 0 <= i < tally(text).len() ==> (#[trigger] tally(text)[i]).0 != letter)
                ==> tally(text.push(letter)) == tally(text).push((letter, 1)),
            forall|j: int| 0 <= j < before.len() ==> (#[trigger] before[j]).1 >= 0,
            forall|j: int| 0 <= j < i ==> (#[trigger] before[j]).0 != letter,
        decreases counts@.len() - i,
    {
        if counts[i].0 == letter {
            proof {
                lemma_weight_grows(before, i + 1, before.len() as int);
                lemma_weight_grows(before, i as int, i + 1);
                assert(weight_before(before, i + 1) == weight_before(before, i as int)
                    + before[i as int].1);
                lemma_weight_update(before, i as int, before.len() as int);
            }
            let n = counts[i].1;
            counts[i] = (letter, n + 1);
            return ;
        }
        i += 1;
    }
    proof {
        lemma_weight_push(before, (letter, 1int), before.len() as int);
    }
    counts.push((letter, 1));
}

impl Corpus {
    /// The letter that the number `v` falls to when the letters of the
    /// statistics lie side by side, each as wide as its count: the first
    /// letter whose count, added to the counts before it, exceeds `v`.
    pub fn letter_at(&self, v: u128) -> (letter: char)
        requires
            self.wf(),
            v < self.total_count,
        ensures
            exists|i: int| falls_to(self.counts(), v as int, i) && (#[trigger] self.counts()[i]).0 == letter,
            self.has_letter(letter),
    {
        let ghost counts = self.counts();
        let mut acc: u128 = 0;
        let mut i: usize = 0;
        proof {
            assert forall|j: int| 0 <= j < counts.len() implies (#[trigger] counts[j]).1 >= 0 by {}
        }
        while i < self.char_counts.len()
            invariant
                counts == self.counts(),
                i <= self.char_counts@.len(),
                acc == weight_before(counts, i as int),
                acc <= v,
                v < self.total_count,
                self.total_count == weight_before(counts, counts.len() as int),
                forall|j: int| 0 <= j < counts.len() ==> (#[trigger] counts[j]).1 >= 0,
            decreases self.char_counts@.len() - i,
        {
            proof {
                lemma_weight_grows(counts, i + 1, counts.len() as int);
                assert(weight_before(counts, i + 1) == weight_before(counts, i as int)
                    + counts[i as int].1);
            }
            let entry = self.char_counts[i];
            acc = acc + entry.1;
            if acc > v {
                return entry.0;
            }
            i += 1;
        }
        proof {
            assert(false);
        }
        ' '
    }

    /// Draws a letter at random, each letter as often as it occurs in the
    /// words of the dictionary: the letter that a number drawn evenly from
    /// below the total count falls to.
    pub fn random_char(&self) -> (letter: char)
        requires
            self.wf(),
            self.spec_has_letters(),
        ensures
            self.has_letter(letter),
    {
        let v = draw_below(self.total_count);
        self.letter_at(v)
    }
}

/// The texts of a list of string slices.
pub open spec fn strs_view(strs: Seq<&str>) -> Seq<Seq<char>> {
    Seq::new(strs.len(), |i: int| strs[i]@)
}

/// Every text of the list in upper case.
pub open spec fn uppercased(texts: Seq<Seq<char>>) -> Seq<Seq<char>> {
    Seq::new(texts.len(), |i: int| uppercase(texts[i]))
}

/// The candidate words of a text given line by line: every line without the
/// white space around it, but for the lines that have nothing else.
pub open spec fn text_candidates(lines: Seq<Seq<char>>) -> Seq<Seq<char>>
    decreases lines.len(),
{
    if lines.len() == 0 {
        Seq::empty()
    } else if trimmed(lines.last()).len() > 0 {
        text_candidates(lines.drop_last()).push(trimmed(lines.last()))
    } else {
        text_candidates(lines.drop_last())
    }
}

/// Whether the text can stand in the dictionary.
fn valid_word(chars: &Vec<char>) -> (r: bool)
    ensures
        r == is_word(chars@),
{
    if chars.len() < MIN_WORD_LEN {
        return false;
    }
    let mut i: usize = 0;
    while i < chars.len()
        invariant
            i <= chars@.len(),
            forall|j: int| 0 <= j < i ==> chars@[j] != '\'' && chars@[j] != '-',
        decreases chars@.len() - i,
    {
        if chars[i] == '\'' || chars[i] == '-' {
            return false;
        }
        i += 1;
    }
    true
}

impl Corpus {
    /// Takes `word` into the dictionary and its letters into the statistics.
    fn add_word(&mut self, word: String, chars: &Vec<char>)
        requires
            old(self).wf(),
            word@ == chars@,
            is_word(word@),
            !old(self).word_set().contains(word@),
        ensures
            final(self).wf(),
            final(self).words@ == old(self).words@.push(word),
    {
        let ghost words = words_view(self.words@);
        let ghost text = all_letters(words);
        let ghost count = self.total_count as int;
        let n = self.words.len();
        let mut k: usize = 0;
        while k < chars.len()
            invariant
                self.words == old(self).words,
                words == words_view(self.words@),
                text == all_letters(words),
                n == self.words@.len(),
                k <= chars@.len(),
                count <= n * WORD_LEN_LIMIT,
                self.total_count == count + k,
                self.counts() == tally(text + chars@.take(k as int)),
                self.total_count == weight_before(self.counts(), self.counts().len() as int),
            decreases chars@.len() - k,
        {
            count_letter(
                &mut self.char_counts,
                chars[k],
                Ghost(text + chars@.take(k as int)),
            );
            self.total_count = self.total_count + 1;
            proof {
                assert((text + chars@.take(k as int)).push(chars@[k as int]) =~= text + chars@.take(
                    k + 1,
                ));
            }
            k += 1;
        }
        self.words.push(word);
        proof {
            let longer = words_view(self.words@);
            assert(chars@.take(chars@.len() as int) =~= chars@);
            assert(longer =~= words.push(word@));
            assert(longer.drop_last() =~= words);
            assert forall|i: int, j: int|
                0 <= i < longer.len() && 0 <= j < longer.len() && i != j implies longer[i]
                != longer[j] by {}
        }
    }

    /// The dictionary of the candidates that can stand in one: those of at
    /// least `MIN_WORD_LEN` characters without apostrophe and hyphen, each
    /// once, with the statistics of their letters.
    pub fn from_upper_words(candidates: Vec<String>) -> (corpus: Corpus)
        ensures
            corpus.wf(),
            words_view(corpus.words@) == kept_words(words_view(candidates@)),
    {
        let mut corpus = Corpus { words: Vec::new(), char_counts: Vec::new(), total_count: 0 };
        proof {
            assert(corpus.counts() =~= tally(Seq::<char>::empty()));
        }
        let mut i: usize = 0;
        while i < candidates.len()
            invariant
                i <= candidates@.len(),
                corpus.wf(),
                words_view(corpus.words@) == kept_words(words_view(candidates@).take(i as int)),
            decreases candidates@.len() - i,
        {
            let chars = chars_of(candidates[i].as_str());
            let ghost seen = words_view(candidates@).take(i as int);
            let ghost now = words_view(candidates@).take(i + 1);
            proof {
                assert(now.drop_last() =~= seen);
            }
            if valid_word(&chars) && !corpus.contains(&candidates[i]) {
                corpus.add_word(candidates[i].clone(), &chars);
            }
            i += 1;
        }
        proof {
            assert(words_view(candidates@).take(candidates@.len() as int) =~= words_view(
                candidates@,
            ));
        }
        corpus
    }

    /// The dictionary of the words given: each in upper case, those left out
    /// that have fewer than `MIN_WORD_LEN` characters or an apostrophe or a
    /// hyphen, each of the others once.
    pub fn from_words(words: &[&str]) -> (corpus: Corpus)
        ensures
            corpus.wf(),
            words_view(corpus.words@) == kept_words(uppercased(strs_view(words@))),
    {
        let mut upper: Vec<String> = Vec::new();
        let mut i: usize = 0;
        while i < words.len()
            invariant
                i <= words@.len(),
                upper@.len() == i,
                forall|j: int| 0 <= j < i ==> (#[trigger] upper@[j])@ == uppercase(words@[j]@),
            decreases words@.len() - i,
        {
            upper.push(to_uppercase(words[i]));
            i += 1;
        }
        assert(words_view(upper@) =~= uppercased(strs_view(words@)));
        Corpus::from_upper_words(upper)
    }

    /// The dictionary of a text given line by line, one word to a line: each
    /// line without the white space around it is a word for `from_words`;
    /// lines with nothing else are passed over. Fails where this gives no
    /// word at all.
    pub fn from_text(lines: &[&str]) -> (r: Result<Corpus, EmptyCorpusError>)
        ensures
            match r {
                Ok(corpus) => {
                    &&& corpus.wf()
                    &&& corpus.words@.len() > 0
                    &&& words_view(corpus.words@) == kept_words(
                        uppercased(text_candidates(strs_view(lines@))),
                    )
                },
                Err(_) => kept_words(uppercased(text_candidates(strs_view(lines@)))).len() == 0,
            },
    {
        let mut candidates: Vec<String> = Vec::new();
        let mut i: usize = 0;
        while i < lines.len()
            invariant
                i <= lines@.len(),
                words_view(candidates@) == text_candidates(strs_view(lines@).take(i as int)),
            decreases lines@.len() - i,
        {
            let ghost seen = strs_view(lines@).take(i as int);
            let ghost now = strs_view(lines@).take(i + 1);
            proof {
                assert(now.drop_last() =~= seen);
            }
            let word = trim(&chars_of(lines[i]));
            if word.len() > 0 {
                candidates.push(string_from_chars(word.as_slice()));
            }
            i += 1;
        }
        assert(strs_view(lines@).take(lines@.len() as int) =~= strs_view(lines@));
        let mut words: Vec<&str> = Vec::new();
        let mut j: usize = 0;
        while j < candidates.len()
            invariant
                j <= candidates@.len(),
                words@.len() == j,
                forall|k: int| 0 <= k < j ==> (#[trigger] words@[k])@ == candidates@[k]@,
            decreases candidates@.len() - j,
        {
            words.push(candidates[j].as_str());
            j += 1;
        }
        assert(strs_view(words@) =~= words_view(candidates@));
        let corpus = Corpus::from_words(words.as_slice());
        if corpus.words.len() == 0 {
            Err(EmptyCorpusError)
        } else {
            Ok(corpus)
        }
    }
}

/// The words that are kept are the candidates that can stand in a
/// dictionary, and none of them is kept twice.
pub proof fn lemma_kept_words(candidates: Seq<Seq<char>>)
    ensures
        kept_words(candidates).no_duplicates(),
        forall|word: Seq<char>| #[trigger]
            kept_words(candidates).contains(word) <==> candidates.contains(word) && is_word(word),
    decreases candidates.len(),
{
    if candidates.len() > 0 {
        let earlier = candidates.drop_last();
        let last = candidates.last();
        let kept = kept_words(earlier);
        lemma_kept_words(earlier);
        assert forall|word: Seq<char>| #[trigger]
            kept_words(candidates).contains(word) <==> candidates.contains(word) && is_word(
                word,
            ) by {
            if candidates.contains(word) {
                let i = choose|i: int| 0 <= i < candidates.len() && candidates[i] == word;
                if i < earlier.len() {
                    assert(earlier[i] == word);
                }
            }
            if is_word(last) && !kept.contains(last) {
                let now = kept.push(last);
                assert(now.last() == last);
                if kept.contains(word) {
                    let i = choose|i: int| 0 <= i < kept.len() && kept[i] == word;
                    assert(now[i] == word);
                }
            }
        }
        if is_word(last) && !kept.contains(last) {
            let now = kept.push(last);
            assert forall|i: int, j: int| 0 <= i < now.len() && 0 <= j < now.len() && i != j implies now[i]
                != now[j] by {}
        }
    }
}

/// Every number below the total falls to one letter and no other: where the
/// letters lie side by side, each as wide as its count, they fill the range
/// below the total without gap or overlap.
pub proof fn lemma_falls_to_one(counts: Seq<(char, int)>, v: int)
    requires
        forall|i: int| 0 <= i < counts.len() ==> (#[trigger] counts[i]).1 >= 0,
        0 <= v < weight_before(counts, counts.len() as int),
    ensures
        exists|i: int| falls_to(counts, v, i),
        forall|i: int, j: int| falls_to(counts, v, i) && falls_to(counts, v, j) ==> i == j,
{
    lemma_falls_to_some(counts, v, counts.len() as int);
    assert forall|i: int, j: int| falls_to(counts, v, i) && falls_to(counts, v, j) implies i
        == j by {
        if i < j {
            lemma_weight_grows(counts, i + 1, j);
        } else if j < i {
            lemma_weight_grows(counts, j + 1, i);
        }
    }
}

/// A number below the sum of the first `n` counts falls to one of the first
/// `n` letters.
proof fn lemma_falls_to_some(counts: Seq<(char, int)>, v: int, n: int)
    requires
        forall|i: int| 0 <= i < counts.len() ==> (#[trigger] counts[i]).1 >= 0,
        0 <= n <= counts.len(),
        0 <= v < weight_before(counts, n),
    ensures
        exists|i: int| 0 <= i < n && falls_to(counts, v, i),
    decreases n,
{
    if v >= weight_before(counts, n - 1) {
        assert(falls_to(counts, v, n - 1));
    } else {
        lemma_falls_to_some(counts, v, n - 1);
    }
}

} // verus!
