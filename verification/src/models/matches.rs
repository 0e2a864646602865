//! The matches on a field: which lines are read and what counts as a
//! match in a line.

use vstd::prelude::*;
use crate::models::array2d::{
    diag_count,
    diag_len,
    diag_of,
    diag_start,
    is_rect,
    lemma_diag_starts_exact,
    row_of,
    Int2,
};
use crate::models::corpus::{found_view, lemma_search_from_bounds, line_matches, Corpus};
use crate::models::letterfield::{
    matches_view,
    Direction,
    Letterfield,
    MatchKind,
    MatchView,
    PlacedTile,
    Tile,
    WordMatch,
    WordMatchKind,
};

verus! {

/// The fewest cells a diagonal has that is searched for words.
pub const MIN_DIAGONAL: usize = 3;

/// The fewest tiles a row or column has that counts as a run of one letter.
pub const MIN_RUN: usize = 3;

/// The cell of the `k`-th tile of a line that starts at `start`.
pub open spec fn line_pos(start: Int2, direction: Direction, k: int) -> Int2 {
    match direction {
        Direction::Column => Int2 { x: start.x, y: (start.y + k) as usize },
        Direction::Row => Int2 { x: (start.x + k) as usize, y: start.y },
        Direction::Diagonal => Int2 { x: (start.x + k) as usize, y: (start.y + k) as usize },
    }
}

/// Every cell of a line of `len` tiles from `start` can be written down.
pub open spec fn line_fits(start: Int2, direction: Direction, len: int) -> bool {
    match direction {
        Direction::Column => start.y + len <= usize::MAX,
        Direction::Row => start.x + len <= usize::MAX,
        Direction::Diagonal => start.x + len <= usize::MAX && start.y + len <= usize::MAX,
    }
}

/// The letters of a line of tiles.
pub open spec fn letters_of(line: Seq<Tile>) -> Seq<char> {
    Seq::new(line.len(), |k: int| line[k].1)
}

/// The tiles `s` to `e` (exclusive) of a line, each with its cell.
pub open spec fn line_tiles(
    line: Seq<Tile>,
    start: Int2,
    direction: Direction,
    s: int,
    e: int,
) -> Seq<PlacedTile> {
    Seq::new((e - s) as nat, |k: int| (line[s + k].0, line[s + k].1, line_pos(start, direction, s + k)))
}

/// All letters of the line are the same.
pub open spec fn all_same(letters: Seq<char>) -> bool {
    forall|k: int| 0 <= k < letters.len() ==> #[trigger] letters[k] == letters[0]
}

/// The letter that a run of one letter is made of: the first of the line.
pub open spec fn run_letter(letters: Seq<char>) -> char {
    letters[0]
}

/// The line is a run of one letter: a whole row or column of at least
/// `MIN_RUN` tiles that all carry the same letter.
pub open spec fn is_letter_run(letters: Seq<char>, direction: Direction) -> bool {
    &&& direction != Direction::Diagonal
    &&& letters.len() >= MIN_RUN
    &&& all_same(letters)
}

/// The matches of one line: the whole line where it is a run of one letter,
/// else the words that the greedy search finds in its letters.
pub open spec fn matches_in_line(
    words: Set<Seq<char>>,
    line: Seq<Tile>,
    start: Int2,
    direction: Direction,
) -> Seq<MatchView> {
    let letters = letters_of(line);
    if is_letter_run(letters, direction) {
        Seq::empty().push(
            MatchView {
                tiles: line_tiles(line, start, direction, 0, line.len() as int),
                direction,
                kind: MatchKind::SameLetterRow(run_letter(letters)),
            },
        )
    } else {
        let found = line_matches(words, letters);
        Seq::new(
            found.len(),
            |i: int|
                MatchView {
                    tiles: line_tiles(line, start, direction, found[i].1, found[i].2),
                    direction,
                    kind: MatchKind::Word(found[i].0),
                },
        )
    }
}

/// The matches of the first `n` columns, column after column.
pub open spec fn column_matches(words: Set<Seq<char>>, g: Seq<Seq<Tile>>, n: int) -> Seq<MatchView>
    decreases n,
{
    if n <= 0 {
        Seq::empty()
    } else {
        column_matches(words, g, n - 1) + matches_in_line(
            words,
            g[n - 1],
            Int2 { x: (n - 1) as usize, y: 0 },
            Direction::Column,
        )
    }
}

/// The matches of the first `n` rows of a grid of width `w`, row after row.
pub open spec fn row_matches(words: Set<Seq<char>>, g: Seq<Seq<Tile>>, w: int, n: int) -> Seq<
    MatchView,
>
    decreases n,
{
    if n <= 0 {
        Seq::empty()
    } else {
        row_matches(words, g, w, n - 1) + matches_in_line(
            words,
            row_of(g, w, n - 1),
            Int2 { x: 0, y: (n - 1) as usize },
            Direction::Row,
        )
    }
}

/// The `i`-th diagonal of a `w` by `h` grid that is searched for words: its
/// tiles.
pub open spec fn searched_diagonal(g: Seq<Seq<Tile>>, w: int, h: int, i: int) -> Seq<Tile> {
    let start = diag_start(w, h, MIN_DIAGONAL as int, i);
    diag_of(g, start.0, start.1, diag_len(w, h, start.0, start.1))
}

/// Where the `i`-th searched diagonal starts.
pub open spec fn searched_diagonal_start(w: int, h: int, i: int) -> Int2 {
    let start = diag_start(w, h, MIN_DIAGONAL as int, i);
    Int2 { x: start.0 as usize, y: start.1 as usize }
}

/// The matches of the first `n` searched diagonals, one after the other.
pub open spec fn diagonal_matches(
    words: Set<Seq<char>>,
    g: Seq<Seq<Tile>>,
    w: int,
    h: int,
    n: int,
) -> Seq<MatchView>
    decreases n,
{
    if n <= 0 {
        Seq::empty()
    } else {
        diagonal_matches(words, g, w, h, n - 1) + matches_in_line(
            words,
            searched_diagonal(g, w, h, n - 1),
            searched_diagonal_start(w, h, n - 1),
            Direction::Diagonal,
        )
    }
}

/// All matches of a `w` by `h` field: those of the columns, then those of
/// the rows, then those of the falling diagonals of at least `MIN_DIAGONAL`
/// cells. A cell may lie in several of them.
pub open spec fn field_matches(words: Set<Seq<char>>, g: Seq<Seq<Tile>>, w: int, h: int) -> Seq<
    MatchView,
> {
    column_matches(words, g, w) + row_matches(words, g, w, h) + diagonal_matches(
        words,
        g,
        w,
        h,
        diag_count(w, h, MIN_DIAGONAL as int),
    )
}

/// The cell of the `k`-th tile of a line that starts at `start`.
fn place(start: Int2, direction: Direction, k: usize) -> (pos: Int2)
    requires
        line_fits(start, direction, k as int),
    ensures
        pos == line_pos(start, direction, k as int),
{
    match direction {
        Direction::Column => Int2 { x: start.x, y: start.y + k },
        Direction::Row => Int2 { x: start.x + k, y: start.y },
        Direction::Diagonal => Int2 { x: start.x + k, y: start.y + k },
    }
}

/// The tiles `s` to `e` (exclusive) of a line, each with its cell.
fn collect_tiles(line: &Vec<Tile>, start: Int2, direction: Direction, s: usize, e: usize) -> (tiles:
    Vec<PlacedTile>)
    requires
        s <= e <= line@.len(),
        line_fits(start, direction, line@.len() as int),
    ensures
        tiles@ == line_tiles(line@, start, direction, s as int, e as int),
{
    let mut tiles: Vec<PlacedTile> = Vec::new();
    let mut i: usize = s;
    while i < e
        invariant
            s <= i <= e <= line@.len(),
            line_fits(start, direction, line@.len() as int),
            tiles@ == line_tiles(line@, start, direction, s as int, i as int),
        decreases e - i,
    {
        let pos = place(start, direction, i);
        let tile = line[i];
        tiles.push((tile.0, tile.1, pos));
        i += 1;
    }
    tiles
}

/// Adds the matches of one line to `found`.
fn search_line(
    corpus: &Corpus,
    line: &Vec<Tile>,
    start: Int2,
    direction: Direction,
    found: &mut Vec<WordMatch>,
)
    requires
        line_fits(start, direction, line@.len() as int),
    ensures
        matches_view((*final(found))@) == matches_view((*old(found))@) + matches_in_line(
            corpus.word_set(),
            line@,
            start,
            direction,
        ),
{
    let len = line.len();
    let ghost before = matches_view((*found)@);
    let ghost words = corpus.word_set();
    let mut letters: Vec<char> = Vec::new();
    let mut same = true;
    let mut k: usize = 0;
    while k < len
        invariant
            len == line@.len(),
            k <= len,
            letters@ == letters_of(line@).take(k as int),
            same == all_same(letters_of(line@).take(k as int)),
        decreases len - k,
    {
        let letter = line[k].1;
        let ghost seen = letters_of(line@).take(k as int);
        if letter != line[0].1 {
            same = false;
        }
        letters.push(letter);
        k += 1;
        proof {
            let now = letters_of(line@).take(k as int);
            assert(now[k - 1] == letter && now[0] == line@[0].1);
            if all_same(now) {
                assert forall|j: int| 0 <= j < seen.len() implies #[trigger] seen[j] == seen[0] by {}
            }
            if all_same(seen) && letter == line@[0].1 {
                assert forall|j: int| 0 <= j < now.len() implies #[trigger] now[j] == now[0] by {}
            }
        }
    }
    assert(letters@ =~= letters_of(line@));
    let run = match direction {
        Direction::Diagonal => false,
        _ => same && len >= MIN_RUN,
    };
    if run {
        let tiles = collect_tiles(line, start, direction, 0, len);
        found.push(WordMatch { tiles, direction, kind: WordMatchKind::SameLetterRow(letters[0]) });
        proof {
            let wanted = matches_in_line(words, line@, start, direction);
            assert forall|j: int| 0 <= j < (*found)@.len() implies #[trigger] matches_view((*found)@)[j]
                =~~= (before + wanted)[j] by {}
        }
    } else {
        let hits = corpus.line_search(letters.as_slice());
        let ghost wanted = matches_in_line(words, line@, start, direction);
        proof {
            lemma_search_from_bounds(words, letters@, 0, 0);
        }
        let mut i: usize = 0;
        while i < hits.len()
            invariant
                i <= hits@.len(),
                line_fits(start, direction, line@.len() as int),
                letters@ == letters_of(line@),
                found_view(hits@) == line_matches(words, letters@),
                wanted == matches_in_line(words, line@, start, direction),
                wanted.len() == hits@.len(),
                before.len() + i == (*found)@.len(),
                !is_letter_run(letters@, direction),
                forall|j: int|
                    0 <= j < hits@.len() ==> {
                        let f = #[trigger] line_matches(words, letters@)[j];
                        0 <= f.1 && f.1 + 2 <= f.2 <= letters@.len()
                    },
                matches_view((*found)@) == before + wanted.take(i as int),
            decreases hits@.len() - i,
        {
            let ghost f = line_matches(words, letters@)[i as int];
            assert(found_view(hits@)[i as int] == f);
            let word = hits[i].0.clone();
            let tiles = collect_tiles(line, start, direction, hits[i].1, hits[i].2);
            let ghost earlier = (*found)@;
            found.push(WordMatch { tiles, direction, kind: WordMatchKind::Word(word) });
            i += 1;
            proof {
                assert forall|j: int| 0 <= j < (*found)@.len() implies #[trigger] matches_view(
                    (*found)@,
                )[j] =~~= (before + wanted.take(i as int))[j] by {
                    if j < (*found)@.len() - 1 {
                        assert(matches_view(earlier)[j] == (before + wanted.take(i - 1))[j]);
                    }
                }
            }
        }
    }
}

impl Letterfield {
    /// The matches that are on the field, for the words of `words`.
    pub open spec fn matches(&self, words: Set<Seq<char>>) -> Seq<MatchView> {
        field_matches(words, self@, self.spec_width() as int, self.spec_height() as int)
    }

    /// Finds every match on the field: column by column, then row by row,
    /// then along the falling diagonals of at least `MIN_DIAGONAL` cells. A
    /// row or column that is a run of one letter is one match; every other
    /// line is searched for words of `corpus`. A tile that lies in two
    /// matches is reported in both.
    pub fn find_word_matches(&self, corpus: &Corpus) -> (found: Vec<WordMatch>)
        requires
            self.wf(),
        ensures
            matches_view(found@) == self.matches(corpus.word_set()),
    {
        let ghost words = corpus.word_set();
        let ghost g = self@;
        let ghost w = self.spec_width() as int;
        let ghost h = self.spec_height() as int;
        let mut found: Vec<WordMatch> = Vec::new();

        let cols = self.grid().cols();
        let mut x: usize = 0;
        while x < cols.len()
            invariant
                words == corpus.word_set(),
                cols@.len() == w,
                x <= w,
                w <= usize::MAX,
                h <= usize::MAX,
                forall|i: int|
                    0 <= i < w ==> {
                        &&& (#[trigger] cols@[i]).0@ == g[i]
                        &&& cols@[i].1 == (Int2 { x: i as usize, y: 0 })
                        &&& g[i].len() == h
                    },
                matches_view(found@) == column_matches(words, g, x as int),
            decreases w - x,
        {
            let ghost so_far = matches_view(found@);
            search_line(corpus, &cols[x].0, cols[x].1, Direction::Column, &mut found);
            x += 1;
            proof {
                assert(matches_view(found@) == so_far + matches_in_line(
                    words,
                    g[x - 1],
                    Int2 { x: (x - 1) as usize, y: 0 },
                    Direction::Column,
                ));
            }
        }

        let rows = self.grid().rows();
        let ghost in_columns = matches_view(found@);
        let mut y: usize = 0;
        while y < rows.len()
            invariant
                words == corpus.word_set(),
                rows@.len() == h,
                y <= h,
                0 <= w <= usize::MAX,
                h <= usize::MAX,
                forall|j: int|
                    0 <= j < h ==> {
                        &&& (#[trigger] rows@[j]).0@ == row_of(g, w, j)
                        &&& rows@[j].1 == (Int2 { x: 0, y: j as usize })
                    },
                matches_view(found@) == in_columns + row_matches(words, g, w, y as int),
            decreases h - y,
        {
            search_line(corpus, &rows[y].0, rows[y].1, Direction::Row, &mut found);
            y += 1;
        }

        let diags = self.grid().diags(MIN_DIAGONAL);
        let ghost in_lines = matches_view(found@);
        proof {
            lemma_diag_starts_exact(w, h, MIN_DIAGONAL as int);
        }
        let mut d: usize = 0;
        while d < diags.len()
            invariant
                words == corpus.word_set(),
                diags@.len() == diag_count(w, h, MIN_DIAGONAL as int),
                d <= diags@.len(),
                0 <= w <= usize::MAX,
                0 <= h <= usize::MAX,
                forall|i: int|
                    0 <= i < diags@.len() ==> {
                        &&& (#[trigger] diags@[i]).0@ == searched_diagonal(g, w, h, i)
                        &&& diags@[i].1 == searched_diagonal_start(w, h, i)
                    },
                forall|i: int|
                    0 <= i < diag_count(w, h, MIN_DIAGONAL as int) ==> {
                        let s = #[trigger] diag_start(w, h, MIN_DIAGONAL as int, i);
                        &&& 0 <= s.0 < w
                        &&& 0 <= s.1 < h
                    },
                matches_view(found@) == in_lines + diagonal_matches(words, g, w, h, d as int),
            decreases diags@.len() - d,
        {
            search_line(corpus, &diags[d].0, diags[d].1, Direction::Diagonal, &mut found);
            d += 1;
            proof {
                let here = matches_in_line(
                    words,
                    searched_diagonal(g, w, h, d - 1),
                    searched_diagonal_start(w, h, d - 1),
                    Direction::Diagonal,
                );
                assert(diagonal_matches(words, g, w, h, d as int) == diagonal_matches(
                    words,
                    g,
                    w,
                    h,
                    d - 1,
                ) + here);
                assert(matches_view(found@) =~= in_lines + diagonal_matches(
                    words,
                    g,
                    w,
                    h,
                    d as int,
                ));
            }
        }
        found
    }
}

/// The tile `t` of a match lies in a cell of the `w` by `h` field `g`, and
/// the tile of that cell has its id and its letter.
pub open spec fn tile_on_grid(g: Seq<Seq<Tile>>, w: int, h: int, t: PlacedTile) -> bool {
    &&& t.2.x < w
    &&& t.2.y < h
    &&& g[t.2.x as int][t.2.y as int] == (t.0, t.1)
}

/// Every tile of every match is a tile of the field, and no match is without
/// tiles.
pub open spec fn matches_on_grid(g: Seq<Seq<Tile>>, w: int, h: int, matches: Seq<MatchView>) -> bool {
    forall|i: int|
        0 <= i < matches.len() ==> {
            &&& (#[trigger] matches[i]).tiles.len() > 0
            &&& forall|j: int|
                0 <= j < matches[i].tiles.len() ==> tile_on_grid(
                    g,
                    w,
                    h,
                    #[trigger] matches[i].tiles[j],
                )
        }
}

/// The `k`-th tile of `line` is the tile of the cell that the line reaches
/// after `k` steps from `start`, for every `k`.
pub open spec fn line_on_grid(
    g: Seq<Seq<Tile>>,
    w: int,
    h: int,
    line: Seq<Tile>,
    start: Int2,
    direction: Direction,
) -> bool {
    forall|k: int|
        0 <= k < line.len() ==> {
            let p = #[trigger] line_pos(start, direction, k);
            &&& p.x < w
            &&& p.y < h
            &&& g[p.x as int][p.y as int] == line[k]
        }
}

/// The matches of a line that lies on the field are made of tiles of the
/// field.
pub proof fn lemma_line_matches_on_grid(
    words: Set<Seq<char>>,
    g: Seq<Seq<Tile>>,
    w: int,
    h: int,
    line: Seq<Tile>,
    start: Int2,
    direction: Direction,
)
    requires
        line_on_grid(g, w, h, line, start, direction),
    ensures
        matches_on_grid(g, w, h, matches_in_line(words, line, start, direction)),
{
    let found = matches_in_line(words, line, start, direction);
    let letters = letters_of(line);
    lemma_search_from_bounds(words, letters, 0, 0);
    assert forall|i: int| 0 <= i < found.len() implies {
        &&& (#[trigger] found[i]).tiles.len() > 0
        &&& forall|j: int|
            0 <= j < found[i].tiles.len() ==> tile_on_grid(g, w, h, #[trigger] found[i].tiles[j])
    } by {
        if is_letter_run(letters, direction) {
            assert forall|j: int| 0 <= j < found[i].tiles.len() implies tile_on_grid(
                g,
                w,
                h,
                #[trigger] found[i].tiles[j],
            ) by {}
        } else {
            assert forall|j: int| 0 <= j < found[i].tiles.len() implies tile_on_grid(
                g,
                w,
                h,
                #[trigger] found[i].tiles[j],
            ) by {}
        }
    }
}

/// Joining two lists of matches that are made of tiles of the field gives
/// such a list.
proof fn lemma_matches_on_grid_join(
    g: Seq<Seq<Tile>>,
    w: int,
    h: int,
    a: Seq<MatchView>,
    b: Seq<MatchView>,
)
    requires
        matches_on_grid(g, w, h, a),
        matches_on_grid(g, w, h, b),
    ensures
        matches_on_grid(g, w, h, a + b),
{
    assert forall|i: int| 0 <= i < (a + b).len() implies {
        &&& (#[trigger] (a + b)[i]).tiles.len() > 0
        &&& forall|j: int|
            0 <= j < (a + b)[i].tiles.len() ==> tile_on_grid(
                g,
                w,
                h,
                #[trigger] (a + b)[i].tiles[j],
            )
    } by {}
}

/// The matches of the first `n` columns are made of tiles of the field.
proof fn lemma_column_matches_on_grid(words: Set<Seq<char>>, g: Seq<Seq<Tile>>, w: int, h: int, n: int)
    requires
        is_rect(g, w, h),
        0 <= n <= w <= usize::MAX,
        0 <= h <= usize::MAX,
    ensures
        matches_on_grid(g, w, h, column_matches(words, g, n)),
    decreases n,
{
    if n > 0 {
        lemma_column_matches_on_grid(words, g, w, h, n - 1);
        let start = Int2 { x: (n - 1) as usize, y: 0 };
        lemma_line_matches_on_grid(words, g, w, h, g[n - 1], start, Direction::Column);
        lemma_matches_on_grid_join(
            g,
            w,
            h,
            column_matches(words, g, n - 1),
            matches_in_line(words, g[n - 1], start, Direction::Column),
        );
    }
}

/// The matches of the first `n` rows are made of tiles of the field.
proof fn lemma_row_matches_on_grid(words: Set<Seq<char>>, g: Seq<Seq<Tile>>, w: int, h: int, n: int)
    requires
        is_rect(g, w, h),
        0 <= w <= usize::MAX,
        0 <= n <= h <= usize::MAX,
    ensures
        matches_on_grid(g, w, h, row_matches(words, g, w, n)),
    decreases n,
{
    if n > 0 {
        lemma_row_matches_on_grid(words, g, w, h, n - 1);
        let start = Int2 { x: 0, y: (n - 1) as usize };
        let line = row_of(g, w, n - 1);
        lemma_line_matches_on_grid(words, g, w, h, line, start, Direction::Row);
        lemma_matches_on_grid_join(
            g,
            w,
            h,
            row_matches(words, g, w, n - 1),
            matches_in_line(words, line, start, Direction::Row),
        );
    }
}

/// The matches of the first `n` searched diagonals are made of tiles of the
/// field.
proof fn lemma_diagonal_matches_on_grid(
    words: Set<Seq<char>>,
    g: Seq<Seq<Tile>>,
    w: int,
    h: int,
    n: int,
)
    requires
        is_rect(g, w, h),
        0 <= w <= usize::MAX,
        0 <= h <= usize::MAX,
        0 <= n <= diag_count(w, h, MIN_DIAGONAL as int),
    ensures
        matches_on_grid(g, w, h, diagonal_matches(words, g, w, h, n)),
    decreases n,
{
    if n > 0 {
        lemma_diagonal_matches_on_grid(words, g, w, h, n - 1);
        lemma_diag_starts_exact(w, h, MIN_DIAGONAL as int);
        let start = searched_diagonal_start(w, h, n - 1);
        let line = searched_diagonal(g, w, h, n - 1);
        lemma_line_matches_on_grid(words, g, w, h, line, start, Direction::Diagonal);
        lemma_matches_on_grid_join(
            g,
            w,
            h,
            diagonal_matches(words, g, w, h, n - 1),
            matches_in_line(words, line, start, Direction::Diagonal),
        );
    }
}

/// Every match found on a field is made of tiles of the field, each with the
/// cell it lies in, and has at least one tile.
pub proof fn lemma_matches_on_grid(words: Set<Seq<char>>, g: Seq<Seq<Tile>>, w: int, h: int)
    requires
        is_rect(g, w, h),
        0 <= w <= usize::MAX,
        0 <= h <= usize::MAX,
    ensures
        matches_on_grid(g, w, h, field_matches(words, g, w, h)),
{
    lemma_column_matches_on_grid(words, g, w, h, w);
    lemma_row_matches_on_grid(words, g, w, h, h);
    lemma_diagonal_matches_on_grid(words, g, w, h, diag_count(w, h, MIN_DIAGONAL as int));
    let columns = column_matches(words, g, w);
    let rows = row_matches(words, g, w, h);
    let diagonals = diagonal_matches(words, g, w, h, diag_count(w, h, MIN_DIAGONAL as int));
    lemma_matches_on_grid_join(g, w, h, columns, rows);
    lemma_matches_on_grid_join(g, w, h, columns + rows, diagonals);
}


/// There is room for a match on a `w` by `h` field: it has a column or a row
/// of at least `MIN_RUN` tiles.
pub open spec fn has_room_for_match(w: int, h: int) -> bool {
    (h >= MIN_RUN && w >= 1) || (w >= MIN_RUN && h >= 1)
}

/// A field without a line of `MIN_RUN` tiles has no match, whatever its
/// letters are.
pub proof fn lemma_small_field_has_no_match(
    words: Set<Seq<char>>,
    g: Seq<Seq<Tile>>,
    w: int,
    h: int,
)
    requires
        is_rect(g, w, h),
        0 <= w,
        0 <= h,
        !has_room_for_match(w, h),
    ensures
        field_matches(words, g, w, h).len() == 0,
{
    lemma_short_columns_have_no_match(words, g, w, h, w);
    lemma_short_rows_have_no_match(words, g, w, h, h);
}

/// Columns of fewer than `MIN_RUN` tiles have no match.
proof fn lemma_short_columns_have_no_match(
    words: Set<Seq<char>>,
    g: Seq<Seq<Tile>>,
    w: int,
    h: int,
    n: int,
)
    requires
        is_rect(g, w, h),
        0 <= n <= w,
        0 <= h,
        !has_room_for_match(w, h),
    ensures
        column_matches(words, g, n).len() == 0,
    decreases n,
{
    if n > 0 {
        lemma_short_columns_have_no_match(words, g, w, h, n - 1);
        assert(g[n - 1].len() == h);
    }
}

/// Rows of fewer than `MIN_RUN` tiles have no match.
proof fn lemma_short_rows_have_no_match(
    words: Set<Seq<char>>,
    g: Seq<Seq<Tile>>,
    w: int,
    h: int,
    n: int,
)
    requires
        0 <= n <= h,
        0 <= w,
        !has_room_for_match(w, h),
    ensures
        row_matches(words, g, w, n).len() == 0,
    decreases n,
{
    if n > 0 {
        lemma_short_rows_have_no_match(words, g, w, h, n - 1);
    }
}

} // verus!
