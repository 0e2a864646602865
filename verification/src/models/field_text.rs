//! The letter field as text, for logs and tests: one line to a row, the
//! letters of a row with a space between each two; and the way back from
//! such a text to a field.

use vstd::prelude::*;
use crate::models::array2d::{
    cell_index,
    columns_view,
    equal_lengths,
    first_len,
    is_rect,
    lemma_cell_index_bound,
    row_of,
    Array2D,
    ShapeError,
};
use crate::models::letterfield::{Letterfield, Tile};
use crate::models::text::{
    is_whitespace,
    lemma_lines_of_joined,
    lemma_trimmed_same,
    white_space,
    chars_of,
    decimal,
    join,
    joined,
    push_decimal,
    split_lines,
    string_from_chars,
    strip_spaces,
    text_lines,
    to_uppercase,
    trim,
    trimmed,
    uppercase,
    vecs_view,
    without_spaces,
};

verus! {

/// The letters of row `y` of a field of width `w`.
pub open spec fn row_letters(g: Seq<Seq<Tile>>, w: int, y: int) -> Seq<char> {
    Seq::new(w as nat, |x: int| g[x][y].1)
}

/// Every letter as a text of its own.
pub open spec fn singles(letters: Seq<char>) -> Seq<Seq<char>> {
    Seq::new(letters.len(), |i: int| Seq::empty().push(letters[i]))
}

/// A row as text: its letters with a space between each two.
pub open spec fn row_text(letters: Seq<char>) -> Seq<char> {
    joined(singles(letters), ' ')
}

/// The field as text: its rows one to a line.
pub open spec fn field_text(g: Seq<Seq<Tile>>, w: int, h: int) -> Seq<char> {
    joined(Seq::new(h as nat, |y: int| row_text(row_letters(g, w, y))), '\n')
}

/// A tile as text: its id and its letter in round brackets, `(7, A)`.
pub open spec fn tile_text(tile: Tile) -> Seq<char> {
    Seq::empty().push('(') + decimal(tile.0 as nat) + Seq::empty().push(',').push(' ').push(
        tile.1,
    ).push(')')
}

/// The tiles of row `y` as texts.
pub open spec fn row_tile_texts(g: Seq<Seq<Tile>>, w: int, y: int) -> Seq<Seq<char>> {
    Seq::new(w as nat, |x: int| tile_text(g[x][y]))
}

/// The field as text with ids: its rows one to a line, the tiles of a row
/// with a space between each two.
pub open spec fn detail_text(g: Seq<Seq<Tile>>, w: int, h: int) -> Seq<char> {
    joined(Seq::new(h as nat, |y: int| joined(row_tile_texts(g, w, y), ' ')), '\n')
}

/// What a line of text gives as the letters of a row: the line without its
/// spaces, in upper case, without white space at its ends.
pub open spec fn row_of_line(line: Seq<char>) -> Seq<char> {
    trimmed(uppercase(without_spaces(line)))
}

/// What a text gives as the rows of a field: a row to each line.
pub open spec fn parsed_rows(text: Seq<char>) -> Seq<Seq<char>> {
    Seq::new(text_lines(text).len(), |y: int| row_of_line(text_lines(text)[y]))
}

/// The field that rows of letters make: the letter `k` of row `y` is the
/// letter of the tile in cell `(k, y)`, and the tiles are numbered from 1 on,
/// row after row.
pub open spec fn grid_of_rows(rows: Seq<Seq<char>>) -> Seq<Seq<Tile>> {
    let w = first_len(rows);
    Seq::new(
        w as nat,
        |x: int| Seq::new(rows.len(), |y: int| ((cell_index(w, y, x) + 1) as u32, rows[y][x])),
    )
}

/// The rows can be made into a field: they are of one length, and there are
/// ids for all their letters.
pub open spec fn rows_fit(rows: Seq<Seq<char>>) -> bool {
    equal_lengths(rows) && first_len(rows) * rows.len() <= u32::MAX
}

impl Letterfield {
    /// The field as text: a line to each row, the letters of a row with a
    /// space between each two. The ids are not part of the text.
    pub fn to_string(&self) -> (text: String)
        requires
            self.wf(),
        ensures
            text@ == field_text(self@, self.spec_width() as int, self.spec_height() as int),
    {
        let ghost g = self@;
        let ghost w = self.spec_width() as int;
        let ghost h = self.spec_height() as int;
        let rows = self.grid().rows();
        let mut lines: Vec<Vec<char>> = Vec::new();
        let mut y: usize = 0;
        while y < rows.len()
            invariant
                rows@.len() == h,
                0 <= w,
                y <= h,
                forall|j: int| 0 <= j < h ==> (#[trigger] rows@[j]).0@ == row_of(g, w, j),
                lines@.len() == y,
                forall|j: int| 0 <= j < y ==> (#[trigger] lines@[j])@ == row_text(row_letters(g, w, j)),
            decreases h - y,
        {
            let row = &rows[y].0;
            let ghost letters = row_letters(g, w, y as int);
            let mut parts: Vec<Vec<char>> = Vec::new();
            let mut x: usize = 0;
            while x < row.len()
                invariant
                    row@ == row_of(g, w, y as int),
                    letters == row_letters(g, w, y as int),
                    0 <= w,
                    x <= row@.len(),
                    parts@.len() == x,
                    forall|i: int|
                        0 <= i < x ==> (#[trigger] parts@[i])@ == Seq::<char>::empty().push(letters[i]),
                decreases row@.len() - x,
            {
                let mut part: Vec<char> = Vec::new();
                part.push(row[x].1);
                parts.push(part);
                x += 1;
            }
            assert(vecs_view(parts@) =~= singles(letters));
            lines.push(join(&parts, ' '));
            y += 1;
        }
        assert(vecs_view(lines@) =~= Seq::new(h as nat, |y: int| row_text(row_letters(g, w, y))));
        let text = join(&lines, '\n');
        string_from_chars(text.as_slice())
    }

    /// The field as text with ids: a line to each row, every tile as its id
    /// and letter in round brackets, the tiles of a row with a space between
    /// each two.
    pub fn to_detail_string(&self) -> (text: String)
        requires
            self.wf(),
        ensures
            text@ == detail_text(self@, self.spec_width() as int, self.spec_height() as int),
    {
        let ghost g = self@;
        let ghost w = self.spec_width() as int;
        let ghost h = self.spec_height() as int;
        let rows = self.grid().rows();
        let mut lines: Vec<Vec<char>> = Vec::new();
        let mut y: usize = 0;
        while y < rows.len()
            invariant
                rows@.len() == h,
                0 <= w,
                y <= h,
                forall|j: int| 0 <= j < h ==> (#[trigger] rows@[j]).0@ == row_of(g, w, j),
                lines@.len() == y,
                forall|j: int|
                    0 <= j < y ==> (#[trigger] lines@[j])@ == joined(row_tile_texts(g, w, j), ' '),
            decreases h - y,
        {
            let row = &rows[y].0;
            let mut parts: Vec<Vec<char>> = Vec::new();
            let mut x: usize = 0;
            while x < row.len()
                invariant
                    row@ == row_of(g, w, y as int),
                    0 <= w,
                    x <= row@.len(),
                    parts@.len() == x,
                    forall|i: int| 0 <= i < x ==> (#[trigger] parts@[i])@ == tile_text(g[i][y as int]),
                decreases row@.len() - x,
            {
                let tile = row[x];
                let mut part: Vec<char> = Vec::new();
                part.push('(');
                push_decimal(&mut part, tile.0);
                part.push(',');
                part.push(' ');
                part.push(tile.1);
                part.push(')');
                parts.push(part);
                x += 1;
            }
            assert(vecs_view(parts@) =~= row_tile_texts(g, w, y as int));
            lines.push(join(&parts, ' '));
            y += 1;
        }
        assert(vecs_view(lines@) =~= Seq::new(
            h as nat,
            |y: int| joined(row_tile_texts(g, w, y), ' '),
        ));
        let text = join(&lines, '\n');
        string_from_chars(text.as_slice())
    }
}

impl Letterfield {
    /// The field whose rows have the letters given: letter `k` of row `y`
    /// goes to cell `(k, y)`. The tiles are numbered from 1 on, row after
    /// row. Fails where the rows are not of one length, or hold more letters
    /// than there are ids.
    pub fn from_rows(rows: Vec<Vec<char>>) -> (r: Result<Letterfield, ShapeError>)
        ensures
            r is Ok <==> rows_fit(columns_view(rows)),
            r matches Ok(field) ==> {
                &&& field.wf()
                &&& field.spec_width() == first_len(columns_view(rows))
                &&& field.spec_height() == rows@.len()
                &&& field@ == grid_of_rows(columns_view(rows))
                &&& field.last_id() == first_len(columns_view(rows)) * rows@.len()
            },
    {
        let ghost letters = columns_view(rows);
        let h = rows.len();
        let w = if h > 0 {
            rows[0].len()
        } else {
            0
        };
        let mut y: usize = 0;
        while y < h
            invariant
                letters == columns_view(rows),
                h == rows@.len(),
                w == first_len(letters),
                y <= h,
                forall|j: int| 0 <= j < y ==> (#[trigger] letters[j]).len() == w,
            decreases h - y,
        {
            if rows[y].len() != w {
                assert(letters[y as int].len() != letters[0].len());
                return Err(ShapeError);
            }
            y += 1;
        }
        assert((w as u128) * (h as u128) <= 0xffff_ffff_ffff_ffff * 0xffff_ffff_ffff_ffff)
            by (nonlinear_arith)
            requires
                0 <= w <= 0xffff_ffff_ffff_ffff,
                0 <= h <= 0xffff_ffff_ffff_ffff,
        ;
        if (w as u128) * (h as u128) > u32::MAX as u128 {
            return Err(ShapeError);
        }
        let ghost want = grid_of_rows(letters);
        let mut tiles: Vec<Vec<Tile>> = Vec::new();
        let mut id: u32 = 0;
        let mut y: usize = 0;
        while y < h
            invariant
                letters == columns_view(rows),
                h == rows@.len(),
                is_rect(letters, h as int, w as int),
                w * h <= u32::MAX,
                y <= h,
                id == cell_index(w as int, y as int, 0),
                tiles@.len() == y,
                forall|j: int| 0 <= j < y ==> (#[trigger] tiles@[j])@.len() == w,
                forall|j: int, k: int|
                    0 <= j < y && 0 <= k < w ==> #[trigger] tiles@[j]@[k] == (
                        (cell_index(w as int, j, k) + 1) as u32,
                        letters[j][k],
                    ),
            decreases h - y,
        {
            let mut row: Vec<Tile> = Vec::new();
            let mut x: usize = 0;
            while x < w
                invariant
                    letters == columns_view(rows),
                    h == rows@.len(),
                    letters[y as int].len() == w,
                    w * h <= u32::MAX,
                    y < h,
                    x <= w,
                    id == cell_index(w as int, y as int, x as int),
                    row@.len() == x,
                    forall|k: int|
                        0 <= k < x ==> #[trigger] row@[k] == (
                            (cell_index(w as int, y as int, k) + 1) as u32,
                            letters[y as int][k],
                        ),
                decreases w - x,
            {
                proof {
                    lemma_cell_index_bound(w as int, y as int, x as int, h as int);
                    assert(cell_index(w as int, h as int, 0) == w * h) by (nonlinear_arith);
                }
                id += 1;
                row.push((id, rows[y][x]));
                x += 1;
            }
            proof {
                assert(cell_index(w as int, y + 1, 0) == cell_index(w as int, y as int, w as int))
                    by (nonlinear_arith);
            }
            tiles.push(row);
            y += 1;
        }
        proof {
            assert(equal_lengths(columns_view(tiles))) by {
                assert forall|j: int| 0 <= j < columns_view(tiles).len() implies (
                #[trigger] columns_view(tiles)[j]).len() == columns_view(tiles)[0].len() by {}
            }
        }
        match Array2D::try_from(tiles) {
            Ok(by_rows) => {
                let field = by_rows.transpose();
                proof {
                    let g = field@;
                    assert forall|x: int| 0 <= x < w implies #[trigger] g[x] =~= want[x] by {
                        assert forall|y: int| 0 <= y < h implies g[x][y] == want[x][y] by {}
                    }
                    assert forall|x1: int, y1: int, x2: int, y2: int|
                        0 <= x1 < w && 0 <= y1 < h && 0 <= x2 < w && 0 <= y2 < h && (
                        #[trigger] g[x1][y1]).0 == (#[trigger] g[x2][y2]).0 implies x1 == x2 && y1
                        == y2 by {
                        lemma_cell_index_bound(w as int, y1, x1, h as int);
                        lemma_cell_index_bound(w as int, y2, x2, h as int);
                        if y1 < y2 {
                            lemma_cell_index_bound(w as int, y1, x1, y2);
                        } else if y2 < y1 {
                            lemma_cell_index_bound(w as int, y2, x2, y1);
                        }
                    }
                }
                let made = Letterfield::new(field);
                proof {
                    let g = made@;
                    let top = made.last_id();
                    if w > 0 && h > 0 {
                        assert(g[w - 1][h - 1].0 <= top);
                        assert(cell_index(w as int, h - 1, w - 1) + 1 == w * h) by (nonlinear_arith);
                        let (x, y) = choose|x: int, y: int|
                            0 <= x < w && 0 <= y < h && (#[trigger] g[x][y]).0 == top;
                        lemma_cell_index_bound(w as int, y, x, h as int);
                        assert(cell_index(w as int, h as int, 0) == w * h) by (nonlinear_arith);
                    } else {
                        assert(w * h == 0) by (nonlinear_arith)
                            requires
                                w == 0 || h == 0,
                        ;
                        if top != 0 {
                            let (x, y) = choose|x: int, y: int|
                                0 <= x < w && 0 <= y < h && (#[trigger] g[x][y]).0 == top;
                        }
                    }
                }
                Ok(made)
            },
            Err(e) => {
                proof {
                    assert(false);
                }
                Err(e)
            },
        }
    }

    /// Reads a field from text: a row to each line, the letters of the row
    /// being the line without its spaces, in upper case, without white space
    /// at its ends. The tiles are numbered from 1 on, row after row. Fails
    /// where the rows are not of one length, or hold more letters than there
    /// are ids.
    pub fn try_from(value: String) -> (r: Result<Letterfield, ShapeError>)
        ensures
            r is Ok <==> rows_fit(parsed_rows(value@)),
            r matches Ok(field) ==> {
                &&& field.wf()
                &&& field.spec_width() == first_len(parsed_rows(value@))
                &&& field.spec_height() == parsed_rows(value@).len()
                &&& field@ == grid_of_rows(parsed_rows(value@))
                &&& field.last_id() == first_len(parsed_rows(value@)) * parsed_rows(value@).len()
            },
    {
        let text = chars_of(value.as_str());
        let lines = split_lines(&text);
        let mut rows: Vec<Vec<char>> = Vec::new();
        let mut y: usize = 0;
        while y < lines.len()
            invariant
                y <= lines@.len(),
                vecs_view(lines@) == text_lines(value@),
                rows@.len() == y,
                forall|j: int|
                    0 <= j < y ==> (#[trigger] rows@[j])@ == row_of_line(text_lines(value@)[j]),
            decreases lines@.len() - y,
        {
            let bare = strip_spaces(&lines[y]);
            let upper = to_uppercase(string_from_chars(bare.as_slice()).as_str());
            let row = trim(&chars_of(upper.as_str()));
            rows.push(row);
            y += 1;
        }
        assert(columns_view(rows) =~= parsed_rows(value@));
        Letterfield::from_rows(rows)
    }
}

/// The letters of a row written with spaces between them hold no line feed
/// where the letters hold none, and give the letters back when the spaces
/// are taken out, where no letter is a space.
pub proof fn lemma_row_text(letters: Seq<char>)
    requires
        forall|k: int| 0 <= k < letters.len() ==> letters[k] != ' ' && letters[k] != '\n',
    ensures
        without_spaces(row_text(letters)) == letters,
        forall|k: int| 0 <= k < row_text(letters).len() ==> row_text(letters)[k] != '\n',
        letters.len() > 0 ==> row_text(letters).len() > 0,
    decreases letters.len(),
{
    let parts = singles(letters);
    if letters.len() == 0 {
    } else if letters.len() == 1 {
        let text = row_text(letters);
        assert(text.drop_last() =~= Seq::<char>::empty());
        assert(without_spaces(text.drop_last()) =~= Seq::<char>::empty());
        assert(without_spaces(text) =~= letters);
    } else {
        let shorter = letters.drop_last();
        lemma_row_text(shorter);
        assert(parts.drop_last() =~= singles(shorter));
        let head = row_text(shorter);
        let text = row_text(letters);
        assert(text.drop_last() =~= head.push(' '));
        assert(head.push(' ').drop_last() =~= head);
        assert(without_spaces(head.push(' ')) == without_spaces(head));
        assert forall|k: int| 0 <= k < text.len() implies text[k] != '\n' by {}
    }
}

/// The text of the field can hold its letters: the field has a cell, no
/// letter is a space or a line feed, no row starts or ends with white space,
/// and upper case leaves every row as it is.
pub open spec fn text_keeps_letters(g: Seq<Seq<Tile>>, w: int, h: int) -> bool {
    &&& w > 0
    &&& h > 0
    &&& forall|x: int, y: int|
        0 <= x < w && 0 <= y < h ==> (#[trigger] g[x][y]).1 != ' ' && g[x][y].1 != '\n'
    &&& forall|y: int|
        0 <= y < h ==> uppercase(#[trigger] row_letters(g, w, y)) == row_letters(g, w, y)
    &&& forall|y: int|
        0 <= y < h ==> !white_space((#[trigger] g[0][y]).1) && !white_space(g[w - 1][y].1)
}

/// Writing a field as text and reading the text gives rows with the same
/// letters, cell by cell, where the text can hold the letters. The rows make
/// a field where there are ids for all their letters. The ids are not
/// written, and the field that is read has ids of its own.
pub proof fn lemma_text_round_trip(g: Seq<Seq<Tile>>, w: int, h: int)
    requires
        is_rect(g, w, h),
        text_keeps_letters(g, w, h),
    ensures
        parsed_rows(field_text(g, w, h)).len() == h,
        forall|y: int|
            0 <= y < h ==> #[trigger] parsed_rows(field_text(g, w, h))[y] == row_letters(g, w, y),
        equal_lengths(parsed_rows(field_text(g, w, h))),
        w * h <= u32::MAX ==> rows_fit(parsed_rows(field_text(g, w, h))),
        first_len(parsed_rows(field_text(g, w, h))) == w,
        forall|x: int, y: int|
            0 <= x < w && 0 <= y < h ==> (#[trigger] grid_of_rows(
                parsed_rows(field_text(g, w, h)),
            )[x][y]).1 == g[x][y].1,
{
    let lines = Seq::new(h as nat, |y: int| row_text(row_letters(g, w, y)));
    let text = field_text(g, w, h);
    assert forall|y: int| 0 <= y < h implies {
        &&& without_spaces(#[trigger] lines[y]) == row_letters(g, w, y)
        &&& lines[y].len() > 0
        &&& forall|k: int| 0 <= k < lines[y].len() ==> lines[y][k] != '\n'
    } by {
        let letters = row_letters(g, w, y);
        assert forall|k: int| 0 <= k < letters.len() implies letters[k] != ' ' && letters[k]
            != '\n' by {}
        lemma_row_text(letters);
    }
    assert forall|i: int, k: int| 0 <= i < lines.len() && 0 <= k < lines[i].len() implies (
    #[trigger] lines[i][k]) != '\n' by {}
    lemma_lines_of_joined(lines);
    let rows = parsed_rows(text);
    assert forall|y: int| 0 <= y < h implies #[trigger] rows[y] == row_letters(g, w, y) by {
        let letters = row_letters(g, w, y);
        assert(uppercase(letters) == letters);
        lemma_trimmed_same(letters);
    }
    assert forall|y: int| 0 <= y < rows.len() implies (#[trigger] rows[y]).len() == rows[0].len() by {}
    assert forall|x: int, y: int| 0 <= x < w && 0 <= y < h implies (#[trigger] grid_of_rows(
        rows,
    )[x][y]).1 == g[x][y].1 by {}
}

impl Letterfield {
    /// Whether the text of the field can hold its letters and there are ids
    /// for as many tiles as it has, so that reading the text gives a field
    /// with the same letters cell by cell.
    pub fn reads_back(&self) -> (r: bool)
        requires
            self.wf(),
        ensures
            r == (text_keeps_letters(self@, self.spec_width() as int, self.spec_height() as int)
                && self.spec_width() * self.spec_height() <= u32::MAX),
            r ==> {
                let rows = parsed_rows(
                    field_text(self@, self.spec_width() as int, self.spec_height() as int),
                );
                &&& rows_fit(rows)
                &&& first_len(rows) == self.spec_width()
                &&& rows.len() == self.spec_height()
                &&& forall|x: int, y: int|
                    0 <= x < self.spec_width() && 0 <= y < self.spec_height() ==> (
                    #[trigger] grid_of_rows(rows)[x][y]).1 == self@[x][y].1
            },
    {
        let ghost g = self@;
        let ghost w = self.spec_width() as int;
        let ghost h = self.spec_height() as int;
        let width = self.width();
        let height = self.height();
        if width == 0 || height == 0 {
            return false;
        }
        assert((width as u128) * (height as u128) <= 0xffff_ffff_ffff_ffff * 0xffff_ffff_ffff_ffff)
            by (nonlinear_arith)
            requires
                0 <= width <= 0xffff_ffff_ffff_ffff,
                0 <= height <= 0xffff_ffff_ffff_ffff,
        ;
        if (width as u128) * (height as u128) > u32::MAX as u128 {
            return false;
        }
        let rows = self.grid().rows();
        let mut y: usize = 0;
        while y < height
            invariant
                self.wf(),
                g == self@,
                w == self.spec_width(),
                h == self.spec_height(),
                width == w,
                height == h,
                w > 0,
                h > 0,
                w * h <= u32::MAX,
                rows@.len() == h,
                forall|j: int| 0 <= j < h ==> (#[trigger] rows@[j]).0@ == row_of(g, w, j),
                y <= h,
                forall|x: int, j: int|
                    0 <= x < w && 0 <= j < y ==> (#[trigger] g[x][j]).1 != ' ' && g[x][j].1 != '\n',
                forall|j: int|
                    0 <= j < y ==> uppercase(#[trigger] row_letters(g, w, j)) == row_letters(g, w, j),
                forall|j: int|
                    0 <= j < y ==> !white_space((#[trigger] g[0][j]).1) && !white_space(
                        g[w - 1][j].1,
                    ),
            decreases h - y,
        {
            let row = &rows[y].0;
            let ghost want = row_letters(g, w, y as int);
            let mut letters: Vec<char> = Vec::new();
            let mut x: usize = 0;
            while x < width
                invariant
                    is_rect(g, w, h),
                    g == self@,
                    w == self.spec_width(),
                    h == self.spec_height(),
                    row@ == row_of(g, w, y as int),
                    want == row_letters(g, w, y as int),
                    width == w,
                    w > 0,
                    h > 0,
                    w * h <= u32::MAX,
                    y < h,
                    x <= w,
                    letters@ == want.take(x as int),
                    forall|i: int| 0 <= i < x ==> (#[trigger] g[i][y as int]).1 != ' ' && g[i][y as int].1
                        != '\n',
                decreases w - x,
            {
                let letter = row[x].1;
                if letter == ' ' || letter == '\n' {
                    return false;
                }
                letters.push(letter);
                x += 1;
            }
            assert(want.take(w) =~= want);
            if is_whitespace(letters[0]) || is_whitespace(letters[width - 1]) {
                return false;
            }
            let upper = chars_of(to_uppercase(string_from_chars(letters.as_slice()).as_str()).as_str());
            if !same_letters(&upper, &letters) {
                return false;
            }
            y += 1;
        }
        proof {
            lemma_text_round_trip(g, w, h);
        }
        true
    }
}

/// Whether two texts are the same, letter by letter.
fn same_letters(a: &Vec<char>, b: &Vec<char>) -> (r: bool)
    ensures
        r == (a@ == b@),
{
    if a.len() != b.len() {
        return false;
    }
    let mut i: usize = 0;
    while i < a.len()
        invariant
            a@.len() == b@.len(),
            i <= a@.len(),
            forall|k: int| 0 <= k < i ==> a@[k] == b@[k],
        decreases a@.len() - i,
    {
        if a[i] != b[i] {
            return false;
        }
        i += 1;
    }
    assert(a@ =~= b@);
    true
}

} // verus!
