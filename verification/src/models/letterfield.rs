//! The letter field: a grid of tiles, each a letter with an id that stays
//! with it wherever the tile moves.

use vstd::prelude::*;
use crate::models::array2d::{cell_index, is_rect, lemma_cell_index_bound, row_of, Array2D, Int2};
use crate::models::corpus::Corpus;
use crate::models::pass::{lemma_seen_next_column, lemma_seen_step, seen};
use crate::models::resolve::holds_id;
use crate::models::tile_maps::{MovedTiles, PlacedTiles};

verus! {

/// A tile: its id and its letter.
pub type Tile = (u32, char);

/// A tile of a match: its id, its letter and the cell it lies in.
pub type PlacedTile = (u32, char, Int2);

/// The direction in which the tiles of a match follow each other.
#[derive(Debug, Clone, Copy, PartialEq, Eq, Structural)]
pub enum Direction {
    /// Within one column, by growing `y`.
    Column,
    /// Within one row, by growing `x`.
    Row,
    /// By growing `x` and `y` together.
    Diagonal,
}

/// Why tiles count as a match.
#[derive(Debug, Clone)]
pub enum WordMatchKind {
    /// Their letters spell this word of the dictionary.
    Word(String),
    /// They fill a whole row or column and all carry this letter.
    SameLetterRow(char),
}

/// A match on the field: its tiles in the order of the line, the direction of
/// the line and the reason.
#[derive(Debug, Clone)]
pub struct WordMatch {
    pub tiles: Vec<PlacedTile>,
    pub direction: Direction,
    pub kind: WordMatchKind,
}

/// A `WordMatchKind` as a mathematical value.
#[verifier::ext_equal]
pub enum MatchKind {
    Word(Seq<char>),
    SameLetterRow(char),
}

/// A `WordMatch` as a mathematical value.
#[verifier::ext_equal]
pub struct MatchView {
    pub tiles: Seq<PlacedTile>,
    pub direction: Direction,
    pub kind: MatchKind,
}

impl View for WordMatchKind {
    type V = MatchKind;

    open spec fn view(&self) -> MatchKind {
        match self {
            WordMatchKind::Word(word) => MatchKind::Word(word@),
            WordMatchKind::SameLetterRow(letter) => MatchKind::SameLetterRow(*letter),
        }
    }
}

impl View for WordMatch {
    type V = MatchView;

    open spec fn view(&self) -> MatchView {
        MatchView { tiles: self.tiles@, direction: self.direction, kind: self.kind@ }
    }
}

/// A list of matches as mathematical values.
pub open spec fn matches_view(matches: Seq<WordMatch>) -> Seq<MatchView> {
    Seq::new(matches.len(), |i: int| matches[i]@)
}

/// No id occurs in two cells of the `w` by `h` grid `g`.
pub open spec fn distinct_ids(g: Seq<Seq<Tile>>, w: int, h: int) -> bool {
    forall|x1: int, y1: int, x2: int, y2: int|
        0 <= x1 < w && 0 <= y1 < h && 0 <= x2 < w && 0 <= y2 < h && (#[trigger] g[x1][y1]).0 == (
        #[trigger] g[x2][y2]).0 ==> x1 == x2 && y1 == y2
}

/// No id of the `w` by `h` grid `g` is above `bound`.
pub open spec fn ids_at_most(g: Seq<Seq<Tile>>, w: int, h: int, bound: int) -> bool {
    forall|x: int, y: int| 0 <= x < w && 0 <= y < h ==> (#[trigger] g[x][y]).0 <= bound
}

/// No id occurs in two of the cells that lie in a column before `x`, or in
/// column `x` before place `y`.
pub open spec fn distinct_before(g: Seq<Seq<Tile>>, w: int, h: int, x: int, y: int) -> bool {
    forall|x1: int, y1: int, x2: int, y2: int|
        0 <= x1 < w && 0 <= y1 < h && (x1 < x || (x1 == x && y1 < y)) && 0 <= x2 < w && 0 <= y2 < h
            && (x2 < x || (x2 == x && y2 < y)) && (#[trigger] g[x1][y1]).0 == (
        #[trigger] g[x2][y2]).0 ==> x1 == x2 && y1 == y2
}

/// Whether no two tiles of the grid share an id.
pub fn ids_are_distinct(field: &Array2D<Tile>) -> (r: bool)
    requires
        field.wf(),
    ensures
        r == distinct_ids(field@, field.width as int, field.height as int),
{
    let ghost g = field@;
    let ghost w = field.width as int;
    let ghost h = field.height as int;
    let mut ids = PlacedTiles::new();
    let mut x: usize = 0;
    while x < field.width
        invariant
            field.wf(),
            g == field@,
            w == field.width,
            h == field.height,
            x <= w,
            distinct_before(g, w, h, x as int, 0),
            forall|id: u32| ids@.contains_key(id) == seen(g, w, h, x as int, 0, id),
        decreases w - x,
    {
        let mut y: usize = 0;
        while y < field.height
            invariant
                field.wf(),
                g == field@,
                w == field.width,
                h == field.height,
                x < w,
                y <= h,
                distinct_before(g, w, h, x as int, y as int),
                forall|id: u32| ids@.contains_key(id) == seen(g, w, h, x as int, y as int, id),
            decreases h - y,
        {
            let pos = Int2 { x, y };
            let tile = *field.get(pos);
            proof {
                lemma_seen_step(g, w, h, x as int, y as int);
            }
            if ids.contains_key(tile.0) {
                proof {
                    let (cx, cy) = choose|cx: int, cy: int|
                        0 <= cx < w && 0 <= cy < h && (cx < x || (cx == x && cy < y)) && (
                        #[trigger] g[cx][cy]).0 == tile.0;
                    assert(g[cx][cy].0 == g[x as int][y as int].0);
                }
                return false;
            }
            ids.insert(tile.0, pos, tile.1);
            proof {
                assert forall|x1: int, y1: int, x2: int, y2: int|
                    0 <= x1 < w && 0 <= y1 < h && (x1 < x || (x1 == x && y1 < y + 1)) && 0 <= x2 < w
                        && 0 <= y2 < h && (x2 < x || (x2 == x && y2 < y + 1)) && (
                    #[trigger] g[x1][y1]).0 == (#[trigger] g[x2][y2]).0 implies x1 == x2 && y1
                    == y2 by {
                    if x1 == x && y1 == y && !(x2 == x && y2 == y) {
                        assert(seen(g, w, h, x as int, y as int, tile.0));
                    }
                    if x2 == x && y2 == y && !(x1 == x && y1 == y) {
                        assert(seen(g, w, h, x as int, y as int, tile.0));
                    }
                }
            }
            y += 1;
        }
        proof {
            lemma_seen_next_column(g, w, h, x as int);
        }
        x += 1;
    }
    true
}

/// The field of letter tiles. Every tile keeps its id for as long as it is
/// on the field, and no id is handed out twice.
#[derive(Debug, Clone, PartialEq, Eq)]
pub struct Letterfield {
    id_count: u32,
    field: Array2D<Tile>,
}

impl View for Letterfield {
    type V = Seq<Seq<Tile>>;

    /// The tiles, column by column.
    closed spec fn view(&self) -> Seq<Seq<Tile>> {
        self.field@
    }
}

impl Letterfield {
    /// The number of columns.
    pub closed spec fn spec_width(&self) -> usize {
        self.field.width
    }

    /// The number of tiles in a column.
    pub closed spec fn spec_height(&self) -> usize {
        self.field.height
    }

    /// The counter from which ids are handed out: the next new tile gets the
    /// id one above it.
    pub closed spec fn last_id(&self) -> u32 {
        self.id_count
    }

    /// The field is rectangular, no two tiles share an id, and no tile has an
    /// id above the counter.
    pub open spec fn wf(&self) -> bool {
        &&& is_rect(self@, self.spec_width() as int, self.spec_height() as int)
        &&& distinct_ids(self@, self.spec_width() as int, self.spec_height() as int)
        &&& ids_at_most(
            self@,
            self.spec_width() as int,
            self.spec_height() as int,
            self.last_id() as int,
        )
    }

    /// The grid of the tiles.
    pub fn grid(&self) -> (field: &Array2D<Tile>)
        ensures
            field@ == self@,
            field.width == self.spec_width(),
            field.height == self.spec_height(),
    {
        &self.field
    }

    /// The number of columns.
    #[verifier::when_used_as_spec(spec_width)]
    pub fn width(&self) -> (w: usize)
        ensures
            w == self.spec_width(),
    {
        self.field.width
    }

    /// The number of tiles in a column.
    #[verifier::when_used_as_spec(spec_height)]
    pub fn height(&self) -> (h: usize)
        ensures
            h == self.spec_height(),
    {
        self.field.height
    }

    /// The number of columns and the number of tiles in a column.
    pub fn dimensions(&self) -> (d: (usize, usize))
        ensures
            d == (self.spec_width(), self.spec_height()),
    {
        (self.field.width, self.field.height)
    }

    /// There are ids left to replace every tile of the field once.
    pub open spec fn spec_can_refill(&self) -> bool {
        self.last_id() + self.spec_width() * self.spec_height() <= u32::MAX
    }

    /// Whether there are ids left to replace every tile of the field once,
    /// which a resolve pass asks for.
    #[verifier::when_used_as_spec(spec_can_refill)]
    pub fn can_refill(&self) -> (enough: bool)
        ensures
            enough == self.spec_can_refill(),
    {
        let w = self.field.width as u128;
        let h = self.field.height as u128;
        assert(w * h <= 0xffff_ffff_ffff_ffff * 0xffff_ffff_ffff_ffff) by (nonlinear_arith)
            requires
                0 <= w <= 0xffff_ffff_ffff_ffff,
                0 <= h <= 0xffff_ffff_ffff_ffff,
        ;
        w * h + (self.id_count as u128) <= u32::MAX as u128
    }

    /// Hands out the next id.
    pub(crate) fn next_id(&mut self) -> (id: u32)
        requires
            old(self).last_id() < u32::MAX,
        ensures
            id == old(self).last_id() + 1,
            final(self).last_id() == id,
            final(self)@ == old(self)@,
            final(self).spec_width() == old(self).spec_width(),
            final(self).spec_height() == old(self).spec_height(),
    {
        self.id_count += 1;
        self.id_count
    }

    /// Puts `field` in the place of the grid.
    pub(crate) fn put_grid(&mut self, field: Array2D<Tile>)
        requires
            field.wf(),
            field.width == old(self).spec_width(),
            field.height == old(self).spec_height(),
            distinct_ids(field@, field.width as int, field.height as int),
            ids_at_most(field@, field.width as int, field.height as int, old(self).last_id() as int),
        ensures
            final(self).wf(),
            final(self)@ == field@,
            final(self).spec_width() == old(self).spec_width(),
            final(self).spec_height() == old(self).spec_height(),
            final(self).last_id() == old(self).last_id(),
    {
        self.field = field;
    }

    /// The field that holds the tiles of `field`, which must not share ids.
    /// The counter of ids starts at the highest id on the field, or at 0 for
    /// a field without tiles.
    pub fn new(field: Array2D<Tile>) -> (r: Letterfield)
        requires
            field.wf(),
            distinct_ids(field@, field.width as int, field.height as int),
        ensures
            r.wf(),
            r@ == field@,
            r.spec_width() == field.width,
            r.spec_height() == field.height,
            r.last_id() == 0 || holds_id(
                field@,
                field.width as int,
                field.height as int,
                r.last_id(),
            ),
    {
        let ghost g = field@;
        let ghost w = field.width as int;
        let ghost h = field.height as int;
        let mut highest: u32 = 0;
        let mut x: usize = 0;
        while x < field.width
            invariant
                field.wf(),
                g == field@,
                w == field.width,
                h == field.height,
                x <= w,
                highest == 0 || holds_id(g, w, h, highest),
                forall|cx: int, cy: int|
                    0 <= cx < x && 0 <= cy < h ==> (#[trigger] g[cx][cy]).0 <= highest,
            decreases w - x,
        {
            let mut y: usize = 0;
            while y < field.height
                invariant
                    field.wf(),
                    g == field@,
                    w == field.width,
                    h == field.height,
                    x < w,
                    y <= h,
                    highest == 0 || holds_id(g, w, h, highest),
                    forall|cx: int, cy: int|
                        0 <= cx < x && 0 <= cy < h ==> (#[trigger] g[cx][cy]).0 <= highest,
                    forall|cy: int| 0 <= cy < y ==> (#[trigger] g[x as int][cy]).0 <= highest,
                decreases h - y,
            {
                let id = field.get(Int2 { x, y }).0;
                if id > highest {
                    highest = id;
                }
                y += 1;
            }
            x += 1;
        }
        Letterfield { id_count: highest, field }
    }

    /// The field that holds the tiles of `field`, where `field` is
    /// rectangular and no two of its tiles share an id; `None` where it is
    /// not so.
    pub fn try_new(field: Array2D<Tile>) -> (r: Option<Letterfield>)
        ensures
            r is Some <==> field.wf() && distinct_ids(
                field@,
                field.width as int,
                field.height as int,
            ),
            r matches Some(made) ==> {
                &&& made.wf()
                &&& made@ == field@
                &&& made.spec_width() == field.width
                &&& made.spec_height() == field.height
                &&& made.last_id() == 0 || holds_id(
                    field@,
                    field.width as int,
                    field.height as int,
                    made.last_id(),
                )
            },
    {
        if !field.is_rectangular() {
            return None;
        }
        if !ids_are_distinct(&field) {
            return None;
        }
        Some(Letterfield::new(field))
    }

    /// Every tile with its cell, column after column and within a column by
    /// growing `y`.
    pub fn iter(&self) -> (r: Vec<(Int2, Tile)>)
        requires
            self.wf(),
        ensures
            r@.len() == self.spec_width() * self.spec_height(),
            forall|x: int, y: int|
                0 <= x < self.spec_width() && 0 <= y < self.spec_height() ==> r@[#[trigger] cell_index(
                    self.spec_height() as int,
                    x,
                    y,
                )] == (Int2 { x: x as usize, y: y as usize }, self@[x][y]),
    {
        self.field.iter()
    }

    /// A field of `width` columns and `height` rows with letters drawn at
    /// random from the statistics of `corpus`. The tiles get the ids from 0
    /// on, column after column.
    pub fn random(width: usize, height: usize, corpus: &Corpus) -> (r: Letterfield)
        requires
            corpus.wf(),
            corpus.spec_has_letters(),
            width * height <= u32::MAX,
        ensures
            r.wf(),
            r.spec_width() == width,
            r.spec_height() == height,
            r.last_id() == width * height,
            forall|x: int, y: int|
                0 <= x < width && 0 <= y < height ==> {
                    &&& (#[trigger] r@[x][y]).0 == cell_index(height as int, x, y)
                    &&& corpus.has_letter(r@[x][y].1)
                },
    {
        let ghost w = width as int;
        let ghost h = height as int;
        let mut id_count: u32 = 0;
        let mut cols: Vec<Vec<Tile>> = Vec::new();
        let mut x: usize = 0;
        while x < width
            invariant
                corpus.wf(),
                corpus.spec_has_letters(),
                w == width,
                h == height,
                w * h <= u32::MAX,
                x <= w,
                id_count == cell_index(h, x as int, 0),
                cols@.len() == x,
                forall|i: int| 0 <= i < x ==> (#[trigger] cols@[i])@.len() == h,
                forall|i: int, j: int|
                    0 <= i < x && 0 <= j < h ==> {
                        &&& (#[trigger] cols@[i]@[j]).0 == cell_index(h, i, j)
                        &&& corpus.has_letter(cols@[i]@[j].1)
                    },
            decreases w - x,
        {
            let mut col: Vec<Tile> = Vec::new();
            let mut y: usize = 0;
            while y < height
                invariant
                    corpus.wf(),
                    corpus.spec_has_letters(),
                    w == width,
                    h == height,
                    w * h <= u32::MAX,
                    x < w,
                    y <= h,
                    id_count == cell_index(h, x as int, y as int),
                    col@.len() == y,
                    forall|j: int|
                        0 <= j < y ==> {
                            &&& (#[trigger] col@[j]).0 == cell_index(h, x as int, j)
                            &&& corpus.has_letter(col@[j].1)
                        },
                decreases h - y,
            {
                proof {
                    lemma_cell_index_bound(h, x as int, y as int, w);
                }
                let c = corpus.random_char();
                col.push((id_count, c));
                id_count += 1;
                y += 1;
            }
            proof {
                assert(cell_index(h, x + 1, 0) == cell_index(h, x as int, h)) by (nonlinear_arith);
            }
            cols.push(col);
            x += 1;
        }
        let field = Array2D { width, height, cols };
        proof {
            let g = field@;
            assert forall|i: int| 0 <= i < w implies (#[trigger] g[i]).len() == h by {}
            assert forall|i: int, j: int| 0 <= i < w && 0 <= j < h implies (#[trigger] g[i][j]).0
                == cell_index(h, i, j) && corpus.has_letter(g[i][j].1) by {}
            assert forall|x1: int, y1: int, x2: int, y2: int|
                0 <= x1 < w && 0 <= y1 < h && 0 <= x2 < w && 0 <= y2 < h && (#[trigger] g[x1][y1]).0
                    == (#[trigger] g[x2][y2]).0 implies x1 == x2 && y1 == y2 by {
                if x1 < x2 {
                    lemma_cell_index_bound(h, x1, y1, x2);
                } else if x2 < x1 {
                    lemma_cell_index_bound(h, x2, y2, x1);
                }
            }
            assert forall|i: int, j: int| 0 <= i < w && 0 <= j < h implies (#[trigger] g[i][j]).0
                <= id_count by {
                lemma_cell_index_bound(h, i, j, w);
            }
        }
        Letterfield { id_count, field }
    }
}

/// A line after its element at `from` was taken out and put back in at
/// `to`: the elements between the two places shift by one towards `from`.
pub open spec fn moved_line<T>(line: Seq<T>, from: int, to: int) -> Seq<T> {
    line.remove(from).insert(to, line[from])
}

/// The place in the line before the move of the element that is at place `k`
/// after it.
pub open spec fn moved_from(from: int, to: int, k: int) -> int {
    if k == to {
        from
    } else if from <= k < to {
        k + 1
    } else if to < k <= from {
        k - 1
    } else {
        k
    }
}

/// The field after the tile at `from` was moved to `to` within its column or
/// its row. Where the two cells share both coordinates nothing changes.
pub open spec fn moved_grid(g: Seq<Seq<Tile>>, w: int, from: Int2, to: Int2) -> Seq<Seq<Tile>> {
    if from.x == to.x {
        g.update(from.x as int, moved_line(g[from.x as int], from.y as int, to.y as int))
    } else {
        Seq::new(
            w as nat,
            |x: int|
                g[x].update(
                    from.y as int,
                    moved_line(row_of(g, w, from.y as int), from.x as int, to.x as int)[x],
                ),
        )
    }
}

/// A move keeps the length of the line and rearranges its elements: the
/// element at place `k` afterwards is the one that was at `moved_from(k)`,
/// and no two places take their element from the same place.
pub proof fn lemma_moved_line<T>(line: Seq<T>, from: int, to: int)
    requires
        0 <= from < line.len(),
        0 <= to < line.len(),
    ensures
        moved_line(line, from, to).len() == line.len(),
        forall|k: int|
            0 <= k < line.len() ==> {
                &&& 0 <= moved_from(from, to, k) < line.len()
                &&& #[trigger] moved_line(line, from, to)[k] == line[moved_from(from, to, k)]
            },
        forall|k1: int, k2: int|
            0 <= k1 < line.len() && 0 <= k2 < line.len() && k1 != k2 ==> moved_from(from, to, k1)
                != moved_from(from, to, k2),
        from == to ==> moved_line(line, from, to) == line,
{
}

/// A move within a column or a row keeps the field rectangular, keeps every
/// tile and so keeps the ids apart and below the counter.
pub proof fn lemma_moved_grid_wf(g: Seq<Seq<Tile>>, w: int, h: int, from: Int2, to: Int2, bound: int)
    requires
        is_rect(g, w, h),
        distinct_ids(g, w, h),
        ids_at_most(g, w, h, bound),
        from.x < w,
        to.x < w,
        from.y < h,
        to.y < h,
        from.x == to.x || from.y == to.y,
    ensures
        is_rect(moved_grid(g, w, from, to), w, h),
        distinct_ids(moved_grid(g, w, from, to), w, h),
        ids_at_most(moved_grid(g, w, from, to), w, h, bound),
        from == to ==> moved_grid(g, w, from, to) == g,
{
    let m = moved_grid(g, w, from, to);
    if from.x == to.x {
        let x0 = from.x as int;
        lemma_moved_line(g[x0], from.y as int, to.y as int);
        assert forall|x: int| 0 <= x < w implies (#[trigger] m[x]).len() == h by {}
        assert forall|x: int, y: int| 0 <= x < w && 0 <= y < h implies #[trigger] m[x][y] == g[x][if x
            == x0 {
            moved_from(from.y as int, to.y as int, y)
        } else {
            y
        }] by {}
        assert forall|x1: int, y1: int, x2: int, y2: int|
            0 <= x1 < w && 0 <= y1 < h && 0 <= x2 < w && 0 <= y2 < h && (#[trigger] m[x1][y1]).0
                == (#[trigger] m[x2][y2]).0 implies x1 == x2 && y1 == y2 by {}
    } else {
        let y0 = from.y as int;
        let row = row_of(g, w, y0);
        lemma_moved_line(row, from.x as int, to.x as int);
        assert forall|x: int| 0 <= x < w implies (#[trigger] m[x]).len() == h by {}
        assert forall|x: int, y: int| 0 <= x < w && 0 <= y < h implies #[trigger] m[x][y] == g[if y
            == y0 {
            moved_from(from.x as int, to.x as int, x)
        } else {
            x
        }][y] by {}
        assert forall|x1: int, y1: int, x2: int, y2: int|
            0 <= x1 < w && 0 <= y1 < h && 0 <= x2 < w && 0 <= y2 < h && (#[trigger] m[x1][y1]).0
                == (#[trigger] m[x2][y2]).0 implies x1 == x2 && y1 == y2 by {}
        assert forall|x: int, y: int| 0 <= x < w && 0 <= y < h implies (#[trigger] m[x][y]).0
            <= bound by {}
    }
}

impl Letterfield {
    /// Moves the tile at `old_pos` to `new_pos`, which lies in the same
    /// column or in the same row: the tiles between the two cells, and the
    /// one at `new_pos`, shift by one cell towards `old_pos`. Every tile
    /// keeps its id; with `old_pos == new_pos` nothing changes.
    pub fn move_letter(&mut self, old_pos: Int2, new_pos: Int2)
        requires
            old(self).wf(),
            old_pos.x == new_pos.x || old_pos.y == new_pos.y,
            old_pos.x < old(self).spec_width(),
            new_pos.x < old(self).spec_width(),
            old_pos.y < old(self).spec_height(),
            new_pos.y < old(self).spec_height(),
        ensures
            final(self).wf(),
            final(self).spec_width() == old(self).spec_width(),
            final(self).spec_height() == old(self).spec_height(),
            final(self).last_id() == old(self).last_id(),
            final(self)@ == moved_grid(old(self)@, old(self).spec_width() as int, old_pos, new_pos),
            old_pos == new_pos ==> final(self)@ == old(self)@,
    {
        let ghost g = self@;
        let ghost w = self.spec_width() as int;
        let ghost h = self.spec_height() as int;
        proof {
            lemma_moved_grid_wf(g, w, h, old_pos, new_pos, self.last_id() as int);
        }
        if old_pos.x == new_pos.x {
            let tile = self.field.cols[old_pos.x].remove(old_pos.y);
            self.field.cols[old_pos.x].insert(new_pos.y, tile);
            assert(self@ =~= moved_grid(g, w, old_pos, new_pos));
        } else {
            let y = old_pos.y;
            let ghost row = row_of(g, w, y as int);
            let ghost want = moved_line(row, old_pos.x as int, new_pos.x as int);
            proof {
                lemma_moved_line(row, old_pos.x as int, new_pos.x as int);
            }
            let tile = *self.field.get(old_pos);
            let mut x = old_pos.x;
            while x != new_pos.x
                invariant
                    self.field.wf(),
                    self.spec_width() == w,
                    self.spec_height() == h,
                    self.last_id() == old(self).last_id(),
                    is_rect(g, w, h),
                    y == old_pos.y,
                    y < h,
                    old_pos.x < w,
                    new_pos.x < w,
                    row == row_of(g, w, y as int),
                    want == moved_line(row, old_pos.x as int, new_pos.x as int),
                    old_pos.x <= x <= new_pos.x || new_pos.x <= x <= old_pos.x,
                    forall|cx: int, cy: int|
                        0 <= cx < w && 0 <= cy < h && cy != y ==> #[trigger] self@[cx][cy] == g[cx][cy],
                    forall|cx: int|
                        0 <= cx < w && cx != x ==> #[trigger] self@[cx][y as int] == (if old_pos.x <= cx
                            < x || x < cx <= old_pos.x {
                            want[cx]
                        } else {
                            g[cx][y as int]
                        }),
                decreases
                        if x <= new_pos.x {
                            new_pos.x - x
                        } else {
                            x - new_pos.x
                        },
            {
                let next = if x < new_pos.x {
                    x + 1
                } else {
                    x - 1
                };
                let shifted = *self.field.get(Int2 { x: next, y });
                let ghost held = self@;
                self.field.set(Int2 { x, y }, shifted);
                proof {
                    assert(self@ == held.update(x as int, held[x as int].update(y as int, shifted)));
                    assert(want[x as int] == row[moved_from(
                        old_pos.x as int,
                        new_pos.x as int,
                        x as int,
                    )]);
                    assert forall|cx: int, cy: int|
                        0 <= cx < w && 0 <= cy < h && cy != y implies #[trigger] self@[cx][cy]
                        == g[cx][cy] by {}
                    assert forall|cx: int| 0 <= cx < w && cx != next implies #[trigger] self@[cx][y as int]
                        == (if old_pos.x <= cx < next || next < cx <= old_pos.x {
                        want[cx]
                    } else {
                        g[cx][y as int]
                    }) by {}
                }
                x = next;
            }
            let ghost held = self@;
            self.field.set(new_pos, tile);
            proof {
                assert(self@ == held.update(
                    new_pos.x as int,
                    held[new_pos.x as int].update(y as int, tile),
                ));
                let m = moved_grid(g, w, old_pos, new_pos);
                assert forall|cx: int| 0 <= cx < w implies #[trigger] self@[cx] =~= m[cx] by {
                    assert forall|cy: int| 0 <= cy < h implies self@[cx][cy] == m[cx][cy] by {}
                }
            }
        }
    }
}

/// What one resolve pass did: the matches that it found and cleared, and how
/// the tiles on the field differ from before, by id.
#[derive(Debug)]
pub struct LetterfieldResolve {
    /// The matches that were on the field.
    pub matches: Vec<WordMatch>,
    /// The tiles that came new onto the field, each with its cell.
    pub new_letters: PlacedTiles,
    /// The tiles that left the field, each with the cell it was in.
    pub old_letters: PlacedTiles,
    /// The tiles that stayed and slid: from, to, letter.
    pub moving_letters: MovedTiles,
}

impl LetterfieldResolve {
    /// Where the pass found no match, no tile came, left or moved.
    pub open spec fn wf(&self) -> bool {
        self.matches@.len() == 0 ==> {
            &&& self.new_letters@ == Map::<u32, (Int2, char)>::empty()
            &&& self.old_letters@ == Map::<u32, (Int2, char)>::empty()
            &&& self.moving_letters@ == Map::<u32, (Int2, Int2, char)>::empty()
        }
    }

    /// Whether the pass found no match, and so left the field as it was.
    pub fn is_empty(&self) -> (empty: bool)
        requires
            self.wf(),
        ensures
            empty == (self.matches@.len() == 0),
            empty ==> self.new_letters@ == Map::<u32, (Int2, char)>::empty(),
            empty ==> self.old_letters@ == Map::<u32, (Int2, char)>::empty(),
            empty ==> self.moving_letters@ == Map::<u32, (Int2, Int2, char)>::empty(),
    {
        self.matches.is_empty()
    }
}

} // verus!
