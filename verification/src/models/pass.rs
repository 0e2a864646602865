//! The resolve pass as it runs: marking the cells to clear, sliding the
//! tiles of the columns, filling the gaps, and telling which tiles came,
//! went and moved.

use vstd::prelude::*;
use crate::models::array2d::{cell_index, columns_view, is_rect, Array2D, Int2};
use crate::models::corpus::Corpus;
use crate::models::letterfield::{
    distinct_ids,
    matches_view,
    Letterfield,
    LetterfieldResolve,
    MatchView,
    Tile,
    WordMatch,
};
use crate::models::matches::{
    field_matches,
    has_room_for_match,
    lemma_matches_on_grid,
    lemma_small_field_has_no_match,
    matches_on_grid,
    tile_on_grid,
};
use crate::models::resolve::{
    cleared,
    cleared_before,
    cleared_in,
    covered,
    fresh_tile,
    holds_id,
    lemma_cleared_before_bound,
    lemma_cleared_before_grows,
    lemma_cleared_counts,
    lemma_resolved_nothing,
    lemma_cleared_in_prefix,
    lemma_resolved_cell,
    lemma_resolved_changes,
    lemma_resolved_wf,
    lemma_survivors_len,
    lemma_tile_map_cell,
    moved_tiles,
    new_tiles,
    old_tiles,
    resolved_grid,
    survivors,
    tile_map,
};
use crate::models::tile_maps::{MovedTiles, PlacedTiles};

verus! {

/// One of the first `n` matches, or one of the first `m` tiles of match `n`,
/// lies in the cell `pos`.
pub open spec fn covered_so_far(matches: Seq<MatchView>, n: int, m: int, pos: Int2) -> bool {
    exists|i: int, j: int|
        0 <= i < matches.len() && 0 <= j < matches[i].tiles.len() && (i < n || (i == n && j < m))
            && (#[trigger] matches[i].tiles[j]).2 == pos
}

/// Marks the cells that a match covers.
fn cleared_mask(matches: &Vec<WordMatch>, width: usize, height: usize) -> (gone: Vec<Vec<bool>>)
    requires
        forall|i: int, j: int|
            0 <= i < matches@.len() && 0 <= j < matches@[i].tiles@.len() ==> {
                let t = #[trigger] matches@[i].tiles@[j];
                t.2.x < width && t.2.y < height
            },
    ensures
        columns_view(gone) == cleared(matches_view(matches@), width as int, height as int),
{
    let ghost mv = matches_view(matches@);
    let mut gone: Vec<Vec<bool>> = Vec::new();
    let mut x: usize = 0;
    while x < width
        invariant
            x <= width,
            gone@.len() == x,
            forall|i: int| 0 <= i < x ==> (#[trigger] gone@[i])@.len() == height,
            forall|i: int, j: int| 0 <= i < x && 0 <= j < height ==> !(#[trigger] gone@[i]@[j]),
        decreases width - x,
    {
        let mut column: Vec<bool> = Vec::new();
        let mut y: usize = 0;
        while y < height
            invariant
                y <= height,
                column@.len() == y,
                forall|j: int| 0 <= j < y ==> !(#[trigger] column@[j]),
            decreases height - y,
        {
            column.push(false);
            y += 1;
        }
        gone.push(column);
        x += 1;
    }
    let mut i: usize = 0;
    while i < matches.len()
        invariant
            mv == matches_view(matches@),
            i <= matches@.len(),
            gone@.len() == width,
            forall|x: int| 0 <= x < width ==> (#[trigger] gone@[x])@.len() == height,
            forall|i: int, j: int|
                0 <= i < matches@.len() && 0 <= j < matches@[i].tiles@.len() ==> {
                    let t = #[trigger] matches@[i].tiles@[j];
                    t.2.x < width && t.2.y < height
                },
            forall|x: int, y: int|
                0 <= x < width && 0 <= y < height ==> (#[trigger] gone@[x]@[y]) == covered_so_far(
                    mv,
                    i as int,
                    0,
                    Int2 { x: x as usize, y: y as usize },
                ),
        decreases matches@.len() - i,
    {
        let tiles = &matches[i].tiles;
        let mut j: usize = 0;
        while j < tiles.len()
            invariant
                mv == matches_view(matches@),
                i < matches@.len(),
                tiles@ == matches@[i as int].tiles@,
                j <= tiles@.len(),
                gone@.len() == width,
                forall|x: int| 0 <= x < width ==> (#[trigger] gone@[x])@.len() == height,
                forall|i: int, j: int|
                    0 <= i < matches@.len() && 0 <= j < matches@[i].tiles@.len() ==> {
                        let t = #[trigger] matches@[i].tiles@[j];
                        t.2.x < width && t.2.y < height
                    },
                forall|x: int, y: int|
                    0 <= x < width && 0 <= y < height ==> (#[trigger] gone@[x]@[y])
                        == covered_so_far(
                        mv,
                        i as int,
                        j as int,
                        Int2 { x: x as usize, y: y as usize },
                    ),
            decreases tiles@.len() - j,
        {
            let pos = tiles[j].2;
            gone[pos.x][pos.y] = true;
            proof {
                assert(mv[i as int].tiles[j as int].2 == pos);
                assert forall|x: int, y: int| 0 <= x < width && 0 <= y < height implies (
                #[trigger] gone@[x]@[y]) == covered_so_far(
                    mv,
                    i as int,
                    j + 1,
                    Int2 { x: x as usize, y: y as usize },
                ) by {
                    let p = Int2 { x: x as usize, y: y as usize };
                    if !(p == pos) {
                        assert(covered_so_far(mv, i as int, j + 1, p) == covered_so_far(
                            mv,
                            i as int,
                            j as int,
                            p,
                        ));
                    }
                }
            }
            j += 1;
        }
        proof {
            assert forall|x: int, y: int| 0 <= x < width && 0 <= y < height implies (
            #[trigger] gone@[x]@[y]) == covered_so_far(
                mv,
                i + 1,
                0,
                Int2 { x: x as usize, y: y as usize },
            ) by {
                let p = Int2 { x: x as usize, y: y as usize };
                assert(covered_so_far(mv, i + 1, 0, p) == covered_so_far(
                    mv,
                    i as int,
                    tiles@.len() as int,
                    p,
                ));
            }
        }
        i += 1;
    }
    proof {
        let want = cleared(mv, width as int, height as int);
        assert forall|x: int| 0 <= x < width implies #[trigger] columns_view(gone)[x] =~= want[x] by {
            assert forall|y: int| 0 <= y < height implies columns_view(gone)[x][y] == want[x][y] by {}
        }
    }
    gone
}

/// How many cells are marked.
fn count_cleared(gone: &Vec<Vec<bool>>, Ghost(w): Ghost<int>, Ghost(h): Ghost<int>) -> (n: usize)
    requires
        is_rect(columns_view(*gone), w, h),
        cleared_before(columns_view(*gone), w) <= u32::MAX,
    ensures
        n == cleared_before(columns_view(*gone), w),
{
    let ghost gm = columns_view(*gone);
    let mut n: usize = 0;
    let mut x: usize = 0;
    while x < gone.len()
        invariant
            gm == columns_view(*gone),
            is_rect(gm, w, h),
            cleared_before(gm, w) <= u32::MAX,
            x <= w,
            n == cleared_before(gm, x as int),
        decreases w - x,
    {
        let column = &gone[x];
        let ghost marks = gm[x as int];
        let mut y: usize = 0;
        let ghost start = n;
        proof {
            lemma_cleared_before_grows(gm, x + 1, w);
        }
        while y < column.len()
            invariant
                column@ == marks,
                marks.len() == h,
                y <= h,
                start + cleared_in(marks) <= u32::MAX,
                n == start + cleared_in(marks.take(y as int)),
            decreases h - y,
        {
            proof {
                assert(marks.take(y + 1).drop_last() =~= marks.take(y as int));
                lemma_cleared_in_prefix(marks, y + 1);
            }
            if column[y] {
                n += 1;
            }
            y += 1;
        }
        proof {
            assert(marks.take(h) =~= marks);
        }
        x += 1;
    }
    n
}

/// A tile with the id `id` lies in a column before `x`, or in column `x`
/// before place `y`.
pub open spec fn seen(g: Seq<Seq<Tile>>, w: int, h: int, x: int, y: int, id: u32) -> bool {
    exists|cx: int, cy: int|
        0 <= cx < w && 0 <= cy < h && (cx < x || (cx == x && cy < y)) && (#[trigger] g[cx][cy]).0
            == id
}

/// Going one cell on adds the id of that cell to the ids seen.
pub proof fn lemma_seen_step(g: Seq<Seq<Tile>>, w: int, h: int, x: int, y: int)
    requires
        0 <= x < w,
        0 <= y < h,
    ensures
        forall|id: u32|
            #[trigger] seen(g, w, h, x, y + 1, id) == (seen(g, w, h, x, y, id) || id == g[x][y].0),
{
    assert forall|id: u32|
        #[trigger] seen(g, w, h, x, y + 1, id) == (seen(g, w, h, x, y, id) || id
            == g[x][y].0) by {
        if seen(g, w, h, x, y, id) {
            let (cx, cy) = choose|cx: int, cy: int|
                0 <= cx < w && 0 <= cy < h && (cx < x || (cx == x && cy < y)) && (
                #[trigger] g[cx][cy]).0 == id;
            assert(0 <= cx < w && 0 <= cy < h && (cx < x || (cx == x && cy < y + 1))
                && g[cx][cy].0 == id);
        }
    }
}

/// At the end of a column the ids seen are those seen at the start of the
/// next.
pub proof fn lemma_seen_next_column(g: Seq<Seq<Tile>>, w: int, h: int, x: int)
    requires
        0 <= x < w,
        0 <= h,
    ensures
        forall|id: u32| #[trigger] seen(g, w, h, x + 1, 0, id) == seen(g, w, h, x, h, id),
{
    assert forall|id: u32| #[trigger] seen(g, w, h, x + 1, 0, id) == seen(g, w, h, x, h, id) by {
        if seen(g, w, h, x + 1, 0, id) {
            let (cx, cy) = choose|cx: int, cy: int|
                0 <= cx < w && 0 <= cy < h && (cx < x + 1 || (cx == x + 1 && cy < 0)) && (
                #[trigger] g[cx][cy]).0 == id;
            assert(0 <= cx < w && 0 <= cy < h && (cx < x || (cx == x && cy < h)) && g[cx][cy].0
                == id);
        }
        if seen(g, w, h, x, h, id) {
            let (cx, cy) = choose|cx: int, cy: int|
                0 <= cx < w && 0 <= cy < h && (cx < x || (cx == x && cy < h)) && (
                #[trigger] g[cx][cy]).0 == id;
            assert(0 <= cx < w && 0 <= cy < h && (cx < x + 1 || (cx == x + 1 && cy < 0))
                && g[cx][cy].0 == id);
        }
    }
}

/// Behind the last column every id of the field has been seen.
proof fn lemma_seen_all(g: Seq<Seq<Tile>>, w: int, h: int)
    requires
        0 <= w,
    ensures
        forall|id: u32| #[trigger] seen(g, w, h, w, 0, id) == holds_id(g, w, h, id),
{
    assert forall|id: u32| #[trigger] seen(g, w, h, w, 0, id) == holds_id(g, w, h, id) by {
        if holds_id(g, w, h, id) {
            let (cx, cy) = choose|cx: int, cy: int|
                0 <= cx < w && 0 <= cy < h && (#[trigger] g[cx][cy]).0 == id;
            assert(0 <= cx < w && 0 <= cy < h && (cx < w || (cx == w && cy < 0)) && g[cx][cy].0
                == id);
        }
    }
}

/// The tiles of a field by id.
fn snapshot(field: &Array2D<Tile>) -> (tiles: PlacedTiles)
    requires
        field.wf(),
        distinct_ids(field@, field.width as int, field.height as int),
    ensures
        tiles@ == tile_map(field@, field.width as int, field.height as int),
{
    let ghost g = field@;
    let ghost w = field.width as int;
    let ghost h = field.height as int;
    let ghost all = tile_map(g, w, h);
    let mut tiles = PlacedTiles::new();
    let mut x: usize = 0;
    while x < field.width
        invariant
            field.wf(),
            g == field@,
            w == field.width,
            h == field.height,
            all == tile_map(g, w, h),
            distinct_ids(g, w, h),
            x <= w,
            tiles@ == Map::new(|id: u32| seen(g, w, h, x as int, 0, id), |id: u32| all[id]),
        decreases w - x,
    {
        let mut y: usize = 0;
        while y < field.height
            invariant
                field.wf(),
                g == field@,
                w == field.width,
                h == field.height,
                all == tile_map(g, w, h),
                distinct_ids(g, w, h),
                x < w,
                y <= h,
                tiles@ == Map::new(|id: u32| seen(g, w, h, x as int, y as int, id), |id: u32| all[id]),
            decreases h - y,
        {
            let pos = Int2 { x, y };
            let tile = *field.get(pos);
            tiles.insert(tile.0, pos, tile.1);
            proof {
                lemma_seen_step(g, w, h, x as int, y as int);
                lemma_tile_map_cell(g, w, h, x as int, y as int);
                assert(tiles@ =~= Map::new(
                    |id: u32| seen(g, w, h, x as int, y + 1, id),
                    |id: u32| all[id],
                ));
            }
            y += 1;
        }
        proof {
            lemma_seen_next_column(g, w, h, x as int);
        }
        x += 1;
    }
    proof {
        lemma_seen_all(g, w, h);
    }
    tiles
}

/// The tiles of `before` that `after` does not have, and those that it has
/// in another cell.
fn gone_and_moved(before: &Array2D<Tile>, after: &PlacedTiles) -> (r: (PlacedTiles, MovedTiles))
    requires
        before.wf(),
        distinct_ids(before@, before.width as int, before.height as int),
    ensures
        r.0@ == old_tiles(tile_map(before@, before.width as int, before.height as int), after@),
        r.1@ == moved_tiles(tile_map(before@, before.width as int, before.height as int), after@),
{
    let ghost g = before@;
    let ghost w = before.width as int;
    let ghost h = before.height as int;
    let ghost was = tile_map(g, w, h);
    let ghost now = after@;
    let mut old_letters = PlacedTiles::new();
    let mut moving_letters = MovedTiles::new();
    proof {
        assert(old_letters@ =~= Map::new(
            |id: u32| seen(g, w, h, 0, 0, id) && old_tiles(was, now).contains_key(id),
            |id: u32| was[id],
        ));
        assert(moving_letters@ =~= Map::new(
            |id: u32| seen(g, w, h, 0, 0, id) && moved_tiles(was, now).contains_key(id),
            |id: u32| (was[id].0, now[id].0, was[id].1),
        ));
    }
    let mut x: usize = 0;
    while x < before.width
        invariant
            before.wf(),
            g == before@,
            w == before.width,
            h == before.height,
            was == tile_map(g, w, h),
            now == after@,
            distinct_ids(g, w, h),
            x <= w,
            old_letters@ == Map::new(
                |id: u32| seen(g, w, h, x as int, 0, id) && old_tiles(was, now).contains_key(id),
                |id: u32| was[id],
            ),
            moving_letters@ == Map::new(
                |id: u32| seen(g, w, h, x as int, 0, id) && moved_tiles(was, now).contains_key(id),
                |id: u32| (was[id].0, now[id].0, was[id].1),
            ),
        decreases w - x,
    {
        let mut y: usize = 0;
        while y < before.height
            invariant
                before.wf(),
                g == before@,
                w == before.width,
                h == before.height,
                was == tile_map(g, w, h),
                now == after@,
                distinct_ids(g, w, h),
                x < w,
                y <= h,
                old_letters@ == Map::new(
                    |id: u32|
                        seen(g, w, h, x as int, y as int, id) && old_tiles(was, now).contains_key(
                            id,
                        ),
                    |id: u32| was[id],
                ),
                moving_letters@ == Map::new(
                    |id: u32|
                        seen(g, w, h, x as int, y as int, id) && moved_tiles(
                            was,
                            now,
                        ).contains_key(id),
                    |id: u32| (was[id].0, now[id].0, was[id].1),
                ),
            decreases h - y,
        {
            let pos = Int2 { x, y };
            let tile = *before.get(pos);
            proof {
                lemma_seen_step(g, w, h, x as int, y as int);
                lemma_tile_map_cell(g, w, h, x as int, y as int);
            }
            match after.get(tile.0) {
                Some(entry) => {
                    if entry.0.x != pos.x || entry.0.y != pos.y {
                        moving_letters.insert(tile.0, pos, entry.0, tile.1);
                    }
                },
                None => {
                    old_letters.insert(tile.0, pos, tile.1);
                },
            }
            proof {
                assert(old_letters@ =~= Map::new(
                    |id: u32|
                        seen(g, w, h, x as int, y + 1, id) && old_tiles(was, now).contains_key(id),
                    |id: u32| was[id],
                ));
                assert(moving_letters@ =~= Map::new(
                    |id: u32|
                        seen(g, w, h, x as int, y + 1, id) && moved_tiles(was, now).contains_key(
                            id,
                        ),
                    |id: u32| (was[id].0, now[id].0, was[id].1),
                ));
            }
            y += 1;
        }
        proof {
            lemma_seen_next_column(g, w, h, x as int);
            assert(old_letters@ =~= Map::new(
                |id: u32| seen(g, w, h, x + 1, 0, id) && old_tiles(was, now).contains_key(id),
                |id: u32| was[id],
            ));
            assert(moving_letters@ =~= Map::new(
                |id: u32| seen(g, w, h, x + 1, 0, id) && moved_tiles(was, now).contains_key(id),
                |id: u32| (was[id].0, now[id].0, was[id].1),
            ));
        }
        x += 1;
    }
    proof {
        lemma_seen_all(g, w, h);
    }
    (old_letters, moving_letters)
}

/// The tiles of `after` that `before` does not have.
fn arrived(after: &Array2D<Tile>, before: &PlacedTiles) -> (new_letters: PlacedTiles)
    requires
        after.wf(),
        distinct_ids(after@, after.width as int, after.height as int),
    ensures
        new_letters@ == new_tiles(
            before@,
            tile_map(after@, after.width as int, after.height as int),
        ),
{
    let ghost g = after@;
    let ghost w = after.width as int;
    let ghost h = after.height as int;
    let ghost was = before@;
    let ghost now = tile_map(g, w, h);
    let mut new_letters = PlacedTiles::new();
    proof {
        assert(new_letters@ =~= Map::new(
            |id: u32| seen(g, w, h, 0, 0, id) && new_tiles(was, now).contains_key(id),
            |id: u32| now[id],
        ));
    }
    let mut x: usize = 0;
    while x < after.width
        invariant
            after.wf(),
            g == after@,
            w == after.width,
            h == after.height,
            now == tile_map(g, w, h),
            was == before@,
            distinct_ids(g, w, h),
            x <= w,
            new_letters@ == Map::new(
                |id: u32| seen(g, w, h, x as int, 0, id) && new_tiles(was, now).contains_key(id),
                |id: u32| now[id],
            ),
        decreases w - x,
    {
        let mut y: usize = 0;
        while y < after.height
            invariant
                after.wf(),
                g == after@,
                w == after.width,
                h == after.height,
                now == tile_map(g, w, h),
                was == before@,
                distinct_ids(g, w, h),
                x < w,
                y <= h,
                new_letters@ == Map::new(
                    |id: u32|
                        seen(g, w, h, x as int, y as int, id) && new_tiles(was, now).contains_key(
                            id,
                        ),
                    |id: u32| now[id],
                ),
            decreases h - y,
        {
            let pos = Int2 { x, y };
            let tile = *after.get(pos);
            proof {
                lemma_seen_step(g, w, h, x as int, y as int);
                lemma_tile_map_cell(g, w, h, x as int, y as int);
            }
            if !before.contains_key(tile.0) {
                new_letters.insert(tile.0, pos, tile.1);
            }
            proof {
                assert(new_letters@ =~= Map::new(
                    |id: u32|
                        seen(g, w, h, x as int, y + 1, id) && new_tiles(was, now).contains_key(id),
                    |id: u32| now[id],
                ));
            }
            y += 1;
        }
        proof {
            lemma_seen_next_column(g, w, h, x as int);
            assert(new_letters@ =~= Map::new(
                |id: u32| seen(g, w, h, x + 1, 0, id) && new_tiles(was, now).contains_key(id),
                |id: u32| now[id],
            ));
        }
        x += 1;
    }
    proof {
        lemma_seen_all(g, w, h);
    }
    new_letters
}

impl Letterfield {
    /// The tiles of the field by id: under each id the cell and the letter.
    pub open spec fn snapshot(&self) -> Map<u32, (Int2, char)> {
        tile_map(self@, self.spec_width() as int, self.spec_height() as int)
    }

    /// For each cell whether a pass clears it: whether a match for the words
    /// of `words` covers it.
    pub open spec fn cleared_cells(&self, words: Set<Seq<char>>) -> Seq<Seq<bool>> {
        cleared(self.matches(words), self.spec_width() as int, self.spec_height() as int)
    }

    /// How many cells a pass clears, and so how many new tiles it needs.
    pub open spec fn cleared_count(&self, words: Set<Seq<char>>) -> int {
        cleared_before(self.cleared_cells(words), self.spec_width() as int)
    }

    /// The field after a pass that fills the gaps with `letters`.
    pub open spec fn resolved(&self, words: Set<Seq<char>>, letters: Seq<char>) -> Seq<Seq<Tile>> {
        resolved_grid(self@, self.cleared_cells(words), self.last_id() as int, letters)
    }

    /// The columns after the pass that clears the cells marked in `gone`:
    /// in every column the tiles that stay slide together towards the high
    /// end and new tiles take the places that become free. The ids of the
    /// new tiles are handed out on the way; the field itself is not changed.
    fn compact(&mut self, gone: &Vec<Vec<bool>>, letters: &Vec<char>) -> (cols: Vec<Vec<Tile>>)
        requires
            old(self).wf(),
            is_rect(
                columns_view(*gone),
                old(self).spec_width() as int,
                old(self).spec_height() as int,
            ),
            old(self).last_id() + cleared_before(
                columns_view(*gone),
                old(self).spec_width() as int,
            ) <= u32::MAX,
            cleared_before(columns_view(*gone), old(self).spec_width() as int) <= letters@.len(),
        ensures
            final(self)@ == old(self)@,
            final(self).spec_width() == old(self).spec_width(),
            final(self).spec_height() == old(self).spec_height(),
            final(self).last_id() == old(self).last_id() + cleared_before(
                columns_view(*gone),
                old(self).spec_width() as int,
            ),
            columns_view(cols) == resolved_grid(
                old(self)@,
                columns_view(*gone),
                old(self).last_id() as int,
                letters@,
            ),
    {
        let ghost g = self@;
        let ghost gm = columns_view(*gone);
        let ghost count = self.last_id() as int;
        let ghost w = self.spec_width() as int;
        let ghost h = self.spec_height() as int;
        let ghost want = resolved_grid(g, gm, count, letters@);
        let width = self.width();
        let height = self.height();
        let available = letters.len();
        let mut cols: Vec<Vec<Tile>> = Vec::new();
        let mut used: usize = 0;
        let mut x: usize = 0;
        while x < width
            invariant
                available == letters@.len(),
                self@ == g,
                self.spec_width() == w,
                self.spec_height() == h,
                width == w,
                height == h,
                gm == columns_view(*gone),
                is_rect(g, w, h),
                is_rect(gm, w, h),
                want == resolved_grid(g, gm, count, letters@),
                count + cleared_before(gm, w) <= u32::MAX,
                cleared_before(gm, w) <= letters@.len(),
                x <= w,
                used == cleared_before(gm, x as int),
                self.last_id() == count + used,
                cols@.len() == x,
                forall|i: int| 0 <= i < x ==> (#[trigger] cols@[i])@ == want[i],
            decreases w - x,
        {
            proof {
                lemma_cleared_before_grows(gm, x as int, x + 1);
                lemma_cleared_before_grows(gm, x + 1, w);
                lemma_survivors_len(g[x as int], gm[x as int]);
            }
            let ghost column = g[x as int];
            let ghost marks = gm[x as int];
            let mut kept: Vec<Tile> = Vec::new();
            let mut y: usize = 0;
            while y < height
                invariant
                    self@ == g,
                    self.spec_width() == w,
                    self.spec_height() == h,
                    height == h,
                    gm == columns_view(*gone),
                    is_rect(g, w, h),
                    is_rect(gm, w, h),
                    x < w,
                    column == g[x as int],
                    marks == gm[x as int],
                    column.len() == h,
                    marks.len() == h,
                    y <= h,
                    kept@ == survivors(column.take(y as int), marks.take(y as int)),
                decreases h - y,
            {
                let cleared_here = gone[x][y];
                let tile = *self.grid().get(Int2 { x, y });
                if !cleared_here {
                    kept.push(tile);
                }
                proof {
                    assert(column.take(y + 1).drop_last() =~= column.take(y as int));
                    assert(marks.take(y + 1).drop_last() =~= marks.take(y as int));
                }
                y += 1;
            }
            proof {
                assert(column.take(h) =~= column);
                assert(marks.take(h) =~= marks);
            }
            let k = height - kept.len();
            let ghost base = count + used;
            let mut fresh: Vec<Tile> = Vec::new();
            let mut j: usize = 0;
            while j < k
                invariant
                    self@ == g,
                    self.spec_width() == w,
                    self.spec_height() == h,
                    base + k <= u32::MAX,
                    used + k <= letters@.len(),
                    available == letters@.len(),
                    j <= k,
                    self.last_id() == base + j,
                    fresh@.len() == j,
                    forall|t: int|
                        0 <= t < j ==> #[trigger] fresh@[t] == (
                            (base + t + 1) as u32,
                            letters@[used + t],
                        ),
                decreases k - j,
            {
                let id = self.next_id();
                fresh.push((id, letters[used + j]));
                j += 1;
            }
            let ghost drawn = letters@.subrange(used as int, used + k);
            let mut filled: Vec<Tile> = Vec::new();
            let mut y: usize = 0;
            while y < k
                invariant
                    y <= k,
                    fresh@.len() == k,
                    used + k <= letters@.len(),
                    drawn == letters@.subrange(used as int, used + k),
                    forall|t: int|
                        0 <= t < k ==> #[trigger] fresh@[t] == (
                            (base + t + 1) as u32,
                            letters@[used + t],
                        ),
                    filled@.len() == y,
                    forall|t: int|
                        0 <= t < y ==> #[trigger] filled@[t] == fresh_tile(base, k as int, drawn, t),
                decreases k - y,
            {
                filled.push(fresh[k - 1 - y]);
                y += 1;
            }
            let mut i: usize = 0;
            while i < kept.len()
                invariant
                    i <= kept@.len(),
                    filled@.len() == k + i,
                    forall|t: int|
                        0 <= t < k ==> #[trigger] filled@[t] == fresh_tile(base, k as int, drawn, t),
                    forall|t: int| k <= t < k + i ==> #[trigger] filled@[t] == kept@[t - k],
                decreases kept@.len() - i,
            {
                filled.push(kept[i]);
                i += 1;
            }
            cols.push(filled);
            used += k;
            x += 1;
        }
        cols
    }

    /// Clears the cells marked in `gone`, lets the tiles slide, fills the
    /// gaps with `letters` and tells how the field differs from before.
    fn fill_spaces(&mut self, matches: Vec<WordMatch>, gone: &Vec<Vec<bool>>, letters: &Vec<char>) -> (r:
        LetterfieldResolve)
        requires
            old(self).wf(),
            matches_on_grid(
                old(self)@,
                old(self).spec_width() as int,
                old(self).spec_height() as int,
                matches_view(matches@),
            ),
            columns_view(*gone) == cleared(
                matches_view(matches@),
                old(self).spec_width() as int,
                old(self).spec_height() as int,
            ),
            old(self).last_id() + cleared_before(
                columns_view(*gone),
                old(self).spec_width() as int,
            ) <= u32::MAX,
            cleared_before(columns_view(*gone), old(self).spec_width() as int) <= letters@.len(),
        ensures
            final(self).wf(),
            final(self).spec_width() == old(self).spec_width(),
            final(self).spec_height() == old(self).spec_height(),
            final(self)@ == resolved_grid(
                old(self)@,
                columns_view(*gone),
                old(self).last_id() as int,
                letters@,
            ),
            final(self).last_id() == old(self).last_id() + cleared_before(
                columns_view(*gone),
                old(self).spec_width() as int,
            ),
            r.matches == matches,
            r.new_letters@ == new_tiles(old(self).snapshot(), final(self).snapshot()),
            r.old_letters@ == old_tiles(old(self).snapshot(), final(self).snapshot()),
            r.moving_letters@ == moved_tiles(old(self).snapshot(), final(self).snapshot()),
            r.wf(),
            (matches@.len() == 0) == (r.new_letters@ == Map::<u32, (Int2, char)>::empty()),
            (matches@.len() == 0) == (r.old_letters@ == Map::<u32, (Int2, char)>::empty()),
            (matches@.len() == 0) == (cleared_before(
                columns_view(*gone),
                old(self).spec_width() as int,
            ) == 0),
            matches@.len() == 0 ==> final(self)@ == old(self)@,
    {
        let ghost g = self@;
        let ghost gm = columns_view(*gone);
        let ghost w = self.spec_width() as int;
        let ghost h = self.spec_height() as int;
        let ghost count = self.last_id() as int;
        let ghost mv = matches_view(matches@);
        let cols = self.compact(gone, letters);
        proof {
            lemma_resolved_wf(g, gm, w, h, count, letters@);
            lemma_resolved_changes(g, gm, w, h, count, letters@);
            if matches@.len() == 0 {
                assert forall|x: int, y: int| 0 <= x < w && 0 <= y < h implies !(
                #[trigger] gm[x][y]) by {}
            } else {
                let t = mv[0].tiles[0];
                assert(gm[t.2.x as int][t.2.y as int]);
            }
        }
        let new_field = Array2D { width: self.width(), height: self.height(), cols };
        let before = snapshot(self.grid());
        let after = snapshot(&new_field);
        let (old_letters, moving_letters) = gone_and_moved(self.grid(), &after);
        let new_letters = arrived(&new_field, &before);
        self.put_grid(new_field);
        LetterfieldResolve { matches, new_letters, old_letters, moving_letters }
    }

    /// Finds the matches and marks the cells that they cover.
    fn find_and_mark(&self, corpus: &Corpus) -> (r: (Vec<WordMatch>, Vec<Vec<bool>>))
        requires
            self.wf(),
        ensures
            matches_view(r.0@) == self.matches(corpus.word_set()),
            matches_on_grid(
                self@,
                self.spec_width() as int,
                self.spec_height() as int,
                matches_view(r.0@),
            ),
            columns_view(r.1) == self.cleared_cells(corpus.word_set()),
            0 <= self.cleared_count(corpus.word_set()) <= self.spec_width() * self.spec_height(),
            (r.0@.len() == 0) == (self.cleared_count(corpus.word_set()) == 0),
    {
        let ghost words = corpus.word_set();
        let ghost w = self.spec_width() as int;
        let ghost h = self.spec_height() as int;
        let matches = self.find_word_matches(corpus);
        proof {
            lemma_matches_on_grid(words, self@, w, h);
            let mv = matches_view(matches@);
            assert forall|i: int, j: int|
                0 <= i < matches@.len() && 0 <= j < matches@[i].tiles@.len() implies {
                let t = #[trigger] matches@[i].tiles@[j];
                t.2.x < self.spec_width() && t.2.y < self.spec_height()
            } by {
                assert(tile_on_grid(self@, w, h, mv[i].tiles[j]));
            }
        }
        let gone = cleared_mask(&matches, self.width(), self.height());
        proof {
            let mv = matches_view(matches@);
            let gm = columns_view(gone);
            lemma_cleared_before_bound(gm, w, h, w);
            if matches@.len() == 0 {
                lemma_resolved_nothing(self@, gm, w, h, 0, Seq::<char>::empty());
            } else {
                let t = mv[0].tiles[0];
                assert(tile_on_grid(self@, w, h, t));
                assert(covered(mv, t.2));
                assert(gm[t.2.x as int][t.2.y as int]);
                lemma_cleared_counts(gm, w, h, t.2.x as int, t.2.y as int);
            }
        }
        (matches, gone)
    }

    /// No more cells are cleared than the field has: a field that
    /// `can_refill` has ids for every pass.
    pub proof fn lemma_cleared_count_bound(&self, words: Set<Seq<char>>)
        requires
            self.wf(),
        ensures
            0 <= self.cleared_count(words) <= self.spec_width() * self.spec_height(),
            self.spec_can_refill() ==> self.last_id() + self.cleared_count(words) <= u32::MAX,
    {
        lemma_cleared_before_bound(
            self.cleared_cells(words),
            self.spec_width() as int,
            self.spec_height() as int,
            self.spec_width() as int,
        );
    }

    /// One resolve pass with given letters: finds the matches, clears every
    /// cell that one of them covers, lets the tiles of each column slide
    /// together towards its high end, and fills the gaps with new tiles that
    /// take their letters from `letters` in the order in which the tiles are
    /// made. Tells which tiles came, went and moved. The pass needs an id
    /// for every cell that it clears, which it has where the field
    /// `can_refill`.
    pub fn find_word_matches_and_fill_spaces(&mut self, corpus: &Corpus, letters: &Vec<char>) -> (r:
        LetterfieldResolve)
        requires
            old(self).wf(),
            old(self).last_id() + old(self).cleared_count(corpus.word_set()) <= u32::MAX,
            old(self).cleared_count(corpus.word_set()) <= letters@.len(),
        ensures
            final(self).wf(),
            final(self).spec_width() == old(self).spec_width(),
            final(self).spec_height() == old(self).spec_height(),
            matches_view(r.matches@) == old(self).matches(corpus.word_set()),
            final(self)@ == old(self).resolved(corpus.word_set(), letters@),
            final(self).last_id() == old(self).last_id() + old(self).cleared_count(
                corpus.word_set(),
            ),
            r.new_letters@ == new_tiles(old(self).snapshot(), final(self).snapshot()),
            r.old_letters@ == old_tiles(old(self).snapshot(), final(self).snapshot()),
            r.moving_letters@ == moved_tiles(old(self).snapshot(), final(self).snapshot()),
            r.wf(),
            (r.matches@.len() == 0) == (r.new_letters@ == Map::<u32, (Int2, char)>::empty()),
            (r.matches@.len() == 0) == (r.old_letters@ == Map::<u32, (Int2, char)>::empty()),
            (r.matches@.len() == 0) == (old(self).cleared_count(corpus.word_set()) == 0),
            r.matches@.len() == 0 ==> final(self)@ == old(self)@,
    {
        let (matches, gone) = self.find_and_mark(corpus);
        self.fill_spaces(matches, &gone, letters)
    }

    /// One resolve pass: finds the matches, clears every cell that one of
    /// them covers, lets the tiles of each column slide together towards its
    /// high end, and fills the gaps with new tiles whose letters are drawn
    /// at random from the statistics of `corpus`. Tells which tiles came,
    /// went and moved. What the pass does with the letters that it drew is
    /// what `find_word_matches_and_fill_spaces` does with them. The pass
    /// needs an id for every cell that it clears, which it has where the
    /// field `can_refill`.
    pub fn find_word_matches_and_fill_spaces_randomly(&mut self, corpus: &Corpus) -> (r:
        LetterfieldResolve)
        requires
            old(self).wf(),
            old(self).last_id() + old(self).cleared_count(corpus.word_set()) <= u32::MAX,
            corpus.wf(),
            old(self).cleared_count(corpus.word_set()) > 0 ==> corpus.spec_has_letters(),
        ensures
            final(self).wf(),
            final(self).spec_width() == old(self).spec_width(),
            final(self).spec_height() == old(self).spec_height(),
            matches_view(r.matches@) == old(self).matches(corpus.word_set()),
            exists|letters: Seq<char>|
                {
                    &&& letters.len() == old(self).cleared_count(corpus.word_set())
                    &&& forall|i: int| 0 <= i < letters.len() ==> corpus.has_letter(#[trigger] letters[i])
                    &&& final(self)@ == old(self).resolved(corpus.word_set(), letters)
                },
            final(self).last_id() == old(self).last_id() + old(self).cleared_count(
                corpus.word_set(),
            ),
            r.new_letters@ == new_tiles(old(self).snapshot(), final(self).snapshot()),
            r.old_letters@ == old_tiles(old(self).snapshot(), final(self).snapshot()),
            r.moving_letters@ == moved_tiles(old(self).snapshot(), final(self).snapshot()),
            r.wf(),
            (r.matches@.len() == 0) == (r.new_letters@ == Map::<u32, (Int2, char)>::empty()),
            (r.matches@.len() == 0) == (r.old_letters@ == Map::<u32, (Int2, char)>::empty()),
            (r.matches@.len() == 0) == (old(self).cleared_count(corpus.word_set()) == 0),
            r.matches@.len() == 0 ==> final(self)@ == old(self)@,
    {
        let ghost w = self.spec_width() as int;
        let ghost h = self.spec_height() as int;
        let (matches, gone) = self.find_and_mark(corpus);
        let needed = count_cleared(&gone, Ghost(w), Ghost(h));
        let mut letters: Vec<char> = Vec::new();
        let mut i: usize = 0;
        while i < needed
            invariant
                corpus.wf(),
                needed > 0 ==> corpus.spec_has_letters(),
                i <= needed,
                letters@.len() == i,
                forall|j: int| 0 <= j < i ==> corpus.has_letter(#[trigger] letters@[j]),
            decreases needed - i,
        {
            letters.push(corpus.random_char());
            i += 1;
        }
        self.fill_spaces(matches, &gone, &letters)
    }

    /// How the run ends that `settle_with` makes with the letters.
    pub open spec fn settled(&self, words: Set<Seq<char>>, letters: Seq<char>) -> Run {
        settle(
            words,
            self@,
            self.spec_width() as int,
            self.spec_height() as int,
            self.last_id() as int,
            letters,
            0,
        )
    }

    /// Runs resolve passes on the field until one finds no match, filling
    /// the gaps from `letters`, each pass taking the letters that the passes
    /// before it left. Gives the field as the last pass found it and the
    /// number of passes, that last one counted. Gives `None` where, before
    /// a pass, the ids do not reach to replace every tile once, or where the
    /// letters do not reach for a pass.
    pub fn settle_with(self, corpus: &Corpus, letters: &Vec<char>) -> (r: Option<(Letterfield, usize)>)
        requires
            self.wf(),
        ensures
            settled_view(r) == run_result(self.settled(corpus.word_set(), letters@)),
            r matches Some((field, tries)) ==> {
                &&& field.wf()
                &&& field.spec_width() == self.spec_width()
                &&& field.spec_height() == self.spec_height()
                &&& field.matches(corpus.word_set()).len() == 0
                &&& tries >= 1
            },
    {
        let ghost words = corpus.word_set();
        let ghost w = self.spec_width() as int;
        let ghost h = self.spec_height() as int;
        let ghost all = letters@;
        let ghost wanted = self.settled(words, all);
        let total = letters.len();
        let mut field = self;
        let mut used: usize = 0;
        let mut tries: usize = 0;
        assert(all.skip(0) =~= all);
        loop
            invariant
                words == corpus.word_set(),
                all == letters@,
                total == all.len(),
                w == self.spec_width(),
                h == self.spec_height(),
                wanted == self.settled(words, all),
                field.wf(),
                field.spec_width() == w,
                field.spec_height() == h,
                used <= all.len(),
                tries <= used <= field.last_id(),
                w * h == 0 ==> used == 0,
                wanted == settle(
                    words,
                    field@,
                    w,
                    h,
                    field.last_id() as int,
                    all.skip(used as int),
                    tries as int,
                ),
            decreases all.len() - used,
        {
            proof {
                assert(0 <= w * h) by (nonlinear_arith)
                    requires
                        0 <= w,
                        0 <= h,
                ;
            }
            if !field.can_refill() {
                return None;
            }
            let (matches, gone) = field.find_and_mark(corpus);
            if matches.is_empty() {
                return Some((field, tries + 1));
            }
            let needed = count_cleared(&gone, Ghost(w), Ghost(h));
            if needed > total - used {
                return None;
            }
            let mut pass_letters: Vec<char> = Vec::new();
            let mut i: usize = 0;
            while i < needed
                invariant
                    all == letters@,
                    total == all.len(),
                    used + needed <= all.len(),
                    i <= needed,
                    pass_letters@ == all.subrange(used as int, used + i),
                decreases needed - i,
            {
                pass_letters.push(letters[used + i]);
                i += 1;
                assert(pass_letters@ =~= all.subrange(used as int, used + i));
            }
            let ghost before = field;
            let ghost rest = all.skip(used as int);
            proof {
                assert(pass_letters@ =~= rest.take(needed as int));
                assert(rest.skip(needed as int) =~= all.skip(used + needed));
            }
            field.fill_spaces(matches, &gone, &pass_letters);
            proof {
                assert(settle(words, before@, w, h, before.last_id() as int, rest, tries as int)
                    == settle(
                    words,
                    field@,
                    w,
                    h,
                    field.last_id() as int,
                    rest.skip(needed as int),
                    tries + 1,
                ));
            }
            used += needed;
            tries += 1;
        }
    }

    /// A random field without a match on it: fills a field at random and
    /// runs resolve passes on it until one finds no match, drawing the
    /// letters for the gaps at random. Gives the field and the number of
    /// passes it took, the last one counted. Gives `None` where, before a
    /// pass, the ids do not reach to replace every tile once; that is so
    /// from the start, and no field is made, where the field would have
    /// more than half as many cells as there are ids. A field without room
    /// for a match is always given. What is given is what `settle_with`
    /// gives for the first field and the letters that were drawn.
    pub fn random_with_no_matches(width: usize, height: usize, corpus: &Corpus) -> (r: Option<
        (Letterfield, usize),
    >)
        requires
            corpus.wf(),
            corpus.spec_has_letters(),
        ensures
            match r {
                Some((field, tries)) => {
                    &&& field.wf()
                    &&& field.spec_width() == width
                    &&& field.spec_height() == height
                    &&& field.matches(corpus.word_set()).len() == 0
                    &&& tries >= 1
                    &&& forall|x: int, y: int|
                        0 <= x < width && 0 <= y < height ==> corpus.has_letter(
                            (#[trigger] field@[x][y]).1,
                        )
                },
                None => has_room_for_match(width as int, height as int),
            },
            width * height + width * height > u32::MAX ==> r is None,
            width * height + width * height <= u32::MAX ==> exists|
                start: Seq<Seq<Tile>>,
                letters: Seq<char>,
            |
                settles_from(corpus, width as int, height as int, start, letters, settled_view(r)),
    {
        let ghost words = corpus.word_set();
        let ghost w = width as int;
        let ghost h = height as int;
        proof {
            assert(0 <= w * h) by (nonlinear_arith)
                requires
                    0 <= w,
                    0 <= h,
            ;
            if !has_room_for_match(w, h) {
                assert(w * h <= 4) by (nonlinear_arith)
                    requires
                        !has_room_for_match(w, h),
                        0 <= w,
                        0 <= h,
                ;
            }
        }
        assert((width as u128) * (height as u128) <= 0xffff_ffff_ffff_ffff * 0xffff_ffff_ffff_ffff)
            by (nonlinear_arith)
            requires
                0 <= width <= 0xffff_ffff_ffff_ffff,
                0 <= height <= 0xffff_ffff_ffff_ffff,
        ;
        let cells = (width as u128) * (height as u128);
        if cells > (u32::MAX as u128) / 2 {
            return None;
        }
        let mut letterfield = Letterfield::random(width, height, corpus);
        let ghost start = letterfield@;
        let ghost mut drawn: Seq<char> = Seq::empty();
        let mut tries: usize = 0;
        proof {
            assert forall|rest: Seq<char>|
                settle(words, start, w, h, w * h, drawn + rest, 0) == #[trigger] settle(
                    words,
                    letterfield@,
                    w,
                    h,
                    letterfield.last_id() as int,
                    rest,
                    tries as int,
                ) by {
                assert(drawn + rest =~= rest);
            }
        }
        loop
            invariant
                corpus.wf(),
                corpus.spec_has_letters(),
                words == corpus.word_set(),
                w == width,
                h == height,
                0 <= w * h <= u32::MAX,
                fresh_field(corpus, start, w, h),
                letterfield.wf(),
                letterfield.spec_width() == width,
                letterfield.spec_height() == height,
                w * h <= letterfield.last_id(),
                w * h == 0 ==> letterfield.last_id() == 0,
                !has_room_for_match(w, h) ==> letterfield.last_id() == w * h && w * h <= 4,
                tries <= letterfield.last_id() - w * h,
                forall|x: int, y: int|
                    0 <= x < w && 0 <= y < h ==> corpus.has_letter((#[trigger] letterfield@[x][y]).1),
                forall|i: int| 0 <= i < drawn.len() ==> corpus.has_letter(#[trigger] drawn[i]),
                forall|rest: Seq<char>|
                    settle(words, start, w, h, w * h, drawn + rest, 0) == #[trigger] settle(
                        words,
                        letterfield@,
                        w,
                        h,
                        letterfield.last_id() as int,
                        rest,
                        tries as int,
                    ),
            decreases u32::MAX - letterfield.last_id(),
        {
            let ghost before = letterfield;
            let ghost none = Seq::<char>::empty();
            proof {
                if !has_room_for_match(w, h) {
                    lemma_small_field_has_no_match(words, letterfield@, w, h);
                }
                assert(drawn + none =~= drawn);
                assert(settle(words, start, w, h, w * h, drawn + none, 0) == settle(
                    words,
                    before@,
                    w,
                    h,
                    before.last_id() as int,
                    none,
                    tries as int,
                ));
            }
            if !letterfield.can_refill() {
                proof {
                    assert(settles_from(corpus, w, h, start, drawn, None));
                }
                return None;
            }
            proof {
                before.lemma_cleared_count_bound(words);
            }
            let resolve = letterfield.find_word_matches_and_fill_spaces_randomly(corpus);
            proof {
                lemma_resolved_letters(before, words, corpus, letterfield@);
                if resolve.matches@.len() == 0 {
                    assert(settles_from(
                        corpus,
                        w,
                        h,
                        start,
                        drawn,
                        Some((letterfield@, letterfield.last_id() as int, tries + 1)),
                    ));
                } else {
                    let pass = choose|letters: Seq<char>|
                        {
                            &&& letters.len() == before.cleared_count(words)
                            &&& forall|i: int|
                                0 <= i < letters.len() ==> corpus.has_letter(#[trigger] letters[i])
                            &&& letterfield@ == before.resolved(words, letters)
                        };
                    let longer = drawn + pass;
                    assert forall|rest: Seq<char>|
                        settle(words, start, w, h, w * h, longer + rest, 0) == #[trigger] settle(
                            words,
                            letterfield@,
                            w,
                            h,
                            letterfield.last_id() as int,
                            rest,
                            tries + 1,
                        ) by {
                        let both = pass + rest;
                        assert(longer + rest =~= drawn + both);
                        assert(both.take(pass.len() as int) =~= pass);
                        assert(both.skip(pass.len() as int) =~= rest);
                        assert(settle(words, start, w, h, w * h, drawn + both, 0) == settle(
                            words,
                            before@,
                            w,
                            h,
                            before.last_id() as int,
                            both,
                            tries as int,
                        ));
                    }
                    drawn = longer;
                }
            }
            tries += 1;
            if resolve.matches.is_empty() {
                return Some((letterfield, tries));
            }
        }
    }
}

/// A field with the counter of ids and a number of passes: what a run of
/// resolve passes gives.
pub type Settled = (Seq<Seq<Tile>>, int, int);

/// How a run of resolve passes ends.
#[verifier::ext_equal]
pub enum Run {
    /// A pass found no match: the field, the counter of ids and the number
    /// of passes, that last one counted.
    Settled(Seq<Seq<Tile>>, int, int),
    /// Before a pass the ids did not reach to replace every tile once.
    NoIds,
    /// The letters did not reach to fill the gaps of a pass.
    NoLetters,
}

/// How a run of resolve passes ends that starts from the field `g` with the
/// counter of ids at `count`, takes the letters for the gaps from `letters`,
/// each pass those that the passes before it left, and has made `tries`
/// passes before.
pub open spec fn settle(
    words: Set<Seq<char>>,
    g: Seq<Seq<Tile>>,
    w: int,
    h: int,
    count: int,
    letters: Seq<char>,
    tries: int,
) -> Run
    decreases letters.len(),
{
    let found = field_matches(words, g, w, h);
    let gone = cleared(found, w, h);
    let needed = cleared_before(gone, w);
    if count + w * h > u32::MAX {
        Run::NoIds
    } else if found.len() == 0 {
        Run::Settled(g, count, tries + 1)
    } else if 0 < needed <= letters.len() {
        settle(
            words,
            resolved_grid(g, gone, count, letters.take(needed)),
            w,
            h,
            count + needed,
            letters.skip(needed),
            tries + 1,
        )
    } else {
        Run::NoLetters
    }
}

/// What is given for a run: the field and the number of passes where it
/// settled, nothing where it did not.
pub open spec fn run_result(run: Run) -> Option<Settled> {
    match run {
        Run::Settled(g, count, tries) => Some((g, count, tries)),
        Run::NoIds => None,
        Run::NoLetters => None,
    }
}

/// What a run gave, as mathematical values.
pub open spec fn settled_view(r: Option<(Letterfield, usize)>) -> Option<Settled> {
    match r {
        Some((field, tries)) => Some((field@, field.last_id() as int, tries as int)),
        None => None,
    }
}

/// The field is one that `Letterfield::random` makes from `corpus`: its
/// tiles are numbered from 0 on, column after column, and carry letters of
/// the dictionary.
pub open spec fn fresh_field(corpus: &Corpus, g: Seq<Seq<Tile>>, w: int, h: int) -> bool {
    &&& is_rect(g, w, h)
    &&& forall|x: int, y: int|
        0 <= x < w && 0 <= y < h ==> {
            &&& (#[trigger] g[x][y]).0 == cell_index(h, x, y)
            &&& corpus.has_letter(g[x][y].1)
        }
}

/// `result` is what is given for the run of passes that starts from the
/// fresh field `start` and fills the gaps with `letters`, which are letters
/// of the dictionary and reach for every pass of the run.
pub open spec fn settles_from(
    corpus: &Corpus,
    w: int,
    h: int,
    start: Seq<Seq<Tile>>,
    letters: Seq<char>,
    result: Option<Settled>,
) -> bool {
    &&& fresh_field(corpus, start, w, h)
    &&& forall|i: int| 0 <= i < letters.len() ==> corpus.has_letter(#[trigger] letters[i])
    &&& settle(corpus.word_set(), start, w, h, w * h, letters, 0) != Run::NoLetters
    &&& result == run_result(settle(corpus.word_set(), start, w, h, w * h, letters, 0))
}

/// A pass that fills the gaps with letters of the dictionary leaves a field
/// of letters of the dictionary, where it found one.
proof fn lemma_resolved_letters(
    before: Letterfield,
    words: Set<Seq<char>>,
    corpus: &Corpus,
    after: Seq<Seq<Tile>>,
)
    requires
        before.wf(),
        before.spec_can_refill(),
        forall|x: int, y: int|
            0 <= x < before.spec_width() && 0 <= y < before.spec_height() ==> corpus.has_letter(
                (#[trigger] before@[x][y]).1,
            ),
        exists|letters: Seq<char>|
            {
                &&& letters.len() == before.cleared_count(words)
                &&& forall|i: int| 0 <= i < letters.len() ==> corpus.has_letter(#[trigger] letters[i])
                &&& after == before.resolved(words, letters)
            },
    ensures
        forall|x: int, y: int|
            0 <= x < before.spec_width() && 0 <= y < before.spec_height() ==> corpus.has_letter(
                (#[trigger] after[x][y]).1,
            ),
{
    let w = before.spec_width() as int;
    let h = before.spec_height() as int;
    let gone = before.cleared_cells(words);
    let letters = choose|letters: Seq<char>|
        {
            &&& letters.len() == before.cleared_count(words)
            &&& forall|i: int| 0 <= i < letters.len() ==> corpus.has_letter(#[trigger] letters[i])
            &&& after == before.resolved(words, letters)
        };
    lemma_cleared_before_bound(gone, w, h, w);
    assert forall|x: int, y: int| 0 <= x < w && 0 <= y < h implies corpus.has_letter(
        (#[trigger] after[x][y]).1,
    ) by {
        lemma_resolved_cell(
            before@,
            gone,
            w,
            h,
            before.last_id() as int,
            letters,
            x,
            y,
        );
    }
}

} // verus!
