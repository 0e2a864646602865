//! What a resolve pass does to the field, as mathematics: which cells are
//! cleared, how the tiles of a column slide together, which tiles fill the
//! gaps, and how the field before and after differ tile by tile.

use vstd::prelude::*;
use crate::models::array2d::{is_rect, Int2};
use crate::models::letterfield::{distinct_ids, ids_at_most, MatchView, Tile};

verus! {

/// Some match has a tile in the cell `pos`.
pub open spec fn covered(matches: Seq<MatchView>, pos: Int2) -> bool {
    exists|i: int, j: int|
        0 <= i < matches.len() && 0 <= j < matches[i].tiles.len() && (
        #[trigger] matches[i].tiles[j]).2 == pos
}

/// For each cell of a `w` by `h` field whether a match covers it: these are
/// the cells that a resolve pass clears.
pub open spec fn cleared(matches: Seq<MatchView>, w: int, h: int) -> Seq<Seq<bool>> {
    Seq::new(
        w as nat,
        |x: int| Seq::new(h as nat, |y: int| covered(matches, Int2 { x: x as usize, y: y as usize })),
    )
}

/// The tiles of a column that are not cleared, in their order.
pub open spec fn survivors(col: Seq<Tile>, gone: Seq<bool>) -> Seq<Tile>
    decreases col.len(),
{
    if col.len() == 0 {
        Seq::empty()
    } else if gone.last() {
        survivors(col.drop_last(), gone.drop_last())
    } else {
        survivors(col.drop_last(), gone.drop_last()).push(col.last())
    }
}

/// How many cells of a column are cleared.
pub open spec fn cleared_in(gone: Seq<bool>) -> int
    decreases gone.len(),
{
    if gone.len() == 0 {
        0
    } else if gone.last() {
        cleared_in(gone.drop_last()) + 1
    } else {
        cleared_in(gone.drop_last())
    }
}

/// How many cells are cleared in the first `x` columns together.
pub open spec fn cleared_before(gone: Seq<Seq<bool>>, x: int) -> int
    decreases x,
{
    if x <= 0 {
        0
    } else {
        cleared_before(gone, x - 1) + cleared_in(gone[x - 1])
    }
}

/// The tile that fills place `y` of a column with `k` cleared cells, when
/// the ids are handed out from `base` and `letters` are the `k` letters for
/// this column in the order in which they were drawn. The first letter drawn
/// gets the id `base + 1` and the place next to the tiles that stayed; the
/// last gets `base + k` and place 0.
pub open spec fn fresh_tile(base: int, k: int, letters: Seq<char>, y: int) -> Tile {
    ((base + k - y) as u32, letters[k - 1 - y])
}

/// A column after the pass: the new tiles first, then the tiles that stayed,
/// slid together towards the high end.
pub open spec fn resolved_column(
    col: Seq<Tile>,
    gone: Seq<bool>,
    base: int,
    letters: Seq<char>,
) -> Seq<Tile> {
    let k = cleared_in(gone);
    Seq::new(
        col.len(),
        |y: int|
            if y < k {
                fresh_tile(base, k, letters, y)
            } else {
                survivors(col, gone)[y - k]
            },
    )
}

/// The field after the pass that clears the cells marked in `gone`, when the
/// ids of the new tiles are handed out from `count` on and `letters` are
/// their letters in the order in which they are drawn: column after column,
/// and within a column from the tiles that stayed outwards.
pub open spec fn resolved_grid(
    g: Seq<Seq<Tile>>,
    gone: Seq<Seq<bool>>,
    count: int,
    letters: Seq<char>,
) -> Seq<Seq<Tile>> {
    Seq::new(
        g.len(),
        |x: int|
            resolved_column(
                g[x],
                gone[x],
                count + cleared_before(gone, x),
                letters.subrange(cleared_before(gone, x), cleared_before(gone, x + 1)),
            ),
    )
}

/// The tiles that stay and the cleared cells together make up the column.
pub proof fn lemma_survivors_len(col: Seq<Tile>, gone: Seq<bool>)
    requires
        col.len() == gone.len(),
    ensures
        0 <= cleared_in(gone) <= col.len(),
        survivors(col, gone).len() + cleared_in(gone) == col.len(),
    decreases col.len(),
{
    if col.len() > 0 {
        lemma_survivors_len(col.drop_last(), gone.drop_last());
    }
}

/// The tiles that stay are exactly the tiles of the cells that are not
/// cleared, and they keep their order: the `i`-th of them comes from a cell
/// that lies at or behind place `i`, and behind the cell of every earlier
/// one.
pub proof fn lemma_survivors_from(col: Seq<Tile>, gone: Seq<bool>)
    requires
        col.len() == gone.len(),
    ensures
        forall|i: int|
            0 <= i < survivors(col, gone).len() ==> {
                let y = #[trigger] survivor_cell(gone, i);
                &&& i <= y < col.len()
                &&& !gone[y]
                &&& survivors(col, gone)[i] == col[y]
                &&& y - i == cleared_in(gone.take(y))
            },
        forall|y: int|
            0 <= y < col.len() && !gone[y] ==> {
                let i = y - #[trigger] cleared_in(gone.take(y));
                &&& 0 <= i < survivors(col, gone).len()
                &&& survivor_cell(gone, i) == y
            },
    decreases col.len(),
{
    lemma_survivors_len(col, gone);
    if col.len() > 0 {
        let n = col.len() - 1;
        let col0 = col.drop_last();
        let gone0 = gone.drop_last();
        lemma_survivors_from(col0, gone0);
        lemma_survivors_len(col0, gone0);
        assert forall|y: int| 0 <= y <= n implies #[trigger] gone.take(y) =~= gone0.take(y) by {}
        assert forall|i: int| 0 <= i < survivors(col, gone).len() implies {
            let y = #[trigger] survivor_cell(gone, i);
            &&& i <= y < col.len()
            &&& !gone[y]
            &&& survivors(col, gone)[i] == col[y]
            &&& y - i == cleared_in(gone.take(y))
        } by {
            if i < survivors(col0, gone0).len() {
                let y = survivor_cell(gone0, i);
                assert(survivor_cell(gone, i) == y);
            }
        }
        assert forall|y: int| 0 <= y < col.len() && !gone[y] implies {
            let i = y - #[trigger] cleared_in(gone.take(y));
            &&& 0 <= i < survivors(col, gone).len()
            &&& survivor_cell(gone, i) == y
        } by {}
    }
}

/// The cell from which the `i`-th tile that stays comes.
pub open spec fn survivor_cell(gone: Seq<bool>, i: int) -> int
    decreases gone.len(),
{
    if gone.len() == 0 {
        0
    } else if !gone.last() && i == gone.len() - 1 - cleared_in(gone.drop_last()) {
        gone.len() - 1
    } else {
        survivor_cell(gone.drop_last(), i)
    }
}

/// The count of cleared cells grows with the number of columns counted.
pub proof fn lemma_cleared_before_grows(gone: Seq<Seq<bool>>, x1: int, x2: int)
    requires
        0 <= x1 <= x2,
    ensures
        0 <= cleared_before(gone, x1) <= cleared_before(gone, x2),
    decreases x2,
{
    if x2 > 0 {
        lemma_cleared_in_bounds(gone[x2 - 1]);
        if x1 < x2 {
            lemma_cleared_before_grows(gone, x1, x2 - 1);
        } else {
            lemma_cleared_before_grows(gone, x1 - 1, x2 - 1);
        }
    }
}

/// No more cells of a column are cleared than it has.
pub proof fn lemma_cleared_in_bounds(gone: Seq<bool>)
    ensures
        0 <= cleared_in(gone) <= gone.len(),
    decreases gone.len(),
{
    if gone.len() > 0 {
        lemma_cleared_in_bounds(gone.drop_last());
    }
}

/// Where the tile at place `y` of column `x` of the field after the pass
/// comes from: a new tile has an id above `count`, in the range of its
/// column; a tile that stayed is the tile of a cell of the same column that
/// was not cleared, at or before place `y`.
pub proof fn lemma_resolved_cell(
    g: Seq<Seq<Tile>>,
    gone: Seq<Seq<bool>>,
    w: int,
    h: int,
    count: int,
    letters: Seq<char>,
    x: int,
    y: int,
)
    requires
        is_rect(g, w, h),
        is_rect(gone, w, h),
        0 <= count,
        count + cleared_before(gone, w) <= u32::MAX,
        cleared_before(gone, w) <= letters.len(),
        0 <= x < w,
        0 <= y < h,
    ensures
        resolved_grid(g, gone, count, letters)[x].len() == h,
        0 <= cleared_before(gone, x) <= cleared_before(gone, x + 1) <= cleared_before(gone, w),
        cleared_before(gone, x + 1) == cleared_before(gone, x) + cleared_in(gone[x]),
        y < cleared_in(gone[x]) ==> {
            &&& resolved_grid(g, gone, count, letters)[x][y].0 == count + cleared_before(
                gone,
                x + 1,
            ) - y
            &&& resolved_grid(g, gone, count, letters)[x][y].1 == letters[cleared_before(
                gone,
                x + 1,
            ) - 1 - y]
        },
        y >= cleared_in(gone[x]) ==> {
            let from = survivor_cell(gone[x], y - cleared_in(gone[x]));
            &&& 0 <= from <= y
            &&& !gone[x][from]
            &&& resolved_grid(g, gone, count, letters)[x][y] == g[x][from]
            &&& y - from == cleared_in(gone[x]) - cleared_in(gone[x].take(from))
        },
{
    lemma_cleared_before_grows(gone, x, x + 1);
    lemma_cleared_before_grows(gone, x + 1, w);
    lemma_survivors_len(g[x], gone[x]);
    lemma_survivors_from(g[x], gone[x]);
    let k = cleared_in(gone[x]);
    if !(y < k) {
        let from = survivor_cell(gone[x], y - k);
        lemma_cleared_in_prefix(gone[x], from);
    }
}

/// No more cells are cleared among the first `n` of a column than in the
/// whole of it.
pub proof fn lemma_cleared_in_prefix(gone: Seq<bool>, n: int)
    requires
        0 <= n <= gone.len(),
    ensures
        0 <= cleared_in(gone.take(n)) <= cleared_in(gone),
    decreases gone.len(),
{
    lemma_cleared_in_bounds(gone.take(n));
    if n < gone.len() {
        lemma_cleared_in_prefix(gone.drop_last(), n);
        assert(gone.drop_last().take(n) =~= gone.take(n));
    } else {
        assert(gone.take(n) =~= gone);
    }
}

/// After the pass the field is rectangular as before, no two tiles share an
/// id, and no id is above the counter advanced by the number of new tiles.
pub proof fn lemma_resolved_wf(
    g: Seq<Seq<Tile>>,
    gone: Seq<Seq<bool>>,
    w: int,
    h: int,
    count: int,
    letters: Seq<char>,
)
    requires
        is_rect(g, w, h),
        is_rect(gone, w, h),
        distinct_ids(g, w, h),
        ids_at_most(g, w, h, count),
        0 <= count,
        count + cleared_before(gone, w) <= u32::MAX,
        cleared_before(gone, w) <= letters.len(),
    ensures
        is_rect(resolved_grid(g, gone, count, letters), w, h),
        distinct_ids(resolved_grid(g, gone, count, letters), w, h),
        ids_at_most(resolved_grid(g, gone, count, letters), w, h, count + cleared_before(gone, w)),
{
    let r = resolved_grid(g, gone, count, letters);
    assert forall|x: int| 0 <= x < w implies (#[trigger] r[x]).len() == h by {}
    assert forall|x: int, y: int| 0 <= x < w && 0 <= y < h implies (#[trigger] r[x][y]).0 <= count
        + cleared_before(gone, w) by {
        lemma_resolved_cell(g, gone, w, h, count, letters, x, y);
    }
    assert forall|x1: int, y1: int, x2: int, y2: int|
        0 <= x1 < w && 0 <= y1 < h && 0 <= x2 < w && 0 <= y2 < h && (#[trigger] r[x1][y1]).0 == (
        #[trigger] r[x2][y2]).0 implies x1 == x2 && y1 == y2 by {
        lemma_resolved_cell(g, gone, w, h, count, letters, x1, y1);
        lemma_resolved_cell(g, gone, w, h, count, letters, x2, y2);
        let k1 = cleared_in(gone[x1]);
        let k2 = cleared_in(gone[x2]);
        if y1 < k1 && y2 < k2 {
            if x1 < x2 {
                lemma_cleared_before_grows(gone, x1 + 1, x2);
            } else if x2 < x1 {
                lemma_cleared_before_grows(gone, x2 + 1, x1);
            }
        }
    }
}

/// Some tile of the `w` by `h` field `g` has the id `id`.
pub open spec fn holds_id(g: Seq<Seq<Tile>>, w: int, h: int, id: u32) -> bool {
    exists|x: int, y: int| 0 <= x < w && 0 <= y < h && (#[trigger] g[x][y]).0 == id
}

/// A cell of `g` whose tile has the id `id`; the only one where ids are not
/// shared.
pub open spec fn cell_of(g: Seq<Seq<Tile>>, w: int, h: int, id: u32) -> (int, int) {
    choose|c: (int, int)| 0 <= c.0 < w && 0 <= c.1 < h && (#[trigger] g[c.0][c.1]).0 == id
}

/// The snapshot of a field by id: under each id on the field the cell of
/// its tile and its letter.
pub open spec fn tile_map(g: Seq<Seq<Tile>>, w: int, h: int) -> Map<u32, (Int2, char)> {
    Map::new(
        |id: u32| holds_id(g, w, h, id),
        |id: u32|
            {
                let c = cell_of(g, w, h, id);
                (Int2 { x: c.0 as usize, y: c.1 as usize }, g[c.0][c.1].1)
            },
    )
}

/// The tiles that are on the field after the pass and were not before.
pub open spec fn new_tiles(
    before: Map<u32, (Int2, char)>,
    after: Map<u32, (Int2, char)>,
) -> Map<u32, (Int2, char)> {
    Map::new(|id: u32| after.contains_key(id) && !before.contains_key(id), |id: u32| after[id])
}

/// The tiles that were on the field before the pass and are gone after it,
/// each with the cell it was in.
pub open spec fn old_tiles(
    before: Map<u32, (Int2, char)>,
    after: Map<u32, (Int2, char)>,
) -> Map<u32, (Int2, char)> {
    Map::new(|id: u32| before.contains_key(id) && !after.contains_key(id), |id: u32| before[id])
}

/// The tiles that are on the field before and after the pass, in different
/// cells: each with the cell before, the cell after and its letter.
pub open spec fn moved_tiles(
    before: Map<u32, (Int2, char)>,
    after: Map<u32, (Int2, char)>,
) -> Map<u32, (Int2, Int2, char)> {
    Map::new(
        |id: u32| before.contains_key(id) && after.contains_key(id) && before[id].0 != after[id].0,
        |id: u32| (before[id].0, after[id].0, before[id].1),
    )
}

/// On a field without shared ids the snapshot holds, under the id of the
/// tile in cell `(x, y)`, that cell and the letter of the tile.
pub proof fn lemma_tile_map_cell(g: Seq<Seq<Tile>>, w: int, h: int, x: int, y: int)
    requires
        distinct_ids(g, w, h),
        0 <= x < w,
        0 <= y < h,
        w <= usize::MAX,
        h <= usize::MAX,
    ensures
        holds_id(g, w, h, g[x][y].0),
        cell_of(g, w, h, g[x][y].0) == (x, y),
        tile_map(g, w, h).contains_key(g[x][y].0),
        tile_map(g, w, h)[g[x][y].0] == (Int2 { x: x as usize, y: y as usize }, g[x][y].1),
{
    let id = g[x][y].0;
    let here = (x, y);
    assert(0 <= here.0 < w && 0 <= here.1 < h && g[here.0][here.1].0 == id);
}

/// Where a field has a tile with the id `id`, `cell_of` names a cell that
/// holds such a tile.
pub proof fn lemma_cell_of_holds(g: Seq<Seq<Tile>>, w: int, h: int, id: u32)
    requires
        holds_id(g, w, h, id),
    ensures
        0 <= cell_of(g, w, h, id).0 < w,
        0 <= cell_of(g, w, h, id).1 < h,
        g[cell_of(g, w, h, id).0][cell_of(g, w, h, id).1].0 == id,
{
    let (x, y) = choose|x: int, y: int| 0 <= x < w && 0 <= y < h && (#[trigger] g[x][y]).0 == id;
}

/// How the snapshots of a field before and after a pass relate, tile by
/// tile: a tile in a cleared cell is gone; a tile in another cell is still
/// there, in its column, at its place or further to the high end, with its
/// letter; and every tile that fills a gap has an id that was not on the
/// field.
pub proof fn lemma_resolved_tiles(
    g: Seq<Seq<Tile>>,
    gone: Seq<Seq<bool>>,
    w: int,
    h: int,
    count: int,
    letters: Seq<char>,
)
    requires
        is_rect(g, w, h),
        is_rect(gone, w, h),
        distinct_ids(g, w, h),
        ids_at_most(g, w, h, count),
        0 <= count,
        count + cleared_before(gone, w) <= u32::MAX,
        cleared_before(gone, w) <= letters.len(),
        w <= usize::MAX,
        h <= usize::MAX,
    ensures
        forall|x: int, y: int|
            0 <= x < w && 0 <= y < h && gone[x][y] ==> !tile_map(
                resolved_grid(g, gone, count, letters),
                w,
                h,
            ).contains_key((#[trigger] g[x][y]).0),
        forall|x: int, y: int|
            0 <= x < w && 0 <= y < h && !gone[x][y] ==> {
                let after = tile_map(resolved_grid(g, gone, count, letters), w, h);
                let id = (#[trigger] g[x][y]).0;
                &&& after.contains_key(id)
                &&& after[id].0.x == x
                &&& y <= after[id].0.y < h
                &&& after[id].0.y - y == cleared_in(gone[x]) - cleared_in(gone[x].take(y))
                &&& after[id].1 == g[x][y].1
            },
        forall|x: int, y: int|
            0 <= x < w && 0 <= y < cleared_in(gone[x]) ==> !tile_map(g, w, h).contains_key(
                (#[trigger] resolved_grid(g, gone, count, letters)[x][y]).0,
            ),
{
    let r = resolved_grid(g, gone, count, letters);
    lemma_resolved_wf(g, gone, w, h, count, letters);
    assert forall|x: int, y: int| 0 <= x < w && 0 <= y < h && gone[x][y] implies !tile_map(
        r,
        w,
        h,
    ).contains_key((#[trigger] g[x][y]).0) by {
        let id = g[x][y].0;
        if holds_id(r, w, h, id) {
            let c = cell_of(r, w, h, id);
            lemma_cell_of_holds(r, w, h, id);
            lemma_resolved_cell(g, gone, w, h, count, letters, c.0, c.1);
        }
    }
    assert forall|x: int, y: int| 0 <= x < w && 0 <= y < h && !gone[x][y] implies {
        let after = tile_map(r, w, h);
        let id = (#[trigger] g[x][y]).0;
        &&& after.contains_key(id)
        &&& after[id].0.x == x
        &&& y <= after[id].0.y < h
        &&& after[id].0.y - y == cleared_in(gone[x]) - cleared_in(gone[x].take(y))
        &&& after[id].1 == g[x][y].1
    } by {
        lemma_survivors_from(g[x], gone[x]);
        lemma_survivors_len(g[x], gone[x]);
        lemma_cleared_in_prefix(gone[x], y);
        let k = cleared_in(gone[x]);
        let i = y - cleared_in(gone[x].take(y));
        let to = k + i;
        lemma_resolved_cell(g, gone, w, h, count, letters, x, to);
        lemma_tile_map_cell(r, w, h, x, to);
    }
    assert forall|x: int, y: int| 0 <= x < w && 0 <= y < cleared_in(gone[x]) implies !tile_map(
        g,
        w,
        h,
    ).contains_key((#[trigger] r[x][y]).0) by {
        lemma_cleared_in_bounds(gone[x]);
        lemma_resolved_cell(g, gone, w, h, count, letters, x, y);
        let id = r[x][y].0;
        if holds_id(g, w, h, id) {
            lemma_cell_of_holds(g, w, h, id);
        }
    }
}

/// Where no cell is cleared the pass leaves the field as it is.
pub proof fn lemma_resolved_nothing(
    g: Seq<Seq<Tile>>,
    gone: Seq<Seq<bool>>,
    w: int,
    h: int,
    count: int,
    letters: Seq<char>,
)
    requires
        is_rect(g, w, h),
        is_rect(gone, w, h),
        forall|x: int, y: int| 0 <= x < w && 0 <= y < h ==> !(#[trigger] gone[x][y]),
    ensures
        cleared_before(gone, w) == 0,
        resolved_grid(g, gone, count, letters) == g,
{
    let r = resolved_grid(g, gone, count, letters);
    assert forall|x: int| 0 <= x < w implies cleared_in(#[trigger] gone[x]) == 0 && survivors(
        g[x],
        gone[x],
    ) == g[x] by {
        lemma_nothing_cleared(g[x], gone[x]);
    }
    lemma_cleared_before_zero(gone, w);
    assert forall|x: int| 0 <= x < w implies #[trigger] r[x] =~= g[x] by {}
}

/// A column without cleared cells keeps all its tiles.
proof fn lemma_nothing_cleared(col: Seq<Tile>, gone: Seq<bool>)
    requires
        col.len() == gone.len(),
        forall|y: int| 0 <= y < gone.len() ==> !(#[trigger] gone[y]),
    ensures
        cleared_in(gone) == 0,
        survivors(col, gone) == col,
    decreases col.len(),
{
    if col.len() > 0 {
        lemma_nothing_cleared(col.drop_last(), gone.drop_last());
    }
}

/// Columns without cleared cells count nothing.
proof fn lemma_cleared_before_zero(gone: Seq<Seq<bool>>, x: int)
    requires
        forall|i: int| 0 <= i < x ==> cleared_in(#[trigger] gone[i]) == 0,
    ensures
        cleared_before(gone, x) == 0,
    decreases x,
{
    if x > 0 {
        lemma_cleared_before_zero(gone, x - 1);
    }
}

/// A cleared cell counts: with a cell of column `x` cleared, at least one
/// cell is cleared in the columns up to `x`.
pub proof fn lemma_cleared_counts(gone: Seq<Seq<bool>>, w: int, h: int, x: int, y: int)
    requires
        is_rect(gone, w, h),
        0 <= x < w,
        0 <= y < h,
        gone[x][y],
    ensures
        cleared_in(gone[x]) > 0,
        cleared_before(gone, w) > 0,
{
    lemma_cleared_in_positive(gone[x], y);
    lemma_cleared_before_grows(gone, x, x + 1);
    lemma_cleared_before_grows(gone, x + 1, w);
}

/// A column with a cleared cell has a positive count.
proof fn lemma_cleared_in_positive(gone: Seq<bool>, y: int)
    requires
        0 <= y < gone.len(),
        gone[y],
    ensures
        cleared_in(gone) > 0,
    decreases gone.len(),
{
    lemma_cleared_in_bounds(gone.drop_last());
    if y < gone.len() - 1 {
        lemma_cleared_in_positive(gone.drop_last(), y);
    }
}

/// No more cells are cleared in the first `x` columns than these have.
pub proof fn lemma_cleared_before_bound(gone: Seq<Seq<bool>>, w: int, h: int, x: int)
    requires
        is_rect(gone, w, h),
        0 <= x <= w,
    ensures
        0 <= cleared_before(gone, x) <= x * h,
    decreases x,
{
    if x > 0 {
        lemma_cleared_before_bound(gone, w, h, x - 1);
        lemma_cleared_in_bounds(gone[x - 1]);
        assert((x - 1) * h + h == x * h) by (nonlinear_arith);
    }
}

/// A pass that clears a cell brings a new tile and takes a tile away; a
/// pass that clears none changes nothing, so that no tile comes, goes or
/// moves.
pub proof fn lemma_resolved_changes(
    g: Seq<Seq<Tile>>,
    gone: Seq<Seq<bool>>,
    w: int,
    h: int,
    count: int,
    letters: Seq<char>,
)
    requires
        is_rect(g, w, h),
        is_rect(gone, w, h),
        distinct_ids(g, w, h),
        ids_at_most(g, w, h, count),
        0 <= count,
        count + cleared_before(gone, w) <= u32::MAX,
        cleared_before(gone, w) <= letters.len(),
        w <= usize::MAX,
        h <= usize::MAX,
    ensures
        ({
            let before = tile_map(g, w, h);
            let after = tile_map(resolved_grid(g, gone, count, letters), w, h);
            if exists|x: int, y: int| 0 <= x < w && 0 <= y < h && #[trigger] gone[x][y] {
                &&& new_tiles(before, after) != Map::<u32, (Int2, char)>::empty()
                &&& old_tiles(before, after) != Map::<u32, (Int2, char)>::empty()
                &&& cleared_before(gone, w) > 0
            } else {
                &&& resolved_grid(g, gone, count, letters) == g
                &&& cleared_before(gone, w) == 0
                &&& new_tiles(before, after) == Map::<u32, (Int2, char)>::empty()
                &&& old_tiles(before, after) == Map::<u32, (Int2, char)>::empty()
                &&& moved_tiles(before, after) == Map::<u32, (Int2, Int2, char)>::empty()
            }
        }),
{
    let r = resolved_grid(g, gone, count, letters);
    let before = tile_map(g, w, h);
    let after = tile_map(r, w, h);
    if exists|x: int, y: int| 0 <= x < w && 0 <= y < h && #[trigger] gone[x][y] {
        let (x, y) = choose|x: int, y: int| 0 <= x < w && 0 <= y < h && #[trigger] gone[x][y];
        lemma_cleared_counts(gone, w, h, x, y);
        lemma_resolved_tiles(g, gone, w, h, count, letters);
        lemma_resolved_wf(g, gone, w, h, count, letters);
        lemma_tile_map_cell(g, w, h, x, y);
        let left = g[x][y].0;
        assert(old_tiles(before, after).contains_key(left));
        lemma_tile_map_cell(r, w, h, x, 0);
        let came = r[x][0].0;
        assert(new_tiles(before, after).contains_key(came));
    } else {
        lemma_resolved_nothing(g, gone, w, h, count, letters);
    }
}

/// Where no cell from place `y` on is cleared, all cleared cells of the
/// column lie before `y`.
pub proof fn lemma_cleared_none_behind(gone: Seq<bool>, y: int)
    requires
        0 <= y <= gone.len(),
        forall|k: int| y <= k < gone.len() ==> !(#[trigger] gone[k]),
    ensures
        cleared_in(gone.take(y)) == cleared_in(gone),
    decreases gone.len(),
{
    if y < gone.len() {
        lemma_cleared_none_behind(gone.drop_last(), y);
        assert(gone.drop_last().take(y) =~= gone.take(y));
    } else {
        assert(gone.take(y) =~= gone);
    }
}

/// Where a cell at place `y` or behind it is cleared, not all cleared cells
/// of the column lie before `y`.
pub proof fn lemma_cleared_one_behind(gone: Seq<bool>, y: int, behind: int)
    requires
        0 <= y <= behind < gone.len(),
        gone[behind],
    ensures
        cleared_in(gone.take(y)) < cleared_in(gone),
    decreases gone.len(),
{
    if behind == gone.len() - 1 {
        lemma_cleared_in_prefix(gone.drop_last(), y);
        assert(gone.drop_last().take(y) =~= gone.take(y));
    } else {
        lemma_cleared_one_behind(gone.drop_last(), y, behind);
        assert(gone.drop_last().take(y) =~= gone.take(y));
    }
}

/// The tile with the id `id` is on the field before and after, in the same
/// cell.
pub open spec fn stayed(
    before: Map<u32, (Int2, char)>,
    after: Map<u32, (Int2, char)>,
    id: u32,
) -> bool {
    before.contains_key(id) && after.contains_key(id) && before[id].0 == after[id].0
}

/// Every tile is accounted for. A tile that was on the field stayed in its
/// cell, or moved, or left, and only one of the three. A tile that is on the
/// field now and was not before is new. And every tile on the field now
/// stayed, moved or is new, only one of the three, and is recorded with the
/// cell that it is in now.
pub proof fn lemma_tiles_accounted(before: Map<u32, (Int2, char)>, after: Map<u32, (Int2, char)>)
    ensures
        forall|id: u32| #[trigger]
            before.contains_key(id) ==> {
                let s = stayed(before, after, id);
                let m = moved_tiles(before, after).contains_key(id);
                let o = old_tiles(before, after).contains_key(id);
                (s || m || o) && !(s && m) && !(s && o) && !(m && o)
            },
        forall|id: u32| #[trigger]
            after.contains_key(id) && !before.contains_key(id) ==> new_tiles(
                before,
                after,
            ).contains_key(id),
        forall|id: u32| #[trigger]
            after.contains_key(id) ==> {
                let s = stayed(before, after, id);
                let m = moved_tiles(before, after).contains_key(id);
                let n = new_tiles(before, after).contains_key(id);
                &&& (s || m || n) && !(s && m) && !(s && n) && !(m && n)
                &&& s ==> before[id].0 == after[id].0
                &&& m ==> moved_tiles(before, after)[id].1 == after[id].0
                &&& n ==> new_tiles(before, after)[id] == after[id]
            },
        forall|id: u32| #[trigger]
            old_tiles(before, after).contains_key(id) ==> !after.contains_key(id) && old_tiles(
                before,
                after,
            )[id] == before[id],
{
}

/// A tile that is on the field before and after a pass keeps its letter and
/// its column and does not move towards the low end. So the letter that is
/// recorded for a tile that stayed or moved is the letter that it has on the
/// field after the pass.
pub proof fn lemma_resolved_keeps(
    g: Seq<Seq<Tile>>,
    gone: Seq<Seq<bool>>,
    w: int,
    h: int,
    count: int,
    letters: Seq<char>,
)
    requires
        is_rect(g, w, h),
        is_rect(gone, w, h),
        distinct_ids(g, w, h),
        ids_at_most(g, w, h, count),
        0 <= count,
        count + cleared_before(gone, w) <= u32::MAX,
        cleared_before(gone, w) <= letters.len(),
        w <= usize::MAX,
        h <= usize::MAX,
    ensures
        forall|id: u32| #[trigger]
            tile_map(g, w, h).contains_key(id) && tile_map(
                resolved_grid(g, gone, count, letters),
                w,
                h,
            ).contains_key(id) ==> {
                let before = tile_map(g, w, h);
                let after = tile_map(resolved_grid(g, gone, count, letters), w, h);
                &&& before[id].1 == after[id].1
                &&& before[id].0.x == after[id].0.x
                &&& before[id].0.y <= after[id].0.y
                &&& moved_tiles(before, after).contains_key(id) ==> moved_tiles(
                    before,
                    after,
                )[id].2 == after[id].1
            },
{
    let before = tile_map(g, w, h);
    let after = tile_map(resolved_grid(g, gone, count, letters), w, h);
    lemma_resolved_tiles(g, gone, w, h, count, letters);
    assert forall|id: u32| #[trigger]
        before.contains_key(id) && after.contains_key(id) implies {
        &&& before[id].1 == after[id].1
        &&& before[id].0.x == after[id].0.x
        &&& before[id].0.y <= after[id].0.y
    } by {
        lemma_cell_of_holds(g, w, h, id);
        let c = cell_of(g, w, h, id);
        lemma_tile_map_cell(g, w, h, c.0, c.1);
    }
}

/// No tile moves in a pass exactly where, in every column, the cleared cells
/// all lie at the low end: where no tile that stays has a cleared cell
/// behind it.
pub proof fn lemma_moved_none(
    g: Seq<Seq<Tile>>,
    gone: Seq<Seq<bool>>,
    w: int,
    h: int,
    count: int,
    letters: Seq<char>,
)
    requires
        is_rect(g, w, h),
        is_rect(gone, w, h),
        distinct_ids(g, w, h),
        ids_at_most(g, w, h, count),
        0 <= count,
        count + cleared_before(gone, w) <= u32::MAX,
        cleared_before(gone, w) <= letters.len(),
        w <= usize::MAX,
        h <= usize::MAX,
    ensures
        (moved_tiles(tile_map(g, w, h), tile_map(resolved_grid(g, gone, count, letters), w, h))
            == Map::<u32, (Int2, Int2, char)>::empty()) <==> (forall|x: int, y: int, behind: int|
            0 <= x < w && 0 <= y < behind < h && #[trigger] gone[x][behind] ==> #[trigger] gone[x][y]),
{
    let before = tile_map(g, w, h);
    let after = tile_map(resolved_grid(g, gone, count, letters), w, h);
    let moved = moved_tiles(before, after);
    lemma_resolved_tiles(g, gone, w, h, count, letters);
    if forall|x: int, y: int, behind: int|
        0 <= x < w && 0 <= y < behind < h && #[trigger] gone[x][behind] ==> #[trigger] gone[x][y] {
        assert forall|id: u32| !moved.contains_key(id) by {
            if before.contains_key(id) && after.contains_key(id) {
                lemma_cell_of_holds(g, w, h, id);
                let c = cell_of(g, w, h, id);
                lemma_tile_map_cell(g, w, h, c.0, c.1);
                if !(gone[c.0][c.1]) {
                    assert forall|k: int| c.1 <= k < h implies !(#[trigger] gone[c.0][k]) by {}
                    lemma_cleared_none_behind(gone[c.0], c.1);
                }
            }
        }
        assert(moved =~= Map::<u32, (Int2, Int2, char)>::empty());
    } else {
        let (x, y, behind) = choose|x: int, y: int, behind: int|
            0 <= x < w && 0 <= y < behind < h && #[trigger] gone[x][behind] && !#[trigger] gone[x][y];
        lemma_cleared_one_behind(gone[x], y, behind);
        lemma_tile_map_cell(g, w, h, x, y);
        let id = g[x][y].0;
        assert(moved.contains_key(id));
    }
}

/// Tiles come, go and move together: a pass either brings new tiles, takes
/// tiles away and moves tiles, or does none of the three. This holds of every
/// pass but those that clear cells at the low ends of their columns only,
/// which move no tile.
pub proof fn lemma_changes_together(
    g: Seq<Seq<Tile>>,
    gone: Seq<Seq<bool>>,
    w: int,
    h: int,
    count: int,
    letters: Seq<char>,
)
    requires
        is_rect(g, w, h),
        is_rect(gone, w, h),
        distinct_ids(g, w, h),
        ids_at_most(g, w, h, count),
        0 <= count,
        count + cleared_before(gone, w) <= u32::MAX,
        cleared_before(gone, w) <= letters.len(),
        w <= usize::MAX,
        h <= usize::MAX,
        (exists|x: int, y: int| 0 <= x < w && 0 <= y < h && #[trigger] gone[x][y]) ==> (exists|
            x: int,
            y: int,
            behind: int,
        |
            0 <= x < w && 0 <= y < behind < h && #[trigger] gone[x][behind] && !#[trigger] gone[x][y]),
    ensures
        ({
            let before = tile_map(g, w, h);
            let after = tile_map(resolved_grid(g, gone, count, letters), w, h);
            let new_empty = new_tiles(before, after) == Map::<u32, (Int2, char)>::empty();
            let old_empty = old_tiles(before, after) == Map::<u32, (Int2, char)>::empty();
            let moved_empty = moved_tiles(before, after) == Map::<u32, (Int2, Int2, char)>::empty();
            new_empty == old_empty && old_empty == moved_empty
        }),
{
    lemma_resolved_changes(g, gone, w, h, count, letters);
    lemma_moved_none(g, gone, w, h, count, letters);
}

/// The ids of the tiles in the marked cells that lie in a column before `x`,
/// or in column `x` before place `y`.
pub open spec fn marked_ids(
    g: Seq<Seq<Tile>>,
    marks: Seq<Seq<bool>>,
    w: int,
    h: int,
    x: int,
    y: int,
) -> Set<u32> {
    Set::new(
        |id: u32|
            exists|cx: int, cy: int|
                0 <= cx < w && 0 <= cy < h && (cx < x || (cx == x && cy < y)) && marks[cx][cy] && (
                #[trigger] g[cx][cy]).0 == id,
    )
}

/// On a field without shared ids there are as many ids of tiles in marked
/// cells as there are marked cells.
pub proof fn lemma_marked_ids_count(
    g: Seq<Seq<Tile>>,
    marks: Seq<Seq<bool>>,
    w: int,
    h: int,
    x: int,
    y: int,
)
    requires
        is_rect(g, w, h),
        is_rect(marks, w, h),
        distinct_ids(g, w, h),
        0 <= h,
        (0 <= x < w && 0 <= y <= h) || (x == w && y == 0 && 0 <= w),
    ensures
        marked_ids(g, marks, w, h, x, y).finite(),
        x < w ==> marked_ids(g, marks, w, h, x, y).len() == cleared_before(marks, x) + cleared_in(
            marks[x].take(y),
        ),
        x == w ==> marked_ids(g, marks, w, h, x, y).len() == cleared_before(marks, w),
    decreases x, y,
{
    let now = marked_ids(g, marks, w, h, x, y);
    if y > 0 {
        let before = marked_ids(g, marks, w, h, x, y - 1);
        lemma_marked_ids_count(g, marks, w, h, x, y - 1);
        assert(marks[x].len() == h);
        assert(marks[x].take(y).drop_last() =~= marks[x].take(y - 1));
        assert(marks[x].take(y).last() == marks[x][y - 1]);
        let id = g[x][y - 1].0;
        if marks[x][y - 1] {
            assert(!before.contains(id)) by {
                if before.contains(id) {
                    let (cx, cy) = choose|cx: int, cy: int|
                        0 <= cx < w && 0 <= cy < h && (cx < x || (cx == x && cy < y - 1))
                            && marks[cx][cy] && (#[trigger] g[cx][cy]).0 == id;
                    assert(g[cx][cy].0 == g[x][y - 1].0);
                }
            }
            assert(now =~= before.insert(id)) by {
                assert forall|other: u32| now.contains(other) == before.insert(id).contains(
                    other,
                ) by {
                    if other == id {
                        assert(0 <= x < w && 0 <= y - 1 < h && (x < x || (x == x && y - 1 < y))
                            && marks[x][y - 1] && g[x][y - 1].0 == other);
                    }
                    if before.contains(other) {
                        let (cx, cy) = choose|cx: int, cy: int|
                            0 <= cx < w && 0 <= cy < h && (cx < x || (cx == x && cy < y - 1))
                                && marks[cx][cy] && (#[trigger] g[cx][cy]).0 == other;
                        assert(0 <= cx < w && 0 <= cy < h && (cx < x || (cx == x && cy < y))
                            && marks[cx][cy] && g[cx][cy].0 == other);
                    }
                    if now.contains(other) && other != id {
                        let (cx, cy) = choose|cx: int, cy: int|
                            0 <= cx < w && 0 <= cy < h && (cx < x || (cx == x && cy < y))
                                && marks[cx][cy] && (#[trigger] g[cx][cy]).0 == other;
                        assert(0 <= cx < w && 0 <= cy < h && (cx < x || (cx == x && cy < y - 1))
                            && marks[cx][cy] && g[cx][cy].0 == other);
                    }
                }
            }
        } else {
            assert(now =~= before) by {
                assert forall|other: u32| now.contains(other) == before.contains(other) by {
                    if before.contains(other) {
                        let (cx, cy) = choose|cx: int, cy: int|
                            0 <= cx < w && 0 <= cy < h && (cx < x || (cx == x && cy < y - 1))
                                && marks[cx][cy] && (#[trigger] g[cx][cy]).0 == other;
                        assert(0 <= cx < w && 0 <= cy < h && (cx < x || (cx == x && cy < y))
                            && marks[cx][cy] && g[cx][cy].0 == other);
                    }
                    if now.contains(other) {
                        let (cx, cy) = choose|cx: int, cy: int|
                            0 <= cx < w && 0 <= cy < h && (cx < x || (cx == x && cy < y))
                                && marks[cx][cy] && (#[trigger] g[cx][cy]).0 == other;
                        assert(0 <= cx < w && 0 <= cy < h && (cx < x || (cx == x && cy < y - 1))
                            && marks[cx][cy] && g[cx][cy].0 == other);
                    }
                }
            }
        }
    } else if x > 0 {
        let before = marked_ids(g, marks, w, h, x - 1, h);
        lemma_marked_ids_count(g, marks, w, h, x - 1, h);
        assert(marks[x - 1].len() == h);
        assert(marks[x - 1].take(h) =~= marks[x - 1]);
        if x < w {
            assert(marks[x].take(0) =~= Seq::<bool>::empty());
        }
        assert(now =~= before) by {
            assert forall|other: u32| now.contains(other) == before.contains(other) by {
                if before.contains(other) {
                    let (cx, cy) = choose|cx: int, cy: int|
                        0 <= cx < w && 0 <= cy < h && (cx < x - 1 || (cx == x - 1 && cy < h))
                            && marks[cx][cy] && (#[trigger] g[cx][cy]).0 == other;
                    assert(0 <= cx < w && 0 <= cy < h && (cx < x || (cx == x && cy < 0))
                        && marks[cx][cy] && g[cx][cy].0 == other);
                }
                if now.contains(other) {
                    let (cx, cy) = choose|cx: int, cy: int|
                        0 <= cx < w && 0 <= cy < h && (cx < x || (cx == x && cy < 0))
                            && marks[cx][cy] && (#[trigger] g[cx][cy]).0 == other;
                    assert(0 <= cx < w && 0 <= cy < h && (cx < x - 1 || (cx == x - 1 && cy < h))
                        && marks[cx][cy] && g[cx][cy].0 == other);
                }
            }
        }
    } else {
        assert(now =~= Set::<u32>::empty());
        if x < w {
            assert(marks[x].take(0) =~= Seq::<bool>::empty());
        }
    }
}

/// A pass takes away as many tiles as it clears cells.
pub proof fn lemma_old_tiles_count(
    g: Seq<Seq<Tile>>,
    gone: Seq<Seq<bool>>,
    w: int,
    h: int,
    count: int,
    letters: Seq<char>,
)
    requires
        is_rect(g, w, h),
        is_rect(gone, w, h),
        distinct_ids(g, w, h),
        ids_at_most(g, w, h, count),
        0 <= count,
        count + cleared_before(gone, w) <= u32::MAX,
        cleared_before(gone, w) <= letters.len(),
        0 <= w <= usize::MAX,
        0 <= h <= usize::MAX,
    ensures
        old_tiles(tile_map(g, w, h), tile_map(resolved_grid(g, gone, count, letters), w, h)).dom().finite(),
        old_tiles(tile_map(g, w, h), tile_map(resolved_grid(g, gone, count, letters), w, h)).len()
            == cleared_before(gone, w),
{
    let before = tile_map(g, w, h);
    let after = tile_map(resolved_grid(g, gone, count, letters), w, h);
    let left = old_tiles(before, after).dom();
    let marked = marked_ids(g, gone, w, h, w, 0);
    lemma_marked_ids_count(g, gone, w, h, w, 0);
    lemma_resolved_tiles(g, gone, w, h, count, letters);
    assert(left =~= marked) by {
        assert forall|id: u32| left.contains(id) == marked.contains(id) by {
            if marked.contains(id) {
                let (cx, cy) = choose|cx: int, cy: int|
                    0 <= cx < w && 0 <= cy < h && (cx < w || (cx == w && cy < 0)) && gone[cx][cy]
                        && (#[trigger] g[cx][cy]).0 == id;
                lemma_tile_map_cell(g, w, h, cx, cy);
                assert(!after.contains_key(g[cx][cy].0));
            }
            if left.contains(id) {
                lemma_cell_of_holds(g, w, h, id);
                let c = cell_of(g, w, h, id);
                assert(g[c.0][c.1].0 == id);
                if !gone[c.0][c.1] {
                    assert(after.contains_key(g[c.0][c.1].0));
                }
                assert(0 <= c.0 < w && 0 <= c.1 < h && (c.0 < w || (c.0 == w && c.1 < 0))
                    && gone[c.0][c.1] && g[c.0][c.1].0 == id);
            }
        }
    }
}

/// For each cell of a field after a pass whether a new tile lies in it: the
/// new tiles fill the low end of each column, as many cells as were cleared
/// in it.
pub open spec fn filled(gone: Seq<Seq<bool>>, w: int, h: int) -> Seq<Seq<bool>> {
    Seq::new(w as nat, |x: int| Seq::new(h as nat, |y: int| y < cleared_in(gone[x])))
}

/// Marks that stand in the first `k` places of a column and in no other
/// count `k`.
proof fn lemma_low_marks_count(marks: Seq<bool>, k: int)
    requires
        0 <= k <= marks.len(),
        forall|y: int| 0 <= y < marks.len() ==> #[trigger] marks[y] == (y < k),
    ensures
        cleared_in(marks) == k,
    decreases marks.len(),
{
    if marks.len() > 0 {
        let shorter = marks.drop_last();
        assert forall|y: int| 0 <= y < shorter.len() implies #[trigger] shorter[y] == marks[y] by {}
        if k == marks.len() {
            lemma_low_marks_count(shorter, k - 1);
        } else {
            lemma_low_marks_count(shorter, k);
        }
    }
}

/// Columns that have the same counts one by one have the same counts
/// together.
proof fn lemma_cleared_before_same(a: Seq<Seq<bool>>, b: Seq<Seq<bool>>, x: int)
    requires
        forall|i: int| 0 <= i < x ==> cleared_in(#[trigger] a[i]) == cleared_in(b[i]),
    ensures
        cleared_before(a, x) == cleared_before(b, x),
    decreases x,
{
    if x > 0 {
        lemma_cleared_before_same(a, b, x - 1);
        assert(cleared_in(a[x - 1]) == cleared_in(b[x - 1]));
    }
}

/// A pass brings as many new tiles as it clears cells.
pub proof fn lemma_new_tiles_count(
    g: Seq<Seq<Tile>>,
    gone: Seq<Seq<bool>>,
    w: int,
    h: int,
    count: int,
    letters: Seq<char>,
)
    requires
        is_rect(g, w, h),
        is_rect(gone, w, h),
        distinct_ids(g, w, h),
        ids_at_most(g, w, h, count),
        0 <= count,
        count + cleared_before(gone, w) <= u32::MAX,
        cleared_before(gone, w) <= letters.len(),
        0 <= w <= usize::MAX,
        0 <= h <= usize::MAX,
    ensures
        new_tiles(tile_map(g, w, h), tile_map(resolved_grid(g, gone, count, letters), w, h)).dom().finite(),
        new_tiles(tile_map(g, w, h), tile_map(resolved_grid(g, gone, count, letters), w, h)).len()
            == cleared_before(gone, w),
{
    let r = resolved_grid(g, gone, count, letters);
    let before = tile_map(g, w, h);
    let after = tile_map(r, w, h);
    let came = new_tiles(before, after).dom();
    let fresh = filled(gone, w, h);
    let marked = marked_ids(r, fresh, w, h, w, 0);
    lemma_resolved_wf(g, gone, w, h, count, letters);
    lemma_resolved_tiles(g, gone, w, h, count, letters);
    assert forall|x: int| 0 <= x < w implies cleared_in(#[trigger] fresh[x]) == cleared_in(
        gone[x],
    ) by {
        assert(gone[x].len() == h);
        lemma_cleared_in_bounds(gone[x]);
        lemma_low_marks_count(fresh[x], cleared_in(gone[x]));
    }
    lemma_cleared_before_same(fresh, gone, w);
    lemma_marked_ids_count(r, fresh, w, h, w, 0);
    assert(came =~= marked) by {
        assert forall|id: u32| came.contains(id) == marked.contains(id) by {
            if marked.contains(id) {
                let (cx, cy) = choose|cx: int, cy: int|
                    0 <= cx < w && 0 <= cy < h && (cx < w || (cx == w && cy < 0)) && fresh[cx][cy]
                        && (#[trigger] r[cx][cy]).0 == id;
                lemma_tile_map_cell(r, w, h, cx, cy);
                assert(!before.contains_key(r[cx][cy].0));
            }
            if came.contains(id) {
                lemma_cell_of_holds(r, w, h, id);
                let c = cell_of(r, w, h, id);
                lemma_resolved_cell(g, gone, w, h, count, letters, c.0, c.1);
                if c.1 >= cleared_in(gone[c.0]) {
                    let from = survivor_cell(gone[c.0], c.1 - cleared_in(gone[c.0]));
                    lemma_tile_map_cell(g, w, h, c.0, from);
                    assert(r[c.0][c.1] == g[c.0][from]);
                }
                assert(0 <= c.0 < w && 0 <= c.1 < h && (c.0 < w || (c.0 == w && c.1 < 0))
                    && fresh[c.0][c.1] && r[c.0][c.1].0 == id);
            }
        }
    }
}

} // verus!
