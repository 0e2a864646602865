//! What is kept about the matches that are on the field at the moment.

use vstd::prelude::*;
use crate::models::letterfield::{matches_view, MatchView, PlacedTile, WordMatch};
use crate::models::tile_maps::IdCounts;

verus! {

/// The ids of the tiles of a match, in their order.
pub open spec fn ids_of(tiles: Seq<PlacedTile>) -> Seq<u32> {
    Seq::new(tiles.len(), |k: int| tiles[k].0)
}

/// The ids of the tiles of all the matches, match after match. A tile that
/// lies in several matches is listed for each.
pub open spec fn tile_ids(matches: Seq<MatchView>) -> Seq<u32>
    decreases matches.len(),
{
    if matches.len() == 0 {
        Seq::empty()
    } else {
        tile_ids(matches.drop_last()) + ids_of(matches.last().tiles)
    }
}

/// How often `id` occurs in `ids`.
pub open spec fn times(ids: Seq<u32>, id: u32) -> nat
    decreases ids.len(),
{
    if ids.len() == 0 {
        0
    } else if ids.last() == id {
        times(ids.drop_last(), id) + 1
    } else {
        times(ids.drop_last(), id)
    }
}

/// For every id of `ids` the number of its occurrences.
pub open spec fn count_map(ids: Seq<u32>) -> Map<u32, usize> {
    Map::new(|id: u32| times(ids, id) > 0, |id: u32| times(ids, id) as usize)
}

/// No id occurs more often than the list is long.
pub proof fn lemma_times_bound(ids: Seq<u32>, id: u32)
    ensures
        times(ids, id) <= ids.len(),
    decreases ids.len(),
{
    if ids.len() > 0 {
        lemma_times_bound(ids.drop_last(), id);
    }
}

/// The matches on the field and, for every tile in a match, the number of
/// matches that it lies in.
#[derive(Debug)]
pub struct WordMatchesResource {
    pub matches: Vec<WordMatch>,
    pub id_counts: IdCounts,
}

impl Default for WordMatchesResource {
    fn default() -> (r: WordMatchesResource)
        ensures
            r.matches@.len() == 0,
            r.id_counts@ == Map::<u32, usize>::empty(),
    {
        WordMatchesResource { matches: Vec::new(), id_counts: IdCounts::new() }
    }
}

impl WordMatchesResource {
    /// What the resource holds is what `set_matches` made of its matches.
    pub open spec fn wf(&self) -> bool {
        self.id_counts@ == count_map(tile_ids(matches_view(self.matches@)))
    }

    /// Takes the matches and counts, for every tile, the matches that it
    /// lies in.
    pub fn set_matches(&mut self, matches: Vec<WordMatch>)
        requires
            tile_ids(matches_view(matches@)).len() <= usize::MAX,
        ensures
            final(self).matches == matches,
            final(self).id_counts@ == count_map(tile_ids(matches_view(matches@))),
            final(self).wf(),
    {
        let ghost mv = matches_view(matches@);
        let mut id_counts = IdCounts::new();
        let mut i: usize = 0;
        while i < matches.len()
            invariant
                mv == matches_view(matches@),
                i <= matches@.len(),
                tile_ids(mv).len() <= usize::MAX,
                id_counts@ == count_map(tile_ids(mv.take(i as int))),
                tile_ids(mv.take(i as int)).len() <= tile_ids(mv).len(),
            decreases matches@.len() - i,
        {
            let tiles = &matches[i].tiles;
            let ghost done = tile_ids(mv.take(i as int));
            let ghost here = ids_of(tiles@);
            proof {
                assert(mv.take(i + 1).drop_last() =~= mv.take(i as int));
                lemma_tile_ids_grow(mv, i + 1);
            }
            let mut j: usize = 0;
            while j < tiles.len()
                invariant
                    j <= tiles@.len(),
                    here == ids_of(tiles@),
                    (done + here).len() <= usize::MAX,
                    id_counts@ == count_map(done + here.take(j as int)),
                decreases tiles@.len() - j,
            {
                let id = tiles[j].0;
                let ghost seen = done + here.take(j as int);
                proof {
                    assert(seen.push(id) =~= done + here.take(j + 1));
                    assert(seen.push(id).drop_last() =~= seen);
                    lemma_times_bound(seen, id);
                }
                let n = match id_counts.get(id) {
                    Some(n) => n,
                    None => 0,
                };
                id_counts.insert(id, n + 1);
                proof {
                    assert forall|other: u32| times(seen.push(id), other) == times(seen, other) + if other
                        == id {
                        1nat
                    } else {
                        0nat
                    } by {}
                }
                j += 1;
            }
            proof {
                assert(here.take(tiles@.len() as int) =~= here);
            }
            i += 1;
        }
        proof {
            assert(mv.take(matches@.len() as int) =~= mv);
        }
        self.matches = matches;
        self.id_counts = id_counts;
    }

    /// Forgets the matches.
    pub fn clear(&mut self)
        ensures
            final(self).matches@.len() == 0,
            final(self).id_counts@ == Map::<u32, usize>::empty(),
    {
        self.matches = Vec::new();
        self.id_counts = IdCounts::new();
    }

    /// In how many matches the tile `id` lies.
    pub fn count_of(&self, id: u32) -> (n: usize)
        requires
            self.wf(),
        ensures
            n == times(tile_ids(matches_view(self.matches@)), id) as usize,
    {
        match self.id_counts.get(id) {
            Some(n) => n,
            None => 0,
        }
    }
}

/// The tiles of the first matches are among the tiles of all.
pub proof fn lemma_tile_ids_grow(matches: Seq<MatchView>, n: int)
    requires
        0 <= n <= matches.len(),
    ensures
        tile_ids(matches.take(n)).len() <= tile_ids(matches).len(),
    decreases matches.len(),
{
    if n < matches.len() {
        lemma_tile_ids_grow(matches.drop_last(), n);
        assert(matches.drop_last().take(n) =~= matches.take(n));
    } else {
        assert(matches.take(n) =~= matches);
    }
}

} // verus!
