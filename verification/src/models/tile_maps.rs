//! Tiles looked up by id. The maps are `bevy::utils::HashMap`s (hashbrown
//! tables with bevy's hasher). The table type has an allocator parameter
//! whose trait cannot be named from outside hashbrown, so each map is held
//! in a struct whose inside is hidden from the verifier; what it holds is
//! named here, and every call into it goes through a function of this file
//! whose contract is taken on trust.

use vstd::prelude::*;
use bevy::utils::HashMap;
use crate::models::array2d::Int2;

verus! {

/// Tiles by id, each with the cell it lies in and its letter.
#[verifier::external_body]
#[derive(Debug)]
pub struct PlacedTiles {
    map: HashMap<u32, (Int2, char)>,
}

/// Tiles by id, each with the cell it left, the cell it went to and its
/// letter.
#[verifier::external_body]
#[derive(Debug)]
pub struct MovedTiles {
    map: HashMap<u32, (Int2, Int2, char)>,
}

/// Numbers by id.
#[verifier::external_body]
#[derive(Debug)]
pub struct IdCounts {
    map: HashMap<u32, usize>,
}

/// The entries of an `IdCounts`: what the hash map holds under each id.
pub uninterp spec fn count_entries(counts: IdCounts) -> Map<u32, usize>;

/// The entries of a `PlacedTiles`: what the hash map holds under each id.
pub uninterp spec fn placed_entries(tiles: PlacedTiles) -> Map<u32, (Int2, char)>;

/// The entries of a `MovedTiles`: what the hash map holds under each id.
pub uninterp spec fn moved_entries(tiles: MovedTiles) -> Map<u32, (Int2, Int2, char)>;

impl View for PlacedTiles {
    type V = Map<u32, (Int2, char)>;

    open spec fn view(&self) -> Map<u32, (Int2, char)> {
        placed_entries(*self)
    }
}

impl View for IdCounts {
    type V = Map<u32, usize>;

    open spec fn view(&self) -> Map<u32, usize> {
        count_entries(*self)
    }
}

impl View for MovedTiles {
    type V = Map<u32, (Int2, Int2, char)>;

    open spec fn view(&self) -> Map<u32, (Int2, Int2, char)> {
        moved_entries(*self)
    }
}

/// `HashMap::default`: a map without entries.
#[verifier::external_body]
fn placed_new() -> (tiles: PlacedTiles)
    ensures
        (placed_entries(tiles) == Map::<u32, (Int2, char)>::empty()),
{
    PlacedTiles { map: HashMap::default() }
}

/// `HashMap::insert`, the returned old value dropped: afterwards the map
/// holds `(pos, letter)` under `id`, and under every other id what it held
/// before.
#[verifier::external_body]
fn placed_insert(tiles: &mut PlacedTiles, id: u32, pos: Int2, letter: char)
    ensures
        placed_entries(*final(tiles)) == placed_entries(*old(tiles)).insert(id, (pos, letter)),
{
    tiles.map.insert(id, (pos, letter));
}

/// `HashMap::get`, the value copied out: the entry under `id`, or `None`
/// where the map has none.
#[verifier::external_body]
fn placed_get(tiles: &PlacedTiles, id: u32) -> (entry: Option<(Int2, char)>)
    ensures
        entry == (if placed_entries(*tiles).contains_key(id) {
            Some(placed_entries(*tiles)[id])
        } else {
            None
        }),
{
    tiles.map.get(&id).copied()
}

/// `HashMap::is_empty`: whether the map has no entry.
#[verifier::external_body]
fn placed_is_empty(tiles: &PlacedTiles) -> (empty: bool)
    ensures
        empty == (placed_entries(*tiles) == Map::<u32, (Int2, char)>::empty()),
{
    tiles.map.is_empty()
}

/// `HashMap::default`: a map without entries.
#[verifier::external_body]
fn moved_new() -> (tiles: MovedTiles)
    ensures
        (moved_entries(tiles) == Map::<u32, (Int2, Int2, char)>::empty()),
{
    MovedTiles { map: HashMap::default() }
}

/// `HashMap::insert`, the returned old value dropped: afterwards the map
/// holds `(from, to, letter)` under `id`, and under every other id what it
/// held before.
#[verifier::external_body]
fn moved_insert(tiles: &mut MovedTiles, id: u32, from: Int2, to: Int2, letter: char)
    ensures
        moved_entries(*final(tiles)) == moved_entries(*old(tiles)).insert(id, (from, to, letter)),
{
    tiles.map.insert(id, (from, to, letter));
}

/// `HashMap::get`, the value copied out: the entry under `id`, or `None`
/// where the map has none.
#[verifier::external_body]
fn moved_get(tiles: &MovedTiles, id: u32) -> (entry: Option<(Int2, Int2, char)>)
    ensures
        entry == (if moved_entries(*tiles).contains_key(id) {
            Some(moved_entries(*tiles)[id])
        } else {
            None
        }),
{
    tiles.map.get(&id).copied()
}

/// `HashMap::is_empty`: whether the map has no entry.
#[verifier::external_body]
fn moved_is_empty(tiles: &MovedTiles) -> (empty: bool)
    ensures
        empty == (moved_entries(*tiles) == Map::<u32, (Int2, Int2, char)>::empty()),
{
    tiles.map.is_empty()
}

/// `HashMap::default`: a map without entries.
#[verifier::external_body]
fn counts_new() -> (counts: IdCounts)
    ensures
        (count_entries(counts) == Map::<u32, usize>::empty()),
{
    IdCounts { map: HashMap::default() }
}

/// `HashMap::insert`, the returned old value dropped: afterwards the map
/// holds `n` under `id`, and under every other id what it held before.
#[verifier::external_body]
fn counts_insert(counts: &mut IdCounts, id: u32, n: usize)
    ensures
        count_entries(*final(counts)) == count_entries(*old(counts)).insert(id, n),
{
    counts.map.insert(id, n);
}

/// `HashMap::get`, the value copied out: the entry under `id`, or `None`
/// where the map has none.
#[verifier::external_body]
fn counts_get(counts: &IdCounts, id: u32) -> (entry: Option<usize>)
    ensures
        entry == (if count_entries(*counts).contains_key(id) {
            Some(count_entries(*counts)[id])
        } else {
            None
        }),
{
    counts.map.get(&id).copied()
}

impl IdCounts {
    /// A map without entries.
    pub fn new() -> (counts: IdCounts)
        ensures
            (counts@ == Map::<u32, usize>::empty()),
    {
        counts_new()
    }

    /// Puts `n` under `id`, in place of a number that may have stood there.
    pub fn insert(&mut self, id: u32, n: usize)
        ensures
            final(self)@ == old(self)@.insert(id, n),
    {
        counts_insert(self, id, n)
    }

    /// The number under `id`, if the map has one.
    pub fn get(&self, id: u32) -> (entry: Option<usize>)
        ensures
            entry == (if self@.contains_key(id) {
                Some(self@[id])
            } else {
                None
            }),
    {
        counts_get(self, id)
    }
}

impl PlacedTiles {
    /// A map without entries.
    pub fn new() -> (tiles: PlacedTiles)
        ensures
            (tiles@ == Map::<u32, (Int2, char)>::empty()),
    {
        placed_new()
    }

    /// Puts the tile `id` into the map, in place of an entry that it may
    /// have had.
    pub fn insert(&mut self, id: u32, pos: Int2, letter: char)
        ensures
            final(self)@ == old(self)@.insert(id, (pos, letter)),
    {
        placed_insert(self, id, pos, letter)
    }

    /// The cell and the letter of the tile `id`, if the map has it.
    pub fn get(&self, id: u32) -> (entry: Option<(Int2, char)>)
        ensures
            entry == (if self@.contains_key(id) {
                Some(self@[id])
            } else {
                None
            }),
    {
        placed_get(self, id)
    }

    /// Whether the map has the tile `id`.
    pub fn contains_key(&self, id: u32) -> (found: bool)
        ensures
            found == self@.contains_key(id),
    {
        placed_get(self, id).is_some()
    }

    /// Whether the map has no tile.
    pub fn is_empty(&self) -> (empty: bool)
        ensures
            empty == (self@ == Map::<u32, (Int2, char)>::empty()),
    {
        placed_is_empty(self)
    }
}

impl MovedTiles {
    /// A map without entries.
    pub fn new() -> (tiles: MovedTiles)
        ensures
            (tiles@ == Map::<u32, (Int2, Int2, char)>::empty()),
    {
        moved_new()
    }

    /// Puts the tile `id` into the map, in place of an entry that it may
    /// have had.
    pub fn insert(&mut self, id: u32, from: Int2, to: Int2, letter: char)
        ensures
            final(self)@ == old(self)@.insert(id, (from, to, letter)),
    {
        moved_insert(self, id, from, to, letter)
    }

    /// The two cells and the letter of the tile `id`, if the map has it.
    pub fn get(&self, id: u32) -> (entry: Option<(Int2, Int2, char)>)
        ensures
            entry == (if self@.contains_key(id) {
                Some(self@[id])
            } else {
                None
            }),
    {
        moved_get(self, id)
    }

    /// Whether the map has the tile `id`.
    pub fn contains_key(&self, id: u32) -> (found: bool)
        ensures
            found == self@.contains_key(id),
    {
        moved_get(self, id).is_some()
    }

    /// Whether the map has no tile.
    pub fn is_empty(&self) -> (empty: bool)
        ensures
            empty == (self@ == Map::<u32, (Int2, Int2, char)>::empty()),
    {
        moved_is_empty(self)
    }
}

} // verus!
