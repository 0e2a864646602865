//! Helpers for the side that shows the field.

use vstd::prelude::*;
use crate::models::array2d::Int2;

verus! {

/// The cell that mirrors `char_pos` top to bottom in a field of height `h`.
pub open spec fn flipped_y(char_pos: Int2, h: usize) -> Int2 {
    Int2 { x: char_pos.x, y: (h - char_pos.y - 1) as usize }
}

/// Mirrors a cell top to bottom: the field counts `y` from one edge and the
/// picture of it from the other. The width `w` plays no part.
pub fn inv_char_pos_y(char_pos: Int2, w: usize, h: usize) -> (r: Int2)
    requires
        char_pos.y < h,
    ensures
        r == flipped_y(char_pos, h),
        r.y < h,
{
    Int2 { x: char_pos.x, y: h - char_pos.y - 1 }
}

/// Mirroring a cell twice gives the cell back.
pub proof fn lemma_flipped_twice(char_pos: Int2, h: usize)
    requires
        char_pos.y < h,
    ensures
        flipped_y(char_pos, h).y < h,
        flipped_y(flipped_y(char_pos, h), h) == char_pos,
{
}

/// The line along which a grabbed tile is dragged.
#[derive(Debug, Clone, Copy, PartialEq, Eq, Structural)]
pub enum DragAxis {
    /// Within its column.
    Vertical,
    /// Within its row.
    Horizontal,
}

/// The axis that `drag_axis` picks.
pub open spec fn picked_axis(grabbed: Int2, current: Int2, vertical_is_nearer: bool) -> DragAxis {
    if current.y != grabbed.y {
        DragAxis::Vertical
    } else if current.x != grabbed.x {
        DragAxis::Horizontal
    } else if vertical_is_nearer {
        DragAxis::Vertical
    } else {
        DragAxis::Horizontal
    }
}

/// Along which line a grabbed tile is dragged. A tile that has left the
/// cell `grabbed` where it was picked up stays on the line on which it left
/// it. While it is still in that cell the pointer decides: the line that it
/// is nearer to, which the caller tells with `vertical_is_nearer`.
pub fn drag_axis(grabbed: Int2, current: Int2, vertical_is_nearer: bool) -> (axis: DragAxis)
    requires
        grabbed.x == current.x || grabbed.y == current.y,
    ensures
        axis == picked_axis(grabbed, current, vertical_is_nearer),
        axis == DragAxis::Vertical ==> current.x == grabbed.x,
        axis == DragAxis::Horizontal ==> current.y == grabbed.y,
{
    if current.y != grabbed.y {
        DragAxis::Vertical
    } else if current.x != grabbed.x {
        DragAxis::Horizontal
    } else if vertical_is_nearer {
        DragAxis::Vertical
    } else {
        DragAxis::Horizontal
    }
}

} // verus!
