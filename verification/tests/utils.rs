use letterfront::models::array2d::Int2;
use letterfront::utils::{drag_axis, inv_char_pos_y, DragAxis};

#[test]
pub fn test_inv_char_pos() {
    let (w, h) = (34, 7);
    let char_pos = Int2 { x: 3, y: 6 };
    let inv = inv_char_pos_y(char_pos, w, h);
    let inv_inv = inv_char_pos_y(inv, w, h);
    assert_eq!(inv_inv, char_pos);
}

#[test]
fn inv_char_pos_y_mirrors_rows() {
    assert_eq!(
        inv_char_pos_y(Int2 { x: 3, y: 6 }, 34, 7),
        Int2 { x: 3, y: 0 }
    );
    assert_eq!(
        inv_char_pos_y(Int2 { x: 0, y: 0 }, 1, 1),
        Int2 { x: 0, y: 0 }
    );
    assert_eq!(
        inv_char_pos_y(Int2 { x: 9, y: 2 }, 10, 5),
        Int2 { x: 9, y: 2 }
    );
}

#[test]
fn drag_axis_follows_the_line_the_tile_left_on() {
    let grabbed = Int2 { x: 4, y: 4 };
    assert_eq!(
        drag_axis(grabbed, Int2 { x: 4, y: 1 }, false),
        DragAxis::Vertical
    );
    assert_eq!(
        drag_axis(grabbed, Int2 { x: 7, y: 4 }, true),
        DragAxis::Horizontal
    );
    assert_eq!(drag_axis(grabbed, grabbed, true), DragAxis::Vertical);
    assert_eq!(drag_axis(grabbed, grabbed, false), DragAxis::Horizontal);
}
