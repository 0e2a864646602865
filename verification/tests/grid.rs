use letterfront::models::array2d::{Array2D, Int2};

fn number_array(width: usize, height: usize) -> Array2D<i32> {
    let mut c = 0;
    let cols: Vec<Vec<i32>> = (0..width)
        .map(|_| {
            (0..height)
                .map(|_| {
                    c += 1;
                    c
                })
                .collect()
        })
        .collect();

    Array2D::try_from(cols).unwrap()
}

#[test]
fn array2d_construction() {
    let broken_cols = vec![vec![0, 1], vec![0, 1, 2], vec![0, 1, 2]];
    assert!(Array2D::try_from(broken_cols).is_err());

    let cols = vec![vec![0, 1, 2], vec![0, 1, 2], vec![0, 1, 2]];
    let arr = Array2D::try_from(cols).unwrap();
    let transposed_cols = arr.transpose().cols;
    assert_eq!(
        transposed_cols,
        vec![vec![0, 0, 0], vec![1, 1, 1], vec![2, 2, 2]]
    )
}

#[test]
fn array2d_rows_cols_diags() {
    let arr = number_array(7, 4);
    // A B C D E _ _
    // X A B C D E _
    // _ X A B C D E
    // _ _ X A B C D
    assert_eq!(arr.diags(3).len(), 6);
    assert_eq!(arr.diags(4).len(), 4);

    assert_eq!(arr.rows().len(), 4);
    assert_eq!(arr.cols().len(), 7);
}

#[test]
fn int2_from_pair() {
    assert_eq!(Int2::from((3, 4)), Int2 { x: 3, y: 4 });
    assert_eq!(Int2 { x: 1, y: 2 }.with_x(5), Int2 { x: 5, y: 2 });
    assert_eq!(Int2 { x: 1, y: 2 }.with_y(5), Int2 { x: 1, y: 5 });
}

fn letters() -> Array2D<char> {
    // a d g
    // b e h
    // c f i
    Array2D::try_from(vec![
        vec!['a', 'b', 'c'],
        vec!['d', 'e', 'f'],
        vec!['g', 'h', 'i'],
    ])
    .unwrap()
}

#[test]
fn try_from_of_no_columns_is_an_empty_grid() {
    let arr: Array2D<i32> = Array2D::try_from(vec![]).unwrap();
    assert_eq!((arr.width, arr.height), (0, 0));
    assert!(arr.rows().is_empty());
    assert!(arr.cols().is_empty());
    assert!(arr.diags(0).is_empty());
    assert!(arr.iter().is_empty());
}

#[test]
fn try_from_takes_the_height_of_the_columns() {
    let arr = Array2D::try_from(vec![vec![1, 2], vec![3, 4], vec![5, 6]]).unwrap();
    assert_eq!((arr.width, arr.height), (3, 2));
    assert!(Array2D::try_from(vec![vec![1], vec![]]).is_err());
    assert!(Array2D::try_from(vec![vec![], vec![1]]).is_err());
}

#[test]
fn transpose_twice_gives_the_grid_back() {
    let arr = number_array(5, 3);
    let there = arr.transpose();
    assert_eq!((there.width, there.height), (3, 5));
    assert_eq!(there.transpose(), arr);

    let empty: Array2D<i32> = Array2D::try_from(vec![vec![], vec![]]).unwrap();
    let there = empty.transpose();
    assert_eq!((there.width, there.height), (0, 2));
    assert_eq!(there.transpose(), empty);
}

#[test]
fn get_and_set_reach_one_cell() {
    let mut arr = letters();
    assert_eq!(*arr.get(Int2 { x: 2, y: 1 }), 'h');
    arr.set(Int2 { x: 2, y: 1 }, 'z');
    assert_eq!(*arr.get(Int2 { x: 2, y: 1 }), 'z');
    assert_eq!(
        arr.cols,
        vec![
            vec!['a', 'b', 'c'],
            vec!['d', 'e', 'f'],
            vec!['g', 'z', 'i'],
        ]
    );
}

#[test]
fn rows_and_cols_come_with_their_first_cell() {
    let arr = letters();
    assert_eq!(
        arr.rows(),
        vec![
            (vec!['a', 'd', 'g'], Int2 { x: 0, y: 0 }),
            (vec!['b', 'e', 'h'], Int2 { x: 0, y: 1 }),
            (vec!['c', 'f', 'i'], Int2 { x: 0, y: 2 }),
        ]
    );
    assert_eq!(
        arr.cols(),
        vec![
            (vec!['a', 'b', 'c'], Int2 { x: 0, y: 0 }),
            (vec!['d', 'e', 'f'], Int2 { x: 1, y: 0 }),
            (vec!['g', 'h', 'i'], Int2 { x: 2, y: 0 }),
        ]
    );
}

#[test]
fn diags_start_on_the_left_then_on_the_top() {
    let arr = letters();
    assert_eq!(
        arr.diags(2),
        vec![
            (vec!['a', 'e', 'i'], Int2 { x: 0, y: 0 }),
            (vec!['b', 'f'], Int2 { x: 0, y: 1 }),
            (vec!['d', 'h'], Int2 { x: 1, y: 0 }),
        ]
    );
    assert_eq!(arr.diags(3), vec![(vec!['a', 'e', 'i'], Int2 { x: 0, y: 0 })]);
    assert!(arr.diags(4).is_empty());
    // Every diagonal has a cell, so asking for none or one is the same.
    assert_eq!(arr.diags(0), arr.diags(1));
    assert_eq!(arr.diags(1).len(), 5);
}

#[test]
fn diags_of_a_narrow_grid_are_short() {
    // Two columns of five cells have no diagonal of three cells.
    let arr = number_array(2, 5);
    assert!(arr.diags(3).is_empty());
    assert_eq!(arr.diags(2).len(), 4);
    let wide = number_array(5, 2);
    assert!(wide.diags(3).is_empty());
    assert_eq!(wide.diags(2).len(), 4);
}

#[test]
fn iter_goes_column_after_column() {
    let arr = Array2D::try_from(vec![vec![1, 2], vec![3, 4], vec![5, 6]]).unwrap();
    assert_eq!(
        arr.iter(),
        vec![
            (Int2 { x: 0, y: 0 }, 1),
            (Int2 { x: 0, y: 1 }, 2),
            (Int2 { x: 1, y: 0 }, 3),
            (Int2 { x: 1, y: 1 }, 4),
            (Int2 { x: 2, y: 0 }, 5),
            (Int2 { x: 2, y: 1 }, 6),
        ]
    );
}
