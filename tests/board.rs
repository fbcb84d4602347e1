use tile_game::board::Board;

#[test]
fn test_board_permute() {
    let a1 = Board::new(vec![0, 1, 2, 3], &(2, 2));
    let a2 = Board::new(vec![1, 0, 2, 3], &(2, 2));
    let a3 = a1.permute(&[0, 0], &[0, 1]);
    assert_eq!(a2, a3);
}

#[test]
fn test_permute() {
    let a1 = Board::new(vec![0, 1, 2, 3], &(2, 2));
    let a2 = Board::new(vec![1, 0, 2, 3], &(2, 2));
    let a3 = a1.permute(&[0, 0], &[0, 1]);
    assert_eq!(a2, a3);
}

#[test]
fn corner_blank_has_two_slides() {
    let b = Board::new((0..9).collect(), &(3, 3));
    let next = b.slide_iter();
    assert_eq!(
        next,
        vec![
            Board::new(vec![3, 1, 2, 0, 4, 5, 6, 7, 8], &(3, 3)),
            Board::new(vec![1, 0, 2, 3, 4, 5, 6, 7, 8], &(3, 3)),
        ]
    );
}

#[test]
fn centre_blank_has_four_slides_in_order() {
    let b = Board::new(vec![1, 2, 3, 4, 0, 5, 6, 7, 8], &(3, 3));
    let next = b.slide_iter();
    assert_eq!(
        next,
        vec![
            Board::new(vec![1, 0, 3, 4, 2, 5, 6, 7, 8], &(3, 3)),
            Board::new(vec![1, 2, 3, 4, 7, 5, 6, 0, 8], &(3, 3)),
            Board::new(vec![1, 2, 3, 0, 4, 5, 6, 7, 8], &(3, 3)),
            Board::new(vec![1, 2, 3, 4, 5, 0, 6, 7, 8], &(3, 3)),
        ]
    );
}

#[test]
fn single_cell_board_has_no_slides() {
    let b = Board::new(vec![0], &(1, 1));
    assert!(b.slide_iter().is_empty());
}

#[test]
fn rectangular_board_slides() {
    // Two rows, three columns, blank at row 1, column 2.
    let b = Board::new(vec![1, 2, 3, 4, 5, 0], &(2, 3));
    assert_eq!(
        b.slide_iter(),
        vec![
            Board::new(vec![1, 2, 0, 4, 5, 3], &(2, 3)),
            Board::new(vec![1, 2, 3, 4, 0, 5], &(2, 3)),
        ]
    );
}
