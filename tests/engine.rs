use life_engine::dense::{
    edit_board, from_columns, new_blank_board, new_checkerboard, next_column, set_cell, shift_board,
    update_board, DenseBoard,
};
use life_engine::pattern::{import_plaintext, import_rle, load_rle, place_cells, DecodeError};
use life_engine::rules::{is_edges, Shift};
use life_engine::board::Board;
use life_engine::sparse::{get_neighbors, is_edge, LifeBoard};

fn dense_cells(b: &DenseBoard) -> Vec<(usize, usize)> {
    let n = b.size();
    let mut out = Vec::new();
    for y in 0..n + 2 {
        for x in 0..n + 2 {
            if b.is_live(x, y) {
                out.push((x, y));
            }
        }
    }
    out
}

fn sparse_cells(b: &LifeBoard) -> Vec<(usize, usize)> {
    let n = b.size();
    let mut out = Vec::new();
    for y in 0..n + 2 {
        for x in 0..n + 2 {
            if b.is_live(x, y) {
                out.push((x as usize, y as usize));
            }
        }
    }
    out
}

fn dense_from(n: usize, cells: &[(usize, usize)]) -> DenseBoard {
    let mut b = new_blank_board(n);
    for &(x, y) in cells {
        set_cell(&mut b, x, y);
    }
    b
}

#[test]
fn plaintext_example() {
    let b = import_plaintext(8, &b"!c\nO.O\n.O.\n".to_vec()).unwrap();
    assert_eq!(dense_cells(&b), vec![(1, 1), (3, 1), (2, 2)]);
}

#[test]
fn plaintext_comments_between_rows_and_clipping() {
    let b = import_plaintext(2, &b"OOO\n!OOO\n.O\nOOO".to_vec()).unwrap();
    assert_eq!(dense_cells(&b), vec![(1, 1), (2, 1), (2, 2)]);
}

#[test]
fn plaintext_empty_input() {
    let b = import_plaintext(4, &Vec::new()).unwrap();
    assert!(dense_cells(&b).is_empty());
}

#[test]
fn rle_glider_is_offset_into_interior() {
    let r = import_rle(6, &b"x = 3, y = 3\nbo$2bo$3o!\n".to_vec()).unwrap();
    assert_eq!(dense_cells(&r), vec![(2, 1), (3, 2), (1, 3), (2, 3), (3, 3)]);
}

#[test]
fn rle_cells_beyond_interior_are_dropped() {
    let r = import_rle(2, &b"x = 3, y = 1\n3o!\n".to_vec()).unwrap();
    assert_eq!(dense_cells(&r), vec![(1, 1), (2, 1)]);
}

#[test]
fn rle_malformed_keeps_board() {
    let mut b = new_checkerboard(4);
    let before = dense_cells(&b);
    assert_eq!(load_rle(&mut b, &b"x = 3, y = 3\nbo$2bz".to_vec()), Err(DecodeError::InvalidRle));
    assert_eq!(dense_cells(&b), before);
    assert_eq!(load_rle(&mut b, &b"x = q\nbo!".to_vec()), Err(DecodeError::InvalidRle));
    assert_eq!(dense_cells(&b), before);
}

#[test]
fn rle_load_replaces_board() {
    let mut b = new_checkerboard(4);
    assert_eq!(load_rle(&mut b, &b"2o!".to_vec()), Ok(()));
    assert_eq!(dense_cells(&b), vec![(1, 1), (2, 1)]);
}

#[test]
fn place_cells_drops_negative_and_far_positions() {
    let b = place_cells(3, &vec![(0, 0), (-1, 0), (2, 2), (3, 0), (1, 5)]);
    assert_eq!(dense_cells(&b), vec![(1, 1), (3, 3)]);
}

#[test]
fn checkerboard_has_even_sums_only() {
    let n = 5;
    let d = new_checkerboard(n);
    let s = LifeBoard::new_checkerboard(n as u32);
    for x in 0..n + 2 {
        for y in 0..n + 2 {
            let want = x >= 1 && x <= n && y >= 1 && y <= n && (x + y) % 2 == 0;
            assert_eq!(d.is_live(x, y), want);
            assert_eq!(s.is_live(x as u32, y as u32), want);
        }
    }
}

#[test]
fn blinker_oscillates() {
    let mut b = dense_from(5, &[(2, 3), (3, 3), (4, 3)]);
    update_board(&mut b);
    assert_eq!(dense_cells(&b), vec![(3, 2), (3, 3), (3, 4)]);
    update_board(&mut b);
    assert_eq!(dense_cells(&b), vec![(2, 3), (3, 3), (4, 3)]);
}

#[test]
fn survival_and_birth_rule() {
    // an L of three cells becomes a block
    let mut b = dense_from(4, &[(1, 1), (2, 1), (1, 2)]);
    update_board(&mut b);
    assert_eq!(dense_cells(&b), vec![(1, 1), (2, 1), (1, 2), (2, 2)]);
    // a lone cell dies
    let mut c = dense_from(4, &[(2, 2)]);
    update_board(&mut c);
    assert!(dense_cells(&c).is_empty());
}

#[test]
fn border_never_wraps() {
    // a blinker on the edge loses the cells that would lie on the border
    let mut b = dense_from(3, &[(1, 1), (1, 2), (1, 3)]);
    update_board(&mut b);
    assert_eq!(dense_cells(&b), vec![(1, 2), (2, 2)]);
    let mut s = LifeBoard::from_cells(3, &vec![(1, 1), (1, 2), (1, 3)]);
    s.update();
    assert_eq!(sparse_cells(&s), vec![(1, 2), (2, 2)]);
}

#[test]
fn dead_board_stays_dead() {
    let mut b = new_blank_board(6);
    update_board(&mut b);
    assert!(dense_cells(&b).is_empty());
    let mut s = LifeBoard::from_cells(6, &Vec::new());
    s.update();
    assert!(sparse_cells(&s).is_empty());
}

#[test]
fn dense_and_sparse_agree_over_fifty_generations() {
    let n = 12;
    let mut seed = Vec::new();
    let mut v: u32 = 12345;
    for _ in 0..60 {
        v = v.wrapping_mul(1103515245).wrapping_add(12345);
        let x = (v >> 8) % 14;
        let y = (v >> 20) % 14;
        seed.push((x, y));
    }
    let mut s = LifeBoard::from_cells(n as u32, &seed);
    let usize_seed: Vec<(usize, usize)> = seed
        .iter()
        .filter(|&&(x, y)| x >= 1 && y >= 1 && x as usize <= n && y as usize <= n)
        .map(|&(x, y)| (x as usize, y as usize))
        .collect();
    let mut d = dense_from(n, &usize_seed);
    for _ in 0..=50 {
        assert_eq!(dense_cells(&d), sparse_cells(&s));
        update_board(&mut d);
        s.update();
    }
}

#[test]
fn checkerboards_agree_when_stepped() {
    let mut d = new_checkerboard(9);
    let mut s = LifeBoard::new_checkerboard(9);
    for _ in 0..10 {
        assert_eq!(dense_cells(&d), sparse_cells(&s));
        update_board(&mut d);
        s.update();
    }
}

#[test]
fn shift_round_trip_loses_top_rows() {
    let n = 5;
    let mut b = new_checkerboard(n);
    let orig = dense_cells(&b);
    shift_board(&mut b, Shift::Up(2));
    shift_board(&mut b, Shift::Down(2));
    for x in 1..=n {
        for y in 1..=n {
            let want = y > 2 && orig.contains(&(x, y));
            assert_eq!(b.is_live(x, y), want);
        }
    }
}

#[test]
fn shifts_in_each_direction() {
    let mut b = dense_from(4, &[(2, 2)]);
    shift_board(&mut b, Shift::Right(1));
    assert_eq!(dense_cells(&b), vec![(3, 2)]);
    shift_board(&mut b, Shift::Down(2));
    assert_eq!(dense_cells(&b), vec![(3, 4)]);
    shift_board(&mut b, Shift::Left(2));
    assert_eq!(dense_cells(&b), vec![(1, 4)]);
    shift_board(&mut b, Shift::Up(1));
    assert_eq!(dense_cells(&b), vec![(1, 3)]);
    shift_board(&mut b, Shift::Left(1));
    assert!(dense_cells(&b).is_empty());
}

#[test]
fn shift_by_huge_distance_clears() {
    let mut b = new_checkerboard(4);
    shift_board(&mut b, Shift::Up(usize::MAX));
    assert!(dense_cells(&b).is_empty());
}

#[test]
fn edit_toggles_and_ignores_border() {
    let mut b = new_blank_board(3);
    edit_board(&mut b, 2, 3);
    assert_eq!(dense_cells(&b), vec![(2, 3)]);
    edit_board(&mut b, 2, 3);
    assert!(dense_cells(&b).is_empty());
    edit_board(&mut b, 0, 1);
    edit_board(&mut b, 4, 1);
    edit_board(&mut b, 1, 100);
    assert!(dense_cells(&b).is_empty());
}

#[test]
fn neighbors_and_edges() {
    let nb = get_neighbors(&(5, 7));
    assert_eq!(nb, [(4, 6), (5, 6), (6, 6), (6, 7), (6, 8), (5, 8), (4, 8), (4, 7)]);
    assert!(is_edge(10, &(0, 3)));
    assert!(is_edge(10, &(3, 11)));
    assert!(!is_edge(10, &(10, 10)));
    assert!(is_edges(10, 11, 4));
    assert!(!is_edges(10, 1, 1));
}

#[test]
fn column_step_matches_sequential_step() {
    let mut seq = new_checkerboard(7);
    edit_board(&mut seq, 4, 4);
    let mut cols_board = new_checkerboard(7);
    edit_board(&mut cols_board, 4, 4);
    for _ in 0..5 {
        let cols: Vec<Vec<bool>> = (1..=7).map(|x| next_column(&cols_board, x)).collect();
        cols_board = from_columns(7, &cols);
        update_board(&mut seq);
        assert_eq!(dense_cells(&seq), dense_cells(&cols_board));
    }
}

#[test]
fn live_cells_lists_every_live_cell() {
    let b = dense_from(4, &[(2, 1), (1, 3), (4, 4)]);
    assert_eq!(b.live_cells(), vec![(1, 3), (2, 1), (4, 4)]);
}

#[test]
fn density_counts_cells_per_bucket() {
    // 5 x 5 interior in 2 x 2 buckets: 3 buckets a side
    let s = LifeBoard::from_cells(5, &vec![(1, 1), (2, 2), (2, 1), (5, 5), (3, 4), (4, 3)]);
    let d = s.density(2);
    assert_eq!(d.len(), 9);
    assert_eq!(d, vec![3, 0, 0, 0, 2, 0, 0, 0, 1]);
    let full = LifeBoard::new_checkerboard(4).density(4);
    assert_eq!(full, vec![8]);
    let single = LifeBoard::new_checkerboard(2).density(1);
    assert_eq!(single, vec![1, 0, 0, 1]);
}

#[test]
fn sparse_frontier_births_on_empty_neighbourhood() {
    // three in a row: births above and below the middle cell
    let mut s = LifeBoard::from_cells(5, &vec![(2, 3), (3, 3), (4, 3), (4, 3)]);
    s.update();
    assert_eq!(sparse_cells(&s), vec![(3, 2), (3, 3), (3, 4)]);
}

#[test]
fn rle_outside_decoder_limits_is_refused() {
    let mut b = new_checkerboard(4);
    let before = dense_cells(&b);
    for input in [
        &b"1234567890o!"[..],
        &b"12345\n#o\n67890o!"[..],
        &b"#CXRLE Pos=9223372036854775807,0\n3o!"[..],
        &b"yPo!"[..],
        &b"xAyP"[..],
        &b"2o$y 3\n#c\nX!"[..],
    ] {
        assert_eq!(load_rle(&mut b, &input.to_vec()), Err(DecodeError::OutOfLimits));
        assert_eq!(dense_cells(&b), before);
    }
    assert!(import_rle(4, &b"123456789b2o!".to_vec()).is_ok());
}

fn snapshot<B: Board>(b: &B, n: usize) -> Vec<(usize, usize)> {
    let mut out = Vec::new();
    for x in 0..n + 2 {
        for y in 0..n + 2 {
            if b.alive_at(x, y) {
                out.push((x, y));
            }
        }
    }
    out
}

#[test]
fn both_boards_step_alike_through_the_shared_interface() {
    let n = 10;
    let glider = vec![(2, 1), (3, 2), (1, 3), (2, 3), (3, 3)];
    let mut d = dense_from(n, &glider);
    let mut s = LifeBoard::from_cells(n as u32, &glider.iter().map(|&(x, y)| (x as u32, y as u32)).collect());
    for _ in 0..40 {
        assert_eq!(snapshot(&d, n), snapshot(&s, n));
        d.step();
        s.step();
    }
    // the glider has run into the corner and settled into a block
    assert_eq!(snapshot(&d, n), vec![(9, 9), (9, 10), (10, 9), (10, 10)]);
}

#[test]
fn rle_within_decoder_limits_is_read() {
    let b = import_rle(4, &b"yAo!".to_vec()).unwrap();
    assert_eq!(dense_cells(&b), vec![(1, 1), (2, 1)]);
    let c = import_rle(4, &b"#CX note\nx=2, y=1\n2o!".to_vec()).unwrap();
    assert_eq!(dense_cells(&c), vec![(1, 1), (2, 1)]);
    let d = import_rle(4, &b"#C ten digits in a comment: 1234567890\no!".to_vec()).unwrap();
    assert_eq!(dense_cells(&d), vec![(1, 1)]);
}

#[test]
fn plaintext_columns_count_characters() {
    let b = import_plaintext(4, &"\u{e9}O\n\u{20ac}.O".as_bytes().to_vec()).unwrap();
    assert_eq!(dense_cells(&b), vec![(2, 1), (3, 2)]);
}

#[test]
fn plaintext_invalid_utf8_is_refused() {
    assert_eq!(
        import_plaintext(4, &vec![0x4f, 0xff, 0x0a, 0x4f]).err(),
        Some(DecodeError::InvalidText)
    );
}

#[test]
fn rle_listing_too_many_cells_is_refused() {
    assert_eq!(import_rle(4, &b"999999999o!".to_vec()).err(), Some(DecodeError::OutOfLimits));
    assert_eq!(import_rle(4, &b"4000000o$4000000o!".to_vec()).err(), Some(DecodeError::OutOfLimits));
    let b = import_rle(4, &b"1000o!".to_vec()).unwrap();
    assert_eq!(dense_cells(&b), vec![(1, 1), (2, 1), (3, 1), (4, 1)]);
}

#[test]
fn rle_prefix_run_count_starts_at_one() {
    // after a state prefix the pending count is 1, so `p5A` is a run of 15
    let b = import_rle(20, &b"p5A!".to_vec()).unwrap();
    let want: Vec<(usize, usize)> = (1..=15).map(|x| (x, 1)).collect();
    assert_eq!(dense_cells(&b), want);
}
