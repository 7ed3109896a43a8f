use convrs::buffers::{
    add_at, append, append_filled, copy_block, copy_range, fill, filled, gather, rows, scatter,
    shift_in, slide_in, write_at,
};

fn plus(a: i32, b: i32) -> i32 {
    a + b
}

#[test]
fn buffers_are_made_and_filled() {
    assert_eq!(filled(3, 7u8), vec![7, 7, 7]);
    assert_eq!(filled(0, 7u8), Vec::<u8>::new());
    assert_eq!(rows(2, 3, 1i32), vec![vec![1, 1, 1], vec![1, 1, 1]]);
    let mut v = vec![1, 2, 3];
    fill(&mut v, 9);
    assert_eq!(v, vec![9, 9, 9]);
}

#[test]
fn ranges_are_copied_and_written() {
    assert_eq!(copy_range(&[1, 2, 3, 4, 5], 1, 4), vec![2, 3, 4]);
    assert_eq!(copy_range(&[1, 2, 3], 2, 2), Vec::<i32>::new());
    let mut v = vec![0; 6];
    write_at(&mut v, 2, &[7, 8, 9]);
    assert_eq!(v, vec![0, 0, 7, 8, 9, 0]);
    let mut w = vec![0; 2];
    copy_block(&mut w, &[1, 2, 3, 4, 5], 3);
    assert_eq!(w, vec![4, 5]);
    let mut out = vec![1];
    append(&mut out, &[2, 3]);
    append_filled(&mut out, 2, 0);
    assert_eq!(out, vec![1, 2, 3, 0, 0]);
}

#[test]
fn windows_slide_and_rows_shift() {
    let mut window = vec![1, 2, 3, 4, 5, 6];
    slide_in(&mut window, &[7, 8]);
    assert_eq!(window, vec![3, 4, 5, 6, 7, 8]);
    slide_in(&mut window, &[]);
    assert_eq!(window, vec![3, 4, 5, 6, 7, 8]);
    slide_in(&mut window, &[1, 2, 3, 4, 5, 6]);
    assert_eq!(window, vec![1, 2, 3, 4, 5, 6]);
    let mut row = vec![1, 2, 3, 4, 5, 6];
    shift_in(&mut row, &[7, 8]);
    assert_eq!(row, vec![7, 8, 1, 2, 3, 4]);
    shift_in(&mut row, &[9, 9, 9, 9, 9, 9]);
    assert_eq!(row, vec![9; 6]);
}

#[test]
fn blocks_are_added_in_place() {
    let mut acc = vec![1, 2, 3, 4, 5];
    add_at(&mut acc, 1, &[10, 20, 30], &plus);
    assert_eq!(acc, vec![1, 12, 23, 34, 5]);
    add_at(&mut acc, 5, &[], &plus);
    assert_eq!(acc, vec![1, 12, 23, 34, 5]);
}

#[test]
fn blocks_are_gathered_and_scattered_by_channel() {
    let history = vec![vec![1, 2, 3, 4], vec![5, 6, 7, 8]];
    let mut flat = vec![0; 4];
    gather(&mut flat, &history, 2);
    assert_eq!(flat, vec![3, 4, 7, 8]);
    let mut whole = vec![0; 8];
    gather(&mut whole, &history, 4);
    assert_eq!(whole, vec![1, 2, 3, 4, 5, 6, 7, 8]);
    let mut chunk = vec![vec![0; 2]; 2];
    scatter(&mut chunk, &flat, 2);
    assert_eq!(chunk, vec![vec![3, 4], vec![7, 8]]);
}
