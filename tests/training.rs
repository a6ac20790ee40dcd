use matsuo::training::{sample_cell, training_examples};

#[test]
fn sample_cell_lists_nine_sides() {
    let s = sample_cell();
    assert_eq!(s.len(), 9);
    assert_eq!(s[0], (vec![-1, -1, -1], 0));
    assert_eq!(s[1], (vec![0, 0, 0], 2));
    assert_eq!(s[2], (vec![0, 0, 1], 1));
    assert_eq!(s[4], (vec![0, 1, 1], 0));
    assert_eq!(s[8], (vec![1, 1, 1], 3));
}

#[test]
fn training_examples_pair_every_side() {
    let e = training_examples();
    assert_eq!(e.len(), 81);
    assert_eq!(e[0], (vec![-1, -1, -1, -1, -1, -1], 0));
    assert_eq!(e[9 * 1 + 8], (vec![0, 0, 0, 1, 1, 1], 5));
    assert_eq!(e[80], (vec![1, 1, 1, 1, 1, 1], 6));
}
