use fsbitmap::FSBitmap;

fn set_positions(bitmap: &FSBitmap, n: usize) -> Vec<usize> {
    (0..n).filter(|p| bitmap.check(*p)).collect::<Vec<usize>>()
}

#[test]
fn can_build() {
    let mut bitmap = FSBitmap::new(127);
    let mut sample: Vec<usize> = vec![41, 23, 79, 63, 65, 64];
    for i in sample.iter() {
        bitmap.mark(*i)
    }
    sample.sort();
    let rng = 0..127;
    let res = rng.filter(|n| bitmap.check(*n)).collect::<Vec<usize>>();
    assert_eq!(res, sample);
}

#[test]
fn can_clone() {
    let mut original_map = FSBitmap::new(127);
    let mut sample: Vec<usize> = vec![41, 23, 79, 63, 65, 64];
    for i in sample.iter() {
        original_map.mark(*i)
    }

    let mut cloned_map = original_map.clone();

    sample.sort();

    assert_eq!(
        (0..127)
            .filter(|n| original_map.check(*n))
            .collect::<Vec<usize>>(),
        sample
    );
    assert_eq!(
        (0..127)
            .filter(|n| cloned_map.check(*n))
            .collect::<Vec<usize>>(),
        sample
    );

    cloned_map.unmark(79);
    let newsample = sample
        .iter()
        .filter(|n| **n != 79)
        .map(|n| *n)
        .collect::<Vec<usize>>();

    assert!(sample.len() != newsample.len());
    assert_eq!(
        (0..127)
            .filter(|n| original_map.check(*n))
            .collect::<Vec<usize>>(),
        sample
    );
    assert_eq!(
        (0..127)
            .filter(|n| cloned_map.check(*n))
            .collect::<Vec<usize>>(),
        newsample
    );
}

#[test]
fn new_bitmap_is_all_unset() {
    let bitmap = FSBitmap::new(20);
    assert_eq!(set_positions(&bitmap, 40), Vec::<usize>::new());
}

#[test]
fn zero_capacity_reads_nothing() {
    let mut bitmap = FSBitmap::new(0);
    assert!(!bitmap.check(0));
    bitmap.unmark(0);
    bitmap.unmark(5);
    assert!(!bitmap.check(0));
}

#[test]
fn mark_then_unmark_round_trip() {
    let mut bitmap = FSBitmap::new(10);
    for p in 0..10 {
        bitmap.mark(p);
        assert!(bitmap.check(p));
        bitmap.unmark(p);
        assert!(!bitmap.check(p));
    }
}

#[test]
fn mark_twice_same_as_once() {
    let mut once = FSBitmap::new(12);
    let mut twice = FSBitmap::new(12);
    once.mark(9);
    twice.mark(9);
    twice.mark(9);
    assert_eq!(set_positions(&once, 12), vec![9]);
    assert_eq!(set_positions(&twice, 12), vec![9]);
}

#[test]
fn unmark_twice_same_as_once() {
    let mut bitmap = FSBitmap::new(12);
    bitmap.mark(3);
    bitmap.mark(4);
    bitmap.unmark(3);
    assert_eq!(set_positions(&bitmap, 12), vec![4]);
    bitmap.unmark(3);
    assert_eq!(set_positions(&bitmap, 12), vec![4]);
}

#[test]
fn unmark_clears_only_its_own_bit() {
    let mut bitmap = FSBitmap::new(16);
    for p in 8..16 {
        bitmap.mark(p);
    }
    bitmap.unmark(13);
    assert_eq!(set_positions(&bitmap, 16), vec![8, 9, 10, 11, 12, 14, 15]);
}

#[test]
fn flip_twice_restores() {
    let mut bitmap = FSBitmap::new(9);
    bitmap.mark(2);
    bitmap.flip(2);
    assert!(!bitmap.check(2));
    bitmap.flip(2);
    assert!(bitmap.check(2));
    bitmap.flip(8);
    assert!(bitmap.check(8));
    bitmap.flip(8);
    assert!(!bitmap.check(8));
    assert_eq!(set_positions(&bitmap, 9), vec![2]);
}

#[test]
fn check_past_capacity_is_false() {
    let mut bitmap = FSBitmap::new(13);
    bitmap.mark(13);
    bitmap.mark(15);
    assert!(!bitmap.check(13));
    assert!(!bitmap.check(15));
    assert!(!bitmap.check(16));
    assert!(!bitmap.check(usize::MAX));
}

#[test]
fn unmark_at_and_past_capacity_is_safe() {
    let mut full_cells = FSBitmap::new(16);
    full_cells.mark(15);
    full_cells.unmark(16);
    full_cells.unmark(1000);
    assert_eq!(set_positions(&full_cells, 16), vec![15]);

    let mut partial = FSBitmap::new(13);
    partial.mark(12);
    partial.unmark(13);
    partial.unmark(usize::MAX);
    assert_eq!(set_positions(&partial, 13), vec![12]);
}

#[test]
fn highest_position_is_addressable() {
    let mut exact = FSBitmap::new(16);
    exact.mark(15);
    assert!(exact.check(15));
    let mut rounded = FSBitmap::new(17);
    rounded.mark(16);
    rounded.flip(23);
    assert!(rounded.check(16));
    assert_eq!(set_positions(&rounded, 24), vec![16]);
}

#[test]
fn copy_changes_do_not_reach_original() {
    let mut a = FSBitmap::new(30);
    a.mark(4);
    a.mark(20);
    let mut b = a.clone();
    b.unmark(4);
    b.mark(7);
    a.flip(29);
    assert_eq!(set_positions(&a, 30), vec![4, 20, 29]);
    assert_eq!(set_positions(&b, 30), vec![7, 20]);
}
