use fast_approx_dtw::downsample_fns::{downsample_fn, mean, mean_u8};
use fast_approx_dtw::loss_fns::{dist_u8, err_fn, summed_dist_u8};

#[test]
fn mean_u8_rounds_down_and_does_not_overflow() {
    assert_eq!(2, mean_u8(&1, &3));
    assert_eq!(3, mean_u8(&1, &5));
    assert_eq!(2, mean_u8(&2, &3));
    assert_eq!(255, mean_u8(&255, &255));
    assert_eq!(127, mean_u8(&255, &0));
    assert_eq!(0, mean_u8(&0, &0));
}

#[test]
fn mean_works_place_by_place() {
    assert_eq!([2, 127, 255], mean(&[1, 255, 255], &[3, 0, 255]));
    let none: [u8; 0] = [];
    assert_eq!(none, mean(&none, &none));
}

#[test]
fn downsample_fn_halves_before_adding() {
    assert_eq!(1, downsample_fn(&1, &3));
    assert_eq!(2, downsample_fn(&2, &3));
    assert_eq!(254, downsample_fn(&255, &255));
    assert_eq!(0, downsample_fn(&1, &1));
}

#[test]
fn dist_u8_is_the_absolute_difference() {
    assert_eq!(0, dist_u8(&7, &7));
    assert_eq!(4, dist_u8(&1, &5));
    assert_eq!(4, dist_u8(&5, &1));
    assert_eq!(255, dist_u8(&0, &255));
    assert_eq!(255, dist_u8(&255, &0));
    assert_eq!(4, err_fn(&5, &1));
    assert_eq!(255, err_fn(&0, &255));
}

#[test]
fn summed_dist_u8_adds_the_distances() {
    assert_eq!(0, summed_dist_u8(&[1, 2, 3], &[1, 2, 3]));
    assert_eq!(1 + 253 + 3, summed_dist_u8(&[1, 255, 3], &[2, 2, 0]));
    assert_eq!(765, summed_dist_u8(&[0, 0, 0], &[255, 255, 255]));
    let none: [u8; 0] = [];
    assert_eq!(0, summed_dist_u8(&none, &none));
}
