use fast_approx_dtw::downsample_fns::mean_u8;
use fast_approx_dtw::Downsample;

#[test]
fn create_one_pairs_up_the_samples() {
    let made = Downsample::create_one(&[1u8, 3, 1, 5], 4, mean_u8).unwrap();
    assert_eq!(2, made.len);
    assert_eq!(vec![2u8, 3], made.signal);
}

#[test]
fn create_one_reads_only_the_first_len_samples() {
    let made = Downsample::create_one(&[10u8, 20, 30, 50, 7, 9, 200, 100], 6, mean_u8).unwrap();
    assert_eq!(3, made.len);
    assert_eq!(vec![15u8, 40, 8], made.signal);
}

#[test]
fn create_one_refuses_short_and_odd_lengths() {
    let signal = [1u8, 2, 3, 4, 5, 6, 7, 8];
    assert!(Downsample::create_one(&signal, 0, mean_u8).is_none());
    assert!(Downsample::create_one(&signal, 2, mean_u8).is_none());
    assert!(Downsample::create_one(&signal, 3, mean_u8).is_none());
    assert!(Downsample::create_one(&signal, 5, mean_u8).is_none());
    assert!(Downsample::create_one(&signal, 7, mean_u8).is_none());
    assert!(Downsample::create_one(&signal, 4, mean_u8).is_some());
    assert!(Downsample::create_one(&signal, 8, mean_u8).is_some());
}

#[test]
fn create_all_halves_until_short_or_odd() {
    let signal: Vec<u8> = (0u8..16).collect();
    let ladder = Downsample::create_all::<16, _>(&signal, mean_u8, None);
    assert_eq!(3, ladder.len());
    assert_eq!(8, ladder.index(0).len);
    assert_eq!(vec![0u8, 2, 4, 6, 8, 10, 12, 14], ladder.index(0).signal);
    assert_eq!(4, ladder.index(1).len);
    assert_eq!(vec![1u8, 5, 9, 13], ladder.index(1).signal);
    assert_eq!(2, ladder.index(2).len);
    assert_eq!(vec![3u8, 11], ladder.index(2).signal);
}

#[test]
fn create_all_stops_at_an_odd_level() {
    let signal = [4u8; 12];
    let ladder = Downsample::create_all::<16, _>(&signal, mean_u8, None);
    assert_eq!(2, ladder.len());
    assert_eq!(6, ladder.index(0).len);
    assert_eq!(3, ladder.index(1).len);
}

#[test]
fn create_all_obeys_limit_and_capacity() {
    let signal = [9u8; 64];
    assert_eq!(0, Downsample::create_all::<16, _>(&signal, mean_u8, Some(0)).len());
    assert_eq!(1, Downsample::create_all::<16, _>(&signal, mean_u8, Some(1)).len());
    assert_eq!(3, Downsample::create_all::<16, _>(&signal, mean_u8, Some(3)).len());
    assert_eq!(5, Downsample::create_all::<16, _>(&signal, mean_u8, Some(40)).len());
    assert_eq!(5, Downsample::create_all::<16, _>(&signal, mean_u8, None).len());
    assert_eq!(2, Downsample::create_all::<2, _>(&signal, mean_u8, None).len());
    assert_eq!(2, Downsample::create_all::<2, _>(&signal, mean_u8, Some(7)).len());
    assert_eq!(0, Downsample::create_all::<0, _>(&signal, mean_u8, None).len());
}

#[test]
fn create_all_of_a_signal_that_cannot_be_halved_is_empty() {
    assert_eq!(0, Downsample::create_all::<16, _>(&[1u8, 2, 3], mean_u8, None).len());
    assert_eq!(0, Downsample::create_all::<16, _>(&[1u8, 2, 3, 4, 5], mean_u8, None).len());
    let none: [u8; 0] = [];
    assert_eq!(0, Downsample::create_all::<16, _>(&none, mean_u8, None).len());
}
