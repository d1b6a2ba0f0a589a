use fast_approx_dtw::downsample_fns::mean_u8;
use fast_approx_dtw::loss_fns::dist_u8;
use fast_approx_dtw::{DtwSolver, Move, Path, PathPoint};

fn path_of<const N: usize>(moves: &[Move]) -> Path<N> {
    let mut path = Path::<N>::empty(false);
    for (i, m) in moves.iter().enumerate() {
        path.push(PathPoint { loss: i as u64, to_parent: *m });
    }
    path
}

#[test]
fn a_path_keeps_its_points_in_order() {
    let mut path = Path::<4>::empty(true);
    assert_eq!(0, path.len());
    assert!(path.iter().next().is_none());
    path.push(PathPoint { loss: 7, to_parent: Move::Diagonal });
    path.push(PathPoint { loss: 3, to_parent: Move::Stop });
    assert_eq!(2, path.len());
    assert_eq!(PathPoint { loss: 7, to_parent: Move::Diagonal }, path.point(0));
    assert_eq!(PathPoint { loss: 3, to_parent: Move::Stop }, path.point(1));
    let mut it = path.iter();
    assert_eq!(Some(&PathPoint { loss: 7, to_parent: Move::Diagonal }), it.next());
    assert_eq!(Some(&PathPoint { loss: 3, to_parent: Move::Stop }), it.next());
    assert_eq!(None, it.next());
    let mut back = path.iter();
    assert_eq!(Move::Stop, back.next_back().unwrap().to_parent);
}

#[test]
fn warp_copies_after_advancing() {
    let path = path_of::<9>(&[
        Move::Diagonal,
        Move::Vertical,
        Move::Diagonal,
        Move::Horizontal,
        Move::Stop,
    ]);
    assert_eq!([10, 30, 40, 40], path.warp([10, 20, 30, 40]));
}

#[test]
fn warp_leaves_unwritten_places_as_in_the_signal() {
    let path = path_of::<9>(&[Move::Vertical, Move::Vertical, Move::Diagonal, Move::Stop]);
    assert_eq!([30, 40, 30, 40], path.warp([10, 20, 30, 40]));
    let path = path_of::<9>(&[Move::Horizontal, Move::Horizontal, Move::Stop]);
    assert_eq!(['a', 'a', 'a', 'd'], path.warp(['a', 'b', 'c', 'd']));
}

#[test]
fn warp_ends_at_the_first_stop() {
    let path = path_of::<9>(&[Move::Horizontal, Move::Stop, Move::Vertical, Move::Diagonal]);
    assert_eq!([10, 10, 30, 40], path.warp([10, 20, 30, 40]));
    let none = path_of::<9>(&[]);
    assert_eq!([10, 20, 30, 40], none.warp([10, 20, 30, 40]));
    let only_stop = path_of::<9>(&[Move::Stop]);
    assert_eq!([10, 20], only_stop.warp([10, 20]));
}

#[test]
fn disparity_counts_up_minus_right() {
    let path = path_of::<9>(&[
        Move::Diagonal,
        Move::Vertical,
        Move::Diagonal,
        Move::Horizontal,
        Move::Stop,
    ]);
    assert_eq!([0i64, 1, 1, 0], path.get_disparity::<4>());
    let path = path_of::<9>(&[Move::Horizontal, Move::Horizontal, Move::Vertical, Move::Stop]);
    assert_eq!([0i64, -1, -1, 0], path.get_disparity::<4>());
    let path = path_of::<9>(&[Move::Vertical, Move::Vertical, Move::Vertical, Move::Stop]);
    assert_eq!([3i64, 0, 0, 0], path.get_disparity::<4>());
}

#[test]
fn disparity_ends_at_the_first_stop() {
    let path = path_of::<9>(&[Move::Horizontal, Move::Stop, Move::Horizontal, Move::Horizontal]);
    assert_eq!([0i64, -1, 0, 0], path.get_disparity::<4>());
    let none = path_of::<9>(&[]);
    assert_eq!([0i64, 0, 0], none.get_disparity::<3>());
}

#[test]
fn a_signal_aligned_with_itself_is_left_as_it_is() {
    let mut signal = [0u8; 64];
    let mut state = 12345u32;
    for sample in signal.iter_mut() {
        state = state.wrapping_mul(1103515245).wrapping_add(12345);
        *sample = (state >> 16) as u8;
    }
    for limit in [None, Some(0), Some(1), Some(9)] {
        let mut solver = DtwSolver::<u8, 64, 129, _, _>::new(&signal, &signal, mean_u8, dist_u8);
        if let Some(max) = limit {
            solver.limit_downsamples(max);
        }
        let path = solver.solve();
        assert_eq!(64, path.len());
        for i in 0..63 {
            assert_eq!(PathPoint { loss: 0, to_parent: Move::Diagonal }, path.point(i));
        }
        assert_eq!(PathPoint { loss: 0, to_parent: Move::Stop }, path.point(63));
        assert_eq!(signal, path.warp(signal));
        assert_eq!([0i64; 64], path.get_disparity::<64>());
    }
}

#[test]
fn the_path_of_a_solve_warps_the_first_signal() {
    let sig_y = [1u8, 3, 1, 5];
    let sig_x = [1u8, 1, 5, 1];
    let path = DtwSolver::<u8, 4, 9, _, _>::new(&sig_y, &sig_x, mean_u8, dist_u8).solve();
    assert_eq!([1u8, 1, 3, 5], path.warp(sig_y));
    assert_eq!([0i64, -1, -1, 0], path.get_disparity::<4>());
}
