use fast_approx_dtw::downsample_fns::mean_u8;
use fast_approx_dtw::grid::Grid;
use fast_approx_dtw::loss_fns::dist_u8;
use fast_approx_dtw::model::INFINITY;
use fast_approx_dtw::{DtwSolver, Move, Path, PathPoint};

fn pp(loss: u64, to_parent: Move) -> PathPoint {
    PathPoint { loss, to_parent }
}

fn loss_rows<const N: usize, const M: usize, D, L>(
    solver: &DtwSolver<u8, N, M, D, L>,
) -> Vec<Vec<u64>>
where
    D: Fn(&u8, &u8) -> u8,
    L: Fn(&u8, &u8) -> u32,
{
    (0..N).map(|y| (0..N).map(|x| solver.loss_at(y, x)).collect()).collect()
}

#[test]
fn a_grid_holds_what_was_set() {
    let mut grid = Grid::new(3, 7u64);
    assert_eq!(3, grid.side_len());
    assert_eq!(7, grid.get(2, 1));
    grid.set(2, 1, 9);
    grid.set(0, 0, 1);
    assert_eq!(9, grid.get(2, 1));
    assert_eq!(1, grid.get(0, 0));
    assert_eq!(7, grid.get(1, 2));
    assert_eq!(7, grid.get(2, 2));
    assert_eq!(0, Grid::new(0, 0u64).side_len());
}

#[test]
fn a_new_solver_holds_infinity_everywhere() {
    let solver = DtwSolver::<u8, 2, 3, _, _>::new(&[1, 2], &[3, 4], mean_u8, dist_u8);
    for y in 0..2 {
        for x in 0..2 {
            assert_eq!(INFINITY, solver.loss_at(y, x));
            assert_eq!(pp(INFINITY, Move::Stop), solver.route_at(y, x));
        }
    }
}

#[test]
fn a_loss_cell_adds_the_least_of_its_three_neighbours() {
    let sig_y = [1u8, 3, 1, 5];
    let sig_x = [1u8, 1, 5, 1];
    let mut solver = DtwSolver::<u8, 4, 9, _, _>::new(&sig_y, &sig_x, mean_u8, dist_u8);
    solver.calc_loss_cell(0, 0);
    assert_eq!(0, solver.loss_at(0, 0));
    solver.calc_loss_cell(0, 2);
    assert_eq!(4, solver.loss_at(0, 2));
    solver.calc_loss_cell(1, 1);
    assert_eq!(2, solver.loss_at(1, 1));
    solver.calc_loss_cell(2, 2);
    assert_eq!(4 + 2, solver.loss_at(2, 2));
    solver.calc_loss_cell(3, 3);
    assert_eq!(4 + 6, solver.loss_at(3, 3));
    solver.calc_loss_cell(1, 2);
    assert_eq!(2 + 2, solver.loss_at(1, 2));
    solver.calc_loss_cell(2, 3);
    assert_eq!(0 + 4, solver.loss_at(2, 3));
    assert_eq!(INFINITY, solver.loss_at(3, 0));
}

#[test]
fn the_whole_square_is_filled_row_by_row() {
    let sig_y = [1u8, 3, 1, 5];
    let sig_x = [1u8, 1, 5, 1];
    let mut solver = DtwSolver::<u8, 4, 9, _, _>::new(&sig_y, &sig_x, mean_u8, dist_u8);
    solver.map_losses(&None);
    assert_eq!(
        vec![vec![0, 0, 4, 4], vec![2, 2, 2, 4], vec![2, 2, 6, 2], vec![6, 6, 2, 6]],
        loss_rows(&solver)
    );
    solver.map_paths(&None);
    let h = Move::Horizontal;
    let v = Move::Vertical;
    let d = Move::Diagonal;
    let expected = [
        [pp(10, h), pp(10, d), pp(14, v), pp(16, v)],
        [pp(12, d), pp(12, v), pp(10, d), pp(12, v)],
        [pp(12, h), pp(10, d), pp(12, d), pp(8, v)],
        [pp(20, h), pp(14, h), pp(8, h), pp(6, Move::Stop)],
    ];
    for y in 0..4 {
        for x in 0..4 {
            assert_eq!(expected[y][x], solver.route_at(y, x));
        }
    }
}

#[test]
fn the_band_is_filled_and_fenced() {
    let sig_y = [1u8, 3, 1, 5];
    let sig_x = [1u8, 1, 5, 1];
    let mut guide = Path::<9>::empty(false);
    guide.push(pp(0, Move::Diagonal));
    guide.push(pp(0, Move::Stop));
    let guide = Some(guide);
    let mut solver = DtwSolver::<u8, 4, 9, _, _>::new(&sig_y, &sig_x, mean_u8, dist_u8);
    solver.map_losses(&None);
    solver.map_losses(&guide);
    let inf = INFINITY;
    assert_eq!(
        vec![vec![0, 0, inf, 4], vec![2, 2, 2, inf], vec![inf, 2, 6, 2], vec![6, inf, 2, 6]],
        loss_rows(&solver)
    );
    let mut fresh = DtwSolver::<u8, 4, 9, _, _>::new(&sig_y, &sig_x, mean_u8, dist_u8);
    fresh.map_losses(&guide);
    fresh.map_paths(&guide);
    assert_eq!(pp(10, Move::Horizontal), fresh.route_at(0, 0));
    assert_eq!(pp(10, Move::Diagonal), fresh.route_at(1, 2));
    assert_eq!(pp(12, Move::Vertical), fresh.route_at(1, 1));
    assert_eq!(pp(6, Move::Stop), fresh.route_at(3, 3));
    assert_eq!(pp(INFINITY, Move::Stop), fresh.route_at(0, 2));
    assert_eq!(pp(INFINITY, Move::Stop), fresh.route_at(3, 0));
}

#[test]
fn a_vertical_guide_marks_the_cells_beside_the_band() {
    let sig_y = [0u8, 0, 0, 0, 0, 0];
    let sig_x = [0u8, 0, 0, 0, 0, 0];
    let one = |_: &u8, _: &u8| 1u32;
    let mut guide = Path::<13>::empty(false);
    guide.push(pp(0, Move::Horizontal));
    guide.push(pp(0, Move::Vertical));
    guide.push(pp(0, Move::Vertical));
    guide.push(pp(0, Move::Horizontal));
    guide.push(pp(0, Move::Stop));
    let guide = Some(guide);
    let mut solver = DtwSolver::<u8, 6, 13, _, _>::new(&sig_y, &sig_x, mean_u8, one);
    for y in 0..6 {
        for x in 0..6 {
            solver.calc_loss_cell(y, x);
        }
    }
    let before = loss_rows(&solver);
    solver.map_losses(&guide);
    let inf = INFINITY;
    let k = |y: usize, x: usize| before[y][x];
    assert_eq!(
        vec![
            vec![1, 2, 3, 4, inf, k(0, 5)],
            vec![2, 2, 3, 4, inf, k(1, 5)],
            vec![inf, inf, 3, 4, inf, k(2, 5)],
            vec![k(3, 0), inf, 4, 4, inf, inf],
            vec![k(4, 0), inf, 5, 5, 5, 6],
            vec![k(5, 0), inf, 6, 6, 6, 6],
        ],
        loss_rows(&solver)
    );
    let path = solver.map_paths(&guide);
    assert_eq!(pp(6, Move::Stop), path.point(path.len() - 1));
    assert_eq!(Move::Diagonal, path.point(0).to_parent);
    for i in 0..path.len() {
        assert!(path.point(i).loss < INFINITY);
    }
}
