use fast_approx_dtw::downsample_fns::mean_u8;
use fast_approx_dtw::loss_fns::dist_u8;
use fast_approx_dtw::{Downsample, DtwSolver, Move, Path, PathPoint};

const INF: u64 = u64::MAX;

fn points<const M: usize>(path: &Path<M>) -> Vec<PathPoint> {
    let mut out = Vec::new();
    let mut it = path.iter();
    while let Some(point) = it.next() {
        out.push(*point);
    }
    out
}

fn moves<const M: usize>(path: &Path<M>) -> Vec<Move> {
    points(path).iter().map(|p| p.to_parent).collect()
}

fn losses<const M: usize>(path: &Path<M>) -> Vec<u64> {
    points(path).iter().map(|p| p.loss).collect()
}

/// The cells that a sequence of moves visits, the first being (0, 0).
fn cells(moves: &[Move]) -> Vec<(usize, usize)> {
    let mut out = vec![(0, 0)];
    let (mut y, mut x) = (0, 0);
    for m in moves {
        match m {
            Move::Vertical => y += 1,
            Move::Horizontal => x += 1,
            Move::Diagonal => {
                y += 1;
                x += 1;
            }
            Move::Stop => break,
        }
        out.push((y, x));
    }
    out
}

fn local_sum(moves: &[Move], ys: &[u8], xs: &[u8]) -> u64 {
    cells(moves).iter().map(|&(y, x)| dist_u8(&ys[y], &xs[x]) as u64).sum()
}

/// The least total of local losses over all monotone paths between the two
/// corners, by the textbook recurrence.
fn exact_cost(ys: &[u8], xs: &[u8]) -> u64 {
    let n = ys.len();
    let mut table = vec![vec![0u64; n]; n];
    for y in 0..n {
        for x in 0..n {
            let mut least = INF;
            if x > 0 {
                least = least.min(table[y][x - 1]);
            }
            if y > 0 {
                least = least.min(table[y - 1][x]);
            }
            if y > 0 && x > 0 {
                least = least.min(table[y - 1][x - 1]);
            }
            if least == INF {
                least = 0;
            }
            table[y][x] = dist_u8(&ys[y], &xs[x]) as u64 + least;
        }
    }
    table[n - 1][n - 1]
}

/// A straightforward rendering of the refinement on dense tables that are
/// cleared to `INF` before every level and hold values only inside the
/// region of the level.
fn dense_solve(ys: &[u8], xs: &[u8], limit: Option<usize>) -> Vec<PathPoint> {
    let mut ladder_y = vec![ys.to_vec()];
    let mut ladder_x = vec![xs.to_vec()];
    let cap = limit.unwrap_or(16).min(16);
    while ladder_y.len() <= cap {
        let last_y = ladder_y.last().unwrap().clone();
        let last_x = ladder_x.last().unwrap().clone();
        if last_y.len() < 4 || last_y.len() % 2 != 0 {
            break;
        }
        ladder_y.push(last_y.chunks(2).map(|c| mean_u8(&c[0], &c[1])).collect());
        ladder_x.push(last_x.chunks(2).map(|c| mean_u8(&c[0], &c[1])).collect());
    }
    let mut guide: Option<Vec<PathPoint>> = None;
    for level in (0..ladder_y.len()).rev() {
        guide = Some(dense_level(&ladder_y[level], &ladder_x[level], &guide));
    }
    guide.unwrap()
}

fn dense_level(ys: &[u8], xs: &[u8], guide: &Option<Vec<PathPoint>>) -> Vec<PathPoint> {
    let n = ys.len();
    let mut inside = vec![vec![guide.is_none(); n]; n];
    if let Some(route) = guide {
        let (mut gy, mut gx) = (0usize, 0usize);
        for point in route {
            for a in 0..2 {
                for b in 0..2 {
                    inside[2 * gy + a][2 * gx + b] = true;
                }
            }
            match point.to_parent {
                Move::Vertical => gy += 1,
                Move::Horizontal => gx += 1,
                Move::Diagonal => {
                    inside[2 * gy + 1][2 * gx + 2] = true;
                    inside[2 * gy + 2][2 * gx + 1] = true;
                    gy += 1;
                    gx += 1;
                }
                Move::Stop => {}
            }
        }
    }
    let mut loss = vec![vec![INF; n]; n];
    for y in 0..n {
        for x in 0..n {
            if !inside[y][x] {
                continue;
            }
            let mut least = INF;
            if x > 0 {
                least = least.min(loss[y][x - 1]);
            }
            if y > 0 {
                least = least.min(loss[y - 1][x]);
            }
            if y > 0 && x > 0 {
                least = least.min(loss[y - 1][x - 1]);
            }
            if least == INF {
                least = 0;
            }
            loss[y][x] = dist_u8(&ys[y], &xs[x]) as u64 + least;
        }
    }
    let stop = PathPoint { loss: INF, to_parent: Move::Stop };
    let mut way = vec![vec![stop; n]; n];
    for y in (0..n).rev() {
        for x in (0..n).rev() {
            if !inside[y][x] {
                continue;
            }
            way[y][x] = if y == n - 1 && x == n - 1 {
                PathPoint { loss: loss[y][x], to_parent: Move::Stop }
            } else if y == n - 1 {
                PathPoint { loss: loss[y][x] + way[y][x + 1].loss, to_parent: Move::Horizontal }
            } else if x == n - 1 {
                PathPoint { loss: loss[y][x] + way[y + 1][x].loss, to_parent: Move::Vertical }
            } else {
                let up = way[y + 1][x].loss;
                let right = way[y][x + 1].loss;
                let diag = way[y + 1][x + 1].loss;
                let least = up.min(right).min(diag);
                let to_parent = if diag == least {
                    Move::Diagonal
                } else if up == least {
                    Move::Vertical
                } else {
                    Move::Horizontal
                };
                PathPoint { loss: loss[y][x] + least, to_parent }
            };
        }
    }
    let mut out = Vec::new();
    let (mut y, mut x) = (0, 0);
    loop {
        let here = way[y][x];
        out.push(here);
        match here.to_parent {
            Move::Vertical => y += 1,
            Move::Horizontal => x += 1,
            Move::Diagonal => {
                y += 1;
                x += 1;
            }
            Move::Stop => break,
        }
    }
    out
}

/// A small generator of repeatable pseudo-random bytes.
struct Bytes(u64);

impl Bytes {
    fn next(&mut self, below: u32) -> u8 {
        self.0 = self.0.wrapping_mul(6364136223846793005).wrapping_add(1442695040888963407);
        (((self.0 >> 33) as u32) % below) as u8
    }

    fn signal<const N: usize>(&mut self, below: u32) -> [u8; N] {
        let mut out = [0u8; N];
        for sample in out.iter_mut() {
            *sample = self.next(below);
        }
        out
    }
}

fn assert_is_route(moves: &[Move], side: usize) {
    assert!(!moves.is_empty());
    assert!(moves.len() <= 2 * side - 1);
    assert_eq!(Move::Stop, moves[moves.len() - 1]);
    assert!(moves[..moves.len() - 1].iter().all(|m| *m != Move::Stop));
    let visited = cells(moves);
    assert_eq!((0, 0), visited[0]);
    assert_eq!((side - 1, side - 1), visited[visited.len() - 1]);
    for pair in visited.windows(2) {
        let (y0, x0) = pair[0];
        let (y1, x1) = pair[1];
        assert!(y1 >= y0 && x1 >= x0);
        assert!(y1 - y0 <= 1 && x1 - x0 <= 1);
        assert!(y1 > y0 || x1 > x0);
    }
}

#[test]
fn four_samples_with_one_coarser_level() {
    let sig_y = [1u8, 3, 1, 5];
    let sig_x = [1u8, 1, 5, 1];
    let path = DtwSolver::<u8, 4, 9, _, _>::new(&sig_y, &sig_x, mean_u8, dist_u8).solve();
    assert_eq!(
        vec![Move::Horizontal, Move::Diagonal, Move::Diagonal, Move::Vertical, Move::Stop],
        moves(&path)
    );
    assert_eq!(vec![10, 10, 10, 8, 6], losses(&path));
    assert_eq!(6, local_sum(&moves(&path), &sig_y, &sig_x));
    assert_eq!(6, exact_cost(&sig_y, &sig_x));
    let other = [Move::Diagonal, Move::Vertical, Move::Diagonal, Move::Horizontal, Move::Stop];
    assert_eq!(6, local_sum(&other, &sig_y, &sig_x));
}

#[test]
fn four_samples_on_the_whole_square() {
    let sig_y = [1u8, 3, 1, 5];
    let sig_x = [1u8, 1, 5, 1];
    let mut solver = DtwSolver::<u8, 4, 9, _, _>::new(&sig_y, &sig_x, mean_u8, dist_u8);
    let path = solver.limit_downsamples(0).solve();
    assert_eq!(
        vec![Move::Horizontal, Move::Diagonal, Move::Diagonal, Move::Vertical, Move::Stop],
        moves(&path)
    );
    assert_eq!(vec![10, 10, 10, 8, 6], losses(&path));
}

#[test]
fn equal_signals_give_the_diagonal() {
    let sig = [5u8, 5, 5, 5];
    let path = DtwSolver::<u8, 4, 9, _, _>::new(&sig, &sig, mean_u8, dist_u8).solve();
    assert_eq!(vec![Move::Diagonal, Move::Diagonal, Move::Diagonal, Move::Stop], moves(&path));
    assert_eq!(vec![0, 0, 0, 0], losses(&path));
    assert_eq!([5u8, 5, 5, 5], path.warp(sig));
    assert_eq!([0i64, 0, 0, 0], path.get_disparity::<4>());
}

#[test]
fn opposite_steps_of_eight_samples() {
    let sig_y = [0u8, 0, 0, 0, 1, 1, 1, 1];
    let sig_x = [1u8, 1, 1, 1, 0, 0, 0, 0];
    let path = DtwSolver::<u8, 8, 17, _, _>::new(&sig_y, &sig_x, mean_u8, dist_u8).solve();
    let found = moves(&path);
    assert_is_route(&found, 8);
    assert_eq!(vec![Move::Diagonal; 7], found[..7].to_vec());
    assert_eq!(vec![36, 35, 33, 30, 26, 21, 15, 8], losses(&path));
    assert_eq!(8, exact_cost(&sig_y, &sig_x));
    assert_eq!(8, local_sum(&found, &sig_y, &sig_x));
    assert_eq!(8, points(&path)[7].loss);
}

#[test]
fn one_sample_stops_at_once() {
    let sig_y = [7u8];
    let sig_x = [9u8];
    let path = DtwSolver::<u8, 1, 1, _, _>::new(&sig_y, &sig_x, mean_u8, dist_u8).solve();
    assert_eq!(vec![PathPoint { loss: 2, to_parent: Move::Stop }], points(&path));
}

#[test]
fn two_and_three_samples_have_no_coarser_level() {
    let path = DtwSolver::<u8, 2, 3, _, _>::new(&[1, 9], &[1, 2], mean_u8, dist_u8).solve();
    assert_eq!(points(&path), dense_solve(&[1, 9], &[1, 2], None));
    assert_is_route(&moves(&path), 2);
    let path = DtwSolver::<u8, 3, 5, _, _>::new(&[1, 9, 4], &[1, 2, 4], mean_u8, dist_u8).solve();
    assert_eq!(points(&path), dense_solve(&[1, 9, 4], &[1, 2, 4], None));
    assert_is_route(&moves(&path), 3);
}

#[test]
fn whole_square_of_sixteen_matches_dense_tables() {
    let mut bytes = Bytes(2024);
    for _ in 0..100 {
        let sig_y: [u8; 16] = bytes.signal(256);
        let sig_x: [u8; 16] = bytes.signal(256);
        let mut solver = DtwSolver::<u8, 16, 33, _, _>::new(&sig_y, &sig_x, mean_u8, dist_u8);
        let path = solver.limit_downsamples(0).solve();
        assert_eq!(dense_solve(&sig_y, &sig_x, Some(0)), points(&path));
        assert_is_route(&moves(&path), 16);
        let cost = local_sum(&moves(&path), &sig_y, &sig_x);
        let exact = exact_cost(&sig_y, &sig_x);
        assert!(cost >= exact);
        assert_eq!(exact, points(&path).last().unwrap().loss);
    }
}

#[test]
fn whole_square_can_miss_the_least_total() {
    let sig_y = [2u8, 0, 1, 0, 0];
    let sig_x = [0u8, 2, 2, 0, 1];
    let path = DtwSolver::<u8, 5, 9, _, _>::new(&sig_y, &sig_x, mean_u8, dist_u8).solve();
    assert_eq!(vec![Move::Diagonal, Move::Diagonal, Move::Diagonal, Move::Diagonal, Move::Stop], moves(&path));
    assert_eq!(6, local_sum(&moves(&path), &sig_y, &sig_x));
    assert_eq!(4, exact_cost(&sig_y, &sig_x));
}

#[test]
fn refinement_matches_dense_tables() {
    let mut bytes = Bytes(7);
    for round in 0..60 {
        let below = [2, 3, 6, 256][round % 4];
        let limit = [None, Some(0), Some(1), Some(2)][(round / 4) % 4];
        let sig_y: [u8; 32] = bytes.signal(below);
        let sig_x: [u8; 32] = bytes.signal(below);
        let mut solver = DtwSolver::<u8, 32, 65, _, _>::new(&sig_y, &sig_x, mean_u8, dist_u8);
        if let Some(max) = limit {
            solver.limit_downsamples(max);
        }
        let path = solver.solve();
        assert_eq!(dense_solve(&sig_y, &sig_x, limit), points(&path));
        assert_is_route(&moves(&path), 32);
        let sig_y: [u8; 12] = bytes.signal(below);
        let sig_x: [u8; 12] = bytes.signal(below);
        let mut solver = DtwSolver::<u8, 12, 23, _, _>::new(&sig_y, &sig_x, mean_u8, dist_u8);
        if let Some(max) = limit {
            solver.limit_downsamples(max);
        }
        let path = solver.solve();
        assert_eq!(dense_solve(&sig_y, &sig_x, limit), points(&path));
        assert_is_route(&moves(&path), 12);
    }
}

#[test]
fn a_solver_can_be_used_again() {
    let mut bytes = Bytes(99);
    let sig_y: [u8; 16] = bytes.signal(4);
    let sig_x: [u8; 16] = bytes.signal(4);
    let mut solver = DtwSolver::<u8, 16, 31, _, _>::new(&sig_y, &sig_x, mean_u8, dist_u8);
    let first = points(&solver.solve());
    let second = points(&solver.solve());
    let third = points(&solver.limit_downsamples(0).solve());
    let fourth = points(&solver.limit_downsamples(16).solve());
    assert_eq!(first, second);
    assert_eq!(dense_solve(&sig_y, &sig_x, Some(0)), third);
    assert_eq!(first, fourth);
}

#[test]
fn steps_of_the_solver_can_be_taken_one_by_one() {
    let sig_y = [1u8, 3, 1, 5];
    let sig_x = [1u8, 1, 5, 1];
    let coarse_y = Downsample::create_one(&sig_y, 4, mean_u8).unwrap();
    let coarse_x = Downsample::create_one(&sig_x, 4, mean_u8).unwrap();
    let half_y = [coarse_y.signal[0], coarse_y.signal[1]];
    let half_x = [coarse_x.signal[0], coarse_x.signal[1]];
    let guide = DtwSolver::<u8, 2, 9, _, _>::new(&half_y, &half_x, mean_u8, dist_u8).solve();
    assert_eq!(vec![Move::Diagonal, Move::Stop], moves(&guide));
    let mut solver = DtwSolver::<u8, 4, 9, _, _>::new(&sig_y, &sig_x, mean_u8, dist_u8);
    let guide = Some(guide);
    solver.map_losses(&guide);
    let mapped = solver.map_paths(&guide);
    let read = solver.get_best_path();
    assert_eq!(points(&mapped), points(&read));
    assert_eq!(vec![10, 10, 10, 8, 6], losses(&read));
    solver.calc_loss_cell(0, 0);
    solver.calc_path_cell(3, 3);
    assert_eq!(points(&read), points(&solver.get_best_path()));
    let mut whole = DtwSolver::<u8, 4, 9, _, _>::new(&sig_y, &sig_x, mean_u8, dist_u8);
    whole.map_losses(&None);
    assert_eq!(vec![10, 10, 10, 8, 6], losses(&whole.map_paths(&None)));
}

#[test]
fn mirrored_signals_give_the_mirrored_path() {
    let sig_y = [3u8, 9, 27, 81, 82, 83, 84, 200];
    let sig_x = [3u8, 4, 9, 10, 27, 81, 199, 200];
    let one = moves(&DtwSolver::<u8, 8, 17, _, _>::new(&sig_y, &sig_x, mean_u8, dist_u8).solve());
    let two = moves(&DtwSolver::<u8, 8, 17, _, _>::new(&sig_x, &sig_y, mean_u8, dist_u8).solve());
    let mirrored: Vec<Move> = one
        .iter()
        .map(|m| match m {
            Move::Vertical => Move::Horizontal,
            Move::Horizontal => Move::Vertical,
            other => *other,
        })
        .collect();
    assert_eq!(mirrored, two);
    assert!(one.contains(&Move::Vertical) || one.contains(&Move::Horizontal));
}

#[test]
fn a_tie_between_up_and_right_breaks_the_mirror() {
    let sig_y = [0u8, 1, 0, 1];
    let sig_x = [1u8, 0, 1, 0];
    let mut solver = DtwSolver::<u8, 4, 9, _, _>::new(&sig_y, &sig_x, mean_u8, dist_u8);
    let one = moves(&solver.limit_downsamples(0).solve());
    let mut solver = DtwSolver::<u8, 4, 9, _, _>::new(&sig_x, &sig_y, mean_u8, dist_u8);
    let two = moves(&solver.limit_downsamples(0).solve());
    assert_eq!(
        vec![Move::Vertical, Move::Diagonal, Move::Diagonal, Move::Horizontal, Move::Stop],
        one
    );
    assert_eq!(one, two);
}

#[test]
fn the_band_is_no_worse_than_the_doubled_guide() {
    let mut bytes = Bytes(5);
    for _ in 0..40 {
        let sig_y: [u8; 16] = bytes.signal(8);
        let sig_x: [u8; 16] = bytes.signal(8);
        let coarse_y = Downsample::create_one(&sig_y, 16, mean_u8).unwrap();
        let coarse_x = Downsample::create_one(&sig_x, 16, mean_u8).unwrap();
        let mut half_y = [0u8; 8];
        let mut half_x = [0u8; 8];
        half_y.copy_from_slice(&coarse_y.signal);
        half_x.copy_from_slice(&coarse_x.signal);
        let guide = DtwSolver::<u8, 8, 33, _, _>::new(&half_y, &half_x, mean_u8, dist_u8).solve();
        let mut doubled = vec![Move::Diagonal];
        for m in moves(&guide) {
            if m != Move::Stop {
                doubled.push(m);
                doubled.push(m);
            }
        }
        doubled.push(Move::Stop);
        assert_is_route(&doubled, 16);
        let path = DtwSolver::<u8, 16, 33, _, _>::new(&sig_y, &sig_x, mean_u8, dist_u8).solve();
        let corner = points(&path).last().unwrap().loss;
        assert!(corner <= local_sum(&doubled, &sig_y, &sig_x));
        assert!(corner >= exact_cost(&sig_y, &sig_x));
    }
}

#[test]
fn a_shifted_row_is_followed_mostly_diagonally() {
    let mut bytes = Bytes(31);
    let mut left = [0u8; 256];
    let mut level = 128i32;
    for sample in left.iter_mut() {
        level = (level + bytes.next(41) as i32 - 20).clamp(0, 255);
        *sample = level as u8;
    }
    let mut right = [0u8; 256];
    for (t, sample) in right.iter_mut().enumerate() {
        *sample = left[(t + 6).min(255)];
    }
    let path = DtwSolver::<u8, 256, 513, _, _>::new(&left, &right, mean_u8, dist_u8).solve();
    let found = moves(&path);
    assert_is_route(&found, 256);
    let diagonal = found.iter().filter(|m| **m == Move::Diagonal).count();
    assert!(diagonal * 10 >= (found.len() - 1) * 7, "{} of {}", diagonal, found.len());
}

fn triple_mean(a: &[f32; 3], b: &[f32; 3]) -> [f32; 3] {
    [(a[0] + b[0]) / 2.0, (a[1] + b[1]) / 2.0, (a[2] + b[2]) / 2.0]
}

fn triple_loss(a: &[f32; 3], b: &[f32; 3]) -> u32 {
    let d = [a[0] - b[0], a[1] - b[1], a[2] - b[2]];
    ((d[0] * d[0] + d[1] * d[1] + d[2] * d[2]).sqrt() * 1000.0) as u32
}

#[test]
fn long_float_signals_are_refined_through_all_levels() {
    let mut bytes = Bytes(1024);
    let mut worst = 1.0f64;
    for _ in 0..50 {
        let mut sig_y = [[0f32; 3]; 1024];
        let mut sig_x = [[0f32; 3]; 1024];
        let mut at = [0.5f32; 3];
        for t in 0..1024 {
            for c in 0..3 {
                at[c] = (at[c] + (bytes.next(21) as f32 - 10.0) / 200.0).clamp(0.0, 1.0);
            }
            sig_y[t] = at;
        }
        for t in 0..1024 {
            let from = sig_y[(t + 3).min(1023)];
            for c in 0..3 {
                sig_x[t][c] = (from[c] + (bytes.next(5) as f32 - 2.0) / 500.0).clamp(0.0, 1.0);
            }
        }
        let mut solver =
            DtwSolver::<[f32; 3], 1024, 2049, _, _>::new(&sig_y, &sig_x, triple_mean, triple_loss);
        let path = solver.solve();
        let found = moves(&path);
        assert_is_route(&found, 1024);
        let corner = points(&path).last().unwrap().loss;
        let mut table = vec![vec![0u64; 1024]; 1024];
        for y in 0..1024 {
            for x in 0..1024 {
                let mut least = INF;
                if x > 0 {
                    least = least.min(table[y][x - 1]);
                }
                if y > 0 {
                    least = least.min(table[y - 1][x]);
                }
                if y > 0 && x > 0 {
                    least = least.min(table[y - 1][x - 1]);
                }
                if least == INF {
                    least = 0;
                }
                table[y][x] = triple_loss(&sig_y[y], &sig_x[x]) as u64 + least;
            }
        }
        let exact = table[1023][1023];
        assert!(corner >= exact);
        let ratio = corner as f64 / exact as f64;
        if ratio > worst {
            worst = ratio;
        }
    }
    assert!(worst <= 1.10, "{}", worst);
}
