use ec_av1::quant::{ac_q, dc_q};
use ec_av1::transform::dct::{forward_dct_fixed, inverse_dct_fixed, inverse_dct_x8};
use ec_av1::transform::forward::{
    forward_column, forward_rows, mirrored, FORWARD_PRECISION_BITS, FORWARD_RANGE,
};
use ec_av1::transform::inverse::inverse_1d;
use ec_av1::transform::reconstruct::{
    dequant_and_inverse, dequant_and_inverse_typed, inverse_transform_2d,
};
use ec_av1::transform::tx_type::{TxType, TxType1d};

fn reference_basis(n: usize) -> Vec<f64> {
    let mut c = vec![0.0; n * n];
    for u in 0..n {
        let alpha = if u == 0 { (0.5f64).sqrt() } else { 1.0 };
        for x in 0..n {
            let angle = (2.0 * x as f64 + 1.0) * u as f64 * std::f64::consts::PI / (2.0 * n as f64);
            c[u * n + x] = alpha * (2.0 / n as f64).sqrt() * angle.cos();
        }
    }
    c
}

fn noise(len: usize, seed: u64) -> Vec<i32> {
    let mut state = seed;
    (0..len)
        .map(|_| {
            state = state
                .wrapping_mul(6_364_136_223_846_793_005)
                .wrapping_add(1_442_695_040_888_963_407);
            ((state >> 33) % 201) as i32 - 100
        })
        .collect()
}

fn rmse(a: &[i32], b: &[i32]) -> f64 {
    let sum: f64 = a
        .iter()
        .zip(b)
        .map(|(&x, &y)| f64::from(x - y) * f64::from(x - y))
        .sum();
    (sum / a.len() as f64).sqrt()
}

/// The gain of the forward network, fitted to the basis.
fn gain(n: usize) -> f64 {
    let mut t = vec![0i32; n];
    t[0] = 1 << 14;
    forward_dct_fixed(&mut t, n.trailing_zeros(), FORWARD_RANGE);
    let basis = reference_basis(n);
    let num: f64 = (0..n).map(|u| f64::from(t[u]) * basis[u * n]).sum();
    let den: f64 = (0..n).map(|u| basis[u * n] * basis[u * n]).sum();
    num / (f64::from(1 << 14) * den)
}

/// The library's two passes on the scale levels are formed on.
fn coefficients(residual: &[i32], side: usize) -> Vec<f64> {
    let rows = forward_rows(residual, side);
    let g = gain(side);
    let scale = 8.0 / (g * g * f64::from(1u32 << FORWARD_PRECISION_BITS));
    let mut out = vec![0.0f64; side * side];
    for v in 0..side {
        if let Some(t) = forward_column(&rows, side, v) {
            for u in 0..side {
                out[u * side + v] = f64::from(t[u]) * scale;
            }
        }
    }
    out
}

fn direct(residual: &[i32], side: usize) -> Vec<f64> {
    let basis = reference_basis(side);
    let mut rows = vec![0.0f64; side * side];
    for i in 0..side {
        for u in 0..side {
            rows[i * side + u] = (0..side)
                .map(|k| f64::from(residual[i * side + k]) * basis[u * side + k])
                .sum();
        }
    }
    let mut out = vec![0.0f64; side * side];
    for u in 0..side {
        for v in 0..side {
            let sum: f64 = (0..side).map(|i| rows[i * side + v] * basis[u * side + i]).sum();
            out[u * side + v] = 8.0 * sum;
        }
    }
    out
}

fn round(coeffs: &[f64], side: usize, q_idx: i32, deadzone: f64) -> Vec<i32> {
    let dc = f64::from(dc_q(8, q_idx));
    let ac = f64::from(ac_q(8, q_idx));
    let mut levels = vec![0i32; side * side];
    for row in 0..side.min(32) {
        for col in 0..side.min(32) {
            let i = row * side + col;
            let scaled = coeffs[i] / if i == 0 { dc } else { ac };
            let level = (scaled.abs() + deadzone).floor() as i32;
            levels[i] = if scaled < 0.0 { -level } else { level };
        }
    }
    levels
}

fn levels_of(residual: &[i32], side: usize, q_idx: i32, deadzone: f64) -> Vec<i32> {
    round(&coefficients(residual, side), side, q_idx, deadzone)
}

/// The basis of one axis, measured off the inverse network.
fn axis_basis(n: usize, kind: TxType1d) -> Vec<f64> {
    if kind == TxType1d::Dct {
        return reference_basis(n);
    }
    let mut basis = vec![0.0f64; n * n];
    for u in 0..n {
        let mut t = vec![0i32; n];
        t[u] = 1 << 12;
        inverse_1d(&mut t, 24, kind);
        let norm = t.iter().map(|&x| f64::from(x) * f64::from(x)).sum::<f64>().sqrt();
        for i in 0..n {
            basis[u * n + i] = f64::from(t[i]) / norm;
        }
    }
    basis
}

fn typed_levels_of(residual: &[i32], side: usize, q_idx: i32, tx: TxType) -> Vec<i32> {
    if tx == TxType::DctDct {
        return levels_of(residual, side, q_idx, 0.5);
    }
    let residual = mirrored(residual, side, tx);
    let (row_kind, col_kind) = tx.axes();
    let (hb, vb) = (axis_basis(side, row_kind), axis_basis(side, col_kind));
    let mut rows = vec![0.0f64; side * side];
    for i in 0..side {
        for u in 0..side {
            rows[i * side + u] = (0..side)
                .map(|k| f64::from(residual[i * side + k]) * hb[u * side + k])
                .sum();
        }
    }
    let mut out = vec![0.0f64; side * side];
    for u in 0..side {
        for v in 0..side {
            let sum: f64 = (0..side).map(|i| rows[i * side + v] * vb[u * side + i]).sum();
            out[u * side + v] = 8.0 * sum;
        }
    }
    round(&out, side, q_idx, 0.5)
}

#[test]
fn a_typed_forward_round_trips_like_the_dct_one() {
    for side in [4usize, 8, 16] {
        let residual: Vec<i32> = noise(side * side, 7 + side as u64)
            .iter()
            .map(|&v| v / 4)
            .collect();
        let error = |tx: TxType| {
            let levels = typed_levels_of(&residual, side, 60, tx);
            let back = dequant_and_inverse_typed(&levels, side, 8, 60, 0, 0, tx);
            rmse(&residual, &back)
        };
        let dct = error(TxType::DctDct);
        for tx in [
            TxType::AdstDct,
            TxType::DctAdst,
            TxType::AdstAdst,
            TxType::Idtx,
            TxType::VDct,
            TxType::HDct,
            TxType::VAdst,
            TxType::HAdst,
            TxType::VFlipAdst,
            TxType::HFlipAdst,
            TxType::FlipAdstDct,
            TxType::DctFlipAdst,
            TxType::FlipAdstFlipAdst,
            TxType::AdstFlipAdst,
            TxType::FlipAdstAdst,
        ] {
            let e = error(tx);
            assert!(
                e < 2.0 * dct,
                "{side}x{side} {tx:?} round trip rmse {e:.2} against DCT_DCT's {dct:.2}"
            );
        }
    }
}

#[test]
fn the_fixed_point_forward_matches_the_exact_matmul() {
    for &side in &[4usize, 8, 16, 32, 64] {
        for seed in [1u64, 2, 3] {
            let residual = noise(side * side, seed * 1000 + side as u64);
            let fast = coefficients(&residual, side);
            let naive = direct(&residual, side);
            let worst = fast
                .iter()
                .zip(&naive)
                .map(|(f, n)| (f - n).abs())
                .fold(0.0f64, f64::max);
            let energy: f64 = naive.iter().map(|n| n * n).sum::<f64>().sqrt();
            let err: f64 = fast
                .iter()
                .zip(&naive)
                .map(|(f, n)| (f - n) * (f - n))
                .sum::<f64>()
                .sqrt();
            assert!(worst < 1.0, "{side}x{side} seed {seed}: worst {worst}");
            assert!(
                err < 1e-3 * energy,
                "{side}x{side} seed {seed}: rmse {err} of energy {energy}"
            );
        }
    }
}

#[test]
fn the_forward_network_has_one_uniform_gain() {
    for &n in &[4usize, 8, 16, 32, 64] {
        let g = gain(n);
        assert!((g - (n as f64 / 2.0).sqrt()).abs() < 1e-3, "{n}-point gain {g}");
        let basis = reference_basis(n);
        for i in 0..n {
            let mut t = vec![0i32; n];
            t[i] = 1 << 14;
            forward_dct_fixed(&mut t, n.trailing_zeros(), FORWARD_RANGE);
            for u in 0..n {
                let want = g * f64::from(1 << 14) * basis[u * n + i];
                assert!(
                    (f64::from(t[u]) - want).abs() < 1e-3 * g * f64::from(1 << 14),
                    "{n}-point impulse {i} output {u}: {} vs {want}",
                    t[u]
                );
            }
        }
    }
}

#[test]
fn a_fine_quantizer_roundtrips_a_residual_almost_exactly() {
    for &side in &[4usize, 8, 16, 32] {
        let residual = noise(side * side, 12_345 + side as u64);
        let levels = levels_of(&residual, side, 10, 0.5);
        let back = dequant_and_inverse(&levels, side, 8, 10);
        let error = rmse(&back, &residual);
        assert!(error < 1.0, "{side}x{side}: rmse {error}");
    }
}

#[test]
fn the_roundtrip_error_is_the_quantizer_and_only_the_quantizer() {
    for &side in &[4usize, 8, 16, 32] {
        let residual = noise(side * side, 999 + side as u64);
        let mut previous = 0.0;
        for &q_idx in &[10i32, 60, 100, 180] {
            let levels = levels_of(&residual, side, q_idx, 0.5);
            let back = dequant_and_inverse(&levels, side, 8, q_idx);
            let error = rmse(&back, &residual);
            assert!(error > previous, "{side}x{side} q {q_idx}: {error} <= {previous}");
            let step = f64::from(ac_q(8, q_idx)) / 8.0;
            assert!(error < step, "{side}x{side} q {q_idx}: rmse {error}, step {step}");
            previous = error;
        }
    }
}

#[test]
fn a_64x64_transform_keeps_what_fits_in_its_coded_quarter() {
    let side = 64;
    let basis = reference_basis(side);
    let mut smooth = vec![0.0f64; side * side];
    for &(u, v, amplitude) in &[(0usize, 0usize, 900.0f64), (1, 2, 400.0), (9, 30, 250.0)] {
        for i in 0..side * side {
            smooth[i] += amplitude * basis[u * side + i / side] * basis[v * side + i % side];
        }
    }
    let smooth: Vec<i32> = smooth.iter().map(|&s| s.round() as i32).collect();
    let levels = levels_of(&smooth, side, 10, 0.5);
    let back = dequant_and_inverse(&levels, side, 8, 10);
    let kept = rmse(&back, &smooth);
    assert!(kept < 1.5, "band-limited 64x64: rmse {kept}");

    let residual = noise(side * side, 4_242);
    let mut errors = Vec::new();
    for &q_idx in &[10i32, 180] {
        let levels = levels_of(&residual, side, q_idx, 0.5);
        let back = dequant_and_inverse(&levels, side, 8, q_idx);
        errors.push(rmse(&back, &residual));
    }
    let magnitude = rmse(&residual, &vec![0; side * side]);
    for error in &errors {
        let ratio = error / magnitude;
        assert!((ratio - 0.75f64.sqrt()).abs() < 0.05, "64x64 white noise: ratio {ratio}");
    }
    assert!(
        (errors[1] - errors[0]).abs() < 0.05 * errors[0],
        "64x64 white noise moved with the quantizer: {errors:?}"
    );
}

#[test]
fn a_wider_deadzone_codes_fewer_coefficients() {
    let side = 16;
    let residual = noise(side * side, 77);
    let mut previous_nonzero = usize::MAX;
    let mut previous_error = 0.0;
    for &deadzone in &[0.5f64, 0.35, 0.2] {
        let levels = levels_of(&residual, side, 100, deadzone);
        let back = dequant_and_inverse(&levels, side, 8, 100);
        let nonzero = levels.iter().filter(|&&l| l != 0).count();
        let error = rmse(&back, &residual);
        assert!(nonzero < previous_nonzero, "deadzone {deadzone}: {nonzero} coefficients");
        assert!(error > previous_error, "deadzone {deadzone}: rmse {error}");
        previous_nonzero = nonzero;
        previous_error = error;
    }
}

#[test]
fn negating_the_residual_negates_every_level() {
    for &side in &[4usize, 32] {
        let residual = noise(side * side, 5_150 + side as u64);
        let negated: Vec<i32> = residual.iter().map(|&r| -r).collect();
        let levels = levels_of(&residual, side, 100, 0.5);
        let other = levels_of(&negated, side, 100, 0.5);
        for (i, (a, b)) in levels.iter().zip(&other).enumerate() {
            assert_eq!(*a, -*b, "{side}x{side} coefficient {i}");
        }
    }
}

#[test]
fn a_flat_residual_is_a_dc_level_alone() {
    for &side in &[4usize, 8, 16, 32, 64] {
        let residual = vec![40i32; side * side];
        let levels = levels_of(&residual, side, 100, 0.5);
        for (i, &level) in levels.iter().enumerate() {
            if i == 0 {
                let want =
                    (8.0 * 40.0 * side as f64 / f64::from(dc_q(8, 100))).round() as i32;
                assert_eq!(level, want, "{side}x{side} DC");
            } else {
                assert_eq!(level, 0, "{side}x{side} coefficient {i}");
            }
        }
    }
}

#[test]
fn the_eight_wide_dct_matches_the_scalar_one_over_the_full_range() {
    let mut state = 0x9E37_79B9_7F4A_7C15u64;
    let mut next = move || {
        state ^= state << 13;
        state ^= state >> 7;
        state ^= state << 17;
        state
    };
    for n in 2..=6u32 {
        for &r in &[16usize, 18, 20] {
            let (hi, lo) = (((1i64 << (r - 1)) - 1) as i32, (-(1i64 << (r - 1))) as i32);
            let edges = [0, 1, -1, hi, lo, hi - 1, lo + 1, i32::MAX, i32::MIN];
            for round in 0..96 {
                let mut wide = vec![[0i32; 8]; 1 << n];
                let mut cols = vec![vec![0i32; 1 << n]; 8];
                for i in 0..(1usize << n) {
                    for l in 0..8 {
                        let raw = next();
                        let v = match round % 3 {
                            0 => edges[(raw >> 32) as usize % edges.len()],
                            1 => raw as i32,
                            _ => raw as i32 % (hi / 2 + 1),
                        };
                        wide[i][l] = v;
                        cols[l][i] = v;
                    }
                }
                inverse_dct_x8(&mut wide, n, r);
                for (l, col) in cols.iter_mut().enumerate() {
                    inverse_dct_fixed(col, n, r);
                    for i in 0..(1usize << n) {
                        assert_eq!(
                            wide[i][l],
                            col[i],
                            "lane {l} of entry {i} at n={n} r={r} round={round}"
                        );
                    }
                }
            }
        }
    }
}

#[test]
fn a_mirror_undoes_itself() {
    let residual: Vec<i32> = (0..16).collect();
    let upright = [12, 13, 14, 15, 8, 9, 10, 11, 4, 5, 6, 7, 0, 1, 2, 3];
    assert_eq!(mirrored(&residual, 4, TxType::FlipAdstDct), upright);
    let sideways = [3, 2, 1, 0, 7, 6, 5, 4, 11, 10, 9, 8, 15, 14, 13, 12];
    assert_eq!(mirrored(&residual, 4, TxType::DctFlipAdst), sideways);
    assert_eq!(mirrored(&residual, 4, TxType::AdstAdst), residual);
    for tx in [TxType::FlipAdstDct, TxType::DctFlipAdst, TxType::FlipAdstFlipAdst] {
        assert_eq!(mirrored(&mirrored(&residual, 4, tx), 4, tx), residual);
    }
}

#[test]
fn coefficients_past_the_corner_count_for_nothing() {
    let mut grid = vec![0i32; 64 * 64];
    grid[0] = 800;
    grid[31 * 64 + 31] = -90;
    let corner = inverse_transform_2d(&grid, 64, 8);
    grid[32] = 4000;
    grid[63 * 64 + 63] = -4000;
    assert_eq!(inverse_transform_2d(&grid, 64, 8), corner);
    grid[31] = 1000;
    assert_ne!(inverse_transform_2d(&grid, 64, 8), corner);
}
