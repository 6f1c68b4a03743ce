use ec_av1::quant::{ac_q, dc_q, dequant_wh, dq_denom};
use ec_av1::transform::adst::{inverse_adst16, inverse_adst4, inverse_adst8, inverse_identity};
use ec_av1::transform::cosine::{cos128, sin128};
use ec_av1::transform::dct::{
    forward_dct_fixed, inverse_dct, inverse_dct_fixed, inverse_dct_x8,
};
use ec_av1::transform::forward::{forward_column, forward_rows};
use ec_av1::transform::inverse::{
    inverse_1d, inverse_transform_2d_typed, inverse_transform_2d_typed_wh,
};
use ec_av1::transform::reconstruct::{
    dequant_and_inverse, dequant_and_inverse_typed, dequant_and_inverse_typed_wh,
    inverse_transform_2d,
};
use ec_av1::transform::tx_type::{TxType, TxType1d};
use ec_av1::transform::wht::{dequant_and_inverse_wht4x4, inverse_wht4x4};

const Q_IDX: u8 = 100;

const DECODED_AT_Q100: [(i32, u8); 28] = [
    (1, 128),
    (2, 128),
    (3, 129),
    (4, 129),
    (5, 129),
    (6, 129),
    (7, 129),
    (8, 129),
    (9, 130),
    (10, 130),
    (11, 130),
    (12, 130),
    (13, 130),
    (14, 131),
    (-1, 128),
    (-2, 128),
    (-3, 128),
    (-4, 127),
    (-5, 127),
    (-6, 127),
    (-7, 127),
    (-8, 127),
    (-9, 126),
    (-10, 126),
    (-11, 126),
    (-12, 126),
    (-13, 126),
    (-14, 126),
];

const SPLIT_RESIDUAL_AT_Q100: [(i32, i32); 28] = [
    (1, 0),
    (2, 1),
    (3, 1),
    (4, 1),
    (5, 2),
    (6, 2),
    (7, 3),
    (8, 3),
    (9, 3),
    (10, 4),
    (11, 4),
    (12, 4),
    (13, 5),
    (14, 5),
    (-1, 0),
    (-2, -1),
    (-3, -1),
    (-4, -1),
    (-5, -2),
    (-6, -2),
    (-7, -2),
    (-8, -3),
    (-9, -3),
    (-10, -4),
    (-11, -4),
    (-12, -4),
    (-13, -5),
    (-14, -5),
];

fn dc_residual(level: i32) -> i32 {
    let value = DECODED_AT_Q100
        .iter()
        .find(|&&(l, _)| l == level)
        .map(|&(_, v)| v)
        .expect("the level is in the pinned table");
    i32::from(value) - 128
}

#[test]
fn the_inverse_transform_reproduces_the_pinned_whole_superblock_residuals() {
    for (level, _) in DECODED_AT_Q100 {
        let mut levels = vec![0i32; 64 * 64];
        levels[0] = level;
        let residual = dequant_and_inverse(&levels, 64, 8, i32::from(Q_IDX));
        let want = dc_residual(level);
        assert!(
            residual.iter().all(|&r| r == want),
            "level {level}: want a flat {want}, got {}..{} (first {})",
            residual.iter().min().unwrap(),
            residual.iter().max().unwrap(),
            residual[0]
        );
    }
}

#[test]
fn the_inverse_transform_reproduces_the_pinned_split_residuals() {
    for (level, want) in SPLIT_RESIDUAL_AT_Q100 {
        let mut levels = vec![0i32; 32 * 32];
        levels[0] = level;
        let residual = dequant_and_inverse(&levels, 32, 8, i32::from(Q_IDX));
        assert!(
            residual.iter().all(|&r| r == want),
            "level {level}: want a flat {want}, got {}..{} (first {})",
            residual.iter().min().unwrap(),
            residual.iter().max().unwrap(),
            residual[0]
        );
    }
}

#[test]
fn a_single_ac_coefficient_varies_along_its_own_axis() {
    for side in [4, 8, 16, 32, 64] {
        let mut horizontal = vec![0i32; side * side];
        horizontal[1] = 100;
        let h = dequant_and_inverse(&horizontal, side, 8, i32::from(Q_IDX));
        let mut vertical = vec![0i32; side * side];
        vertical[side] = 100;
        let v = dequant_and_inverse(&vertical, side, 8, i32::from(Q_IDX));
        for row in 0..side {
            for col in 0..side {
                assert_eq!(
                    h[row * side + col],
                    h[col],
                    "{side}: a first-row coefficient is constant down column {col}"
                );
                assert_eq!(
                    v[row * side + col],
                    v[row * side],
                    "{side}: a first-column coefficient is constant along row {row}"
                );
            }
        }
        assert!(h[0] != h[side - 1], "{side}: the horizontal basis varies");
        for row in 0..side {
            for col in 0..side {
                let (a, b) = (h[row * side + col], v[col * side + row]);
                assert!(
                    (a - b).abs() <= 1,
                    "{side}: transpose at ({row},{col}): {a} vs {b}"
                );
            }
        }
    }
}

#[test]
fn negating_the_levels_negates_the_residual() {
    for side in [32, 64] {
        for level in [1, 2, 3, 5, 9, 14, 40, 100] {
            let mut levels = vec![0i32; side * side];
            levels[0] = level;
            levels[1] = -level;
            levels[side + 1] = level * 2;
            let pos = dequant_and_inverse(&levels, side, 8, i32::from(Q_IDX));
            let negated: Vec<i32> = levels.iter().map(|&l| -l).collect();
            let neg = dequant_and_inverse(&negated, side, 8, i32::from(Q_IDX));
            let worst = pos
                .iter()
                .zip(&neg)
                .map(|(&p, &n)| (p + n).abs())
                .max()
                .expect("the block is not empty");
            assert!(worst <= 1, "side {side} level {level}: off by {worst}");
        }
    }
}

#[test]
fn negating_a_corner_negates_its_residual_at_every_depth() {
    for side in [32usize, 64] {
        for bit_depth in [8u8, 10, 12] {
            for (k, q_idx) in [(7, 0), (331, 37), (70_001, 128), (i32::MAX / 3, 255)] {
                let mut levels = vec![0i32; side * side];
                levels[0] = k;
                levels[1] = -(k / 3) - 1;
                levels[side] = k / 7 + 5;
                levels[side + 1] = -(k / 2);
                let pos = dequant_and_inverse(&levels, side, bit_depth, q_idx);
                let negated: Vec<i32> = levels.iter().map(|&l| -l).collect();
                let neg = dequant_and_inverse(&negated, side, bit_depth, q_idx);
                assert!(pos.iter().zip(&neg).all(|(&p, &n)| (p + n).abs() <= 1));
            }
        }
    }
}

#[test]
fn a_dc_level_is_worth_half_as_much_each_time_the_transform_doubles() {
    let mut previous: Option<i32> = None;
    for side in [4usize, 8, 16, 32, 64] {
        let mut levels = vec![0i32; side * side];
        levels[0] = 100;
        let residual = dequant_and_inverse(&levels, side, 8, i32::from(Q_IDX));
        let dc = residual[0];
        assert!(
            residual.iter().all(|&r| r == dc),
            "side {side}: a DC coefficient reconstructs flat"
        );
        if let Some(previous) = previous {
            assert!(
                (dc * 2 - previous).abs() <= 1,
                "side {side}: {dc} is not half of the previous size's {previous}"
            );
        }
        previous = Some(dc);
    }
}

#[test]
fn a_zero_vector_transforms_to_zero() {
    for log2 in 2..=6u32 {
        for kind in [TxType1d::Dct, TxType1d::Adst, TxType1d::Identity] {
            if kind == TxType1d::Adst && log2 > 4 {
                continue;
            }
            if kind == TxType1d::Identity && log2 > 5 {
                continue;
            }
            for bit_depth in [8u8, 10, 12] {
                let r = (usize::from(bit_depth) + 6).max(16);
                let mut t = vec![0i32; 1 << log2];
                inverse_1d(&mut t, r, kind);
                assert!(
                    t.iter().all(|&v| v == 0),
                    "1D {kind:?} log2={log2} depth={bit_depth} left a non-zero"
                );
            }
        }
    }
    for (w, h) in [
        (4, 4),
        (8, 8),
        (16, 16),
        (32, 32),
        (64, 64),
        (8, 16),
        (16, 8),
        (4, 16),
        (32, 8),
    ] {
        for tx in [
            TxType::DctDct,
            TxType::AdstAdst,
            TxType::Idtx,
            TxType::AdstDct,
            TxType::DctAdst,
        ] {
            if w.max(h) > 16 && tx != TxType::DctDct && tx != TxType::Idtx {
                continue;
            }
            if w.max(h) > 32 && tx != TxType::DctDct {
                continue;
            }
            let out = inverse_transform_2d_typed_wh(&vec![0i32; w * h], w, h, 10, tx);
            assert!(
                out.iter().all(|&v| v == 0),
                "2D {w}x{h} {tx:?} left a non-zero"
            );
        }
    }
}

fn reference_basis(n: usize) -> Vec<f64> {
    let mut basis = vec![0.0f64; n * n];
    for u in 0..n {
        let scale = if u == 0 {
            (1.0 / n as f64).sqrt()
        } else {
            (2.0 / n as f64).sqrt()
        };
        for i in 0..n {
            basis[u * n + i] = scale
                * (std::f64::consts::PI * (2.0 * i as f64 + 1.0) * u as f64 / (2.0 * n as f64))
                    .cos();
        }
    }
    basis
}

#[test]
fn the_inverse_network_is_an_orthonormal_dct_over_eight() {
    for &side in &[4usize, 8, 16, 32, 64] {
        let basis = reference_basis(side);
        for &(u, v) in &[(0usize, 0usize), (0, 1), (1, 0), (2, 3), (5, 7)] {
            if u >= side || v >= side {
                continue;
            }
            let mut coeffs = vec![0i32; side * side];
            coeffs[u * side + v] = 4096;
            let got = inverse_transform_2d(&coeffs, side, 8);
            let want: Vec<f64> = (0..side * side)
                .map(|i| 4096.0 * basis[u * side + i / side] * basis[v * side + i % side])
                .collect();
            let num: f64 = want.iter().zip(&got).map(|(w, &g)| w * f64::from(g)).sum();
            let den: f64 = want.iter().map(|w| w * w).sum();
            let k = num / den;
            let expected = dq_denom(side) as f64 / 8.0;
            assert!(
                (k - expected).abs() < 0.01 * expected,
                "{side}x{side} ({u},{v}): gain {k}, expected {expected}"
            );
            for (i, (w, &g)) in want.iter().zip(&got).enumerate() {
                let scaled = k * w;
                assert!(
                    (scaled - f64::from(g)).abs() <= 1.0,
                    "{side}x{side} ({u},{v}) sample {i}: {g} vs {scaled}"
                );
            }
        }
    }
}

#[test]
fn iadst4_matches_libaoms_own_output() {
    let mut t = vec![100, -50, 25, 7];
    inverse_adst4(&mut t);
    assert_eq!(t, [19, 5, 67, 147]);
}

#[test]
fn iadst4_an_all_zero_input_short_circuits_to_zero() {
    let mut t = vec![0, 0, 0, 0];
    inverse_adst4(&mut t);
    assert_eq!(t, [0, 0, 0, 0]);
}

#[test]
fn iadst8_matches_libaoms_own_output() {
    let mut t = vec![100, -50, 25, 7, -3, 60, -12, 8];
    inverse_adst8(&mut t, 16);
    assert_eq!(t, [59, 15, -25, 52, 25, 27, 207, 130]);
}

#[test]
fn iadst16_matches_libaoms_own_output() {
    let mut t = vec![
        100, -50, 25, 7, -3, 60, -12, 8, 15, -40, 33, -5, 22, 1, -70, 44,
    ];
    inverse_adst16(&mut t, 16);
    assert_eq!(
        t,
        [32, 73, 28, 6, -45, -28, 111, -52, 135, -54, 85, -67, 305, 190, 102, 145]
    );
}

#[test]
fn iidentity_matches_libaoms_own_output_at_every_size() {
    let mut t4 = vec![100, -50, 25, 7];
    inverse_identity(&mut t4);
    assert_eq!(t4, [141, -71, 35, 10]);

    let mut t8 = vec![100, -50, 25, 7, -3, 60, -12, 8];
    inverse_identity(&mut t8);
    assert_eq!(t8, [200, -100, 50, 14, -6, 120, -24, 16]);

    let mut t16 = vec![
        100, -50, 25, 7, -3, 60, -12, 8, 15, -40, 33, -5, 22, 1, -70, 44,
    ];
    inverse_identity(&mut t16);
    assert_eq!(
        t16,
        [283, -141, 71, 20, -8, 170, -34, 23, 42, -113, 93, -14, 62, 3, -198, 124]
    );

    let mut t32 = vec![0i32; 32];
    for (i, v) in t32.iter_mut().enumerate() {
        *v = i as i32 * 7 - 100;
    }
    inverse_identity(&mut t32);
    assert_eq!(
        t32,
        [
            -400, -372, -344, -316, -288, -260, -232, -204, -176, -148, -120, -92, -64, -36, -8,
            20, 48, 76, 104, 132, 160, 188, 216, 244, 272, 300, 328, 356, 384, 412, 440, 468
        ]
    );
}

#[test]
fn iadst8_is_not_symmetric_in_its_input_position() {
    let mut row = vec![40, 0, 0, 0, 0, 0, 0, 0];
    let mut col = vec![0, 40, 0, 0, 0, 0, 0, 0];
    inverse_adst8(&mut row, 16);
    inverse_adst8(&mut col, 16);
    assert_eq!(row, [4, 12, 18, 25, 31, 35, 38, 40]);
    assert_eq!(col, [12, 31, 40, 35, 18, -4, -26, -38]);
    assert_ne!(
        row, col,
        "an asymmetric input must not decode symmetrically"
    );
}

#[test]
fn adst_dct_and_dct_adst_disagree_on_an_asymmetric_grid() {
    let side = 8;
    let mut dequant = vec![0i32; side * side];
    dequant[1] = 64;
    let adst_dct = inverse_transform_2d_typed(&dequant, side, 8, TxType::AdstDct);
    let dct_adst = inverse_transform_2d_typed(&dequant, side, 8, TxType::DctAdst);
    assert_ne!(
        adst_dct, dct_adst,
        "ADST_DCT and DCT_ADST must not be interchangeable on an asymmetric grid"
    );
    let dct_dct = inverse_transform_2d_typed(&dequant, side, 8, TxType::DctDct);
    let adst_adst = inverse_transform_2d_typed(&dequant, side, 8, TxType::AdstAdst);
    assert_ne!(adst_dct, dct_dct);
    assert_ne!(dct_adst, dct_dct);
    assert_ne!(adst_adst, dct_dct);
}

fn recttx_coeff(w: usize, h: usize) -> Vec<i32> {
    let mut d = vec![0i32; w * h];
    for i in 0..h {
        for j in 0..w {
            d[i * w + j] = if i == 0 && j == 0 {
                640
            } else if i < 4 && j < 4 {
                (i as i32 + 1) * 24 - (j as i32 + 1) * 17
            } else {
                0
            };
        }
    }
    d
}

fn weighted_checksum(residual: &[i32]) -> i64 {
    residual
        .iter()
        .enumerate()
        .map(|(idx, &v)| i64::from(v) * (idx as i64 + 1))
        .sum()
}

#[test]
fn rect_sizes_pinned_against_libaom() {
    let cases: &[(usize, usize, i64)] = &[
        (4, 8, 7290),
        (8, 4, 7223),
        (8, 16, 56211),
        (16, 8, 56161),
        (16, 32, 893635),
        (32, 16, 893210),
        (32, 64, 14260693),
        (64, 32, 14265125),
        (4, 16, 20091),
        (16, 4, 20156),
        (8, 32, 159207),
        (32, 8, 159430),
        (16, 64, 2537255),
        (64, 16, 2548119),
    ];
    for &(w, h, expected) in cases {
        let dequant = recttx_coeff(w, h);
        let residual = inverse_transform_2d_typed_wh(&dequant, w, h, 8, TxType::DctDct);
        assert_eq!(
            weighted_checksum(&residual),
            expected,
            "{w}x{h} checksum mismatch"
        );
    }
}

#[test]
fn square_wrapper_matches_wh_core() {
    for side in [4, 8, 16, 32, 64] {
        let dequant = recttx_coeff(side, side);
        let via_wrapper = inverse_transform_2d_typed(&dequant, side, 8, TxType::DctDct);
        let via_wh = inverse_transform_2d_typed_wh(&dequant, side, side, 8, TxType::DctDct);
        assert_eq!(via_wrapper, via_wh, "side {side}");
    }
}

#[test]
fn the_eight_wide_dct_matches_the_scalar_one() {
    let mut state = 0x2545_F491_4F6C_DD1Du64;
    let mut next = move || {
        state ^= state << 13;
        state ^= state >> 7;
        state ^= state << 17;
        (state >> 32) as i32 % 262_144 - 131_072
    };
    for n in 2..=6u32 {
        for &r in &[16usize, 18] {
            for _ in 0..64 {
                let size = 1usize << n;
                let mut wide = vec![[0i32; 8]; size];
                let mut cols = vec![vec![0i32; size]; 8];
                for i in 0..size {
                    for l in 0..8 {
                        let v = next();
                        wide[i][l] = v;
                        cols[l][i] = v;
                    }
                }
                inverse_dct_x8(&mut wide, n, r);
                for (l, col) in cols.iter_mut().enumerate() {
                    inverse_dct_fixed(col, n, r);
                    for i in 0..size {
                        assert_eq!(wide[i][l], col[i], "n={n} r={r} lane={l} i={i}");
                    }
                }
            }
        }
    }
}

fn undo(a2: i32, b2: i32, c2: i32, d2: i32) -> (i32, i32, i32, i32) {
    let a1 = a2 + b2;
    let d1 = d2 - c2;
    let e1 = (a1 - d1) >> 1;
    let b = e1 - b2;
    let c = e1 - c2;
    (a1 - c, b, c, d1 + b)
}

fn fwht(residual: &[i32]) -> Vec<i32> {
    let mut t = [0i32; 16];
    for i in 0..4 {
        let (a, b, c, d) = undo(residual[i], residual[4 + i], residual[8 + i], residual[12 + i]);
        t[i] = a;
        t[4 + i] = c;
        t[8 + i] = d;
        t[12 + i] = b;
    }
    let mut dq = vec![0i32; 16];
    for i in 0..4 {
        let (a, b, c, d) = undo(t[i * 4], t[i * 4 + 1], t[i * 4 + 2], t[i * 4 + 3]);
        dq[i * 4] = a * 4;
        dq[i * 4 + 1] = c * 4;
        dq[i * 4 + 2] = d * 4;
        dq[i * 4 + 3] = b * 4;
    }
    dq
}

#[test]
fn the_walsh_hadamard_round_trip_is_exact() {
    let mut state = 0x1234_5678u32;
    for _ in 0..200 {
        let residual: Vec<i32> = (0..16)
            .map(|_| {
                state = state.wrapping_mul(1_664_525).wrapping_add(1_013_904_223);
                ((state >> 20) as i32 % 511) - 255
            })
            .collect();
        let levels = fwht(&residual);
        assert_eq!(inverse_wht4x4(&levels), residual, "levels={levels:?}");
    }
}

#[test]
fn lossless_levels_reconstruct_through_the_quantizer() {
    let residual: Vec<i32> = (0..16).map(|i| (i * 37 % 23) - 11).collect();
    let levels: Vec<i32> = fwht(&residual).iter().map(|&v| v / 4).collect();
    assert_eq!(dequant_and_inverse_wht4x4(&levels, 8, 0, 0, 0), residual);
    assert_eq!(
        dequant_and_inverse_wht4x4(&vec![0; 16], 8, 0, 0, 0),
        Vec::<i32>::new()
    );
}

#[test]
fn empty_grids_take_the_short_way_out() {
    assert_eq!(
        dequant_and_inverse_typed_wh(&vec![0; 32], 4, 8, 8, 100, 0, 0, TxType::DctDct),
        Vec::<i32>::new()
    );
    assert_eq!(
        dequant_and_inverse_typed(&vec![0; 16], 4, 8, 100, 0, 0, TxType::DctDct),
        vec![0; 16]
    );
    assert_eq!(dequant_and_inverse(&vec![0; 64], 8, 8, 100), vec![0; 64]);
}

#[test]
fn quantizer_steps_are_the_tables_and_clamp_their_index() {
    assert_eq!(dc_q(8, 0), 4);
    assert_eq!(ac_q(8, 0), 4);
    assert_eq!(dc_q(8, 255), 1336);
    assert_eq!(ac_q(8, 255), 1828);
    assert_eq!(dc_q(10, 255), 5347);
    assert_eq!(ac_q(12, 255), 29247);
    assert_eq!(dc_q(8, -3), dc_q(8, 0));
    assert_eq!(ac_q(8, 400), ac_q(8, 255));
}

#[test]
fn dequantizing_divides_by_what_the_size_asks_for() {
    assert_eq!(dq_denom(16), 1);
    assert_eq!(dq_denom(32), 2);
    assert_eq!(dq_denom(64), 4);
    let dq = dequant_wh(&vec![3, -3, 0, 1], 2, 2, 8, 0, 0, 0);
    assert_eq!(dq, [12, -12, 0, 4]);
}

#[test]
fn cosines_and_sines_are_the_fixed_point_ones() {
    assert_eq!(cos128(0), 4096);
    assert_eq!(cos128(64), 0);
    assert_eq!(cos128(128), -4096);
    assert_eq!(cos128(256), 4096);
    assert_eq!(cos128(32), 2896);
    assert_eq!(sin128(64), 4096);
    assert_eq!(sin128(0), 0);
    assert_eq!(sin128(-64), -4096);
}

#[test]
fn the_slice_dct_leaves_the_rest_of_its_slice_alone() {
    let mut t = vec![64, 0, 0, 0, 7, 9];
    inverse_dct(&mut t, 2, 16);
    assert_eq!(t, [45, 45, 45, 45, 7, 9]);
}

#[test]
fn the_forward_dct_of_a_flat_vector_is_its_dc() {
    let mut t = vec![100i32; 8];
    forward_dct_fixed(&mut t, 3, 32);
    assert!(t[0] > 0);
    assert!(t[1..].iter().all(|&v| v == 0));
    let rows = forward_rows(&vec![1i32; 64], 8);
    assert!(rows.iter().enumerate().all(|(i, &v)| (v != 0) == (i % 8 == 0)));
    assert!(forward_column(&rows, 8, 1).is_none());
    let dc = forward_column(&rows, 8, 0).expect("the first column holds the flat part");
    assert!(dc[0] > 0);
    assert!(dc[1..].iter().all(|&v| v == 0));
}

#[test]
fn every_symbol_names_one_type_of_its_set() {
    assert_eq!(TxType::from_symbol(1), Some(TxType::DctDct));
    assert_eq!(TxType::from_symbol(0), Some(TxType::Idtx));
    assert_eq!(TxType::from_symbol(5), None);
    assert_eq!(TxType::from_symbol_set1(7), None);
    assert_eq!(TxType::from_symbol_set2_12(12), None);
    assert_eq!(TxType::from_symbol_all16(16), None);
    let all: Vec<TxType> = (0..16).map(|t| TxType::from_symbol_all16(t).unwrap()).collect();
    for (i, a) in all.iter().enumerate() {
        assert!(all[..i].iter().all(|b| b != a));
    }
    assert_eq!(TxType::AdstDct.flip(), (false, false));
    assert_eq!(TxType::FlipAdstFlipAdst.flip(), (true, true));
    assert_eq!(TxType::Idtx.axes(), (TxType1d::Identity, TxType1d::Identity));
}

#[test]
fn flipping_a_type_mirrors_its_residual() {
    let mut dequant = vec![0i32; 64];
    dequant[1] = 300;
    dequant[9] = -170;
    let plain = inverse_transform_2d_typed(&dequant, 8, 8, TxType::AdstAdst);
    let flipped = inverse_transform_2d_typed(&dequant, 8, 8, TxType::FlipAdstFlipAdst);
    for row in 0..8 {
        for col in 0..8 {
            assert_eq!(flipped[row * 8 + col], plain[(7 - row) * 8 + 7 - col]);
        }
    }
}
