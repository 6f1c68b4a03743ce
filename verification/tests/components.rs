use ec_av1::bits::{clamp_range, round2};
use ec_av1::tile::blocks::{PaletteUv, PaletteY};
use ec_av1::tile::census::{
    census_after, census_block, census_lowered, coded_corner, take_drl_hits, take_inter_mode_hits,
    take_rdoq_stats, take_ref_hits, take_sb128_root_hits, Hits, RdoqStats,
};
use ec_av1::tile::coeffs::{tx_type_symbol, write_coeffs, write_eob, TxbCoding};
use ec_av1::tile::color_map::{write_color_index_map, MapPlane};
use ec_av1::tile::colours::{write_palette_colors_y, write_uniform};
use ec_av1::tile::context::{base_ctx, br_ctx, eob_coeff_ctx};
use ec_av1::tile::error::TileError;
use ec_av1::tile::intra::{cfl_alpha_ctx, cfl_joint_sign, palette_uv_side, tx_row, write_cfl_alphas};
use ec_av1::tile::key_block::intrabc_dv_pred;
use ec_av1::tile::layout::{block_grid, element_prob, gather, has_half, q_ctx_of, sb_write_order};
use ec_av1::tile::motion::write_drl_idx;
use ec_av1::tile::neighbours::Neighbours;
use ec_av1::tile::ops::{Cdf, MvTable, Note, Op, TxbSet, TxbTable, WienerInfo};
use ec_av1::tile::palette::ceil_log2;
use ec_av1::tile::plans::{
    arm_cdef_idx, arm_delta_q, arm_lr, write_cdef_idx, write_delta_q, write_lr,
};
use ec_av1::tile::price::{coeff_symbols, palette_symbols, palette_uv_symbols, partition_symbol};
use ec_av1::tile::rdoq::{Rdoq, RDOQ_BUDGET, RDOQ_MAX_LEVEL};
use ec_av1::tile::refs::write_single_ref;
use ec_av1::tile::scan::{default_scan, TxClass};
use ec_av1::tile::tiles::{TileLayout, TileRect};
use ec_av1::tile::vectors::{mv_class_base, mv_class_of, write_dv, write_mv};
use ec_av1::timeline::{Log, Phase, HEADER, NO_FRAME};
use ec_av1::transform::tx_type::TxType;
use ec_av1::warp::affine::{find_projection, get_shear_params};
use ec_av1::warp::filter::warp_affine;
use ec_av1::warp::model::WarpParams;
use ec_av1::warp::samples::{record_sample, select_samples, Sample};
use ec_av1::wedge::{wedge_masks, MAX_WEDGE_TYPES};

fn symbol(value: usize, cdf: Cdf) -> Op {
    Op::Symbol { cdf, value }
}

fn literal(raw: u32, bits: u32) -> Op {
    Op::Literal { raw, bits }
}

#[test]
fn rounding_and_clamping_are_the_fixed_point_ones() {
    assert_eq!(round2(5, 1), 3);
    assert_eq!(round2(-5, 1), -2);
    assert_eq!(round2(7, 0), 7);
    assert_eq!(clamp_range(40000, 16), 32767);
    assert_eq!(clamp_range(-40000, 16), -32768);
}

#[test]
fn wedge_masks_have_the_known_checksum_and_are_complements() {
    let masks = wedge_masks();
    let book = masks.codebook(8);
    let checksum: u64 = book
        .mask(0, 0)
        .iter()
        .enumerate()
        .map(|(i, &w)| u64::from(w) * (i as u64 + 1))
        .sum();
    assert_eq!(checksum, 39141);
    for side in [8usize, 16, 32] {
        let book = masks.codebook(side);
        for idx in 0..MAX_WEDGE_TYPES {
            let (a, b) = (book.mask(0, idx), book.mask(1, idx));
            assert_eq!(a.len(), side * side);
            assert!(a.iter().zip(b).all(|(&x, &y)| x + y == 64));
        }
    }
}

#[test]
fn wedges_come_in_transposed_pairs() {
    let masks = wedge_masks();
    for side in [8usize, 16, 32] {
        let book = masks.codebook(side);
        for (a, b) in [(0, 1), (3, 2), (4, 6), (5, 7), (8, 12), (9, 13), (10, 14), (11, 15)] {
            for sign in 0..2 {
                let (one, other) = (book.mask(sign, a), book.mask(sign, b));
                for i in 0..side {
                    for j in 0..side {
                        assert_eq!(one[i * side + j], other[j * side + i]);
                        assert!(one[i * side + j] <= 64);
                    }
                }
            }
        }
    }
}

#[test]
fn no_samples_fit_no_model_and_the_identity_shears_nothing() {
    assert!(find_projection(&[], 16, 16, 0, 0, 0, 0).is_none());
    assert_eq!(
        get_shear_params(&[0, 0, 65536, 0, 0, 65536]),
        Some((0, 0, 0, 0))
    );
    assert_eq!(get_shear_params(&[0, 0, 0, 0, 0, 65536]), None);
}

#[test]
fn a_flat_reference_warps_to_itself() {
    let params = WarpParams {
        wmmat: [0, 0, 65536, 0, 0, 65536],
        alpha: 0,
        beta: 0,
        gamma: 0,
        delta: 0,
    };
    let reference = vec![77u8; 32 * 32];
    let mut dst = vec![0u8; 16 * 8];
    warp_affine(&params, &reference, 32, 32, 32, &mut dst, 8, 8, 8, 8, 16, 0, 0);
    for row in 0..8 {
        for col in 0..16 {
            assert_eq!(dst[row * 16 + col], if col < 8 { 77 } else { 0 });
        }
    }
}

#[test]
fn samples_are_centres_and_far_ones_are_dropped() {
    let tall = record_sample(8, 16, (3, 5), 0, -1, 0, 1);
    assert_eq!(tall.pts1, (24, -72));
    assert_eq!(tall.pts2, (27, -67));
    let near = record_sample(8, 8, (4, 2), -2, 1, 0, 1);
    assert_eq!(near.pts2.0 - near.pts1.0, 4);
    assert_eq!(near.pts2.1 - near.pts1.1, 2);
    let far = Sample {
        pts1: (0, 0),
        pts2: (4000, 4000),
    };
    let mut samples = vec![near, far];
    select_samples((2, 4), &mut samples, 8, 8);
    assert_eq!(samples.len(), 1);
    assert_eq!(samples[0].pts1, near.pts1);
    let mut only = vec![far];
    select_samples((2, 4), &mut only, 8, 8);
    assert_eq!(only.len(), 1);
}

#[test]
fn the_timeline_is_a_table_of_its_frames() {
    let mut log = Log::new();
    log.submit(1, 'I', true, 5);
    log.start(1, 7);
    log.ref_wait(1, 3, 0, 9);
    log.ref_wait(1, 4, 0, 2);
    log.stamp(1, Phase::GrainDone, 20);
    log.stamp(NO_FRAME, Phase::HdrDone, 30);
    log.note_pipe(1, true);
    log.output(1, 25);
    log.output(1, 26);
    log.output(9, 27);
    log.cap_wait("jobs", 1, 2);
    let text: String = log.dump(99).into_iter().collect();
    let want = format!(
        "{HEADER}TL\t1\tI\t1\t5\t7\t0\t0\t0\t0\t0\t0\t20\t25\t3\t0\t9\t1\t0\nTL_CAP\tjobs\t1\t2\nTL_END\t99\n"
    );
    assert_eq!(text, want);
    let mut inline = Log::new();
    inline.bind(0, 'K', true);
    inline.output(0, 4);
    inline.stamp(0, Phase::FiltersDone, 6);
    inline.output(0, 8);
    let text: String = inline.dump(10).into_iter().collect();
    assert_eq!(
        text,
        format!("{HEADER}TL\t0\tK\t1\t0\t0\t0\t0\t0\t0\t6\t0\t0\t8\t-1\t-1\t0\t0\t-\nTL_END\t10\n")
    );
}

#[test]
fn a_frame_is_cut_into_blocks_and_superblocks() {
    assert_eq!(block_grid(20, 16), (3, 2));
    assert!(has_half(16, 8, 21));
    assert!(!has_half(16, 8, 20));
    assert_eq!(
        [q_ctx_of(20), q_ctx_of(21), q_ctx_of(60), q_ctx_of(61), q_ctx_of(120), q_ctx_of(121)],
        [0, 1, 1, 2, 2, 3]
    );
    assert_eq!(
        sb_write_order(0, 2, 0, 2, false),
        vec![
            (0, 0, true, true),
            (0, 1, false, true),
            (1, 0, true, true),
            (1, 1, false, true)
        ]
    );
    assert_eq!(
        sb_write_order(0, 2, 0, 3, true),
        vec![
            (0, 0, true, true),
            (0, 1, false, false),
            (1, 0, false, false),
            (1, 1, false, false),
            (0, 2, false, true),
            (1, 2, false, false)
        ]
    );
}

#[test]
fn a_gathered_flag_takes_the_mass_of_its_types() {
    let cdf = [4096u16, 12288, 20480, 32768, 0];
    assert_eq!(element_prob(&cdf, 0), 4096);
    assert_eq!(element_prob(&cdf, 3), 12288);
    assert_eq!(gather(&cdf, &[1, 3]), [32768 - 8192 - 12288, 32768, 0]);
}

#[test]
fn tiles_cut_the_frame_evenly() {
    let layout = TileLayout::new(96, 48, 1, 1, false);
    assert_eq!(layout.cols(), 2);
    assert_eq!(layout.rows(), 2);
    assert_eq!(layout.count(), 4);
    assert_eq!(layout.mi_col_starts(), vec![0, 48, 96]);
    assert_eq!(layout.mi_row_starts(), vec![0, 32, 48]);
    let last = layout.rect(3);
    assert_eq!((last.mi_col0, last.mi_col1, last.mi_row0, last.mi_row1), (48, 96, 32, 48));
    assert_eq!(layout.largest_tile(), 1);
    let whole = TileRect::whole(96, 48);
    assert_eq!((whole.sb_col1, whole.sb_row1), (6, 3));
}

#[test]
fn every_unit_lies_in_one_tile() {
    for (cols, rows, cols_log2, rows_log2, sb128) in
        [(96, 48, 1, 1, false), (97, 50, 2, 1, true), (33, 1, 5, 3, false), (17, 80, 0, 2, true)]
    {
        let layout = TileLayout::new(cols, rows, cols_log2, rows_log2, sb128);
        assert!(layout.cols() <= 1 << cols_log2 && layout.rows() <= 1 << rows_log2);
        let tiles: Vec<TileRect> = (0..layout.count()).map(|i| layout.rect(i)).collect();
        for (i, t) in tiles.iter().enumerate() {
            assert_eq!((t.mi_row0 % 16, t.mi_col0 % 16), (0, 0));
            let across = layout.cols() as usize;
            assert_eq!(t.mi_row0, layout.mi_row_starts()[i / across]);
            assert_eq!(t.mi_col0, layout.mi_col_starts()[i % across]);
        }
        for r in 0..rows {
            for c in 0..cols {
                let held = tiles.iter().filter(|t| {
                    (t.mi_row0..t.mi_row1).contains(&r) && (t.mi_col0..t.mi_col1).contains(&c)
                });
                assert_eq!(held.count(), 1);
            }
        }
    }
}

#[test]
fn plans_arm_only_what_they_hold() {
    assert!(arm_lr(64, 1, 1, vec![]).is_none());
    let filter = WienerInfo {
        vertical: [1, 2, 3],
        horizontal: [4, 5, 6],
    };
    let plan = arm_lr(64, 2, 1, vec![Some(filter), None]);
    let mut out = Vec::new();
    write_lr(&mut out, &plan, 0, 0, 32);
    assert_eq!(
        out,
        vec![
            symbol(1, Cdf::RestoreWiener),
            Op::Wiener(filter),
            symbol(0, Cdf::RestoreWiener)
        ]
    );
    let cdef = arm_cdef_idx(3, 1, vec![5]);
    let mut last = None;
    let mut out = Vec::new();
    write_cdef_idx(&mut out, &cdef, &mut last, (0, 0), true);
    write_cdef_idx(&mut out, &cdef, &mut last, (0, 0), false);
    write_cdef_idx(&mut out, &cdef, &mut last, (8, 8), false);
    assert_eq!(out, vec![literal(5, 3)]);
}

#[test]
fn a_quantizer_step_is_coded_once_a_superblock() {
    let plan = arm_delta_q(4, 1, vec![120], 100);
    let mut cur = 100;
    let mut out = Vec::new();
    write_delta_q(&mut out, &plan, &mut cur, (0, 0), false, false);
    assert_eq!(cur, 120);
    assert_eq!(out[0], symbol(3, Cdf::DeltaQ));
    let mut again = Vec::new();
    write_delta_q(&mut again, &plan, &mut cur, (4, 4), false, false);
    assert_eq!(again, vec![]);
    let mut same = Vec::new();
    write_delta_q(&mut same, &plan, &mut cur, (0, 0), false, false);
    assert_eq!(same, vec![symbol(0, Cdf::DeltaQ)]);
    let mut skipped = Vec::new();
    write_delta_q(&mut skipped, &plan, &mut cur, (0, 0), true, true);
    assert_eq!(skipped, vec![]);
}

#[test]
fn end_of_block_positions_have_a_group_and_an_offset() {
    let eob = |n: usize| {
        let mut out = Vec::new();
        write_eob(&mut out, TxbSet::Luma32, n, TxClass::TwoD);
        out
    };
    let table = |t: TxbTable| Cdf::Txb(TxbSet::Luma32, t);
    assert_eq!(eob(1), vec![symbol(0, table(TxbTable::EobPt))]);
    assert_eq!(eob(2), vec![symbol(1, table(TxbTable::EobPt))]);
    assert_eq!(
        eob(4),
        vec![
            symbol(2, table(TxbTable::EobPt)),
            symbol(1, table(TxbTable::EobExtra(0)))
        ]
    );
    assert_eq!(
        eob(1024),
        vec![
            symbol(10, table(TxbTable::EobPt)),
            symbol(1, table(TxbTable::EobExtra(8))),
            literal(255, 8)
        ]
    );
}

#[test]
fn coefficient_contexts_read_the_levels_behind_them() {
    let mut grid = vec![0i32; 64];
    grid[1] = 5;
    grid[8] = -1;
    assert_eq!(base_ctx(&grid, 8, 0, 0, TxClass::TwoD), 0);
    assert_eq!(base_ctx(&grid, 8, 0, 1, TxClass::TwoD), 1);
    assert_eq!(base_ctx(&grid, 8, 7, 7, TxClass::TwoD), 21);
    assert_eq!(br_ctx(&grid, 8, 0, 0, TxClass::TwoD), 3);
    assert_eq!(br_ctx(&grid, 8, 0, 1, TxClass::TwoD), 7);
    assert_eq!(br_ctx(&grid, 8, 3, 3, TxClass::TwoD), 14);
    assert_eq!(eob_coeff_ctx(0, 64), 0);
    assert_eq!(eob_coeff_ctx(8, 64), 1);
    assert_eq!(eob_coeff_ctx(16, 64), 2);
    assert_eq!(eob_coeff_ctx(17, 64), 3);
}

#[test]
fn a_block_of_levels_is_written_backwards_then_signed() {
    let mut grid = vec![0i32; 64];
    grid[0] = -3;
    grid[1] = 16;
    let coding = TxbCoding {
        set: TxbSet::Chroma8,
        mode: 0,
        reduced: false,
        skip_ctx: 1,
        sign_ctx: 2,
        tx_type: TxType::DctDct,
    };
    let mut out = Vec::new();
    write_coeffs(&mut out, &coding, &grid, &default_scan(8));
    let t = |t: TxbTable| Cdf::Txb(TxbSet::Chroma8, t);
    assert_eq!(
        out,
        vec![
            symbol(0, t(TxbTable::Skip(1))),
            symbol(1, t(TxbTable::EobPt)),
            symbol(2, t(TxbTable::BaseEob(1))),
            symbol(3, t(TxbTable::Br(7))),
            symbol(3, t(TxbTable::Br(7))),
            symbol(3, t(TxbTable::Br(7))),
            symbol(3, t(TxbTable::Br(7))),
            symbol(3, t(TxbTable::Base(0))),
            symbol(0, t(TxbTable::Br(6))),
            symbol(1, t(TxbTable::DcSign(2))),
            literal(0, 1),
            literal(0, 1),
            literal(1, 1),
            literal(0, 1),
        ]
    );
}

#[test]
fn transform_types_code_their_place_in_the_set() {
    assert_eq!(tx_type_symbol(TxbSet::Luma16, false, TxType::AdstAdst), Some(2));
    assert_eq!(tx_type_symbol(TxbSet::Luma32Inter, false, TxType::Idtx), Some(0));
    assert_eq!(tx_type_symbol(TxbSet::Luma32, false, TxType::DctDct), None);
    assert_eq!(tx_type_symbol(TxbSet::Chroma8, false, TxType::DctDct), None);
}

#[test]
fn uniform_values_take_fewer_bits_when_low() {
    let write = |value: usize, n: usize| {
        let mut out = Vec::new();
        write_uniform(&mut out, value, n);
        out
    };
    assert_eq!(ceil_log2(5), 3);
    assert_eq!(write(2, 5), vec![literal(2, 2)]);
    assert_eq!(write(3, 5), vec![literal(3, 2), literal(0, 1)]);
    assert_eq!(write(4, 5), vec![literal(3, 2), literal(1, 1)]);
}

#[test]
fn cached_colours_are_flags_and_the_rest_are_steps() {
    let mut out = Vec::new();
    write_palette_colors_y(&mut out, &[10, 30, 31], &[10, 20]);
    assert_eq!(
        out,
        vec![
            literal(1, 1),
            literal(0, 1),
            literal(30, 8),
            literal(0, 2),
            literal(0, 5),
        ]
    );
}

#[test]
fn a_map_starts_with_its_first_pixel() {
    let map = vec![1u8; 16];
    let mut out = Vec::new();
    write_color_index_map(&mut out, MapPlane::Y, &map, 4, 2);
    assert_eq!(out[..2], [literal(0, 0), literal(1, 1)]);
    assert_eq!(out.len(), 17);
    assert!(out[2..].iter().all(|op| matches!(op, Op::Symbol { value: 0, .. })));
}

#[test]
fn joint_signs_skip_the_pair_of_zeros() {
    assert_eq!(cfl_joint_sign(0, -1), 0);
    assert_eq!(cfl_joint_sign(1, 1), 7);
    assert_eq!(cfl_alpha_ctx(7, 0), 5);
    let mut out = Vec::new();
    write_cfl_alphas(&mut out, 3, 0);
    assert_eq!(
        out,
        vec![
            symbol(cfl_joint_sign(3, 0), Cdf::CflSign),
            symbol(2, Cdf::CflAlpha(cfl_alpha_ctx(cfl_joint_sign(3, 0), 0)))
        ]
    );
    assert_eq!(palette_uv_side(8), 4);
    assert_eq!(palette_uv_side(32), 16);
    assert_eq!(tx_row(5, None), 5);
}

#[test]
fn vectors_are_classes_and_bits() {
    assert_eq!(mv_class_base(0), 0);
    assert_eq!(mv_class_base(1), 16);
    assert_eq!(mv_class_of(15), 0);
    assert_eq!(mv_class_of(16), 1);
    let mut out = Vec::new();
    assert_eq!(write_mv(&mut out, (-20, 0), (0, 0)), Ok(()));
    assert_eq!(
        out,
        vec![
            symbol(2, Cdf::MvJoint),
            symbol(1, Cdf::Mv(0, MvTable::Sign)),
            symbol(1, Cdf::Mv(0, MvTable::Class)),
            symbol(0, Cdf::Mv(0, MvTable::Bit(0))),
            symbol(1, Cdf::Mv(0, MvTable::Fr)),
        ]
    );
    let mut same = Vec::new();
    assert_eq!(write_mv(&mut same, (4, 6), (4, 6)), Ok(()));
    assert_eq!(same, vec![symbol(0, Cdf::MvJoint)]);
    let mut odd = Vec::new();
    assert_eq!(write_mv(&mut odd, (1, 0), (0, 0)), Err(TileError::MvPrecision));
    let mut dv = Vec::new();
    assert_eq!(write_dv(&mut dv, (0, 4), (0, 0)), Err(TileError::DvPrecision));
    assert_eq!(intrabc_dv_pred((0, 0), 0), (0, -2560));
    assert_eq!(intrabc_dv_pred((0, 0), 16), (-512, 0));
    assert_eq!(intrabc_dv_pred((-13, 9), 16), (-16, 8));
}

#[test]
fn candidate_indices_stop_at_the_stack() {
    let mut out = Vec::new();
    assert_eq!(write_drl_idx(&mut out, &[1, 2, 0], 3, 0, 1), 1);
    assert_eq!(out, vec![symbol(1, Cdf::DrlMode(1)), symbol(0, Cdf::DrlMode(2))]);
    let mut short = Vec::new();
    assert_eq!(write_drl_idx(&mut short, &[1, 2, 0], 1, 0, 2), 0);
    assert_eq!(short, vec![]);
}

#[test]
fn a_reference_is_a_path_of_bits() {
    let n = Neighbours::new(4, 4, 16, 16);
    let refs = n.named_refs((0, 0));
    let name = |r: i8| {
        let mut out = Vec::new();
        write_single_ref(&mut out, r, &refs);
        out.into_iter()
            .filter_map(|op| match op {
                Op::Symbol { cdf: Cdf::SingleRef(_, i), value } => Some((i, value)),
                _ => None,
            })
            .collect::<Vec<_>>()
    };
    assert_eq!(name(1), vec![(0, 0), (2, 0), (3, 0)]);
    assert_eq!(name(4), vec![(0, 0), (2, 1), (4, 1)]);
    assert_eq!(name(7), vec![(0, 1), (1, 1)]);
    assert_eq!(name(6), vec![(0, 1), (1, 0), (5, 1)]);
}

#[test]
fn the_census_counts_marks_and_is_taken_once() {
    let ops = vec![
        Op::Note(Note::Sb128Root),
        Op::Note(Note::InterMode(3, 5)),
        symbol(0, Cdf::DeltaQ),
        Op::Note(Note::Sb128Root),
        Op::Note(Note::Ref(6)),
    ];
    let mut hits = Hits::new();
    hits.count(&ops);
    hits.count(&ops);
    assert_eq!(take_sb128_root_hits(&mut hits), 4);
    assert_eq!(take_sb128_root_hits(&mut hits), 0);
    assert_eq!(take_inter_mode_hits(&mut hits), vec![0, 0, 0, 2]);
    assert_eq!(take_drl_hits(&mut hits), vec![0, 0, 0, 2]);
    assert_eq!(take_ref_hits(&mut hits), vec![0, 0, 0, 0, 0, 0, 2]);
    assert_eq!(take_ref_hits(&mut hits), vec![0; 7]);
}

#[test]
fn the_quantizer_census_counts_levels_of_one() {
    let mut stats = RdoqStats { counts: [0; 8] };
    let mut levels = vec![0i32; 16];
    levels[0] = 5;
    levels[1] = -1;
    levels[4] = 1;
    census_block(&mut stats, &levels, 4, 4, 640);
    assert_eq!(take_rdoq_stats(&mut stats), [1, 3, 2, 2, 0, 0, 0, 640]);
    assert_eq!(take_rdoq_stats(&mut stats), [0; 8]);
    census_lowered(&mut stats, 0);
    census_lowered(&mut stats, -1);
    census_lowered(&mut stats, 1);
    census_after(&mut stats, 320);
    assert_eq!(take_rdoq_stats(&mut stats), [0, 0, 0, 0, 1, 2, 320, 0]);
    let wide: Vec<i32> = (0..64 * 64).collect();
    let corner = coded_corner(&wide, 64, 32);
    assert_eq!(corner[32], 64);
}

#[test]
fn a_walk_lowers_levels_from_the_tail() {
    let mut levels = vec![0i32; 16];
    levels[0] = 7;
    levels[1] = 2;
    levels[4] = -1;
    let mut walk = Rdoq::new(levels, 4, TxType::DctDct, RDOQ_BUDGET, RDOQ_MAX_LEVEL);
    assert_eq!(walk.propose(), Some((4, 0)));
    walk.answer(true);
    assert_eq!(walk.propose(), Some((1, 1)));
    walk.answer(true);
    assert_eq!(walk.propose(), Some((1, 0)));
    walk.answer(false);
    assert_eq!(walk.propose(), None);
    assert_eq!(walk.levels[0], 7);
    assert_eq!(walk.levels[1], 1);
    assert_eq!(walk.levels[4], 0);
    let mut poor = Rdoq::new(vec![1; 16], 4, TxType::DctDct, 1, 2);
    assert!(poor.propose().is_some());
    poor.answer(true);
    assert_eq!(poor.propose(), None);
}

#[test]
fn prices_are_the_symbols_a_choice_takes() {
    let flag = coeff_symbols(&vec![0; 1024], TxbSet::Luma32, false, 3, 0, TxType::DctDct);
    assert_eq!(
        flag,
        vec![symbol(1, Cdf::Txb(TxbSet::Luma32, TxbTable::Skip(3)))]
    );
    assert_eq!(partition_symbol(16, true), symbol(3, Cdf::PartitionW16(0)));
    assert_eq!(partition_symbol(64, false), symbol(0, Cdf::PartitionW64(0)));
    let y = PaletteY {
        size: 2,
        colors: [3, 9, 0, 0, 0, 0, 0, 0],
        map: vec![0; 64],
    };
    let ops = palette_symbols(&y, 8).unwrap();
    assert_eq!(ops[0], symbol(1, Cdf::PaletteYMode(0, 0)));
    assert_eq!(ops[1], symbol(0, Cdf::PaletteYSize(0)));
    assert_eq!(ops[2], literal(3, 8));
    assert!(palette_symbols(&y, 4).is_none());
    let uv = PaletteUv {
        size: 2,
        u_colors: [3, 9, 0, 0, 0, 0, 0, 0],
        v_colors: [1, 2, 0, 0, 0, 0, 0, 0],
        map: vec![0; 16],
    };
    let ops = palette_uv_symbols(&uv, 8).unwrap();
    assert_eq!(ops[0], symbol(1, Cdf::PaletteUvMode(0)));
}
