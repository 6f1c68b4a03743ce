use ec_av1::tile::blocks::{BlockCoeffs, Coeff, InterInfo, InterMode, Quadrant, Superblock};
use ec_av1::tile::children::{child_at, child_inside, children_inside};
use ec_av1::tile::error::TileError;
use ec_av1::tile::fixtures::{
    dc_key_frame_tile, dc_key_frame_tile_levels, flat_key_frame_tile, split_dc_key_frame_tile,
};
use ec_av1::tile::golomb::write_golomb;
use ec_av1::tile::inter_block::intra_inter_ctx;
use ec_av1::tile::inter_frame::{
    sb_coeff_inter_frame_tile, sb_coeff_inter_frame_tile_cdfs, sb_coeff_inter_frame_tile_tx,
};
use ec_av1::tile::key_tile::{
    sb_coeff_key_frame_tile, sb_coeff_key_frame_tile_cdfs, sb_coeff_key_frame_tile_tx,
    split_coeff_key_frame_tile,
};
use ec_av1::tile::levels::{MAX_BR_LEVEL, MAX_LEVEL};
use ec_av1::tile::motion::{CompoundStack, MotionContext, MvStack};
use ec_av1::tile::neighbours::{dc_sign_ctx, Neighbours, DC_PRED, INTRA_MODES};
use ec_av1::tile::ops::{Alike, Cdf, MvTable, Note, Op, TxbSet, TxbTable};
use ec_av1::tile::plans::FramePlan;
use ec_av1::tile::scan::{class_scan_table, default_scan, TxClass};
use ec_av1::tile::tiles::TileRect;
use ec_av1::transform::tx_type::TxType;

const Q_IDX: u8 = 100;
const SUB: usize = 16;
const BLOCK: usize = 32;
const TX8: usize = 8;
const TX16: usize = 16;
const TX32: usize = 32;
const H_PRED: usize = 2;
const LAST_FRAME: i8 = 1;

fn symbol(value: usize, cdf: Cdf) -> Op {
    Op::Symbol { cdf, value }
}

fn fixed(value: usize, cdf: Cdf) -> Op {
    Op::Fixed { cdf, value }
}

fn luma(coeffs: Vec<Coeff>) -> BlockCoeffs {
    BlockCoeffs::from(coeffs)
}

fn one(row: u8, col: u8, level: i32) -> BlockCoeffs {
    luma(vec![Coeff { row, col, level }])
}

fn still() -> MotionContext {
    MotionContext {
        single: MvStack {
            entries: vec![(0, 0)],
            nearest_mv: (0, 0),
            near_mv: (0, 0),
            pred_mv: (0, 0),
            new_mv_ctx: 0,
            zero_mv_ctx: 0,
            ref_mv_ctx: 0,
            drl_ctx: [0, 0, 0],
        },
        compound: CompoundStack {
            entries: vec![],
            nearest_mv: ((0, 0), (0, 0)),
            near_mv: ((0, 0), (0, 0)),
            new_mv_ctx: 0,
            ref_mv_ctx: 0,
            drl_ctx: [0, 0, 0],
        },
        overlappable: false,
        warp_samples: 0,
    }
}

fn stills(n: usize) -> Vec<MotionContext> {
    (0..n).map(|_| still()).collect()
}

fn inter(mode: InterMode, mv: (i32, i32)) -> InterInfo {
    InterInfo {
        mode,
        mv,
        ref_frame: LAST_FRAME,
        ref_mv_idx: 0,
        ref1: None,
        mv1: (0, 0),
    }
}

fn skipped(info: InterInfo) -> BlockCoeffs {
    let mut block = BlockCoeffs::default();
    block.skip = true;
    block.inter = Some(info);
    block
}

fn symbols(ops: &[Op]) -> Vec<(usize, Cdf)> {
    ops.iter()
        .filter_map(|op| match op {
            Op::Symbol { cdf, value } => Some((*value, *cdf)),
            _ => None,
        })
        .collect()
}

#[test]
fn a_level_grid_that_does_not_cover_the_frame_is_refused() {
    assert!(split_dc_key_frame_tile(16, 16, 100, &[3, 3, 3]).is_err());
    assert!(split_dc_key_frame_tile(16, 16, 100, &[3, 3, 3, 0]).is_err());
    assert!(dc_key_frame_tile_levels(32, 32, 100, &[3, 3]).is_err());
    assert!(dc_key_frame_tile_levels(32, 32, 100, &[3, 3, 3, 3, 3]).is_err());
    assert!(dc_key_frame_tile_levels(32, 32, 100, &[3, 3, 0, 3]).is_err());
}

#[test]
fn dc_levels_the_base_syntax_cannot_carry_are_refused() {
    assert!(dc_key_frame_tile(16, 16, 100, 0).is_err());
    assert!(dc_key_frame_tile(16, 16, 100, 15).is_err());
    assert!(dc_key_frame_tile(16, 16, 100, -15).is_err());
}

#[test]
fn partial_superblocks_are_refused() {
    assert!(flat_key_frame_tile(16, 20).is_err());
    assert!(flat_key_frame_tile(0, 16).is_err());
}

#[test]
fn a_flat_frame_is_four_symbols_a_superblock() {
    let ops = flat_key_frame_tile(32, 16).unwrap();
    assert_eq!(
        ops,
        vec![
            fixed(0, Cdf::PartitionW64(0)),
            fixed(1, Cdf::Skip(0)),
            fixed(0, Cdf::KfYMode(0, 0)),
            fixed(0, Cdf::UvModeNoCfl(0)),
            fixed(0, Cdf::PartitionW64(0)),
            fixed(1, Cdf::Skip(1)),
            fixed(0, Cdf::KfYMode(0, 0)),
            fixed(0, Cdf::UvModeNoCfl(0)),
        ]
    );
}

#[test]
fn a_dc_frame_spells_its_level_out() {
    let trace = dc_key_frame_tile(16, 16, 100, -10).unwrap();
    assert_eq!(trace.q_ctx, 2);
    let luma = |t: TxbTable| Cdf::Txb(TxbSet::Luma64, t);
    let none = fixed(1, Cdf::Txb(TxbSet::Chroma32, TxbTable::Skip(0)));
    assert_eq!(
        trace.ops,
        vec![
            fixed(0, Cdf::PartitionW64(0)),
            fixed(0, Cdf::Skip(0)),
            fixed(0, Cdf::KfYMode(0, 0)),
            fixed(0, Cdf::UvModeNoCfl(0)),
            fixed(0, luma(TxbTable::Skip(0))),
            fixed(0, luma(TxbTable::EobPt)),
            fixed(2, luma(TxbTable::BaseEob(0))),
            fixed(3, luma(TxbTable::Br(0))),
            fixed(3, luma(TxbTable::Br(0))),
            fixed(1, luma(TxbTable::Br(0))),
            fixed(1, luma(TxbTable::DcSign(0))),
            none,
            none,
        ]
    );
    let grid = dc_key_frame_tile_levels(32, 32, 0, &[1, -1, 1, 1]).unwrap();
    assert_eq!(grid.q_ctx, 0);
    let signs: Vec<Op> = grid
        .ops
        .iter()
        .filter(|op| matches!(op, Op::Fixed { cdf: Cdf::Txb(_, TxbTable::DcSign(_)), .. }))
        .copied()
        .collect();
    assert_eq!(
        signs,
        vec![
            fixed(0, luma(TxbTable::DcSign(0))),
            fixed(1, luma(TxbTable::DcSign(2))),
            fixed(0, luma(TxbTable::DcSign(2))),
            fixed(0, luma(TxbTable::DcSign(0))),
        ]
    );
    let split = split_dc_key_frame_tile(32, 16, 255, &[2, 2, 2, 2, 2, 2, 2, 2]).unwrap();
    assert_eq!(split.q_ctx, 3);
    assert_eq!(split.ops[0], fixed(3, Cdf::PartitionW64(0)));
    assert!(split.ops.contains(&fixed(3, Cdf::PartitionW64(2))));
    assert_eq!(
        split
            .ops
            .iter()
            .filter(|op| **op == fixed(0, Cdf::PartitionW32(0)))
            .count(),
        8
    );
}

#[test]
fn a_block_gathers_the_cells_its_neighbours_cover() {
    let mut neighbours = Neighbours::new(4, 4, 64, 64);
    let quiet = [
        vec![0i32; TX16 * TX16],
        vec![0; TX8 * TX8],
        vec![0; TX8 * TX8],
    ];
    let mut loud = quiet.clone();
    loud[1][0] = -3;
    neighbours.record((0, 2), SUB, DC_PRED, &quiet, false);
    neighbours.record((0, 3), SUB, DC_PRED, &loud, false);
    let around = neighbours.around((2, 2), BLOCK, 1);
    assert!(
        around.above_coded,
        "the coded cell has to reach the block below it"
    );
    assert_eq!(
        dc_sign_ctx(around.dc_vote),
        1,
        "the one negative DC above the block is what it votes"
    );
    assert!(!neighbours.above[8].u.coded);
}

struct Bits {
    bits: Vec<u32>,
    at: usize,
}

impl Bits {
    fn of(ops: &[Op]) -> Bits {
        let mut bits = Vec::new();
        for op in ops {
            match op {
                Op::Literal { raw, bits: n } => {
                    for i in (0..*n).rev() {
                        bits.push((raw >> i) & 1);
                    }
                }
                other => panic!("{other:?} is not raw bits"),
            }
        }
        Bits { bits, at: 0 }
    }

    fn next(&mut self) -> u32 {
        self.at += 1;
        self.bits[self.at - 1]
    }
}

fn read_golomb_level(dec: &mut Bits) -> u32 {
    let mut length = 0;
    while dec.next() == 0 {
        length += 1;
        assert!(
            length < 20,
            "the tail's length prefix runs past twenty bits"
        );
    }
    let mut x = 1;
    for _ in 0..length {
        x = (x << 1) | dec.next();
    }
    (MAX_BR_LEVEL + 1) as u32 + (x - 1)
}

#[test]
fn the_golomb_tail_reads_back_as_the_level_it_was_written_for() {
    for level in (MAX_BR_LEVEL + 1..=MAX_BR_LEVEL + 300)
        .chain([MAX_LEVEL - 1, MAX_LEVEL])
        .map(|l| l as u32)
    {
        let mut ops = Vec::new();
        write_golomb(&mut ops, level - (MAX_BR_LEVEL + 1) as u32);
        let mut dec = Bits::of(&ops);
        assert_eq!(
            read_golomb_level(&mut dec),
            level,
            "the tail of level {level}"
        );
        assert_eq!(dec.at, dec.bits.len());
    }
}

#[test]
fn the_default_scan_walks_every_position_outwards() {
    for side in [TX16, TX32] {
        let area = side * side;
        let scan = default_scan(side);
        assert_eq!(scan.len(), area);
        let mut seen = vec![false; area];
        for &pos in &scan {
            assert!(
                !seen[pos as usize],
                "position {pos} is scanned twice in {side}x{side}"
            );
            seen[pos as usize] = true;
        }
        assert_eq!(scan[0], 0, "the scan starts at the DC");

        let mut order = vec![0usize; area];
        for (i, &pos) in scan.iter().enumerate() {
            order[pos as usize] = i;
        }
        for row in 0..side {
            for col in 0..side {
                for (dr, dc) in [(1, 0), (0, 1), (1, 1), (2, 0), (0, 2)] {
                    let (nr, nc) = (row + dr, col + dc);
                    if nr < side && nc < side {
                        assert!(
                            order[nr * side + nc] > order[row * side + col],
                            "({nr},{nc}) is a context neighbour of ({row},{col}), so it must \
                             be scanned after it"
                        );
                    }
                }
            }
        }
    }
}

#[test]
fn scans_along_one_axis_go_by_rows_or_columns() {
    assert_eq!(
        class_scan_table(4, TxClass::Vert)[..6],
        [0, 1, 2, 3, 4, 5]
    );
    assert_eq!(
        class_scan_table(4, TxClass::Horiz)[..6],
        [0, 4, 8, 12, 1, 5]
    );
    assert_eq!(default_scan(4)[..6], [0, 1, 4, 8, 5, 2]);
    assert_eq!(TxClass::of(TxType::VDct), TxClass::Vert);
}

#[test]
fn a_whole_superblock_at_the_frame_edge_is_refused() {
    let block = || one(0, 0, 4);
    let sbs = [
        Superblock::Split(vec![
            Quadrant::Whole(block()),
            Quadrant::Whole(block()),
            Quadrant::Whole(block()),
            Quadrant::Whole(block()),
        ]),
        Superblock::Whole(block()),
    ];
    let err = sb_coeff_key_frame_tile(24, 16, Q_IDX, &sbs).unwrap_err();
    assert!(
        err.message().contains("half outside the frame"),
        "got {}",
        err.message()
    );
}

#[test]
fn a_frame_that_is_not_a_whole_number_of_blocks_is_refused() {
    let blocks: Vec<BlockCoeffs> = (0..4).map(|_| BlockCoeffs::default()).collect();
    let err = split_coeff_key_frame_tile(80 / 4, 64 / 4, Q_IDX, &blocks)
        .expect_err("80 is not a whole number of 32x32 blocks");
    assert!(
        err.message().contains("32x32"),
        "the refusal names the block size, got {}",
        err.message()
    );
}

#[test]
fn an_intra_mode_outside_the_key_frame_set_is_refused() {
    let mut blocks: Vec<BlockCoeffs> = (0..4).map(|_| BlockCoeffs::default()).collect();
    blocks[2].mode = INTRA_MODES as u8;
    let message = split_coeff_key_frame_tile(16, 16, Q_IDX, &blocks)
        .unwrap_err()
        .message();
    assert!(
        message.contains("intra mode 13"),
        "the refusal must name the mode, got {message}"
    );
}

#[test]
fn coefficients_the_writer_cannot_code_are_refused() {
    let empty = |n: usize| -> Vec<BlockCoeffs> { (0..n).map(|_| BlockCoeffs::default()).collect() };
    let cases: [(&str, Vec<BlockCoeffs>); 6] = [
        ("one set short", empty(3)),
        ("off the transform", {
            let mut b = empty(4);
            b[0].luma = vec![Coeff { row: 32, col: 0, level: 1 }];
            b
        }),
        ("a zero level", {
            let mut b = empty(4);
            b[1].luma = vec![Coeff { row: 0, col: 0, level: 0 }];
            b
        }),
        ("a level past the Golomb tail's reach", {
            let mut b = empty(4);
            b[2].luma = vec![Coeff { row: 0, col: 0, level: MAX_LEVEL + 1 }];
            b
        }),
        ("two coefficients at one position", {
            let mut b = empty(4);
            b[3].luma = vec![
                Coeff { row: 4, col: 4, level: 1 },
                Coeff { row: 4, col: 4, level: 2 },
            ];
            b
        }),
        ("off the chroma transform", {
            let mut b = empty(4);
            b[0].u = vec![Coeff { row: 0, col: 16, level: 1 }];
            b
        }),
    ];
    for (name, blocks) in cases {
        assert!(
            split_coeff_key_frame_tile(16, 16, Q_IDX, &blocks).is_err(),
            "{name} must be refused"
        );
    }
}

#[test]
fn each_refused_coefficient_has_its_own_error() {
    let sb = |b: BlockCoeffs| [Superblock::Whole(b)];
    let written = |b: BlockCoeffs| sb_coeff_key_frame_tile(16, 16, Q_IDX, &sb(b)).map(|_| ());
    assert_eq!(written(one(32, 0, 1)), Err(TileError::CoeffOutside));
    assert_eq!(written(one(0, 0, 0)), Err(TileError::CoeffLevel));
    assert_eq!(
        written(luma(vec![
            Coeff { row: 1, col: 1, level: 1 },
            Coeff { row: 1, col: 1, level: 1 },
        ])),
        Err(TileError::CoeffRepeated)
    );
    assert_eq!(written(one(0, 0, MAX_LEVEL)), Ok(()));
}

#[test]
fn each_ill_shaped_key_frame_has_its_own_error() {
    let key = |cols: u32, rows: u32, sbs: &[Superblock]| {
        sb_coeff_key_frame_tile(cols, rows, Q_IDX, sbs).map(|_| ())
    };
    let whole = || Quadrant::Whole(BlockCoeffs::default());
    assert_eq!(key(0, 16, &[]), Err(TileError::NoGrid));
    assert_eq!(key(16, 16, &[]), Err(TileError::SuperblockCount));
    assert_eq!(
        key(16, 16, &[Superblock::Split(vec![whole()])]),
        Err(TileError::QuadrantCount)
    );
    assert_eq!(
        key(16, 16, &[Superblock::Split(vec![whole(), whole(), whole(), Quadrant::Covered])]),
        Err(TileError::KeyWhole64)
    );
    assert_eq!(
        key(4, 8, &[Superblock::Split(vec![whole()])]),
        Err(TileError::WholeQuadrantOutside)
    );
    assert_eq!(
        key(8, 8, &[Superblock::Split(vec![Quadrant::Split(vec![])])]),
        Err(TileError::SubBlockCount)
    );
    assert_eq!(
        key(2, 4, &[Superblock::Split(vec![Quadrant::Split(vec![BlockCoeffs::default()])])]),
        Err(TileError::EightMissing)
    );
    let mut short = BlockCoeffs::default();
    short.eight = Some(vec![BlockCoeffs::default()]);
    assert_eq!(
        key(2, 4, &[Superblock::Split(vec![Quadrant::Split(vec![short])])]),
        Err(TileError::EightCount)
    );
    let mut deep = BlockCoeffs::default();
    deep.tx_depth = 1;
    assert_eq!(
        sb_coeff_key_frame_tile_tx(16, 16, Q_IDX, &[Superblock::Whole(deep)], true).map(|_| ()),
        Err(TileError::LumaSplit)
    );
    let blocks: Vec<BlockCoeffs> = vec![];
    assert_eq!(
        split_coeff_key_frame_tile(16, 16, Q_IDX, &blocks).map(|_| ()),
        Err(TileError::BlockCount)
    );
    assert_eq!(
        split_coeff_key_frame_tile(0, 16, Q_IDX, &blocks).map(|_| ()),
        Err(TileError::NoGrid)
    );
}

#[test]
fn an_empty_superblock_is_its_modes_and_three_flags() {
    let trace =
        sb_coeff_key_frame_tile(16, 16, Q_IDX, &[Superblock::Whole(BlockCoeffs::default())])
            .unwrap();
    assert_eq!(trace.q_ctx, 2);
    assert_eq!(
        trace.ops,
        vec![
            symbol(0, Cdf::PartitionW64(0)),
            symbol(0, Cdf::Skip(0)),
            symbol(0, Cdf::KfYMode(0, 0)),
            symbol(0, Cdf::UvModeNoCfl(0)),
            symbol(1, Cdf::Txb(TxbSet::Luma64, TxbTable::Skip(0))),
            symbol(1, Cdf::Txb(TxbSet::Chroma32, TxbTable::Skip(0))),
            symbol(1, Cdf::Txb(TxbSet::Chroma32, TxbTable::Skip(0))),
        ]
    );
}

#[test]
fn splitting_every_superblock_is_the_split_writer() {
    let blocks: Vec<BlockCoeffs> = (0..6u8).map(|i| one(i % 2, 1 - i % 2, 12)).collect();
    let split = split_coeff_key_frame_tile(24, 16, Q_IDX, &blocks).unwrap();
    let quad = |i: u8| Quadrant::Whole(one(i % 2, 1 - i % 2, 12));
    let sbs = [
        Superblock::Split(vec![quad(0), quad(1), quad(3), quad(4)]),
        Superblock::Split(vec![quad(2), quad(5)]),
    ];
    let general = sb_coeff_key_frame_tile(24, 16, Q_IDX, &sbs).unwrap();
    assert_eq!(split.ops, general.ops);
    assert!(split.ops.iter().any(|op| matches!(
        op,
        Op::Gathered { cdf: Cdf::PartitionW64(_), alike: Alike::Horz, value: 1 }
    )));
    let tall: Vec<BlockCoeffs> = (0..6u8).map(|i| one(i % 2, 1 - i % 2, 12)).collect();
    let trace = split_coeff_key_frame_tile(16, 24, Q_IDX, &tall).unwrap();
    assert!(trace.ops.iter().any(|op| matches!(
        op,
        Op::Gathered { cdf: Cdf::PartitionW64(_), alike: Alike::Vert, value: 1 }
    )));
}

#[test]
fn a_leaf_reads_the_mode_of_the_leaf_before_it() {
    let mut above = BlockCoeffs::default();
    above.mode = 1;
    let mut below = BlockCoeffs::default();
    below.mode = 2;
    let mut block = BlockCoeffs::default();
    block.eight = Some(vec![above, below]);
    let sbs = [Superblock::Split(vec![Quadrant::Split(vec![block])])];
    let trace = sb_coeff_key_frame_tile(2, 4, Q_IDX, &sbs).unwrap();
    let modes: Vec<(usize, Cdf)> = symbols(&trace.ops)
        .into_iter()
        .filter(|(_, cdf)| matches!(cdf, Cdf::KfYMode(_, _)))
        .collect();
    assert_eq!(modes, vec![(1, Cdf::KfYMode(0, 0)), (2, Cdf::KfYMode(1, 0))]);
}

#[test]
fn an_all_skip_inter_superblock_is_small_and_reads_back() {
    let block = || skipped(inter(InterMode::NearestMv, (0, 0)));
    let blocks = vec![
        Quadrant::Whole(block()),
        Quadrant::Whole(block()),
        Quadrant::Whole(block()),
        Quadrant::Whole(block()),
    ];
    let trace = sb_coeff_inter_frame_tile(16, 16, 90, &blocks, &stills(4)).unwrap();
    let said = symbols(&trace.ops);
    assert_eq!(said.len(), 1 + 4 * 9, "symbol count against the hand count");
    for i in 0..4 {
        let at = 1 + 9 * i;
        assert_eq!(said[at], (0, Cdf::PartitionW32(0)));
        assert_eq!(said[at + 1].0, 1, "skip");
        assert_eq!(said[at + 2].0, 1, "is_inter");
        assert_eq!(said[at + 3].0, 0, "single_ref p1");
        assert_eq!(said[at + 4].0, 0, "single_ref p3");
        assert_eq!(said[at + 5].0, 0, "single_ref p4");
        assert_eq!(said[at + 6], (1, Cdf::NewMv(0)));
        assert_eq!(said[at + 7], (1, Cdf::ZeroMv(0)));
        assert_eq!(said[at + 8], (0, Cdf::RefMv(0)));
    }
    let (tile, done) = sb_coeff_inter_frame_tile_cdfs(
        &FramePlan::plain(16, 16, false),
        &stills(4),
        &blocks,
        TileRect::whole(16, 16),
    );
    assert_eq!(done, Ok(()));
    assert_eq!(tile.records.len(), 4);
    for record in &tile.records {
        assert!(record.is_inter);
        assert_eq!(record.mv, (0, 0));
    }
}

#[test]
fn a_newmv_block_reads_back_the_exact_symbol_sequence_it_was_written_with() {
    let nearest = || skipped(inter(InterMode::NearestMv, (0, 0)));
    let blocks = vec![
        Quadrant::Whole(nearest()),
        Quadrant::Whole(nearest()),
        Quadrant::Whole(nearest()),
        Quadrant::Whole(skipped(inter(InterMode::NewMv, (0, 2)))),
    ];
    let (tile, done) = sb_coeff_inter_frame_tile_cdfs(
        &FramePlan::plain(16, 16, false),
        &stills(4),
        &blocks,
        TileRect::whole(16, 16),
    );
    assert_eq!(done, Ok(()));
    let said = symbols(&tile.ops);
    assert_eq!(
        said.len(),
        1 + 3 * 9 + 12,
        "symbol count against the hand count"
    );
    assert_eq!(
        said[said.len() - 6..],
        [
            (0, Cdf::NewMv(0)),
            (1, Cdf::MvJoint),
            (0, Cdf::Mv(1, MvTable::Sign)),
            (0, Cdf::Mv(1, MvTable::Class)),
            (0, Cdf::Mv(1, MvTable::Class0Bit)),
            (0, Cdf::Mv(1, MvTable::Class0Fr(0))),
        ]
    );
    assert_eq!(
        tile.records[3].mv,
        (0, 2),
        "the decoded motion vector must be exactly what was written"
    );
    assert!(tile.records[3].is_new_mv);
}

fn first_block_mode(ops: &[Op], table: Cdf) -> Option<usize> {
    let said = symbols(ops);
    assert_eq!(said[0].1, Cdf::PartitionW64(0));
    assert_eq!(said[1].1, Cdf::PartitionW32(0));
    assert_eq!(said[2].1, Cdf::Skip(0));
    assert_eq!(said[3].1, Cdf::IntraInter(0));
    if said[4].1 == table {
        Some(said[4].0)
    } else {
        None
    }
}

#[test]
fn an_intra_block_in_an_inter_frame_is_caught_reading_kf_y_mode() {
    let block = || {
        let mut b = BlockCoeffs::default();
        b.mode = H_PRED as u8;
        b.skip = true;
        Quadrant::Whole(b)
    };
    let blocks = vec![block(), block(), block(), block()];
    let trace = sb_coeff_inter_frame_tile(16, 16, 90, &blocks, &stills(0)).unwrap();
    assert_eq!(
        first_block_mode(&trace.ops, Cdf::YMode(3)),
        Some(H_PRED),
        "the right table reads the mode back exactly"
    );
    assert_ne!(
        first_block_mode(&trace.ops, Cdf::KfYMode(0, 0)),
        Some(H_PRED),
        "KF_Y_MODE's different probabilities must decode a different mode"
    );
}

#[test]
fn an_inter_block_asks_for_its_candidates_in_coding_order() {
    let block = || Quadrant::Whole(skipped(inter(InterMode::NearestMv, (0, 0))));
    let blocks = vec![block(), block(), block(), block()];
    let plan = FramePlan::plain(16, 16, false);
    for known in 0..4 {
        let (tile, done) = sb_coeff_inter_frame_tile_cdfs(
            &plan,
            &stills(known),
            &blocks,
            TileRect::whole(16, 16),
        );
        assert_eq!(
            done,
            Err(TileError::NeedsMotion(8 * (known / 2), 8 * (known % 2), 32))
        );
        assert_eq!(tile.records.len(), known);
        assert_eq!(tile.asked, known);
    }
}

#[test]
fn each_ill_shaped_inter_frame_has_its_own_error() {
    let frame = |cols: u32, rows: u32, quads: Vec<Quadrant>| {
        sb_coeff_inter_frame_tile(cols, rows, Q_IDX, &quads, &stills(8)).map(|_| ())
    };
    let whole = || Quadrant::Whole(skipped(inter(InterMode::NearestMv, (0, 0))));
    let root = || Quadrant::Whole64(skipped(inter(InterMode::NearestMv, (0, 0))));
    assert_eq!(frame(16, 0, vec![]), Err(TileError::NoGrid));
    assert_eq!(frame(16, 16, vec![]), Err(TileError::InterBlockCount));
    let mut bad = BlockCoeffs::default();
    bad.mode = 13;
    assert_eq!(
        frame(8, 8, vec![Quadrant::Whole(bad)]),
        Err(TileError::InterIntraMode(13))
    );
    let mut leaf = BlockCoeffs::default();
    leaf.mode = 14;
    let mut split = BlockCoeffs::default();
    split.eight = Some(vec![leaf, BlockCoeffs::default(), BlockCoeffs::default(), BlockCoeffs::default()]);
    assert_eq!(
        frame(4, 4, vec![Quadrant::Split(vec![split])]),
        Err(TileError::InterIntraMode(14))
    );
    assert_eq!(frame(8, 8, vec![root()]), Err(TileError::WholeRootOutside));
    assert_eq!(
        frame(
            16,
            16,
            vec![
                Quadrant::Whole64(BlockCoeffs::default()),
                Quadrant::Covered,
                Quadrant::Covered,
                Quadrant::Covered
            ]
        ),
        Err(TileError::RootNotInter)
    );
    let mut two = inter(InterMode::NearestNearestMv, (0, 0));
    two.ref1 = Some(7);
    assert_eq!(
        frame(
            16,
            16,
            vec![
                Quadrant::Whole64(skipped(two)),
                Quadrant::Covered,
                Quadrant::Covered,
                Quadrant::Covered
            ]
        ),
        Err(TileError::RootPaired)
    );
    assert_eq!(
        frame(16, 16, vec![whole(), Quadrant::Covered, whole(), whole()]),
        Err(TileError::StrayWhole64)
    );
    assert_eq!(frame(4, 8, vec![whole()]), Err(TileError::WholeQuadrantOutside));
    assert_eq!(
        frame(8, 8, vec![Quadrant::Split(vec![])]),
        Err(TileError::InterSubBlockCount)
    );
    assert_eq!(
        frame(2, 4, vec![Quadrant::Split(vec![BlockCoeffs::default()])]),
        Err(TileError::InterEightMissing)
    );
    let mut short = BlockCoeffs::default();
    short.eight = Some(vec![]);
    assert_eq!(
        frame(2, 4, vec![Quadrant::Split(vec![short])]),
        Err(TileError::InterEightCount)
    );
    let mut three = BlockCoeffs::default();
    three.eight = Some(vec![BlockCoeffs::default()]);
    assert_eq!(
        frame(4, 4, vec![Quadrant::Split(vec![three])]),
        Err(TileError::InterSplitCount)
    );
    assert_eq!(
        frame(8, 8, vec![Quadrant::Whole(skipped(inter(InterMode::NewMv, (0, 1))))]),
        Err(TileError::MvPrecision)
    );
    assert_eq!(
        frame(8, 8, vec![Quadrant::Whole(skipped(inter(InterMode::NewNewMv, (0, 0))))]),
        Err(TileError::CompoundMode)
    );
    let mut lone = inter(InterMode::NearestMv, (0, 0));
    lone.ref1 = Some(7);
    assert_eq!(
        frame(8, 8, vec![Quadrant::Whole(skipped(lone))]),
        Err(TileError::CompoundNeeds)
    );
    let mut pair = inter(InterMode::NearestNearestMv, (0, 0));
    pair.ref_frame = 2;
    pair.ref1 = Some(3);
    assert_eq!(
        frame(8, 8, vec![Quadrant::Whole(skipped(pair))]),
        Err(TileError::CompoundPair)
    );
}

#[test]
fn a_whole_64_root_covers_its_quadrants() {
    let mut block = skipped(inter(InterMode::NearestMv, (0, 0)));
    block.skip = false;
    block.luma = vec![Coeff { row: 0, col: 0, level: 2 }];
    let quads = vec![
        Quadrant::Whole64(block),
        Quadrant::Covered,
        Quadrant::Covered,
        Quadrant::Covered,
    ];
    let trace = sb_coeff_inter_frame_tile_tx(16, 16, Q_IDX, &quads, &stills(1), true).unwrap();
    let said = symbols(&trace.ops);
    assert_eq!(said[0], (0, Cdf::PartitionW64(0)));
    assert!(said.contains(&(0, Cdf::TxfmPartition(12))) || said.iter().any(|(v, c)| {
        *v == 0 && matches!(c, Cdf::TxfmPartition(_))
    }));
    assert!(said.contains(&(0, Cdf::Txb(TxbSet::Luma64, TxbTable::Skip(0)))));
    assert!(said.contains(&(1, Cdf::Txb(TxbSet::Chroma32, TxbTable::Skip(0)))));
}

#[test]
fn two_references_name_a_pair_and_a_mode() {
    let mut info = inter(InterMode::NearestNearestMv, (0, 0));
    info.ref1 = Some(7);
    let quads = vec![Quadrant::Whole(skipped(info))];
    let mut plan = FramePlan::plain(8, 8, false);
    plan.reference_select = true;
    let (tile, done) =
        sb_coeff_inter_frame_tile_cdfs(&plan, &stills(1), &quads, TileRect::whole(8, 8));
    assert_eq!(done, Ok(()));
    assert!(symbols(&tile.ops).iter().any(|(v, c)| *v == 1 && matches!(c, Cdf::CompMode(_))));
    assert!(tile.ops.contains(&Op::Note(Note::Compound(0, 6, 3, false))));
    assert_eq!(tile.records[0].ref_frame1, Some(7));
}

#[test]
fn the_inter_context_counts_intra_neighbours() {
    assert_eq!(intra_inter_ctx(true, true, false, false), 3);
    assert_eq!(intra_inter_ctx(true, true, true, false), 1);
    assert_eq!(intra_inter_ctx(true, true, true, true), 0);
    assert_eq!(intra_inter_ctx(true, false, false, true), 2);
    assert_eq!(intra_inter_ctx(false, true, true, true), 0);
    assert_eq!(intra_inter_ctx(false, false, false, false), 0);
}

#[test]
fn quarters_lie_where_the_frame_lets_them() {
    let plan = FramePlan::plain(20, 10, false);
    assert_eq!(children_inside(&plan, 0, 0, 8), 4);
    assert_eq!(children_inside(&plan, 0, 16, 8), 2);
    assert_eq!(child_at((16, 32), 8, 3), (24, 40));
    assert!(!child_inside(&plan, 0, 16, 8, 1));
    assert!(child_inside(&plan, 0, 16, 8, 2));
}

#[test]
fn a_tile_writes_its_own_superblocks_only() {
    let sbs: Vec<Superblock> =
        (0..4).map(|_| Superblock::Whole(BlockCoeffs::default())).collect();
    let plan = FramePlan::plain(32, 32, false);
    let rect = TileRect {
        sb_col0: 1,
        sb_col1: 2,
        sb_row0: 0,
        sb_row1: 2,
        mi_col0: 16,
        mi_col1: 32,
        mi_row0: 0,
        mi_row1: 32,
    };
    let (tile, done) = sb_coeff_key_frame_tile_cdfs(&plan, &vec![], &sbs, rect);
    assert_eq!(done, Ok(()));
    assert_eq!(tile.ops.len(), 2 * 7);
}

#[test]
fn blocks_copied_from_their_own_frame_code_a_vector() {
    let mut block = BlockCoeffs::default();
    block.dv = Some((0, -512));
    let sbs = [Superblock::Whole(block)];
    let mut plan = FramePlan::plain(16, 16, false);
    plan.intrabc = true;
    let (_, none) = sb_coeff_key_frame_tile_cdfs(&plan, &vec![], &sbs, TileRect::whole(16, 16));
    assert_eq!(none, Err(TileError::NeedsMotion(0, 0, 64)));
    let (tile, done) =
        sb_coeff_key_frame_tile_cdfs(&plan, &stills(1), &sbs, TileRect::whole(16, 16));
    assert_eq!(done, Ok(()));
    assert_eq!(tile.ops[1], symbol(1, Cdf::Skip(0)));
    assert_eq!(tile.ops[2], symbol(1, Cdf::Intrabc));
    assert_eq!(tile.ops[3], symbol(1, Cdf::DvJoint));
    let mut odd = BlockCoeffs::default();
    odd.dv = Some((3, 0));
    let (_, refused) = sb_coeff_key_frame_tile_cdfs(
        &plan,
        &stills(1),
        &[Superblock::Whole(odd)],
        TileRect::whole(16, 16),
    );
    assert_eq!(refused, Err(TileError::DvPrecision));
}

#[test]
fn a_128_root_is_marked_and_split() {
    let sbs: Vec<Superblock> =
        (0..4).map(|_| Superblock::Whole(BlockCoeffs::default())).collect();
    let mut plan = FramePlan::plain(32, 32, false);
    plan.sb128 = true;
    let (tile, done) =
        sb_coeff_key_frame_tile_cdfs(&plan, &vec![], &sbs, TileRect::whole(32, 32));
    assert_eq!(done, Ok(()));
    assert_eq!(tile.ops[0], Op::Note(Note::Sb128Root));
    assert_eq!(tile.ops[1], symbol(3, Cdf::PartitionW128(0)));
}

#[test]
fn a_16x16_inside_the_frame_may_split_into_leaves() {
    let leaf = || skipped(inter(InterMode::NearestMv, (0, 0)));
    let mut block = BlockCoeffs::default();
    block.eight = Some(vec![leaf(), leaf(), leaf(), leaf()]);
    let quads = vec![Quadrant::Split(vec![block])];
    let trace = sb_coeff_inter_frame_tile(4, 4, Q_IDX, &quads, &stills(4)).unwrap();
    let said = symbols(&trace.ops);
    assert!(said.contains(&(3, Cdf::PartitionW16(0))));
    assert_eq!(
        said.iter().filter(|(_, c)| matches!(c, Cdf::PartitionW8(_))).count(),
        4
    );
}
