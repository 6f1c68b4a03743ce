use ec_av1::tile::blocks::{
    BlockCoeffs, Coeff, InterInfo, InterMode, PaletteUv, PaletteY, Quadrant, Superblock,
};
use ec_av1::tile::checks::{
    holds_inter_quads, holds_key_blocks, holds_key_sbs, holds_motion, holds_motions,
    holds_palette_uv, holds_palette_y, holds_plan,
};
use ec_av1::tile::coeffs::{EOB_GROUP_START, EOB_LOW_BITS, EOB_TOP};
use ec_av1::tile::color_map::{write_color_index_map, MapPlane};
use ec_av1::tile::colours::{write_palette_colors_uv, write_palette_colors_y};
use ec_av1::tile::inter_frame::sb_coeff_inter_frame_tile_cdfs;
use ec_av1::tile::key_tile::{
    sb_coeff_key_frame_tile, sb_coeff_key_frame_tile_cdfs, sb_coeff_key_frame_tile_tx,
};
use ec_av1::tile::motion::{write_inter_mode, CompoundStack, MotionContext, MvStack};
use ec_av1::tile::ops::{Cdf, Op, TxbSet};
use ec_av1::tile::plans::{arm_cdef_idx, arm_lr, FramePlan};
use ec_av1::tile::price::{coeff_symbols, prices_frame_tables, PriceTables};
use ec_av1::tile::scan::{scan_of, TxClass};
use ec_av1::tile::tiles::TileRect;
use ec_av1::tile::vectors::{mv_class_base, write_dv, write_mv};
use ec_av1::transform::tx_type::TxType;

/// A reader of a trace that knows the syntax and nothing of the contexts.
struct Reader<'a> {
    ops: &'a [Op],
    at: usize,
}

impl Reader<'_> {
    fn value(&mut self) -> usize {
        let op = self.ops[self.at];
        self.at += 1;
        match op {
            Op::Symbol { value, .. } => value,
            Op::Literal { raw, .. } => raw as usize,
            _ => panic!("unexpected {op:?}"),
        }
    }

    fn golomb(&mut self) -> i32 {
        let mut zeros = 0;
        while self.value() == 0 {
            zeros += 1;
        }
        let mut x = 1i32;
        for _ in 0..zeros {
            x = 2 * x + self.value() as i32;
        }
        x - 1
    }

    fn component(&mut self, quarters: bool) -> i32 {
        let negative = self.value() == 1;
        let class = self.value();
        let mut whole = 0;
        for i in 0..class.max(1) {
            whole += (self.value() as i32) << i;
        }
        let fraction = if quarters { self.value() as i32 } else { 3 };
        let magnitude = mv_class_base(class) + 8 * whole + 2 * fraction + 2;
        if negative {
            -magnitude
        } else {
            magnitude
        }
    }

    fn vector(&mut self, pred: (i32, i32), quarters: bool) -> (i32, i32) {
        let joint = self.value();
        let row = if joint & 2 != 0 { self.component(quarters) } else { 0 };
        let col = if joint & 1 != 0 { self.component(quarters) } else { 0 };
        (pred.0 + row, pred.1 + col)
    }

    fn levels(&mut self, side: usize, class: TxClass, typed: bool) -> Vec<i32> {
        let mut grid = vec![0i32; side * side];
        if self.value() == 1 {
            return grid;
        }
        if typed {
            self.value();
        }
        let group = self.value() + 1;
        let mut eob = EOB_GROUP_START[group] as usize;
        if EOB_TOP[group] != 0 {
            eob += self.value() * EOB_TOP[group] as usize;
            if EOB_LOW_BITS[group] != 0 {
                eob += self.value();
            }
        }
        let order = scan_of(side, class);
        for k in (0..eob).rev() {
            let mut level = self.value() + usize::from(k == eob - 1);
            if level > 2 {
                for _ in 0..4 {
                    let more = self.value();
                    level += more;
                    if more < 3 {
                        break;
                    }
                }
            }
            grid[order[k] as usize] = level as i32;
        }
        for &p in &order[..eob] {
            let level = grid[p as usize];
            if level != 0 {
                let negative = self.value() == 1;
                let magnitude = if level > 14 { level + self.golomb() } else { level };
                grid[p as usize] = if negative { -magnitude } else { magnitude };
            }
        }
        grid
    }
}

fn noise(seed: u64, len: usize, sparse: u64, span: u64) -> Vec<i32> {
    let mut state = seed;
    (0..len)
        .map(|_| {
            state = state
                .wrapping_mul(6_364_136_223_846_793_005)
                .wrapping_add(1_442_695_040_888_963_407);
            let r = state >> 33;
            if r % sparse == 0 {
                (r / sparse % (2 * span + 1)) as i32 - span as i32
            } else {
                0
            }
        })
        .collect()
}

#[test]
fn every_level_of_a_block_reads_back() {
    let sets = [
        (TxbSet::Luma4, 4, true),
        (TxbSet::Luma8, 8, true),
        (TxbSet::Luma16, 16, true),
        (TxbSet::Luma32, 32, false),
        (TxbSet::Chroma8, 8, false),
    ];
    for (set, side, typed) in sets {
        for seed in 0..40 {
            let grid = noise(seed, side * side, 1 + seed % 7, [1, 3, 20, 524_302][seed as usize % 4]);
            let mut ops = coeff_symbols(&grid, set, false, 0, 0, TxType::DctDct);
            let end = ops.len();
            ops.push(Op::Literal { raw: 1, bits: 1 });
            let mut reader = Reader { ops: &ops, at: 0 };
            assert_eq!(reader.levels(side, TxClass::TwoD, typed), grid, "{set:?} {seed}");
            assert_eq!(reader.at, end);
        }
    }
    for (tx, class) in [(TxType::VDct, TxClass::Vert), (TxType::HDct, TxClass::Horiz)] {
        let grid = noise(5, 64, 3, 30);
        let ops = coeff_symbols(&grid, TxbSet::Luma8Inter, false, 0, 0, tx);
        let mut reader = Reader { ops: &ops, at: 0 };
        assert_eq!(reader.levels(8, class, true), grid);
        assert_eq!(reader.at, ops.len());
    }
}

#[test]
fn later_levels_fix_every_context() {
    // The two blocks differ at the first scan position alone, so every symbol
    // of a later level names the same table.
    let mut a = noise(9, 64, 2, 20);
    a[63] = 1;
    let mut b = a.clone();
    a[0] = 1;
    b[0] = 2;
    let x = coeff_symbols(&a, TxbSet::Luma8, false, 0, 0, TxType::DctDct);
    let y = coeff_symbols(&b, TxbSet::Luma8, false, 0, 0, TxType::DctDct);
    assert_eq!(x.len(), y.len());
    let differ: Vec<usize> = (0..x.len()).filter(|&i| x[i] != y[i]).collect();
    assert_eq!(differ.len(), 1);
    assert!(matches!(
        (x[differ[0]], y[differ[0]]),
        (Op::Symbol { cdf: p, value: 1 }, Op::Symbol { cdf: q, value: 2 }) if p == q
    ));
}

#[test]
fn a_palettes_colours_read_back() {
    let cache = [10u16, 40, 90];
    let palettes: [[u16; 3]; 4] = [[10, 40, 90], [10, 40, 91], [11, 41, 91], [0, 1, 255]];
    for colors in palettes {
        let mut ops = Vec::new();
        write_palette_colors_y(&mut ops, &colors, &cache);
        let mut reader = Reader { ops: &ops, at: 0 };
        let mut read = Vec::new();
        for &c in &cache {
            if read.len() < 3 && reader.value() == 1 {
                read.push(c);
            }
        }
        let left = 3 - read.len();
        if left > 0 {
            let mut last = reader.value() as u16;
            read.push(last);
            if left > 1 {
                reader.value();
            }
            for _ in 1..left {
                last += reader.value() as u16 + 1;
                read.push(last);
            }
        }
        read.sort_unstable();
        assert_eq!(read, colors);
        assert_eq!(reader.at, ops.len());
    }
}

#[test]
fn chroma_colours_follow_their_order() {
    let mut ops = Vec::new();
    write_palette_colors_uv(&mut ops, &[7, 9], &[200, 3], &[]);
    let mut reader = Reader { ops: &ops, at: 0 };
    assert_eq!(reader.value(), 7);
    reader.value();
    assert_eq!(reader.value(), 2);
    assert_eq!(reader.value(), 0);
    assert_eq!((reader.value(), reader.value()), (200, 3));
    assert_eq!(reader.at, ops.len());
}

#[test]
fn a_colour_map_reads_back() {
    let (side, n) = (8usize, 5usize);
    let map: Vec<u8> = noise(3, side * side, 1, 100)
        .iter()
        .map(|&v| (v + 100) as u8 % n as u8)
        .collect();
    let mut ops = Vec::new();
    write_color_index_map(&mut ops, MapPlane::Y, &map, side, n);
    let mut reader = Reader { ops: &ops, at: 0 };
    let mut read = vec![0u8; side * side];
    // Five values in three bits: the first three take two.
    let first = reader.value();
    read[0] = if first < 3 { first } else { 2 * first - 3 + reader.value() } as u8;
    for d in 1..2 * side - 1 {
        for row in d.saturating_sub(side - 1)..=d.min(side - 1) {
            let col = d - row;
            let at = |r: usize, c: usize| usize::from(read[r * side + c]);
            let mut scores = vec![0; n];
            if col > 0 {
                scores[at(row, col - 1)] += 2;
            }
            if row > 0 && col > 0 {
                scores[at(row - 1, col - 1)] += 1;
            }
            if row > 0 {
                scores[at(row - 1, col)] += 2;
            }
            let mut ranked: Vec<usize> = (0..n).collect();
            ranked.sort_by_key(|&c| (-scores[c], c));
            read[row * side + col] = ranked[reader.value()] as u8;
        }
    }
    assert_eq!(read, map);
    assert_eq!(reader.at, ops.len());
}

#[test]
fn a_quadrant_lists_its_blocks() {
    let block = || BlockCoeffs::default();
    assert_eq!(Quadrant::Whole(block()).blocks().len(), 1);
    assert_eq!(Quadrant::Whole64(block()).blocks().len(), 1);
    assert_eq!(Quadrant::Covered.blocks().len(), 0);
    let mut last = block();
    last.mode = 7;
    let split = Quadrant::Split(vec![block(), block(), block(), last]);
    assert_eq!(split.blocks().len(), 4);
    assert_eq!(split.blocks()[3].mode, 7);
}

#[test]
fn a_screen_is_priced_with_the_default_tables() {
    assert!(!prices_frame_tables(PriceTables::Camera, true));
    assert!(prices_frame_tables(PriceTables::Camera, false));
    assert!(prices_frame_tables(PriceTables::Always, true));
    assert!(!prices_frame_tables(PriceTables::Never, false));
}

fn motion(mv: (i32, i32)) -> MotionContext {
    MotionContext {
        single: MvStack {
            entries: vec![mv],
            nearest_mv: (0, 0),
            near_mv: (0, 0),
            pred_mv: (0, 0),
            new_mv_ctx: 0,
            zero_mv_ctx: 0,
            ref_mv_ctx: 0,
            drl_ctx: [0, 0, 0],
        },
        compound: CompoundStack {
            entries: vec![],
            nearest_mv: ((0, 0), (0, 0)),
            near_mv: ((0, 0), (0, 0)),
            new_mv_ctx: 0,
            ref_mv_ctx: 0,
            drl_ctx: [0, 0, 0],
        },
        overlappable: false,
        warp_samples: 0,
    }
}

#[test]
fn plans_and_candidates_are_checked() {
    let mut plan = FramePlan::plain(16, 16, false);
    assert!(holds_plan(&plan));
    plan.cdef = arm_cdef_idx(33, 1, vec![0]);
    assert!(!holds_plan(&plan));
    plan.cdef = arm_cdef_idx(3, 1, vec![0]);
    plan.lr = arm_lr(64, 2, 2, vec![None]);
    assert!(!holds_plan(&plan));
    plan.lr = arm_lr(64, 1, 1, vec![None]);
    assert!(holds_plan(&plan));
    assert!(!holds_plan(&FramePlan::plain(u32::MAX, 16, false)));
    assert!(holds_motion(&motion((8, -8))));
    assert!(!holds_motion(&motion((i32::MAX, 0))));
    assert!(holds_motions(&vec![]));
    assert!(!holds_motions(&vec![motion((0, 0)), motion((0, i32::MIN))]));
}

#[test]
fn palettes_are_checked() {
    let good = PaletteY { size: 2, colors: [3, 9, 0, 0, 0, 0, 0, 0], map: vec![1; 64] };
    assert!(holds_palette_y(&good, 8));
    assert!(!holds_palette_y(&good, 16));
    let mut bad = good.clone();
    bad.colors = [9, 3, 0, 0, 0, 0, 0, 0];
    assert!(!holds_palette_y(&bad, 8));
    let mut bad = good.clone();
    bad.colors[1] = 256;
    assert!(!holds_palette_y(&bad, 8));
    let mut bad = good.clone();
    bad.map[63] = 2;
    assert!(!holds_palette_y(&bad, 8));
    let mut bad = good.clone();
    bad.size = 9;
    assert!(!holds_palette_y(&bad, 8));
    let uv = PaletteUv {
        size: 2,
        u_colors: [3, 9, 0, 0, 0, 0, 0, 0],
        v_colors: [9, 3, 0, 0, 0, 0, 0, 0],
        map: vec![1; 16],
    };
    assert!(holds_palette_uv(&uv, 8));
    assert!(!holds_palette_uv(&uv, 64));
}

#[test]
fn a_cut_block_is_checked_by_its_leaves() {
    let plain = || BlockCoeffs::default();
    let steep = || BlockCoeffs { angle_delta_y: 4, ..plain() };
    let parent = |leaf| BlockCoeffs {
        mode: 40,
        angle_delta_y: 9,
        eight: Some(vec![plain(), leaf]),
        ..plain()
    };
    let frame = |b| vec![Superblock::Split(vec![Quadrant::Split(vec![b])])];
    let cut = FramePlan::plain(2, 4, false);
    assert!(holds_key_sbs(&cut, &frame(parent(plain()))));
    assert!(!holds_key_sbs(&cut, &frame(parent(steep()))));
    let inside = FramePlan::plain(4, 4, false);
    assert!(!holds_key_sbs(&inside, &frame(parent(plain()))));
    let own = BlockCoeffs { eight: Some(vec![steep()]), ..plain() };
    assert!(holds_key_sbs(&inside, &frame(own)));
    let valid = BlockCoeffs { mode: 0, angle_delta_y: 0, ..parent(plain()) };
    let odd = sb_coeff_key_frame_tile(2, 4, 100, &frame(parent(plain()))).unwrap();
    let even = sb_coeff_key_frame_tile(2, 4, 100, &frame(valid)).unwrap();
    assert_eq!(odd.ops, even.ops);
}

#[test]
fn blocks_are_checked() {
    let plan = FramePlan::plain(16, 16, true);
    let plain = || BlockCoeffs::default();
    let deep = || BlockCoeffs { tx_depth: 3, ..plain() };
    let steep = || BlockCoeffs { angle_delta_y: 4, ..plain() };
    let scaled = |alphas| BlockCoeffs { uv_mode: 13, cfl_alphas: alphas, ..plain() };
    let whole = |b| vec![Superblock::Whole(b)];
    let quad = |b| Quadrant::Whole(b);
    let split = |b| {
        let rest = || quad(plain());
        vec![Superblock::Split(vec![quad(b), rest(), rest(), rest()])]
    };
    assert!(holds_key_sbs(&plan, &whole(plain())));
    assert!(holds_key_sbs(&plan, &whole(deep())));
    assert!(!holds_key_sbs(&plan, &whole(steep())));
    assert!(!holds_key_sbs(&plan, &whole(scaled(Some((1, 0))))));
    assert!(holds_key_sbs(&plan, &split(scaled(Some((1, 0))))));
    assert!(!holds_key_sbs(&plan, &split(scaled(Some((0, 0))))));
    assert!(!holds_key_sbs(&plan, &split(scaled(None))));
    assert!(!holds_key_sbs(&plan, &split(deep())));
    let leaves = |leaf| BlockCoeffs { eight: Some(vec![leaf]), ..plain() };
    let four = vec![plain(), plain(), plain(), plain()];
    assert!(holds_key_blocks(&plan, &four));
    let mut last = four.clone();
    last[3] = steep();
    assert!(!holds_key_blocks(&plan, &last));
    assert!(holds_key_blocks(&plan, &[plain(), steep()]));
    assert!(holds_key_blocks(&FramePlan::plain(16, 12, true), &last));
    last[3] = BlockCoeffs { mode: 13, ..leaves(plain()) };
    assert!(!holds_key_blocks(&plan, &last));
    let covered = || Quadrant::Covered;
    let inter = |q| vec![q, covered(), covered(), covered()];
    assert!(holds_inter_quads(&plan, &inter(quad(plain()))));
    assert!(!holds_inter_quads(&plan, &inter(quad(deep()))));
    assert!(holds_inter_quads(&plan, &[quad(deep())]));
    let subs = |b| Quadrant::Split(vec![b, plain(), plain(), plain()]);
    assert!(!holds_inter_quads(&plan, &inter(subs(steep()))));
    let eights = |leaf| BlockCoeffs {
        eight: Some(vec![plain(), plain(), leaf, plain()]),
        ..plain()
    };
    assert!(holds_inter_quads(&plan, &inter(subs(eights(plain())))));
    assert!(!holds_inter_quads(&plan, &inter(subs(eights(steep())))));
    assert!(holds_inter_quads(&plan, &inter(Quadrant::Whole64(steep()))));
}

#[test]
fn vectors_come_back_from_their_symbols() {
    let pred = (12, -40);
    for mv in [(12, -40), (14, -40), (12, 0), (-16372, 16344), (28, -24), (30, -58), (140, 4096)] {
        let mut ops = Vec::new();
        assert_eq!(write_mv(&mut ops, mv, pred), Ok(()));
        let mut reader = Reader { ops: &ops, at: 0 };
        assert_eq!(reader.vector(pred, true), mv);
        assert_eq!(reader.at, ops.len());
    }
    for dv in [(0, 0), (-8, 0), (-512, 16), (-2048, -8192)] {
        let mut ops = Vec::new();
        assert_eq!(write_dv(&mut ops, dv, (0, 0)), Ok(()));
        let mut reader = Reader { ops: &ops, at: 0 };
        assert_eq!(reader.vector((0, 0), false), dv);
        assert_eq!(reader.at, ops.len());
    }
}

#[test]
fn a_decoder_derives_the_vector_the_writer_took() {
    let stack = MvStack {
        entries: vec![(8, 8), (16, -16), (24, 32)],
        nearest_mv: (8, 8),
        near_mv: (16, -16),
        pred_mv: (8, 8),
        new_mv_ctx: 2,
        zero_mv_ctx: 1,
        ref_mv_ctx: 3,
        drl_ctx: [0, 1, 2],
    };
    for mode in [
        InterMode::NearestMv,
        InterMode::NearMv,
        InterMode::GlobalMv,
        InterMode::NewMv,
    ] {
        for ref_mv_idx in 0..4 {
            let info =
                InterInfo { mode, mv: (100, -6), ref_frame: 1, ref_mv_idx, ref1: None, mv1: (0, 0) };
            let mut ops = Vec::new();
            let (mv, is_new) = write_inter_mode(&mut ops, &info, &stack).unwrap();
            let seen: Vec<Op> =
                ops.into_iter().filter(|op| !matches!(op, Op::Note(_))).collect();
            let mut reader = Reader { ops: &seen, at: 0 };
            let index = |reader: &mut Reader, start: usize| {
                let mut i = start;
                while i < start + 2 && stack.entries.len() > i + 1 && reader.value() == 1 {
                    i += 1;
                }
                i
            };
            let read = if reader.value() == 0 {
                let base = stack.entries[index(&mut reader, 0)];
                (reader.vector(base, true), true)
            } else if reader.value() == 0 {
                ((0, 0), false)
            } else if reader.value() == 0 {
                (stack.nearest_mv, false)
            } else {
                (stack.entries[index(&mut reader, 1)], false)
            };
            assert_eq!(read, (mv, is_new), "{mode:?} {ref_mv_idx}");
            assert_eq!(reader.at, seen.len());
        }
    }
}

#[test]
fn copies_are_equal() {
    let palette = PaletteY { size: 2, colors: [3, 9, 0, 0, 0, 0, 0, 0], map: vec![1; 64] };
    let leaf = BlockCoeffs { mode: 4, palette: Some(palette), ..BlockCoeffs::default() };
    let parent = BlockCoeffs { eight: Some(vec![leaf, BlockCoeffs::default()]), ..BlockCoeffs::default() };
    let quads = vec![Quadrant::Split(vec![parent]), Quadrant::Covered];
    let sb = Superblock::Split(quads);
    assert_eq!(sb.clone(), sb);
    let whole = Superblock::Whole(BlockCoeffs {
        palette_uv: Some(PaletteUv::default()),
        ..BlockCoeffs::default()
    });
    assert_eq!(whole.clone(), whole);
    assert_ne!(whole, sb);
    assert_eq!(PaletteY::default().size, 0);
}

#[test]
fn every_choice_a_block_has_changes_its_symbols() {
    let plan = FramePlan { screen: true, filter_intra: true, ..FramePlan::plain(16, 16, false) };
    let trace = |block: BlockCoeffs| {
        let quads = vec![
            Quadrant::Whole(block),
            Quadrant::Whole(BlockCoeffs::default()),
            Quadrant::Whole(BlockCoeffs::default()),
            Quadrant::Whole(BlockCoeffs::default()),
        ];
        let sbs = [Superblock::Split(quads)];
        assert!(holds_key_sbs(&plan, &sbs));
        let rect = TileRect {
            mi_row0: 0,
            mi_col0: 0,
            mi_row1: 16,
            mi_col1: 16,
            sb_row0: 0,
            sb_row1: 1,
            sb_col0: 0,
            sb_col1: 1,
        };
        let (tile, done) = sb_coeff_key_frame_tile_cdfs(&plan, &Vec::new(), &sbs, rect);
        assert_eq!(done, Ok(()));
        tile.ops.into_iter().filter(|op| !matches!(op, Op::Note(_))).collect::<Vec<Op>>()
    };
    let plain = || BlockCoeffs::default();
    let palette = |colors: [u16; 8], first: u8| {
        let mut map = vec![1u8; 1024];
        map[0] = first;
        BlockCoeffs { palette: Some(PaletteY { size: 2, colors, map }), ..plain() }
    };
    let chroma = |v: u16| BlockCoeffs {
        palette_uv: Some(PaletteUv {
            size: 2,
            u_colors: [4, 8, 0, 0, 0, 0, 0, 0],
            v_colors: [v, 1, 0, 0, 0, 0, 0, 0],
            map: vec![0; 256],
        }),
        ..plain()
    };
    let choices = [
        plain(),
        BlockCoeffs { mode: 1, ..plain() },
        BlockCoeffs { mode: 1, angle_delta_y: -3, ..plain() },
        BlockCoeffs { uv_mode: 2, ..plain() },
        BlockCoeffs { uv_mode: 13, cfl_alphas: Some((3, 0)), ..plain() },
        BlockCoeffs { uv_mode: 13, cfl_alphas: Some((3, -4)), ..plain() },
        BlockCoeffs { uv_mode: 13, cfl_alphas: Some((0, 3)), ..plain() },
        BlockCoeffs { filter_intra: Some(0), ..plain() },
        BlockCoeffs { filter_intra: Some(4), ..plain() },
        palette([3, 9, 0, 0, 0, 0, 0, 0], 0),
        palette([3, 9, 0, 0, 0, 0, 0, 0], 1),
        palette([3, 10, 0, 0, 0, 0, 0, 0], 0),
        chroma(5),
        chroma(6),
    ];
    let traces: Vec<Vec<Op>> = choices.into_iter().map(trace).collect();
    for i in 0..traces.len() {
        for j in 0..i {
            assert_ne!(traces[i], traces[j], "{i} {j}");
        }
    }
    assert_eq!(trace(BlockCoeffs { angle_delta_y: 2, ..plain() }), traces[0]);
    assert_eq!(trace(BlockCoeffs { cfl_alphas: Some((1, 1)), ..plain() }), traces[0]);
    assert_eq!(trace(palette([3, 9, 77, 0, 0, 0, 0, 0], 0)), traces[9]);
}

#[test]
fn the_units_of_a_split_block_read_back() {
    let grid = noise(21, 32 * 32, 9, 40);
    let coeffs: Vec<Coeff> = (0..32 * 32)
        .filter(|&p| grid[p] != 0)
        .map(|p| Coeff { row: (p / 32) as u8, col: (p % 32) as u8, level: grid[p] })
        .collect();
    let block = BlockCoeffs { tx_depth: 1, ..BlockCoeffs::from(coeffs) };
    let mut quads = vec![Quadrant::Whole(block)];
    quads.extend((0..3).map(|_| Quadrant::Whole(BlockCoeffs::default())));
    let trace =
        sb_coeff_key_frame_tile_tx(16, 16, 100, &[Superblock::Split(quads)], true).unwrap();
    let at = trace
        .ops
        .iter()
        .position(|op| matches!(op, Op::Symbol { cdf: Cdf::TxSize(..), value: 1 }))
        .unwrap();
    let mut reader = Reader { ops: &trace.ops, at: at + 1 };
    for (r, c) in [(0, 0), (0, 1), (1, 0), (1, 1)] {
        let unit = reader.levels(16, TxClass::TwoD, true);
        for (p, &level) in unit.iter().enumerate() {
            assert_eq!(level, grid[(r * 16 + p / 16) * 32 + c * 16 + p % 16]);
        }
    }
}

fn inter_trace(plan: &FramePlan, quads: &[Quadrant]) -> Vec<Op> {
    let candidates: Vec<MotionContext> = (0..16)
        .map(|_| {
            let mut m = motion((4, -6));
            m.single.entries.push((40, 16));
            m.single.nearest_mv = (4, -6);
            m.single.near_mv = (40, 16);
            m.compound.entries = vec![((2, 2), (8, 8)), ((0, 4), (6, -2))];
            m.compound.nearest_mv = ((2, 2), (8, 8));
            m.overlappable = true;
            m.warp_samples = 1;
            m
        })
        .collect();
    assert!(holds_motions(&candidates));
    assert!(holds_inter_quads(plan, quads));
    let rect = TileRect::whole(plan.mi_cols, plan.mi_rows);
    let (tile, done) = sb_coeff_inter_frame_tile_cdfs(plan, &candidates, quads, rect);
    assert_eq!(done, Ok(()));
    tile.ops.into_iter().filter(|op| !matches!(op, Op::Note(_))).collect()
}

fn predicted(mode: InterMode, mv: (i32, i32)) -> BlockCoeffs {
    let info = InterInfo { mode, mv, ref_frame: 1, ref_mv_idx: 0, ref1: None, mv1: (0, 0) };
    BlockCoeffs { skip: true, inter: Some(info), ..BlockCoeffs::default() }
}

fn paired(mode: InterMode, refs: (i8, i8), mvs: ((i32, i32), (i32, i32))) -> BlockCoeffs {
    let info = InterInfo {
        mode,
        mv: mvs.0,
        ref_frame: refs.0,
        ref_mv_idx: 0,
        ref1: Some(refs.1),
        mv1: mvs.1,
    };
    BlockCoeffs { skip: true, inter: Some(info), ..BlockCoeffs::default() }
}

fn are_coded_apart(traces: &[Vec<Op>]) {
    for i in 0..traces.len() {
        for j in 0..i {
            assert_ne!(traces[i], traces[j], "{i} {j}");
        }
    }
}

#[test]
fn every_choice_an_inter_block_has_changes_its_symbols() {
    let plan = FramePlan {
        reference_select: true,
        motion_mode: true,
        warped_motion: true,
        ..FramePlan::plain(16, 16, true)
    };
    let trace = |block: BlockCoeffs| {
        let mut quads = vec![Quadrant::Whole(block)];
        quads.extend((0..3).map(|_| Quadrant::Whole(predicted(InterMode::GlobalMv, (0, 0)))));
        inter_trace(&plan, &quads)
    };
    let from = |ref_frame: i8| {
        let info =
            InterInfo { ref_frame, ..predicted(InterMode::NearestMv, (4, -6)).inter.unwrap() };
        BlockCoeffs { skip: true, inter: Some(info), ..BlockCoeffs::default() }
    };
    let moved = |motion_mode: u8| BlockCoeffs {
        motion_mode,
        ..predicted(InterMode::NearestMv, (4, -6))
    };
    let dc = |level: i32, tx_depth: u8| BlockCoeffs {
        luma: vec![Coeff { row: 0, col: 0, level }],
        skip: false,
        tx_depth,
        ..predicted(InterMode::NearestMv, (4, -6))
    };
    let u = |level: i32| BlockCoeffs {
        u: vec![Coeff { row: 1, col: 0, level }],
        skip: false,
        ..predicted(InterMode::NearestMv, (4, -6))
    };
    let choices = vec![
        predicted(InterMode::NearestMv, (4, -6)),
        predicted(InterMode::NearMv, (40, 16)),
        predicted(InterMode::GlobalMv, (0, 0)),
        predicted(InterMode::NewMv, (4, -4)),
        predicted(InterMode::NewMv, (4, -2)),
        predicted(InterMode::NewMv, (-4, -6)),
        from(2),
        from(3),
        from(4),
        from(5),
        from(6),
        from(7),
        paired(InterMode::NearestNearestMv, (1, 7), ((2, 2), (8, 8))),
        paired(InterMode::NearestNearestMv, (2, 7), ((2, 2), (8, 8))),
        paired(InterMode::NearNearMv, (1, 7), ((0, 4), (6, -2))),
        paired(InterMode::GlobalGlobalMv, (1, 7), ((0, 0), (0, 0))),
        paired(InterMode::NewNewMv, (1, 7), ((2, 4), (8, 8))),
        paired(InterMode::NewNewMv, (1, 7), ((2, 2), (8, 10))),
        moved(1),
        moved(2),
        dc(3, 0),
        dc(-3, 0),
        dc(3, 1),
        u(1),
        u(2),
        BlockCoeffs { skip: true, mode: 1, ..BlockCoeffs::default() },
        BlockCoeffs { skip: true, mode: 2, ..BlockCoeffs::default() },
        BlockCoeffs { skip: true, uv_mode: 1, ..BlockCoeffs::default() },
    ];
    let traces: Vec<Vec<Op>> = choices.into_iter().map(trace).collect();
    are_coded_apart(&traces);
    // A vector that no symbol carries changes nothing.
    assert_eq!(trace(predicted(InterMode::NearestMv, (90, 90))), traces[0]);
    assert_eq!(trace(predicted(InterMode::GlobalMv, (8, 8))), traces[2]);
}

#[test]
fn inter_tiles_cut_differently_are_coded_apart() {
    let plan = FramePlan::plain(16, 16, false);
    let still = || predicted(InterMode::GlobalMv, (0, 0));
    let near = || predicted(InterMode::NearMv, (40, 16));
    let leaves = |at: usize| BlockCoeffs {
        eight: Some((0..4).map(|i| if i == at { near() } else { still() }).collect()),
        ..BlockCoeffs::default()
    };
    let whole = |at: usize| -> Vec<Quadrant> {
        (0..4).map(|i| Quadrant::Whole(if i == at { near() } else { still() })).collect()
    };
    let split = |at: usize| -> Vec<Quadrant> {
        let blocks = (0..4).map(|i| if i == at { near() } else { still() }).collect();
        let mut quads = vec![Quadrant::Split(blocks)];
        quads.extend((0..3).map(|_| Quadrant::Whole(still())));
        quads
    };
    let cut = |at: usize| -> Vec<Quadrant> {
        let mut blocks = vec![leaves(at)];
        blocks.extend((0..3).map(|_| still()));
        let mut quads = vec![Quadrant::Split(blocks)];
        quads.extend((0..3).map(|_| Quadrant::Whole(still())));
        quads
    };
    let root = |block: BlockCoeffs| -> Vec<Quadrant> {
        vec![Quadrant::Whole64(block), Quadrant::Covered, Quadrant::Covered, Quadrant::Covered]
    };
    let mut frames = vec![root(still()), root(near())];
    for at in 0..5 {
        frames.push(whole(at));
        frames.push(split(at));
        frames.push(cut(at));
    }
    let traces: Vec<Vec<Op>> = frames.iter().map(|f| inter_trace(&plan, f)).collect();
    are_coded_apart(&traces);
}

#[test]
fn key_tiles_cut_differently_are_coded_apart() {
    let plan = FramePlan::plain(16, 16, false);
    let block = |mode: u8| BlockCoeffs { mode, ..BlockCoeffs::default() };
    let marked = |at: usize| -> Vec<BlockCoeffs> {
        (0..4).map(|i| block(if i == at { 1 } else { 0 })).collect()
    };
    let mut frames = vec![Superblock::Whole(block(0)), Superblock::Whole(block(1))];
    for at in 0..5 {
        frames.push(Superblock::Split(marked(at).into_iter().map(Quadrant::Whole).collect()));
        let mut quads = vec![Quadrant::Split(marked(at))];
        quads.extend((0..3).map(|_| Quadrant::Whole(block(0))));
        frames.push(Superblock::Split(quads));
    }
    let traces: Vec<Vec<Op>> = frames
        .into_iter()
        .map(|sb| {
            let sbs = [sb];
            assert!(holds_key_sbs(&plan, &sbs));
            let rect = TileRect::whole(16, 16);
            let (tile, done) = sb_coeff_key_frame_tile_cdfs(&plan, &Vec::new(), &sbs, rect);
            assert_eq!(done, Ok(()));
            tile.ops.into_iter().filter(|op| !matches!(op, Op::Note(_))).collect()
        })
        .collect();
    are_coded_apart(&traces);
}
