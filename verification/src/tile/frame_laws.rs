//! Which partition each block of a frame is written after, and in which order.
use crate::tile::blocks::{BlockCoeffs, Quadrant};
use crate::tile::children;
use crate::tile::color_map;
use crate::tile::color_map::MapPlane;
use crate::tile::inter_block;
use crate::tile::inter_frame;
use crate::tile::key_block;
use crate::tile::key_frame;
use crate::tile::key_frame::SbView;
use crate::tile::layout;
use crate::tile::motion::MotionContext;
use crate::tile::neighbours;
use crate::tile::neighbours::Bands;
use crate::tile::ops::{Cdf, Note, Op};
use crate::tile::plans;
use crate::tile::plans::FramePlan;
use crate::tile::refs;
use crate::tile::state::TileView;
use crate::tile::syntax_laws;
use crate::tile::tiles::TileRect;
use vstd::prelude::*;

verus! {

/// A tile to which one symbol was added: that a block is not cut, in the table of a size and
/// of which of its sides are finer, the left one counting two.
pub open spec fn uncut(t: TileView, table: Cdf) -> TileView {
    TileView { ops: t.ops.push(Op::Symbol { cdf: table, value: 0 }), ..t }
}

/// Which of two sides of a block of `side` samples are finer than it.
pub open spec fn finer(b: Bands, mi_r: int, mi_c: int, side: int) -> usize {
    let (above, left) = (2 * b.above[mi_c].side <= side, 2 * b.left[mi_r].side <= side);
    if above && left {
        3
    } else if left {
        2
    } else if above {
        1
    } else {
        0
    }
}

/// A block that is not cut is written after that symbol, in the table of its size: where both
/// its halves are inside the frame, a superblock of 64, a quadrant of 32 and a 16x16 block
/// without leaves.
pub proof fn whole_inter_blocks_follow_their_partition(
    plan: FramePlan,
    motion: Seq<MotionContext>,
    t: TileView,
    quads: Seq<Quadrant>,
    block: BlockCoeffs,
    mi_r: int,
    mi_c: int,
)
    requires
        mi_r + 8 < plan.mi_rows,
        mi_c + 8 < plan.mi_cols,
    ensures
        block.eight is None ==> inter_frame::inter_sub(plan, motion, t, block, mi_r, mi_c)
            == inter_block::inter_block(
            plan,
            motion,
            uncut(t, Cdf::PartitionW16(finer(t.bands, mi_r, mi_c, 16))),
            block,
            mi_r,
            mi_c,
            16,
        ),
        inter_frame::inter_quad(plan, motion, t, Quadrant::Whole(block), mi_r, mi_c)
            == inter_block::inter_block(
            plan,
            motion,
            uncut(t, Cdf::PartitionW32(finer(t.bands, mi_r, mi_c, 32))),
            block,
            mi_r,
            mi_c,
            32,
        ),
        inter_frame::quad_at(plan, quads, mi_r, mi_c) == Quadrant::Whole64(block)
            && (block.inter matches Some(info) && info.ref1 is None) ==> inter_frame::inter_sb(
            plan,
            motion,
            t,
            quads,
            mi_r,
            mi_c,
        ) == inter_block::inter_block(
            plan,
            motion,
            uncut(t, Cdf::PartitionW64(finer(t.bands, mi_r, mi_c, 64))),
            block,
            mi_r,
            mi_c,
            64,
        ),
{
    reveal(inter_frame::inter_sub);
    reveal(inter_frame::inter_quad);
    reveal(inter_frame::inter_sb);
}

/// The same of a key frame, where a block also reads the modes of the 16x16 blocks above and
/// to the left of its first unit.
pub proof fn whole_key_blocks_follow_their_partition(
    plan: FramePlan,
    motion: Seq<MotionContext>,
    t: TileView,
    block: BlockCoeffs,
    mi_r: int,
    mi_c: int,
)
    requires
        mi_r + 8 < plan.mi_rows,
        mi_c + 8 < plan.mi_cols,
    ensures
        ({
            let (above, left) = (
                t.bands.above_mode[mi_c / 4] as int,
                t.bands.left_mode[mi_r / 4] as int,
            );
            &&& key_frame::key_sub(plan, motion, t, block, mi_r, mi_c) == key_block::key_block(
                plan,
                motion,
                uncut(t, Cdf::PartitionW16(finer(t.bands, mi_r, mi_c, 16))),
                block,
                mi_r,
                mi_c,
                16,
                above,
                left,
            )
            &&& key_frame::key_quad(plan, motion, t, Quadrant::Whole(block), mi_r, mi_c)
                == key_block::key_block(
                plan,
                motion,
                uncut(t, Cdf::PartitionW32(finer(t.bands, mi_r, mi_c, 32))),
                block,
                mi_r,
                mi_c,
                32,
                above,
                left,
            )
            &&& key_frame::key_sb(plan, motion, t, SbView::Whole(block), mi_r, mi_c)
                == key_block::key_block(
                plan,
                motion,
                uncut(t, Cdf::PartitionW64(finer(t.bands, mi_r, mi_c, 64))),
                block,
                mi_r,
                mi_c,
                64,
                above,
                left,
            )
        }),
{
    reveal(key_frame::key_sub);
    reveal(key_frame::key_quad);
    reveal(key_frame::key_sb);
}

/// A block that is cut into four inside the frame says so in the table of its size, and then
/// its parts are written in raster order.
pub proof fn cut_blocks_say_so_first(
    plan: FramePlan,
    motion: Seq<MotionContext>,
    t: TileView,
    quads: Seq<Quadrant>,
    blocks: Vec<BlockCoeffs>,
    mi_r: int,
    mi_c: int,
)
    requires
        mi_r + 8 < plan.mi_rows,
        mi_c + 8 < plan.mi_cols,
        blocks@.len() == 4,
    ensures
        ({
            let cut = |table: Cdf|
                TileView { ops: t.ops.push(Op::Symbol { cdf: table, value: 3 }), ..t };
            let w32 = Cdf::PartitionW32(finer(t.bands, mi_r, mi_c, 32));
            let w64 = Cdf::PartitionW64(finer(t.bands, mi_r, mi_c, 64));
            &&& inter_frame::inter_quad(plan, motion, t, Quadrant::Split(blocks), mi_r, mi_c)
                == inter_frame::inter_subs(plan, motion, cut(w32), blocks@, mi_r, mi_c, 4)
            &&& key_frame::key_quad(plan, motion, t, Quadrant::Split(blocks), mi_r, mi_c)
                == key_frame::key_subs(plan, motion, cut(w32), blocks@, mi_r, mi_c, 4)
            &&& !(inter_frame::quad_at(plan, quads, mi_r, mi_c) is Whole64)
                ==> inter_frame::inter_sb(plan, motion, t, quads, mi_r, mi_c)
                == inter_frame::inter_quads(plan, motion, cut(w64), quads, mi_r, mi_c, 4)
        }),
{
    reveal(inter_frame::inter_quad);
    reveal(inter_frame::inter_sb);
    reveal(key_frame::key_quad);
    reveal_with_fuel(children::inside_before, 5);
    let w32 = Cdf::PartitionW32(finer(t.bands, mi_r, mi_c, 32));
    let w64 = Cdf::PartitionW64(finer(t.bands, mi_r, mi_c, 64));
    assert(t.ops + seq![Op::Symbol { cdf: w32, value: 3 }] =~= t.ops.push(
        Op::Symbol { cdf: w32, value: 3 },
    ));
    assert(t.ops + seq![Op::Symbol { cdf: w64, value: 3 }] =~= t.ops.push(
        Op::Symbol { cdf: w64, value: 3 },
    ));
}

/// The 32x32 quadrants of a frame are kept row by row.
pub proof fn quadrants_are_kept_row_by_row(
    plan: FramePlan,
    quads: Seq<Quadrant>,
    r: int,
    c: int,
    across: int,
)
    requires
        0 <= r,
        0 <= c < across,
        8 * (across - 1) < plan.mi_cols <= 8 * across,
    ensures
        inter_frame::quad_at(plan, quads, 8 * r, 8 * c) == quads[r * across + c],
{
}

/// A 128x128 root's four superblocks are written in raster order, as far as they are inside;
/// only the first of them is a root, and only it can start a row.
pub proof fn roots_are_written_in_raster_order(r: int, c: int, r1: int, c1: int, first: bool)
    requires
        0 <= r < r1 <= 0xffff_ffff,
        0 <= c < c1 <= 0xffff_ffff,
    ensures
        ({
            let order = layout::quad(r, c, r1, c1, first);
            let (right, below) = (c + 1 < c1, r + 1 < r1);
            let at = |s: layout::SbStep, y: int, x: int| s.0 == y && s.1 == x && !s.2 && !s.3;
            &&& order[0].0 == r && order[0].1 == c && order[0].2 == first && order[0].3
            &&& right && below ==> order.len() == 4 && at(order[1], r, c + 1) && at(
                order[2],
                r + 1,
                c,
            ) && at(order[3], r + 1, c + 1)
            &&& right && !below ==> order.len() == 2 && at(order[1], r, c + 1)
            &&& !right && below ==> order.len() == 2 && at(order[1], r + 1, c)
            &&& !right && !below ==> order.len() == 1
        }),
{
}

/// A 128x128 root is marked, then comes what restoration units start in it, then its split, in
/// the table of 128 by its first unit's sides.
pub proof fn roots_are_marked_and_split(p: FramePlan, b: Bands, sb_r: int, sb_c: int)
    requires
        0 <= sb_r,
        0 <= sb_c,
        sb_r % 2 == 0,
        sb_c % 2 == 0,
        p.lr is None,
        16 * sb_r + 16 < p.mi_rows,
        16 * sb_c + 16 < p.mi_cols,
    ensures
        plans::root_ops(p, b, sb_r, sb_c) =~= seq![
            Op::Note(Note::Sb128Root),
            Op::Symbol {
                cdf: Cdf::PartitionW128(finer(b, 16 * sb_r, 16 * sb_c, 128)),
                value: 3,
            },
        ],
{
}

/// A tile starts at its own first unit, from the frame's base quantizer, with nothing written,
/// recorded or asked for.
pub proof fn tiles_start_at_their_own_corner(plan: FramePlan, rect: TileRect)
    ensures
        ({
            let t = key_frame::blank_tile(plan, rect);
            &&& t.bands.row0 == rect.mi_row0 && t.bands.col0 == rect.mi_col0
            &&& t.bands.mi_rows == plan.mi_rows && t.bands.mi_cols == plan.mi_cols
            &&& t.ops.len() == 0 && t.records.len() == 0 && t.asked == 0 && t.cdef_last is None
            &&& plan.delta_q is None ==> t.cur_q == 0
            &&& plan.delta_q matches Some(q) ==> t.cur_q == q.base
        }),
{
}

/// A colour map is written diagonal by diagonal, each from its upper right end down to the
/// left.
pub proof fn maps_are_written_down_their_diagonals(
    plane: MapPlane,
    map: Seq<u8>,
    side: int,
    n: int,
    d: int,
    k: int,
)
    requires
        side > 0,
        0 < d < 2 * side - 1,
        0 <= k < color_map::diagonal_ops(plane, map, side, n, d).len(),
    ensures
        ({
            let line = color_map::diagonal_ops(plane, map, side, n, d);
            let top = if d < side {
                0int
            } else {
                d - side + 1
            };
            &&& line[k] == color_map::pixel_op(plane, map, side, top + k, d - top - k, n)
            &&& line.len() == if d < side {
                d + 1
            } else {
                2 * side - 1 - d
            }
        }),
{
}

/// A half of a block is inside the frame where its middle is before the frame's end.
pub proof fn halves_go_by_the_middle(pos: int, side: int, end: int)
    requires
        side % 2 == 0,
    ensures
        layout::spec_has_half(pos, side, end) <==> 2 * pos + side < 2 * end,
{
}

/// The mode an inter frame's block leaves in the 16x16 blocks it covers: the DC one of a block
/// predicted from another frame, and its own of an intra one, or its filter's direction.
pub proof fn inter_blocks_leave_their_mode(
    plan: FramePlan,
    b: Bands,
    block: BlockCoeffs,
    mi_r: int,
    mi_c: int,
    side: int,
    states: neighbours::PlaneStates,
    luma: bool,
    i: int,
)
    requires
        0 <= i,
    ensures
        ({
            let done = inter_block::left_behind(plan, b, block, mi_r, mi_c, side, states, luma);
            let own = |lo: int| lo / 4 <= i < lo / 4 + side / 16;
            let left = |m: usize|
                {
                    &&& block.inter is Some ==> m == 0
                    &&& block.inter is None && block.filter_intra is None ==> m == block.mode
                };
            &&& i < b.above_mode.len() ==> if own(mi_c) {
                left(done.above_mode[i])
            } else {
                done.above_mode[i] == b.above_mode[i]
            }
            &&& i < b.left_mode.len() ==> if own(mi_r) {
                left(done.left_mode[i])
            } else {
                done.left_mode[i] == b.left_mode[i]
            }
        }),
{
}

/// Whether a block has two references is coded where the frame allows it, in the table of what
/// its neighbours have; and of a pair, first whether it is of both directions.
pub proof fn pairings_are_coded_by_their_neighbours(
    b: Bands,
    mi_r: int,
    mi_c: int,
    pair: (i8, i8),
    compound: bool,
)
    ensures
        ({
            let (above, left) = refs::sides(b, mi_r, mi_c);
            &&& refs::comp_mode_ops(true, b, mi_r, mi_c, compound) =~= seq![
                syntax_laws::told(
                    compound,
                    Cdf::CompMode(refs::spec_reference_mode_ctx(above, left) as usize),
                ),
            ]
            &&& refs::comp_mode_ops(false, b, mi_r, mi_c, compound).len() == 0
            &&& refs::pair_ops(b, mi_r, mi_c, pair.0, pair.1)[0] == syntax_laws::told(
                (pair.0 >= 5) != (pair.1 >= 5),
                Cdf::CompRefType(refs::spec_comp_reference_type_ctx(above, left) as usize),
            )
        }),
{
}

/// A 16x16 block of an inter frame that is cut into leaves says so in the table of 16, and each
/// leaf inside the frame is then written after the symbol that it is not cut further, in the
/// table of 8 by its own sides.
pub proof fn inter_leaves_follow_their_partitions(
    plan: FramePlan,
    motion: Seq<MotionContext>,
    t: TileView,
    block: BlockCoeffs,
    leaves: Vec<BlockCoeffs>,
    mi_r: int,
    mi_c: int,
)
    requires
        mi_r + 2 < plan.mi_rows,
        mi_c + 2 < plan.mi_cols,
        block.eight == Some(leaves),
        leaves@.len() == 4,
    ensures
        ({
            let w16 = Cdf::PartitionW16(finer(t.bands, mi_r, mi_c, 16));
            let cut = TileView { ops: t.ops.push(Op::Symbol { cdf: w16, value: 3 }), ..t };
            &&& inter_frame::inter_sub(plan, motion, t, block, mi_r, mi_c)
                == inter_frame::inter_leaves(plan, motion, cut, leaves@, mi_r, mi_c, 4)
            &&& inter_frame::inter_leaves(plan, motion, cut, leaves@, mi_r, mi_c, 1)
                == inter_block::inter_block(
                plan,
                motion,
                uncut(cut, Cdf::PartitionW8(finer(t.bands, mi_r, mi_c, 8))),
                leaves@[0],
                mi_r,
                mi_c,
                8,
            )
        }),
        ({
            let one = inter_frame::inter_leaves(plan, motion, t, leaves@, mi_r, mi_c, 1);
            let two = inter_frame::inter_leaves(plan, motion, t, leaves@, mi_r, mi_c, 2);
            let three = inter_frame::inter_leaves(plan, motion, t, leaves@, mi_r, mi_c, 3);
            &&& one.fault is None ==> two == inter_block::inter_block(
                plan,
                motion,
                uncut(
                    one.tile,
                    Cdf::PartitionW8(finer(one.tile.bands, mi_r, mi_c + 2, 8)),
                ),
                leaves@[1],
                mi_r,
                mi_c + 2,
                8,
            )
            &&& two.fault is None ==> three == inter_block::inter_block(
                plan,
                motion,
                uncut(
                    two.tile,
                    Cdf::PartitionW8(finer(two.tile.bands, mi_r + 2, mi_c, 8)),
                ),
                leaves@[2],
                mi_r + 2,
                mi_c,
                8,
            )
        }),
{
    reveal(inter_frame::inter_sub);
    reveal_with_fuel(children::inside_before, 5);
    reveal_with_fuel(inter_frame::inter_leaves, 3);
    let w16 = Cdf::PartitionW16(finer(t.bands, mi_r, mi_c, 16));
    assert(t.ops + seq![Op::Symbol { cdf: w16, value: 3 }] =~= t.ops.push(
        Op::Symbol { cdf: w16, value: 3 },
    ));
}

/// A key frame's superblock that is cut says so in the table of 64, and its quadrants are written
/// in raster order, each by its own place and from what the one before left.
pub proof fn cut_key_superblocks_say_so_first(
    plan: FramePlan,
    motion: Seq<MotionContext>,
    t: TileView,
    quads: Seq<Quadrant>,
    mi_r: int,
    mi_c: int,
)
    requires
        mi_r + 8 < plan.mi_rows,
        mi_c + 8 < plan.mi_cols,
        quads.len() == 4,
    ensures
        ({
            let w64 = Cdf::PartitionW64(finer(t.bands, mi_r, mi_c, 64));
            let cut = TileView { ops: t.ops.push(Op::Symbol { cdf: w64, value: 3 }), ..t };
            key_frame::key_sb(plan, motion, t, SbView::Split(quads), mi_r, mi_c)
                == key_frame::key_quads(plan, motion, cut, quads, mi_r, mi_c, 4)
        }),
        ({
            let one = key_frame::key_quads(plan, motion, t, quads, mi_r, mi_c, 1);
            let two = key_frame::key_quads(plan, motion, t, quads, mi_r, mi_c, 2);
            let three = key_frame::key_quads(plan, motion, t, quads, mi_r, mi_c, 3);
            let four = key_frame::key_quads(plan, motion, t, quads, mi_r, mi_c, 4);
            &&& one == key_frame::key_quad(plan, motion, t, quads[0], mi_r, mi_c)
            &&& one.fault is None ==> two == key_frame::key_quad(
                plan,
                motion,
                one.tile,
                quads[1],
                mi_r,
                mi_c + 8,
            )
            &&& two.fault is None ==> three == key_frame::key_quad(
                plan,
                motion,
                two.tile,
                quads[2],
                mi_r + 8,
                mi_c,
            )
            &&& three.fault is None ==> four == key_frame::key_quad(
                plan,
                motion,
                three.tile,
                quads[3],
                mi_r + 8,
                mi_c + 8,
            )
        }),
{
    reveal(key_frame::key_sb);
    reveal_with_fuel(children::inside_before, 5);
    reveal_with_fuel(key_frame::key_quads, 5);
    let w64 = Cdf::PartitionW64(finer(t.bands, mi_r, mi_c, 64));
    assert(t.ops + seq![Op::Symbol { cdf: w64, value: 3 }] =~= t.ops.push(
        Op::Symbol { cdf: w64, value: 3 },
    ));
}

} // verus!
