//! The masks that blend the two predictions of a wedge compound block.
//!
//! Sixteen wedges and their two signs are windows into twelve 64x64 master
//! planes: six edge directions, and each of them the other way round.
use crate::bits;
use crate::transform::inverse;
use vstd::prelude::*;

verus! {

/// How many wedges a codebook holds.
pub const MAX_WEDGE_TYPES: usize = 16;

/// How many edge directions there are.
pub const N_DIR: usize = 6;

/// The edge across the plane.
pub const HORIZONTAL: usize = 0;

/// The edge down the plane.
pub const VERTICAL: usize = 1;

/// The edge at 27 degrees.
pub const OBLIQUE27: usize = 2;

/// The edge at 63 degrees.
pub const OBLIQUE63: usize = 3;

/// The edge at 117 degrees.
pub const OBLIQUE117: usize = 4;

/// The edge at 153 degrees.
pub const OBLIQUE153: usize = 5;

/// The profile of an oblique edge on odd rows.
pub const WEDGE_MASTER_OBLIQUE_ODD: [u8; 64] = [
    0, 0, 0, 0, 0, 0, 0, 0, 0, 0, 0, 0, 0, 0, 0, 0, 0, 0, 0, 0, 0, 0, 0, 0, 0, 0, 0, 0, 1, 2, 6,
    18, 37, 53, 60, 63, 64, 64, 64, 64, 64, 64, 64, 64, 64, 64, 64, 64, 64, 64, 64, 64, 64, 64,
    64, 64, 64, 64, 64, 64, 64, 64, 64, 64,
];

/// The profile of an oblique edge on even rows.
pub const WEDGE_MASTER_OBLIQUE_EVEN: [u8; 64] = [
    0, 0, 0, 0, 0, 0, 0, 0, 0, 0, 0, 0, 0, 0, 0, 0, 0, 0, 0, 0, 0, 0, 0, 0, 0, 0, 0, 0, 1, 4, 11,
    27, 46, 58, 62, 63, 64, 64, 64, 64, 64, 64, 64, 64, 64, 64, 64, 64, 64, 64, 64, 64, 64, 64,
    64, 64, 64, 64, 64, 64, 64, 64, 64, 64,
];

/// The profile of an upright edge.
pub const WEDGE_MASTER_VERTICAL: [u8; 64] = [
    0, 0, 0, 0, 0, 0, 0, 0, 0, 0, 0, 0, 0, 0, 0, 0, 0, 0, 0, 0, 0, 0, 0, 0, 0, 0, 0, 0, 0, 2, 7,
    21, 43, 57, 62, 64, 64, 64, 64, 64, 64, 64, 64, 64, 64, 64, 64, 64, 64, 64, 64, 64, 64, 64,
    64, 64, 64, 64, 64, 64, 64, 64, 64, 64,
];

/// The edge direction of every wedge of a square block.
pub const WEDGE_DIRECTION: [usize; 16] = [2, 3, 4, 5, 0, 0, 1, 1, 2, 2, 5, 5, 3, 3, 4, 4];

/// How many eighths across the block every wedge's edge sits.
pub const WEDGE_X_OFFSET: [usize; 16] = [4, 4, 4, 4, 4, 4, 2, 6, 4, 4, 4, 4, 2, 6, 2, 6];

/// How many eighths down the block every wedge's edge sits.
pub const WEDGE_Y_OFFSET: [usize; 16] = [4, 4, 4, 4, 2, 6, 4, 4, 2, 6, 2, 6, 4, 4, 4, 4];

/// Whether a wedge's first sign reads the inverted plane.
pub const SIGNFLIP: [usize; 16] = [1, 1, 1, 1, 1, 1, 1, 1, 1, 1, 0, 1, 1, 1, 0, 1];

/// A profile moved right by `shift`, its end samples filling the gap.
pub open spec fn shifted(src: [u8; 64], shift: int, j: int) -> int {
    src[bits::spec_clamp(j - shift, 0, 63)] as int
}

/// How far row `i` of the 63 degree plane moves its profile: one step to the
/// left every two rows.
pub open spec fn row_slant(i: int) -> int {
    if i % 2 == 0 {
        16 - i / 2
    } else {
        15 - i / 2
    }
}

/// The 63 degree plane.
pub open spec fn oblique63(i: int, j: int) -> int {
    if i % 2 == 0 {
        shifted(WEDGE_MASTER_OBLIQUE_EVEN, row_slant(i), j)
    } else {
        shifted(WEDGE_MASTER_OBLIQUE_ODD, row_slant(i), j)
    }
}

/// The weight at row `i`, column `j` of a master plane: every other oblique
/// direction is the 63 degree one mirrored.
pub open spec fn upright_weight(dir: int, i: int, j: int) -> int {
    if dir == HORIZONTAL {
        WEDGE_MASTER_VERTICAL[i] as int
    } else if dir == VERTICAL {
        WEDGE_MASTER_VERTICAL[j] as int
    } else if dir == OBLIQUE27 {
        oblique63(j, i)
    } else if dir == OBLIQUE63 {
        oblique63(i, j)
    } else if dir == OBLIQUE117 {
        64 - oblique63(i, 63 - j)
    } else {
        64 - oblique63(j, 63 - i)
    }
}

/// The weight at row `i`, column `j` of a master plane, or of the same plane
/// the other way round.
pub open spec fn master_weight(neg: int, dir: int, i: int, j: int) -> int {
    if neg == 0 {
        upright_weight(dir, i, j)
    } else {
        64 - upright_weight(dir, i, j)
    }
}

/// The weight at row `i`, column `j` of a wedge's mask: its window of the
/// master plane is placed so that the edge crosses where the wedge says.
pub open spec fn wedge_weight(sign: int, index: int, bw: int, bh: int, i: int, j: int) -> int {
    let neg = if sign == SIGNFLIP[index] {
        0int
    } else {
        1int
    };
    let row0 = 32 - (WEDGE_Y_OFFSET[index] * bh) / 8;
    let col0 = 32 - (WEDGE_X_OFFSET[index] * bw) / 8;
    master_weight(neg, WEDGE_DIRECTION[index] as int, row0 + i, col0 + j)
}

/// Whether these bytes are the mask of one wedge, in raster order.
pub open spec fn is_wedge_mask(mask: Seq<u8>, sign: int, index: int, bw: int, bh: int) -> bool {
    &&& mask.len() == bw * bh
    &&& forall|i: int, j: int|
        0 <= i < bh && 0 <= j < bw ==> #[trigger] mask[i * bw + j] == wedge_weight(
            sign,
            index,
            bw,
            bh,
            i,
            j,
        )
}

/// Whether a codebook is built for a block of this side.
pub open spec fn is_wedge_side(side: int) -> bool {
    side == 8 || side == 16 || side == 32
}

proof fn lemma_profiles()
    ensures
        forall|k: int| 0 <= k < 64 ==> 0 <= #[trigger] WEDGE_MASTER_VERTICAL[k] <= 64,
        forall|k: int| 0 <= k < 64 ==> 0 <= #[trigger] WEDGE_MASTER_OBLIQUE_EVEN[k] <= 64,
        forall|k: int| 0 <= k < 64 ==> 0 <= #[trigger] WEDGE_MASTER_OBLIQUE_ODD[k] <= 64,
{
}

proof fn lemma_oblique63_weight(i: int, j: int)
    ensures
        0 <= oblique63(i, j) <= 64,
{
    lemma_profiles();
    let at = bits::spec_clamp(j - row_slant(i), 0, 63);
    assert(0 <= WEDGE_MASTER_OBLIQUE_EVEN[at] <= 64);
    assert(0 <= WEDGE_MASTER_OBLIQUE_ODD[at] <= 64);
}

/// No weight exceeds 64.
pub proof fn weights_are_at_most_64(neg: int, dir: int, i: int, j: int)
    requires
        0 <= i < 64,
        0 <= j < 64,
    ensures
        0 <= master_weight(neg, dir, i, j) <= 64,
{
    lemma_profiles();
    lemma_oblique63_weight(j, i);
    lemma_oblique63_weight(i, j);
    lemma_oblique63_weight(i, 63 - j);
    lemma_oblique63_weight(j, 63 - i);
}

/// The two signs of a wedge are complements: everywhere their weights add up
/// to 64.
pub proof fn wedge_signs_are_complements(index: int, bw: int, bh: int, i: int, j: int)
    requires
        0 <= index < 16,
    ensures
        wedge_weight(0, index, bw, bh, i, j) + wedge_weight(1, index, bw, bh, i, j) == 64,
{
    assert(forall|k: int| 0 <= k < 16 ==> 0 <= #[trigger] SIGNFLIP[k] <= 1);
}

/// The wedge whose edge runs down a square block where this one's runs across.
pub open spec fn turned(index: int) -> int {
    if index == 0 {
        1
    } else if index == 1 {
        0
    } else if index == 2 {
        3
    } else if index == 3 {
        2
    } else if index == 4 || index == 5 {
        index + 2
    } else if index == 6 || index == 7 {
        index - 2
    } else if index < 12 {
        index + 4
    } else {
        index - 4
    }
}

/// The wedges of a square block come in pairs: each is another one transposed,
/// whose own partner it is, of either sign.
pub proof fn wedges_are_transposed_in_pairs(sign: int, index: int, side: int, i: int, j: int)
    requires
        0 <= index < 16,
    ensures
        0 <= turned(index) < 16,
        turned(turned(index)) == index,
        wedge_weight(sign, index, side, side, i, j) == wedge_weight(
            sign,
            turned(index),
            side,
            side,
            j,
            i,
        ),
{
    let k = turned(index);
    assert(SIGNFLIP[index] == SIGNFLIP[k]);
    assert(WEDGE_X_OFFSET[index] == WEDGE_Y_OFFSET[k]);
    assert(WEDGE_Y_OFFSET[index] == WEDGE_X_OFFSET[k]);
    assert(WEDGE_DIRECTION[index] == HORIZONTAL ==> WEDGE_DIRECTION[k] == VERTICAL);
    assert(WEDGE_DIRECTION[index] == VERTICAL ==> WEDGE_DIRECTION[k] == HORIZONTAL);
    assert(WEDGE_DIRECTION[index] == OBLIQUE27 ==> WEDGE_DIRECTION[k] == OBLIQUE63);
    assert(WEDGE_DIRECTION[index] == OBLIQUE63 ==> WEDGE_DIRECTION[k] == OBLIQUE27);
    assert(WEDGE_DIRECTION[index] == OBLIQUE117 ==> WEDGE_DIRECTION[k] == OBLIQUE153);
    assert(WEDGE_DIRECTION[index] == OBLIQUE153 ==> WEDGE_DIRECTION[k] == OBLIQUE117);
}

/// The masks of a square block, as bytes: one weight of at most 64 for each
/// sample, the two signs of a wedge adding up to 64, and the mask of a wedge's
/// partner the same mask transposed.
pub proof fn masks_are_complements_and_transposes(
    side: int,
    index: int,
    first: Seq<u8>,
    second: Seq<u8>,
    sign: int,
    own: Seq<u8>,
    other: Seq<u8>,
)
    requires
        is_wedge_side(side),
        0 <= index < 16,
        is_wedge_mask(first, 0, index, side, side),
        is_wedge_mask(second, 1, index, side, side),
        is_wedge_mask(own, sign, index, side, side),
        is_wedge_mask(other, sign, turned(index), side, side),
    ensures
        first.len() == side * side && second.len() == side * side,
        forall|p: int| 0 <= p < side * side ==> #[trigger] first[p] <= 64,
        forall|p: int| 0 <= p < side * side ==> #[trigger] second[p] <= 64,
        forall|p: int| 0 <= p < side * side ==> #[trigger] first[p] + second[p] == 64,
        forall|i: int, j: int|
            0 <= i < side && 0 <= j < side ==> #[trigger] own[i * side + j] == other[j * side
                + i],
{
    assert forall|p: int| 0 <= p < side * side implies #[trigger] first[p] + second[p] == 64 by {
        let i = p / side;
        let j = p % side;
        vstd::arithmetic::div_mod::lemma_fundamental_div_mod(p, side);
        assert(0 <= i < side && p == i * side + j) by (nonlinear_arith)
            requires
                0 <= p < side * side,
                p == side * i + j,
                0 <= j < side,
        ;
        assert(first[i * side + j] == wedge_weight(0, index, side, side, i, j));
        assert(second[i * side + j] == wedge_weight(1, index, side, side, i, j));
        wedge_signs_are_complements(index, side, side, i, j);
    }
    assert forall|p: int| 0 <= p < side * side implies #[trigger] first[p] <= 64 by {
        assert(first[p] + second[p] == 64);
    }
    assert forall|p: int| 0 <= p < side * side implies #[trigger] second[p] <= 64 by {
        assert(first[p] + second[p] == 64);
    }
    assert forall|i: int, j: int| 0 <= i < side && 0 <= j < side implies #[trigger] own[i * side
        + j] == other[j * side + i] by {
        wedges_are_transposed_in_pairs(sign, index, side, i, j);
        assert(other[j * side + i] == wedge_weight(sign, turned(index), side, side, j, i));
    }
}

/// The window of every wedge lies inside its master plane.
proof fn lemma_window(index: int, side: int)
    requires
        0 <= index < 16,
        is_wedge_side(side),
    ensures
        WEDGE_DIRECTION[index] < 6,
        SIGNFLIP[index] <= 1,
        0 <= (WEDGE_X_OFFSET[index] * side) / 8 <= 32,
        0 <= (WEDGE_Y_OFFSET[index] * side) / 8 <= 32,
        32 - (WEDGE_X_OFFSET[index] * side) / 8 + side <= 64,
        32 - (WEDGE_Y_OFFSET[index] * side) / 8 + side <= 64,
{
    assert(forall|k: int| 0 <= k < 16 ==> 0 <= #[trigger] WEDGE_DIRECTION[k] < 6);
    assert(forall|k: int| 0 <= k < 16 ==> 0 <= #[trigger] SIGNFLIP[k] <= 1);
    assert(forall|k: int| 0 <= k < 16 ==> 2 <= #[trigger] WEDGE_X_OFFSET[k] <= 6);
    assert(forall|k: int| 0 <= k < 16 ==> 2 <= #[trigger] WEDGE_Y_OFFSET[k] <= 6);
    if side == 8 {
    } else if side == 16 {
    } else {
    }
}

/// One row of a profile moved right by `shift`, or left where it is negative,
/// the end sample filling the gap.
fn shift_copy(src: &[u8; 64], shift: i32) -> (row: Vec<u8>)
    requires
        -64 <= shift <= 64,
    ensures
        row.len() == 64,
        forall|j: int| 0 <= j < 64 ==> #[trigger] row@[j] == shifted(*src, shift as int, j),
{
    let mut row: Vec<u8> = Vec::new();
    for j in 0..64usize
        invariant
            -64 <= shift <= 64,
            row.len() == j,
            forall|k: int| 0 <= k < j ==> #[trigger] row@[k] == shifted(*src, shift as int, k),
    {
        let at: i32 = j as i32 - shift;
        let from: usize = if at < 0 {
            0
        } else if at > 63 {
            63
        } else {
            at as usize
        };
        row.push(src[from]);
    }
    row
}

/// The twelve master planes, row by row.
struct MasterMasks {
    /// Indexed by direction, then by row: the planes that are not inverted.
    planes: Vec<Vec<Vec<u8>>>,
}

impl MasterMasks {
    /// Whether the planes hold what the profiles say.
    spec fn wf(&self) -> bool {
        &&& self.planes.len() == N_DIR
        &&& forall|d: int| 0 <= d < N_DIR ==> is_plane((#[trigger] self.planes@[d])@, d)
    }
}

/// Whether these rows are the master plane of a direction.
spec fn is_plane(rows: Seq<Vec<u8>>, dir: int) -> bool {
    &&& rows.len() == 64
    &&& forall|i: int|
        0 <= i < 64 ==> (#[trigger] rows[i]).len() == 64 && forall|j: int|
            0 <= j < 64 ==> #[trigger] rows[i]@[j] == upright_weight(dir, i, j)
}

/// The rows of the 63 degree plane.
fn oblique63_rows() -> (rows: Vec<Vec<u8>>)
    ensures
        is_plane(rows@, OBLIQUE63 as int),
{
    let mut rows: Vec<Vec<u8>> = Vec::new();
    for i in 0..64usize
        invariant
            rows.len() == i,
            forall|k: int|
                0 <= k < i ==> (#[trigger] rows@[k]).len() == 64 && forall|j: int|
                    0 <= j < 64 ==> #[trigger] rows@[k]@[j] == upright_weight(
                        OBLIQUE63 as int,
                        k,
                        j,
                    ),
    {
        let slant: i32 = if i % 2 == 0 {
            16 - (i / 2) as i32
        } else {
            15 - (i / 2) as i32
        };
        let row: Vec<u8> = if i % 2 == 0 {
            shift_copy(&WEDGE_MASTER_OBLIQUE_EVEN, slant)
        } else {
            shift_copy(&WEDGE_MASTER_OBLIQUE_ODD, slant)
        };
        rows.push(row);
    }
    rows
}

/// The rows of the plane of one direction, from the 63 degree ones.
fn plane_rows(slanted: &Vec<Vec<u8>>, dir: usize) -> (rows: Vec<Vec<u8>>)
    requires
        is_plane(slanted@, OBLIQUE63 as int),
        dir < N_DIR,
    ensures
        is_plane(rows@, dir as int),
{
    let mut rows: Vec<Vec<u8>> = Vec::new();
    for i in 0..64usize
        invariant
            is_plane(slanted@, OBLIQUE63 as int),
            dir < N_DIR,
            rows.len() == i,
            forall|k: int|
                0 <= k < i ==> (#[trigger] rows@[k]).len() == 64 && forall|j: int|
                    0 <= j < 64 ==> #[trigger] rows@[k]@[j] == upright_weight(dir as int, k, j),
    {
        let mut row: Vec<u8> = Vec::new();
        for j in 0..64usize
            invariant
                is_plane(slanted@, OBLIQUE63 as int),
                dir < N_DIR,
                i < 64,
                row.len() == j,
                forall|k: int|
                    0 <= k < j ==> #[trigger] row@[k] == upright_weight(dir as int, i as int, k),
        {
            proof {
                weights_are_at_most_64(0, OBLIQUE63 as int, i as int, 63 - j);
                weights_are_at_most_64(0, OBLIQUE63 as int, j as int, 63 - i);
                assert(slanted@[i as int].len() == 64 && slanted@[j as int].len() == 64);
                assert(slanted@[i as int]@[j as int] == oblique63(i as int, j as int));
                assert(slanted@[j as int]@[i as int] == oblique63(j as int, i as int));
                assert(slanted@[i as int]@[63 - j] == oblique63(i as int, 63 - j));
                assert(slanted@[j as int]@[63 - i] == oblique63(j as int, 63 - i));
            }
            let v: u8 = if dir == HORIZONTAL {
                WEDGE_MASTER_VERTICAL[i]
            } else if dir == VERTICAL {
                WEDGE_MASTER_VERTICAL[j]
            } else if dir == OBLIQUE27 {
                slanted[j][i]
            } else if dir == OBLIQUE63 {
                slanted[i][j]
            } else if dir == OBLIQUE117 {
                64 - slanted[i][63 - j]
            } else {
                64 - slanted[j][63 - i]
            };
            row.push(v);
        }
        rows.push(row);
    }
    rows
}

/// The master planes.
fn init_wedge_master_masks() -> (master: MasterMasks)
    ensures
        master.wf(),
{
    let slanted: Vec<Vec<u8>> = oblique63_rows();
    let mut planes: Vec<Vec<Vec<u8>>> = Vec::new();
    for d in 0..N_DIR
        invariant
            is_plane(slanted@, OBLIQUE63 as int),
            planes.len() == d,
            forall|k: int| 0 <= k < d ==> is_plane((#[trigger] planes@[k])@, k),
    {
        planes.push(plane_rows(&slanted, d));
    }
    MasterMasks { planes }
}

/// Where a wedge's window starts: whether it reads the inverted plane, and
/// its first row and column.
fn wedge_window(wedge_index: usize, sign: usize, side: usize) -> (window: (bool, usize, usize))
    requires
        wedge_index < MAX_WEDGE_TYPES,
        sign < 2,
        is_wedge_side(side as int),
    ensures
        window.0 == (sign != SIGNFLIP[wedge_index as int]),
        window.1 == 32 - (WEDGE_Y_OFFSET[wedge_index as int] * side) / 8,
        window.2 == 32 - (WEDGE_X_OFFSET[wedge_index as int] * side) / 8,
        window.1 + side <= 64,
        window.2 + side <= 64,
{
    proof {
        lemma_window(wedge_index as int, side as int);
    }
    let (x, y): (usize, usize) = (WEDGE_X_OFFSET[wedge_index], WEDGE_Y_OFFSET[wedge_index]);
    assert(x <= 6 && y <= 6) by {
        assert(forall|k: int| 0 <= k < 16 ==> 2 <= #[trigger] WEDGE_X_OFFSET[k] <= 6);
        assert(forall|k: int| 0 <= k < 16 ==> 2 <= #[trigger] WEDGE_Y_OFFSET[k] <= 6);
    }
    assert(x * side <= 192 && y * side <= 192) by (nonlinear_arith)
        requires
            x <= 6,
            y <= 6,
            side <= 32,
    ;
    (sign != SIGNFLIP[wedge_index], 32 - (y * side) / 8, 32 - (x * side) / 8)
}

/// The masks of every wedge and sign at one block size.
pub struct WedgeCodebook {
    /// Indexed by sign, then by wedge.
    pub masks: Vec<Vec<Vec<u8>>>,
    /// The width of a mask.
    pub bw: usize,
    /// The height of a mask.
    pub bh: usize,
}

impl WedgeCodebook {
    /// Whether every mask of the codebook is the wedge it stands for.
    pub open spec fn wf(&self) -> bool {
        &&& is_wedge_side(self.bw as int)
        &&& self.bh == self.bw
        &&& self.masks.len() == 2
        &&& forall|s: int|
            0 <= s < 2 ==> (#[trigger] self.masks@[s]).len() == MAX_WEDGE_TYPES && forall|k: int|
                0 <= k < MAX_WEDGE_TYPES ==> is_wedge_mask(
                    (#[trigger] self.masks@[s]@[k])@,
                    s,
                    k,
                    self.bw as int,
                    self.bh as int,
                )
    }

    /// The codebook of a square block.
    fn build(master: &MasterMasks, side: usize) -> (book: Self)
        requires
            master.wf(),
            is_wedge_side(side as int),
        ensures
            book.wf(),
            book.bw == side,
            book.bh == side,
    {
        let mut masks: Vec<Vec<Vec<u8>>> = Vec::new();
        for sign in 0..2usize
            invariant
                master.wf(),
                is_wedge_side(side as int),
                masks.len() == sign,
                forall|s: int|
                    0 <= s < sign ==> (#[trigger] masks@[s]).len() == MAX_WEDGE_TYPES && forall|
                        k: int,
                    |
                        0 <= k < MAX_WEDGE_TYPES ==> is_wedge_mask(
                            (#[trigger] masks@[s]@[k])@,
                            s,
                            k,
                            side as int,
                            side as int,
                        ),
        {
            let mut of_sign: Vec<Vec<u8>> = Vec::new();
            for index in 0..MAX_WEDGE_TYPES
                invariant
                    master.wf(),
                    is_wedge_side(side as int),
                    sign < 2,
                    of_sign.len() == index,
                    forall|k: int|
                        0 <= k < index ==> is_wedge_mask(
                            (#[trigger] of_sign@[k])@,
                            sign as int,
                            k,
                            side as int,
                            side as int,
                        ),
            {
                of_sign.push(cut_mask(master, sign, index, side));
            }
            masks.push(of_sign);
        }
        WedgeCodebook { masks, bw: side, bh: side }
    }

    /// The mask of one wedge and sign, in raster order.
    pub fn mask(&self, wedge_sign: usize, wedge_index: usize) -> (mask: &[u8])
        requires
            self.wf(),
            wedge_sign < 2,
            wedge_index < MAX_WEDGE_TYPES,
        ensures
            is_wedge_mask(
                mask@,
                wedge_sign as int,
                wedge_index as int,
                self.bw as int,
                self.bh as int,
            ),
    {
        let of_sign: &Vec<Vec<u8>> = &self.masks[wedge_sign];
        let mask: &Vec<u8> = &of_sign[wedge_index];
        mask.as_slice()
    }
}

/// One wedge's window, cut out of its master plane.
fn cut_mask(master: &MasterMasks, sign: usize, index: usize, side: usize) -> (mask: Vec<u8>)
    requires
        master.wf(),
        sign < 2,
        index < MAX_WEDGE_TYPES,
        is_wedge_side(side as int),
    ensures
        is_wedge_mask(mask@, sign as int, index as int, side as int, side as int),
{
    let (inverted, row0, col0): (bool, usize, usize) = wedge_window(index, sign, side);
    let dir: usize = WEDGE_DIRECTION[index];
    proof {
        lemma_window(index as int, side as int);
    }
    let plane: &Vec<Vec<u8>> = &master.planes[dir];
    assert(is_plane(plane@, dir as int));
    let mut mask: Vec<u8> = Vec::new();
    assert(0 * (side as int) == 0);
    for i in 0..side
        invariant
            is_plane(plane@, dir as int),
            dir == WEDGE_DIRECTION[index as int],
            index < MAX_WEDGE_TYPES,
            is_wedge_side(side as int),
            row0 + side <= 64,
            col0 + side <= 64,
            inverted == (sign != SIGNFLIP[index as int]),
            row0 == 32 - (WEDGE_Y_OFFSET[index as int] * side) / 8,
            col0 == 32 - (WEDGE_X_OFFSET[index as int] * side) / 8,
            mask.len() == i * side,
            forall|k: int, j: int|
                0 <= k < i && 0 <= j < side ==> #[trigger] mask@[k * side + j] == wedge_weight(
                    sign as int,
                    index as int,
                    side as int,
                    side as int,
                    k,
                    j,
                ),
    {
        let row: &Vec<u8> = &plane[row0 + i];
        let ghost done = mask@;
        for j in 0..side
            invariant
                row == plane@[row0 + i],
                i < side,
                is_plane(plane@, dir as int),
                dir == WEDGE_DIRECTION[index as int],
                index < MAX_WEDGE_TYPES,
                is_wedge_side(side as int),
                row0 + side <= 64,
                col0 + side <= 64,
                inverted == (sign != SIGNFLIP[index as int]),
                row0 == 32 - (WEDGE_Y_OFFSET[index as int] * side) / 8,
                col0 == 32 - (WEDGE_X_OFFSET[index as int] * side) / 8,
                done.len() == i * side,
                mask.len() == i * side + j,
                forall|p: int| 0 <= p < done.len() ==> #[trigger] mask@[p] == done[p],
                forall|k: int|
                    0 <= k < j ==> #[trigger] mask@[i * side + k] == wedge_weight(
                        sign as int,
                        index as int,
                        side as int,
                        side as int,
                        i as int,
                        k,
                    ),
        {
            proof {
                weights_are_at_most_64(0, dir as int, row0 + i, col0 + j);
                assert(plane@[row0 + i]@[col0 + j] == upright_weight(
                    dir as int,
                    row0 + i,
                    col0 + j,
                ));
            }
            let v: u8 = row[col0 + j];
            mask.push(
                if inverted {
                    64 - v
                } else {
                    v
                },
            );
        }
        assert(i * side + side == (i + 1) * side) by (nonlinear_arith);
        assert forall|k: int, j: int| 0 <= k < i + 1 && 0 <= j < side implies #[trigger] mask@[k
            * side + j] == wedge_weight(
            sign as int,
            index as int,
            side as int,
            side as int,
            k,
            j,
        ) by {
            if k < i {
                inverse::lemma_grid_index(side as int, i as int, k, j);
                assert((side as int) * (i as int) == i * side) by (nonlinear_arith);
                assert(mask@[k * side + j] == done[k * side + j]);
            }
        }
    }
    mask
}

/// One codebook for every square block that can be blended by a wedge.
pub struct WedgeMasks {
    /// The codebook of 8x8 blocks.
    pub side8: WedgeCodebook,
    /// The codebook of 16x16 blocks.
    pub side16: WedgeCodebook,
    /// The codebook of 32x32 blocks.
    pub side32: WedgeCodebook,
}

impl WedgeMasks {
    /// Whether every codebook holds the masks of its own side.
    pub open spec fn wf(&self) -> bool {
        &&& self.side8.wf() && self.side8.bw == 8 && self.side8.bh == 8
        &&& self.side16.wf() && self.side16.bw == 16 && self.side16.bh == 16
        &&& self.side32.wf() && self.side32.bw == 32 && self.side32.bh == 32
    }

    /// The codebooks of all sides.
    pub fn new() -> (masks: Self)
        ensures
            masks.wf(),
    {
        let master: MasterMasks = init_wedge_master_masks();
        WedgeMasks {
            side8: WedgeCodebook::build(&master, 8),
            side16: WedgeCodebook::build(&master, 16),
            side32: WedgeCodebook::build(&master, 32),
        }
    }

    /// The codebook of a square block of this side.
    pub fn codebook(&self, side: usize) -> (book: &WedgeCodebook)
        requires
            self.wf(),
            is_wedge_side(side as int),
        ensures
            book.wf(),
            book.bw == side,
            book.bh == side,
    {
        match side {
            8 => &self.side8,
            16 => &self.side16,
            _ => &self.side32,
        }
    }
}

/// The masks of every block that can be blended by a wedge.
pub fn wedge_masks() -> (masks: WedgeMasks)
    ensures
        masks.wf(),
{
    WedgeMasks::new()
}

} // verus!
