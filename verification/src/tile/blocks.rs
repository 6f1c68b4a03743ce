//! What a tile is written from: the blocks of a frame, their modes and their
//! quantised coefficients.
use crate::transform::tx_type::TxType;
use vstd::prelude::*;

verus! {

/// One quantised coefficient of a transform block.
///
/// `row` and `col` are its position in the transform it belongs to, not in
/// the picture: a coefficient at row 0 varies along the picture's width and
/// one at column 0 along its height, and the one at the origin is the DC.
#[derive(Clone, Copy, Debug, PartialEq, Eq, Structural)]
pub struct Coeff {
    /// The coefficient's row in the transform.
    pub row: u8,
    /// The coefficient's column in the transform.
    pub col: u8,
    /// Its quantised level.
    pub level: i32,
}

/// A block's luma palette: its base colours and which of them each pixel
/// takes.
#[derive(Debug, PartialEq, Eq)]
pub struct PaletteY {
    /// How many base colours, 2..=8.
    pub size: u8,
    /// The base colours, ascending; only the first `size` are real.
    pub colors: [u16; 8],
    /// Which colour each pixel takes, row by row over the block's own side.
    pub map: Vec<u8>,
}

/// A block's chroma palette: one colour index map shared by both planes, and
/// each plane's own base colours.
#[derive(Debug, PartialEq, Eq)]
pub struct PaletteUv {
    /// How many base colours, 2..=8.
    pub size: u8,
    /// U's base colours, ascending and distinct.
    pub u_colors: [u16; 8],
    /// V's base colours, in the order of `u_colors`.
    pub v_colors: [u16; 8],
    /// Which colour each chroma pixel takes, row by row.
    pub map: Vec<u8>,
}

/// Whether two palettes are the same.
pub open spec fn same_palette(a: PaletteY, b: PaletteY) -> bool {
    a.size == b.size && a.colors@ == b.colors@ && a.map@ == b.map@
}

/// Whether two chroma palettes are the same.
pub open spec fn same_palette_uv(a: PaletteUv, b: PaletteUv) -> bool {
    &&& a.size == b.size
    &&& a.u_colors@ == b.u_colors@
    &&& a.v_colors@ == b.v_colors@
    &&& a.map@ == b.map@
}

impl Clone for PaletteY {
    fn clone(&self) -> (p: Self)
        ensures
            same_palette(*self, p),
    {
        PaletteY { size: self.size, colors: self.colors, map: self.map.clone() }
    }
}

impl Default for PaletteY {
    /// A palette without colours.
    fn default() -> (p: Self)
        ensures
            p.size == 0,
            p.colors@ == Seq::new(8, |i: int| 0u16),
            p.map@ == Seq::<u8>::empty(),
    {
        let p: PaletteY = PaletteY { size: 0, colors: [0; 8], map: Vec::new() };
        assert(p.colors@ =~= Seq::new(8, |i: int| 0u16));
        p
    }
}

impl Clone for PaletteUv {
    fn clone(&self) -> (p: Self)
        ensures
            same_palette_uv(*self, p),
    {
        PaletteUv {
            size: self.size,
            u_colors: self.u_colors,
            v_colors: self.v_colors,
            map: self.map.clone(),
        }
    }
}

impl Default for PaletteUv {
    /// A palette without colours.
    fn default() -> (p: Self)
        ensures
            p.size == 0,
            p.u_colors@ == Seq::new(8, |i: int| 0u16),
            p.v_colors@ == Seq::new(8, |i: int| 0u16),
            p.map@ == Seq::<u8>::empty(),
    {
        let p: PaletteUv = PaletteUv {
            size: 0,
            u_colors: [0; 8],
            v_colors: [0; 8],
            map: Vec::new(),
        };
        assert(p.u_colors@ =~= Seq::new(8, |i: int| 0u16));
        assert(p.v_colors@ =~= Seq::new(8, |i: int| 0u16));
        p
    }
}

/// How an inter block finds its motion vectors.
#[derive(Clone, Copy, Debug, PartialEq, Eq, Structural)]
pub enum InterMode {
    /// The nearest candidate.
    NearestMv,
    /// A candidate past the nearest.
    NearMv,
    /// The frame's global vector, which is zero.
    GlobalMv,
    /// A coded difference from a candidate.
    NewMv,
    /// Both references' nearest candidates.
    NearestNearestMv,
    /// Both references' candidates past the nearest.
    NearNearMv,
    /// The nearest candidate, and a coded difference for the second.
    NearestNewMv,
    /// A coded difference, and the nearest candidate for the second.
    NewNearestMv,
    /// The global vector of both.
    GlobalGlobalMv,
    /// A coded difference for both.
    NewNewMv,
}

/// The index of a mode of two references, nothing for one of a single one.
pub open spec fn spec_compound_index(mode: InterMode) -> Option<usize> {
    match mode {
        InterMode::NearestNearestMv => Some(0),
        InterMode::NearNearMv => Some(1),
        InterMode::NearestNewMv => Some(2),
        InterMode::NewNearestMv => Some(3),
        InterMode::GlobalGlobalMv => Some(6),
        InterMode::NewNewMv => Some(7),
        _ => None,
    }
}

impl InterMode {
    /// The index of a mode of two references, nothing for one of a single
    /// one.
    pub fn compound_index(self) -> (index: Option<usize>)
        ensures
            index == spec_compound_index(self),
    {
        match self {
            InterMode::NearestNearestMv => Some(0),
            InterMode::NearNearMv => Some(1),
            InterMode::NearestNewMv => Some(2),
            InterMode::NewNearestMv => Some(3),
            InterMode::GlobalGlobalMv => Some(6),
            InterMode::NewNewMv => Some(7),
            _ => None,
        }
    }
}

/// An inter block's mode and motion vectors, in eighths of a pel, row first.
#[derive(Clone, Copy, Debug, PartialEq, Eq)]
pub struct InterInfo {
    /// The mode the block is coded with.
    pub mode: InterMode,
    /// The vector a coded difference aims at.
    pub mv: (i32, i32),
    /// The reference the block is predicted from, 1..=7.
    pub ref_frame: i8,
    /// Which candidate a difference is coded against, or is taken outright.
    pub ref_mv_idx: u8,
    /// The second reference of a block that has two.
    pub ref1: Option<i8>,
    /// The vector into it.
    pub mv1: (i32, i32),
}

/// One coded block: its modes and the coefficients of its transforms.
#[derive(Debug, PartialEq, Eq)]
pub struct BlockCoeffs {
    /// The luma transform's coefficients.
    pub luma: Vec<Coeff>,
    /// One transform type per luma transform unit, in raster order; empty is
    /// the DCT throughout.
    pub luma_tx_types: Vec<TxType>,
    /// The U plane's coefficients.
    pub u: Vec<Coeff>,
    /// The V plane's.
    pub v: Vec<Coeff>,
    /// The luma intra mode, one of thirteen.
    pub mode: u8,
    /// The chroma intra mode of both planes.
    pub uv_mode: u8,
    /// Whether the block carries no residual at all.
    pub skip: bool,
    /// The block's inter mode and vectors, or nothing for an intra block.
    pub inter: Option<InterInfo>,
    /// Plain (0), overlapped (1) or warped (2) prediction of a block of one
    /// reference.
    pub motion_mode: u8,
    /// The 8x8 leaves a 16x16 block is split into, in raster order among
    /// those inside the frame.
    pub eight: Option<Vec<BlockCoeffs>>,
    /// The luma palette, or nothing.
    pub palette: Option<PaletteY>,
    /// The chroma palette, or nothing.
    pub palette_uv: Option<PaletteUv>,
    /// How many times the luma transform is halved.
    pub tx_depth: u8,
    /// The chroma-from-luma scales, not both zero.
    pub cfl_alphas: Option<(i32, i32)>,
    /// The recursive filter mode, 0..=4, or nothing.
    pub filter_intra: Option<u8>,
    /// The angle of a directional luma mode, -3..=3.
    pub angle_delta_y: i8,
    /// The vector of a block copied from its own frame, in eighths of a pel.
    pub dv: Option<(i32, i32)>,
}

/// Whether a block is the plain one: the DC mode, no coefficient, no tool.
pub open spec fn is_plain(b: BlockCoeffs) -> bool {
    &&& b.luma_tx_types@ == Seq::<TxType>::empty()
    &&& b.u@ == Seq::<Coeff>::empty()
    &&& b.v@ == Seq::<Coeff>::empty()
    &&& b.mode == 0
    &&& b.uv_mode == 0
    &&& !b.skip
    &&& b.inter is None
    &&& b.motion_mode == 0
    &&& b.eight is None
    &&& b.palette is None
    &&& b.palette_uv is None
    &&& b.tx_depth == 0
    &&& b.cfl_alphas is None
    &&& b.filter_intra is None
    &&& b.angle_delta_y == 0
    &&& b.dv is None
}

impl Default for BlockCoeffs {
    /// A block that codes nothing.
    fn default() -> (block: Self)
        ensures
            is_plain(block),
            block.luma@ == Seq::<Coeff>::empty(),
    {
        BlockCoeffs::from(Vec::new())
    }
}

impl From<Vec<Coeff>> for BlockCoeffs {
    /// A block that codes luma only.
    fn from(luma: Vec<Coeff>) -> (block: Self)
        ensures
            is_plain(block),
            block.luma == luma,
    {
        BlockCoeffs {
            luma,
            luma_tx_types: Vec::new(),
            u: Vec::new(),
            v: Vec::new(),
            mode: 0,
            uv_mode: 0,
            skip: false,
            inter: None,
            motion_mode: 0,
            eight: None,
            palette: None,
            palette_uv: None,
            tx_depth: 0,
            cfl_alphas: None,
            filter_intra: None,
            angle_delta_y: 0,
            dv: None,
        }
    }
}

impl vstd::std_specs::convert::FromSpecImpl<Vec<Coeff>> for BlockCoeffs {
    open spec fn obeys_from_spec() -> bool {
        false
    }

    open spec fn from_spec(luma: Vec<Coeff>) -> Self {
        arbitrary()
    }
}

/// Whether two blocks are coded alike, their leaves with them.
pub open spec fn same_block(a: BlockCoeffs, b: BlockCoeffs) -> bool
    decreases a,
{
    &&& a.luma@ == b.luma@
    &&& a.luma_tx_types@ == b.luma_tx_types@
    &&& a.u@ == b.u@
    &&& a.v@ == b.v@
    &&& a.mode == b.mode
    &&& a.uv_mode == b.uv_mode
    &&& a.skip == b.skip
    &&& a.inter == b.inter
    &&& a.motion_mode == b.motion_mode
    &&& match (a.eight, b.eight) {
        (Some(x), Some(y)) => x@.len() == y@.len() && forall|i: int|
            0 <= i < x@.len() ==> same_block(#[trigger] x@[i], y@[i]),
        (None, None) => true,
        _ => false,
    }
    &&& match (a.palette, b.palette) {
        (Some(x), Some(y)) => same_palette(x, y),
        (None, None) => true,
        _ => false,
    }
    &&& match (a.palette_uv, b.palette_uv) {
        (Some(x), Some(y)) => same_palette_uv(x, y),
        (None, None) => true,
        _ => false,
    }
    &&& a.tx_depth == b.tx_depth
    &&& a.cfl_alphas == b.cfl_alphas
    &&& a.filter_intra == b.filter_intra
    &&& a.angle_delta_y == b.angle_delta_y
    &&& a.dv == b.dv
}

impl Clone for BlockCoeffs {
    fn clone(&self) -> (b: Self)
        ensures
            same_block(*self, b),
        decreases self,
    {
        let eight: Option<Vec<BlockCoeffs>> = match &self.eight {
            Some(leaves) => {
                let mut copies: Vec<BlockCoeffs> = Vec::new();
                for i in 0..leaves.len()
                    invariant
                        self.eight == Some(*leaves),
                        copies@.len() == i,
                        forall|k: int| 0 <= k < i ==> same_block(#[trigger] leaves@[k], copies@[k]),
                {
                    proof {
                        assert(decreases_to!(*self => self.eight));
                        assert(decreases_to!(self.eight => self.eight->0));
                        assert(decreases_to!(*leaves => leaves@));
                        assert(decreases_to!(leaves@ => leaves@[i as int]));
                    }
                    copies.push(leaves[i].clone());
                }
                Some(copies)
            },
            None => None,
        };
        BlockCoeffs {
            luma: self.luma.clone(),
            luma_tx_types: self.luma_tx_types.clone(),
            u: self.u.clone(),
            v: self.v.clone(),
            mode: self.mode,
            uv_mode: self.uv_mode,
            skip: self.skip,
            inter: self.inter,
            motion_mode: self.motion_mode,
            eight,
            palette: match &self.palette {
                Some(p) => Some(p.clone()),
                None => None,
            },
            palette_uv: match &self.palette_uv {
                Some(p) => Some(p.clone()),
                None => None,
            },
            tx_depth: self.tx_depth,
            cfl_alphas: self.cfl_alphas,
            filter_intra: self.filter_intra,
            angle_delta_y: self.angle_delta_y,
            dv: self.dv,
        }
    }
}

/// One superblock of a key frame.
#[derive(Debug, PartialEq, Eq)]
pub enum Superblock {
    /// One 64x64 block, of whose luma transform only the top-left 32x32
    /// carries coefficients.
    Whole(BlockCoeffs),
    /// The 32x32 quadrants inside the frame, in raster order.
    Split(Vec<Quadrant>),
}

/// One 32x32 quadrant of a split superblock.
#[derive(Debug, PartialEq, Eq)]
pub enum Quadrant {
    /// One 32x32 block.
    Whole(BlockCoeffs),
    /// The 16x16 blocks inside the frame, in raster order.
    Split(Vec<BlockCoeffs>),
    /// The whole 64x64 superblock this quadrant is the top-left of, one block of
    /// a single reference; one of two is refused.
    Whole64(BlockCoeffs),
    /// A quadrant such a superblock already coded.
    Covered,
}

/// The blocks a quadrant carries, in the order they are coded.
pub open spec fn spec_blocks(q: Quadrant) -> Seq<BlockCoeffs> {
    match q {
        Quadrant::Whole(block) | Quadrant::Whole64(block) => seq![block],
        Quadrant::Split(blocks) => blocks@,
        Quadrant::Covered => Seq::empty(),
    }
}

impl Quadrant {
    /// The blocks it carries, in the order they are coded.
    pub fn blocks(&self) -> (list: Vec<&BlockCoeffs>)
        ensures
            list@.len() == spec_blocks(*self).len(),
            forall|i: int| 0 <= i < list@.len() ==> *(#[trigger] list@[i]) == spec_blocks(*self)[i],
    {
        let mut list: Vec<&BlockCoeffs> = Vec::new();
        match self {
            Quadrant::Whole(block) | Quadrant::Whole64(block) => {
                list.push(block);
            },
            Quadrant::Split(blocks) => {
                for i in 0..blocks.len()
                    invariant
                        list@.len() == i,
                        forall|k: int| 0 <= k < i ==> *(#[trigger] list@[k]) == blocks@[k],
                {
                    list.push(&blocks[i]);
                }
            },
            Quadrant::Covered => {},
        }
        list
    }
}

/// Whether two lists of blocks are coded alike.
pub open spec fn same_blocks(a: Seq<BlockCoeffs>, b: Seq<BlockCoeffs>) -> bool {
    a.len() == b.len() && forall|i: int|
        0 <= i < a.len() ==> same_block(#[trigger] a[i], b[i])
}

/// Whether two quadrants are coded alike.
pub open spec fn same_quadrant(a: Quadrant, b: Quadrant) -> bool {
    match (a, b) {
        (Quadrant::Whole(x), Quadrant::Whole(y)) => same_block(x, y),
        (Quadrant::Split(x), Quadrant::Split(y)) => same_blocks(x@, y@),
        (Quadrant::Whole64(x), Quadrant::Whole64(y)) => same_block(x, y),
        (Quadrant::Covered, Quadrant::Covered) => true,
        _ => false,
    }
}

/// Whether two superblocks are coded alike.
pub open spec fn same_superblock(a: Superblock, b: Superblock) -> bool {
    match (a, b) {
        (Superblock::Whole(x), Superblock::Whole(y)) => same_block(x, y),
        (Superblock::Split(x), Superblock::Split(y)) => x@.len() == y@.len() && forall|i: int|
            0 <= i < x@.len() ==> same_quadrant(#[trigger] x@[i], y@[i]),
        _ => false,
    }
}

impl Clone for Quadrant {
    fn clone(&self) -> (q: Self)
        ensures
            same_quadrant(*self, q),
    {
        match self {
            Quadrant::Whole(block) => Quadrant::Whole(block.clone()),
            Quadrant::Split(blocks) => {
                let mut copies: Vec<BlockCoeffs> = Vec::new();
                for i in 0..blocks.len()
                    invariant
                        copies@.len() == i,
                        forall|k: int| 0 <= k < i ==> same_block(#[trigger] blocks@[k], copies@[k]),
                {
                    copies.push(blocks[i].clone());
                }
                Quadrant::Split(copies)
            },
            Quadrant::Whole64(block) => Quadrant::Whole64(block.clone()),
            Quadrant::Covered => Quadrant::Covered,
        }
    }
}

impl Clone for Superblock {
    fn clone(&self) -> (s: Self)
        ensures
            same_superblock(*self, s),
    {
        match self {
            Superblock::Whole(block) => Superblock::Whole(block.clone()),
            Superblock::Split(quads) => {
                let mut copies: Vec<Quadrant> = Vec::new();
                for i in 0..quads.len()
                    invariant
                        copies@.len() == i,
                        forall|k: int|
                            0 <= k < i ==> same_quadrant(#[trigger] quads@[k], copies@[k]),
                {
                    copies.push(quads[i].clone());
                }
                Superblock::Split(copies)
            },
        }
    }
}

} // verus!
