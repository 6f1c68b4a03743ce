//! Motion vectors, coded as differences from a predicted one.
use crate::bits;
use crate::tile::context;
use crate::tile::error::TileError;
use crate::tile::golomb;
use crate::tile::ops;
use crate::tile::ops::{bit, put, Cdf, MvTable, Op};
use vstd::prelude::*;

verus! {

/// Where the magnitudes of each class start.
pub const MV_CLASS_BASE: [i32; 11] = [0, 16, 32, 64, 128, 256, 512, 1024, 2048, 4096, 8192];

/// The last class, up to `c`, that starts no later than a magnitude.
pub open spec fn class_from(z: int, c: int) -> int
    decreases c,
{
    if c <= 0 || MV_CLASS_BASE[c] <= z {
        c
    } else {
        class_from(z, c - 1)
    }
}

/// The class of a magnitude.
pub open spec fn class_of(z: int) -> int {
    class_from(z, 10)
}

/// Which vectors a component belongs to.
#[derive(Clone, Copy, Debug, PartialEq, Eq, Structural)]
pub enum VectorKind {
    /// Into another frame.
    Mv,
    /// Into the block's own.
    Dv,
}

/// A table of one component, the row (0) or the column (1).
pub open spec fn vector_table(kind: VectorKind, comp: usize, table: MvTable) -> Cdf {
    match kind {
        VectorKind::Mv => Cdf::Mv(comp, table),
        VectorKind::Dv => Cdf::Dv(comp, table),
    }
}

/// The integer bits of a magnitude of a class past the first, the lowest
/// first.
pub open spec fn integer_ops(kind: VectorKind, comp: usize, d: int, class: int) -> Seq<Op> {
    Seq::new(
        class as nat,
        |i: int|
            ops::symbol(
                golomb::bit_of(d, i),
                vector_table(kind, comp, MvTable::Bit(i as usize)),
            ),
    )
}

/// The symbols of a difference that is not zero: its sign, its class, its
/// integer bits, and where it has one its fraction in quarters of a pel.
pub open spec fn component_ops(kind: VectorKind, comp: usize, diff: int) -> Seq<Op> {
    let z = context::abs(diff) - 1;
    let class = class_of(z);
    let local = z - MV_CLASS_BASE[class];
    let sign = ops::symbol(ops::flag(diff < 0), vector_table(kind, comp, MvTable::Sign));
    let size = ops::symbol(class, vector_table(kind, comp, MvTable::Class));
    let whole = if class == 0 {
        seq![
            ops::symbol((local / 8) % 2, vector_table(kind, comp, MvTable::Class0Bit)),
        ]
    } else {
        integer_ops(kind, comp, local / 8, class)
    };
    let fraction = (local / 2) % 4;
    let part = if kind == VectorKind::Dv {
        Seq::empty()
    } else if class == 0 {
        seq![
            ops::symbol(
                fraction,
                vector_table(kind, comp, MvTable::Class0Fr(((local / 8) % 2) as usize)),
            ),
        ]
    } else {
        seq![ops::symbol(fraction, vector_table(kind, comp, MvTable::Fr))]
    };
    seq![sign, size] + whole + part
}

/// Symbols that were written, and what stopped the writer after them, if
/// anything did.
pub struct Said {
    /// The symbols.
    pub ops: Seq<Op>,
    /// What stopped the writer.
    pub fault: Option<TileError>,
}

/// What a fault is returned as.
pub open spec fn outcome(fault: Option<TileError>) -> Result<(), TileError> {
    match fault {
        None => Ok(()),
        Some(e) => Err(e),
    }
}

/// Nothing written.
pub open spec fn silent() -> Said {
    Said { ops: Seq::empty(), fault: None }
}

/// One thing after another, unless the first stopped.
pub open spec fn both(a: Said, b: Said) -> Said {
    if a.fault is Some {
        a
    } else {
        Said { ops: a.ops + b.ops, fault: b.fault }
    }
}

/// The symbols of a difference into another frame. One that needs an eighth
/// of a pel stops after its sign.
pub open spec fn mv_component(comp: usize, diff: int) -> Said {
    if (context::abs(diff) - 1) % 2 == 0 {
        Said {
            ops: seq![
                ops::symbol(
                    ops::flag(diff < 0),
                    vector_table(VectorKind::Mv, comp, MvTable::Sign),
                ),
            ],
            fault: Some(TileError::MvPrecision),
        }
    } else {
        Said { ops: component_ops(VectorKind::Mv, comp, diff), fault: None }
    }
}

/// The symbols of a difference into the block's own frame, which is whole
/// pels or refused.
pub open spec fn dv_component(comp: usize, diff: int) -> Said {
    if context::abs(diff) % 8 != 0 {
        Said { ops: Seq::empty(), fault: Some(TileError::DvPrecision) }
    } else {
        Said { ops: component_ops(VectorKind::Dv, comp, diff), fault: None }
    }
}

/// Which components differ.
pub open spec fn joint_of(row: int, col: int) -> int {
    2 * ops::flag(row != 0) + ops::flag(col != 0)
}

/// The symbols of a vector against the predicted one.
#[verifier::opaque]
pub open spec fn mv_said(mv: (i32, i32), pred: (i32, i32)) -> Said {
    let row = mv.0 - pred.0;
    let col = mv.1 - pred.1;
    let joint = Said { ops: seq![ops::symbol(joint_of(row, col), Cdf::MvJoint)], fault: None };
    let first = if row != 0 {
        mv_component(0, row)
    } else {
        silent()
    };
    let second = if col != 0 {
        mv_component(1, col)
    } else {
        silent()
    };
    both(both(joint, first), second)
}

/// The symbols of a vector into the block's own frame.
#[verifier::opaque]
pub open spec fn dv_said(dv: (i32, i32), pred: (i32, i32)) -> Said {
    let row = dv.0 - pred.0;
    let col = dv.1 - pred.1;
    let joint = Said { ops: seq![ops::symbol(joint_of(row, col), Cdf::DvJoint)], fault: None };
    let first = if row != 0 {
        dv_component(0, row)
    } else {
        silent()
    };
    let second = if col != 0 {
        dv_component(1, col)
    } else {
        silent()
    };
    both(both(joint, first), second)
}

/// Whether a vector is small enough for its differences to be counted.
pub open spec fn is_mv(v: (i32, i32)) -> bool {
    &&& -0x3fff_fff8 <= v.0 <= 0x3fff_fff8
    &&& -0x3fff_fff8 <= v.1 <= 0x3fff_fff8
}

/// Every magnitude below the end of the last class lies in its class, which
/// is as wide as its integer bits and its fraction say.
pub proof fn classes_hold_their_magnitudes(z: int)
    requires
        0 <= z < 16384,
    ensures
        0 <= class_of(z) <= 10,
        MV_CLASS_BASE[class_of(z)] <= z,
        class_of(z) == 0 ==> z < 16,
        class_of(z) > 0 ==> z - MV_CLASS_BASE[class_of(z)] < 8 * bits::pow2(class_of(z) as nat),
{
    reveal_with_fuel(class_from, 11);
    bits::lemma_pow2_values();
    assert(bits::pow2(9) == 2 * bits::pow2(8));
}

/// The number that the low `count` bits of another spell.
pub open spec fn low_bits(d: int, count: int) -> int
    decreases count,
{
    if count <= 0 {
        0
    } else {
        low_bits(d, count - 1) + golomb::bit_of(d, count - 1) * bits::pow2((count - 1) as nat)
    }
}

proof fn lemma_low_bits(d: int, count: int)
    requires
        0 <= d,
        0 <= count,
    ensures
        low_bits(d, count) == d % bits::pow2(count as nat),
    decreases count,
{
    bits::lemma_pow2_positive(count as nat);
    if count > 0 {
        let i = (count - 1) as nat;
        lemma_low_bits(d, count - 1);
        bits::lemma_halves(d, i);
        let p = bits::pow2(i);
        let q = bits::pow2(count as nat);
        bits::lemma_pow2_positive(i);
        assert(q == 2 * p);
        assert(i + 1 == count as nat);
        let a = d / p;
        vstd::arithmetic::div_mod::lemma_fundamental_div_mod(d, p);
        vstd::arithmetic::div_mod::lemma_fundamental_div_mod(d, q);
        assert(d % p + (a % 2) * p == d % q) by (nonlinear_arith)
            requires
                d == p * a + d % p,
                d == q * (a / 2) + d % q,
                q == 2 * p,
                a == 2 * (a / 2) + a % 2,
        ;
    } else {
        assert(bits::pow2(0) == 1);
    }
}

/// A difference on the quarter-pel grid reads back from its class, its integer
/// bits and its fraction.
pub proof fn differences_read_back(diff: int)
    requires
        diff != 0,
        context::abs(diff) <= 16384,
        context::abs(diff) % 2 == 0,
    ensures
        ({
            let z = context::abs(diff) - 1;
            let class = class_of(z);
            let local = z - MV_CLASS_BASE[class];
            let whole = if class == 0 {
                (local / 8) % 2
            } else {
                low_bits(local / 8, class)
            };
            MV_CLASS_BASE[class] + 8 * whole + 2 * ((local / 2) % 4) + 1 + 1 == context::abs(diff)
        }),
{
    let z = context::abs(diff) - 1;
    classes_hold_their_magnitudes(z);
    let class = class_of(z);
    let base = MV_CLASS_BASE[class] as int;
    assert(base % 2 == 0);
    let local = z - base;
    assert(local % 2 == 1);
    assert(local == 8 * (local / 8) + 2 * ((local / 2) % 4) + local % 2);
    if class > 0 {
        lemma_low_bits(local / 8, class);
        let p = bits::pow2(class as nat);
        assert(0 <= local / 8 < p);
        vstd::arithmetic::div_mod::lemma_small_mod((local / 8) as nat, p as nat);
    }
}

/// Where the magnitudes of a class start.
pub fn mv_class_base(class: usize) -> (base: i32)
    requires
        class <= 10,
    ensures
        base == MV_CLASS_BASE[class as int],
{
    MV_CLASS_BASE[class]
}

/// The class of a magnitude.
pub fn mv_class_of(z: i32) -> (class: usize)
    requires
        z >= 0,
    ensures
        class == class_of(z as int),
        class <= 10,
        MV_CLASS_BASE[class as int] <= z,
{
    let mut c: usize = 10;
    while MV_CLASS_BASE[c] > z
        invariant
            c <= 10,
            z >= 0,
            class_from(z as int, c as int) == class_of(z as int),
        decreases c,
    {
        c -= 1;
    }
    c
}

fn table_of(kind: VectorKind, comp: usize, table: MvTable) -> (cdf: Cdf)
    ensures
        cdf == vector_table(kind, comp, table),
{
    match kind {
        VectorKind::Mv => Cdf::Mv(comp, table),
        VectorKind::Dv => Cdf::Dv(comp, table),
    }
}

fn write_integer(out: &mut Vec<Op>, kind: VectorKind, comp: usize, d: i32, class: usize)
    requires
        d >= 0,
        class <= 10,
    ensures
        final(out)@ == old(out)@ + integer_ops(kind, comp, d as int, class as int),
{
    let ghost all = integer_ops(kind, comp, d as int, class as int);
    let mut rest: i32 = d;
    let mut i: usize = 0;
    proof {
        assert(bits::pow2(0) == 1);
        assert(out@ =~= old(out)@ + all.take(0));
    }
    while i < class
        invariant
            i <= class <= 10,
            d >= 0,
            rest >= 0,
            rest == d as int / bits::pow2(i as nat),
            all == integer_ops(kind, comp, d as int, class as int),
            out@ == old(out)@ + all.take(i as int),
        decreases class - i,
    {
        put(out, (rest % 2) as usize, table_of(kind, comp, MvTable::Bit(i)));
        proof {
            bits::lemma_halves(d as int, i as nat);
            assert(all.take(i + 1) =~= all.take(i as int).push(all[i as int]));
        }
        rest = rest / 2;
        i += 1;
    }
    proof {
        assert(all.take(class as int) =~= all);
    }
}

fn write_component(out: &mut Vec<Op>, kind: VectorKind, comp: usize, diff: i32)
    requires
        diff != 0,
        -0x7fff_ffff <= diff <= 0x7fff_ffff,
    ensures
        final(out)@ == old(out)@ + component_ops(kind, comp, diff as int),
{
    let ghost said = component_ops(kind, comp, diff as int);
    put(out, bit(diff < 0), table_of(kind, comp, MvTable::Sign));
    let z: i32 = if diff < 0 {
        -diff - 1
    } else {
        diff - 1
    };
    let class: usize = mv_class_of(z);
    put(out, class, table_of(kind, comp, MvTable::Class));
    let local: i32 = z - mv_class_base(class);
    if class == 0 {
        put(out, ((local / 8) % 2) as usize, table_of(kind, comp, MvTable::Class0Bit));
    } else {
        write_integer(out, kind, comp, local / 8, class);
    }
    match kind {
        VectorKind::Dv => {},
        VectorKind::Mv => {
            let table: MvTable = if class == 0 {
                MvTable::Class0Fr(((local / 8) % 2) as usize)
            } else {
                MvTable::Fr
            };
            put(out, ((local / 2) % 4) as usize, table_of(kind, comp, table));
        },
    }
    proof {
        assert(out@ =~= old(out)@ + said);
    }
}

/// Writes one component's difference into another frame. The eighth-pel bit
/// is never coded, so a difference that needs it is refused.
pub fn write_mv_component(out: &mut Vec<Op>, comp: usize, diff: i32) -> (r: Result<(), TileError>)
    requires
        diff != 0,
        -0x7fff_ffff <= diff <= 0x7fff_ffff,
    ensures
        final(out)@ == old(out)@ + mv_component(comp, diff as int).ops,
        r == outcome(mv_component(comp, diff as int).fault),
{
    let mag: i32 = if diff < 0 {
        -diff
    } else {
        diff
    };
    if (mag - 1) % 2 == 0 {
        put(out, bit(diff < 0), Cdf::Mv(comp, MvTable::Sign));
        proof {
            assert(out@ =~= old(out)@ + mv_component(comp, diff as int).ops);
        }
        return Err(TileError::MvPrecision);
    }
    write_component(out, VectorKind::Mv, comp, diff);
    Ok(())
}

/// Writes one component's difference into the block's own frame, which has no
/// fraction.
pub fn write_dv_component(out: &mut Vec<Op>, comp: usize, diff: i32) -> (r: Result<(), TileError>)
    requires
        diff != 0,
        -0x7fff_ffff <= diff <= 0x7fff_ffff,
    ensures
        final(out)@ == old(out)@ + dv_component(comp, diff as int).ops,
        r == outcome(dv_component(comp, diff as int).fault),
{
    let mag: i32 = if diff < 0 {
        -diff
    } else {
        diff
    };
    if mag % 8 != 0 {
        proof {
            assert(out@ =~= old(out)@ + dv_component(comp, diff as int).ops);
        }
        return Err(TileError::DvPrecision);
    }
    write_component(out, VectorKind::Dv, comp, diff);
    Ok(())
}

fn joint(row: i32, col: i32) -> (j: usize)
    ensures
        j == joint_of(row as int, col as int),
{
    2 * bit(row != 0) + bit(col != 0)
}

/// Writes a vector as its difference from the predicted one: which components
/// differ, then each that does, the row first.
pub fn write_mv(out: &mut Vec<Op>, mv: (i32, i32), pred: (i32, i32)) -> (r: Result<(), TileError>)
    requires
        is_mv(mv),
        is_mv(pred),
    ensures
        final(out)@ == old(out)@ + mv_said(mv, pred).ops,
        r == outcome(mv_said(mv, pred).fault),
{
    proof {
        reveal(mv_said);
    }
    let row: i32 = mv.0 - pred.0;
    let col: i32 = mv.1 - pred.1;
    put(out, joint(row, col), Cdf::MvJoint);
    if row != 0 {
        let done = write_mv_component(out, 0, row);
        if done.is_err() {
            proof {
                assert(out@ =~= old(out)@ + mv_said(mv, pred).ops);
            }
            return done;
        }
    }
    if col != 0 {
        let done = write_mv_component(out, 1, col);
        proof {
            assert(out@ =~= old(out)@ + mv_said(mv, pred).ops);
        }
        return done;
    }
    proof {
        assert(out@ =~= old(out)@ + mv_said(mv, pred).ops);
    }
    Ok(())
}

/// Writes a vector into the block's own frame.
pub fn write_dv(out: &mut Vec<Op>, dv: (i32, i32), pred: (i32, i32)) -> (r: Result<(), TileError>)
    requires
        is_mv(dv),
        is_mv(pred),
    ensures
        final(out)@ == old(out)@ + dv_said(dv, pred).ops,
        r == outcome(dv_said(dv, pred).fault),
{
    proof {
        reveal(dv_said);
    }
    let row: i32 = dv.0 - pred.0;
    let col: i32 = dv.1 - pred.1;
    put(out, joint(row, col), Cdf::DvJoint);
    if row != 0 {
        let done = write_dv_component(out, 0, row);
        if done.is_err() {
            proof {
                assert(out@ =~= old(out)@ + dv_said(dv, pred).ops);
            }
            return done;
        }
    }
    if col != 0 {
        let done = write_dv_component(out, 1, col);
        proof {
            assert(out@ =~= old(out)@ + dv_said(dv, pred).ops);
        }
        return done;
    }
    proof {
        assert(out@ =~= old(out)@ + dv_said(dv, pred).ops);
    }
    Ok(())
}

} // verus!
